use vstd::pervasive::unreached;
use vstd::prelude::*;

use crate::rng::rand_index;
use crate::rng::rand_ratio;
use crate::sums::lemma_seq_sum_bounded;
use crate::sums::lemma_seq_sum_ones;
use crate::sums::lemma_seq_sum_update;
use crate::sums::seq_sum;

verus! {

broadcast use vstd::seq_lib::lemma_seq_contains_after_push;

/// The state of one side of a maze cell.
#[derive(Debug, Clone, Copy, PartialEq, Eq, Structural)]
pub enum Wall {
    Open,
    Closed,
}

/// The palette of region colors a maze cell can be tagged with.
#[derive(Debug, Clone, Copy, PartialEq, Eq, Structural)]
pub enum Color {
    Blue,
    Orange,
    Yellow,
    Green,
}

/// Where another cell stands relative to a given one.
#[derive(Debug, Clone, Copy, PartialEq, Eq, Structural)]
pub enum Relation {
    Top,
    Right,
    Bottom,
    Left,
}

/// The failures of maze construction: rejected dimensions, a cell outside the
/// map, or a connect attempt between cells that are not geometric neighbors.
#[derive(Debug, Clone, Copy, PartialEq, Eq, Structural)]
pub enum MazeError {
    InvalidDimensions,
    OutOfBounds,
    InconsistentAdjacency,
}

/// One maze cell: four wall states, its coordinates, and a color tag.
#[derive(Debug, Clone, Copy)]
pub struct Cell {
    pub top: Wall,
    pub right: Wall,
    pub bottom: Wall,
    pub left: Wall,
    pub x: usize,
    pub y: usize,
    pub color: Color,
}

/// Where (bx, by) stands relative to (ax, ay), when they are neighbors.
pub open spec fn rel_at(ax: int, ay: int, bx: int, by: int) -> Option<Relation> {
    if bx == ax + 1 && by == ay {
        Some(Relation::Right)
    } else if by == ay + 1 && bx == ax {
        Some(Relation::Bottom)
    } else if ax > 0 && bx == ax - 1 && by == ay {
        Some(Relation::Left)
    } else if ay > 0 && by == ay - 1 && bx == ax {
        Some(Relation::Top)
    } else {
        None
    }
}

/// The wall of `c` that faces the given relation.
pub open spec fn wall_toward(c: Cell, r: Relation) -> Wall {
    match r {
        Relation::Top => c.top,
        Relation::Right => c.right,
        Relation::Bottom => c.bottom,
        Relation::Left => c.left,
    }
}

/// The cell with the wall facing the given relation opened.
pub open spec fn with_wall_open(c: Cell, r: Relation) -> Cell {
    match r {
        Relation::Top => Cell { top: Wall::Open, ..c },
        Relation::Right => Cell { right: Wall::Open, ..c },
        Relation::Bottom => Cell { bottom: Wall::Open, ..c },
        Relation::Left => Cell { left: Wall::Open, ..c },
    }
}

/// All four walls of the cell are closed.
pub open spec fn walls_closed(c: Cell) -> bool {
    c.top == Wall::Closed && c.right == Wall::Closed && c.bottom == Wall::Closed && c.left
        == Wall::Closed
}

/// Every wall open in `a` is open in `b` too: walls only ever open.
pub open spec fn walls_le(a: Cell, b: Cell) -> bool {
    &&& a.top == Wall::Open ==> b.top == Wall::Open
    &&& a.right == Wall::Open ==> b.right == Wall::Open
    &&& a.bottom == Wall::Open ==> b.bottom == Wall::Open
    &&& a.left == Wall::Open ==> b.left == Wall::Open
}

impl Cell {
    /// A fully closed cell at (x, y) tagged with a random color.
    pub fn new(x: usize, y: usize) -> (r: Cell)
        ensures
            r.x == x,
            r.y == y,
            walls_closed(r),
    {
        Cell {
            top: Wall::Closed,
            right: Wall::Closed,
            bottom: Wall::Closed,
            left: Wall::Closed,
            x,
            y,
            color: random_color(),
        }
    }

    pub fn set_color(&mut self, color: Color)
        ensures
            *final(self) == (Cell { color, ..*old(self) }),
    {
        self.color = color
    }

    /// The relation of the other cell to self (e.g. Relation::Top means that
    /// other is on top of self).
    pub fn relation(&self, other: &Cell) -> (r: Result<Relation, MazeError>)
        ensures
            match rel_at(self.x as int, self.y as int, other.x as int, other.y as int) {
                Some(rel) => r == Ok::<Relation, MazeError>(rel),
                None => r == Err::<Relation, MazeError>(MazeError::InconsistentAdjacency),
            },
    {
        if self.x < usize::MAX && other.x == self.x + 1 && other.y == self.y {
            return Ok(Relation::Right);
        }
        if self.y < usize::MAX && other.y == self.y + 1 && other.x == self.x {
            return Ok(Relation::Bottom);
        }
        if self.x > 0 && other.x == self.x - 1 && other.y == self.y {
            return Ok(Relation::Left);
        }
        if self.y > 0 && other.y == self.y - 1 && other.x == self.x {
            return Ok(Relation::Top);
        }
        Err(MazeError::InconsistentAdjacency)
    }

    /// Opens this cell's wall that faces the other cell; the other cell is not
    /// touched, so the callers pair this with the mirror call.
    pub fn open_wall_to(&mut self, other: &Cell) -> (r: Result<(), MazeError>)
        ensures
            match rel_at(
                old(self).x as int,
                old(self).y as int,
                other.x as int,
                other.y as int,
            ) {
                Some(rel) => r == Ok::<(), MazeError>(()) && *final(self) == with_wall_open(
                    *old(self),
                    rel,
                ),
                None => r == Err::<(), MazeError>(MazeError::InconsistentAdjacency) && *final(self)
                    == *old(self),
            },
    {
        let rel = match self.relation(other) {
            Ok(rel) => rel,
            Err(e) => {
                return Err(e);
            },
        };
        match rel {
            Relation::Top => self.top = Wall::Open,
            Relation::Right => self.right = Wall::Open,
            Relation::Bottom => self.bottom = Wall::Open,
            Relation::Left => self.left = Wall::Open,
        };
        Ok(())
    }

    /// The wall of this cell that faces the given relation.
    pub fn wall_facing(&self, r: Relation) -> (w: Wall)
        ensures
            w == wall_toward(*self, r),
    {
        match r {
            Relation::Top => self.top,
            Relation::Right => self.right,
            Relation::Bottom => self.bottom,
            Relation::Left => self.left,
        }
    }
}

/// Picks the palette color with the given index.
fn color_from_index(i: usize) -> (r: Color)
    requires
        i < 4,
    ensures
        i == 0 ==> r == Color::Blue,
        i == 1 ==> r == Color::Orange,
        i == 2 ==> r == Color::Yellow,
        i == 3 ==> r == Color::Green,
{
    match i {
        0 => Color::Blue,
        1 => Color::Orange,
        2 => Color::Yellow,
        _ => Color::Green,
    }
}

/// A color drawn uniformly from the palette.
fn random_color() -> Color {
    color_from_index(rand_index(4))
}

/// The wall-and-color grid that maze generation produces.
#[derive(Debug)]
pub struct MazeMap {
    pub width: usize,
    pub height: usize,
    pub cells: Vec<Vec<Cell>>,
}

impl View for MazeMap {
    type V = Seq<Seq<Cell>>;

    open spec fn view(&self) -> Seq<Seq<Cell>> {
        self.cells@.map_values(|row: Vec<Cell>| row@)
    }
}

/// Well-formedness of a maze map: the cell grid matches the recorded
/// dimensions and every cell records the coordinates of its position.
pub open spec fn maze_wf(m: &MazeMap) -> bool {
    &&& m@.len() == m.height
    &&& forall|y: int| 0 <= y < m@.len() ==> #[trigger] m@[y].len() == m.width
    &&& forall|y: int, x: int|
        0 <= y < m@.len() && 0 <= x < m@[y].len() ==> (#[trigger] m@[y][x]).x == x && m@[y][x].y
            == y
}

/// Every outward-facing boundary wall of the maze is closed: generation only
/// ever opens walls between two in-map neighbors.
#[verifier::opaque]
pub open spec fn boundary_closed(g: Seq<Seq<Cell>>, w: int, h: int) -> bool {
    forall|x: int, y: int|
        0 <= x < w && 0 <= y < h ==> {
            let c = #[trigger] g[y][x];
            &&& (x == 0 ==> c.left == Wall::Closed)
            &&& (x == w - 1 ==> c.right == Wall::Closed)
            &&& (y == 0 ==> c.top == Wall::Closed)
            &&& (y == h - 1 ==> c.bottom == Wall::Closed)
        }
}

/// The mutual wall consistency of a maze: a cell's wall toward an in-map
/// neighbor always matches the neighbor's wall back.
pub open spec fn walls_symmetric(g: Seq<Seq<Cell>>, w: int, h: int) -> bool {
    &&& forall|x: int, y: int|
        0 <= x < w && 0 <= y < h && x + 1 < w ==> #[trigger] g[y][x].right == g[y][x + 1].left
    &&& forall|x: int, y: int|
        0 <= x < w && 0 <= y < h && y + 1 < h ==> #[trigger] g[y][x].bottom == g[y + 1][x].top
}

/// The in-map cell at (x, y) as a sequence of at most one element.
pub open spec fn nb_opt(g: Seq<Seq<Cell>>, x: int, y: int) -> Seq<Cell> {
    if 0 <= y < g.len() && 0 <= x < g[y].len() {
        seq![g[y][x]]
    } else {
        Seq::empty()
    }
}

/// The in-map axis-adjacent neighbors of (x, y), enumerated left, top,
/// right, bottom.
pub open spec fn neighbors_spec(g: Seq<Seq<Cell>>, x: int, y: int) -> Seq<Cell> {
    nb_opt(g, x - 1, y) + nb_opt(g, x, y - 1) + nb_opt(g, x + 1, y) + nb_opt(g, x, y + 1)
}

/// One may step from (ax, ay) to the in-map neighbor (bx, by): the wall of
/// (ax, ay) facing it is open.
pub open spec fn step_open(g: Seq<Seq<Cell>>, w: int, h: int, ax: int, ay: int, bx: int, by: int) -> bool {
    &&& 0 <= ax < w && 0 <= ay < h
    &&& 0 <= bx < w && 0 <= by < h
    &&& match rel_at(ax, ay, bx, by) {
        Some(rel) => wall_toward(g[ay][ax], rel) == Wall::Open,
        None => false,
    }
}

/// `p` is a walk through open walls from (ax, ay) to (bx, by).
pub open spec fn path_connects(
    g: Seq<Seq<Cell>>,
    w: int,
    h: int,
    p: Seq<(int, int)>,
    ax: int,
    ay: int,
    bx: int,
    by: int,
) -> bool {
    &&& p.len() >= 1
    &&& p[0] == (ax, ay)
    &&& p.last() == (bx, by)
    &&& forall|k: int| 0 < k < p.len() ==> #[trigger] step_open(g, w, h, p[k - 1].0, p[k - 1].1, p[k].0, p[k].1)
}

/// Two cells are connected when some walk through open walls joins them.
pub open spec fn connected(g: Seq<Seq<Cell>>, w: int, h: int, ax: int, ay: int, bx: int, by: int) -> bool {
    exists|p: Seq<(int, int)>| path_connects(g, w, h, p, ax, ay, bx, by)
}

/// How many of the two wall pairs owned by the cell at (x, y) — the pair it
/// shares with its right neighbor and the one with its bottom neighbor —
/// carry the given wall state.
pub open spec fn cell_pair_score(c: Cell, x: int, y: int, w: int, h: int, wall: Wall) -> int {
    (if x + 1 < w && c.right == wall {
        1int
    } else {
        0int
    }) + (if y + 1 < h && c.bottom == wall {
        1int
    } else {
        0int
    })
}

/// How many internal wall pairs of row y carry the given state.
pub open spec fn row_pair_count(g: Seq<Seq<Cell>>, y: int, w: int, h: int, wall: Wall) -> int {
    seq_sum(Seq::new(w as nat, |x: int| cell_pair_score(g[y][x], x, y, w, h, wall)))
}

/// How many internal wall pairs of the whole maze carry the given state;
/// every adjacent pair of cells is counted exactly once, through the cell
/// that owns it.
pub open spec fn pair_count(g: Seq<Seq<Cell>>, w: int, h: int, wall: Wall) -> int {
    seq_sum(Seq::new(h as nat, |y: int| row_pair_count(g, y, w, h, wall)))
}

/// The number of visited entries in a grid of flags.
pub open spec fn row_visited_count(row: Seq<bool>) -> int {
    seq_sum(
        Seq::new(
            row.len(),
            |x: int|
                if row[x] {
                    1int
                } else {
                    0int
                },
        ),
    )
}

/// The number of set flags in a visited grid.
pub open spec fn visited_count(vv: Seq<Seq<bool>>) -> int {
    seq_sum(Seq::new(vv.len(), |y: int| row_visited_count(vv[y])))
}

impl MazeMap {
    /// A fully closed maze of the given dimensions, with every cell carrying
    /// its coordinates and a random color.
    pub fn new(width: usize, height: usize) -> (r: MazeMap)
        ensures
            r.width == width,
            r.height == height,
            maze_wf(&r),
            forall|y: int, x: int|
                0 <= y < height && 0 <= x < width ==> walls_closed(#[trigger] r@[y][x]),
    {
        let mut cells: Vec<Vec<Cell>> = Vec::new();
        let mut y: usize = 0;
        while y < height
            invariant
                y <= height,
                cells@.len() == y,
                forall|j: int| 0 <= j < y ==> #[trigger] cells@[j]@.len() == width,
                forall|j: int, i: int|
                    0 <= j < y && 0 <= i < width ==> (#[trigger] cells@[j]@[i]).x == i
                        && cells@[j]@[i].y == j && walls_closed(cells@[j]@[i]),
            decreases height - y,
        {
            let mut row: Vec<Cell> = Vec::new();
            let mut x: usize = 0;
            while x < width
                invariant
                    x <= width,
                    row@.len() == x,
                    forall|i: int|
                        0 <= i < x ==> (#[trigger] row@[i]).x == i && row@[i].y == y
                            && walls_closed(row@[i]),
                decreases width - x,
            {
                row.push(Cell::new(x, y));
                x += 1;
            }
            cells.push(row);
            y += 1;
        }
        let r = MazeMap { width, height, cells };
        r
    }

    pub fn get_cell(&self, x: usize, y: usize) -> (r: Option<Cell>)
        ensures
            r == (if 0 <= (y as int) < self@.len() && 0 <= (x as int) < self@[y as int].len() {
                Some(self@[y as int][x as int])
            } else {
                None::<Cell>
            }),
    {
        proof {
            assert(self@.len() == self.cells@.len());
            if y < self.cells@.len() {
                assert(self@[y as int] == self.cells@[y as int]@);
            }
        }
        if y < self.cells.len() {
            let row = &self.cells[y];
            if x < row.len() {
                Some(row[x])
            } else {
                None
            }
        } else {
            None
        }
    }

    /// Replaces the cell stored at (x, y).
    fn set_cell(&mut self, x: usize, y: usize, cell: Cell)
        requires
            (y as int) < old(self)@.len(),
            (x as int) < old(self)@[y as int].len(),
        ensures
            final(self)@ == old(self)@.update(y as int, old(self)@[y as int].update(x as int, cell)),
            final(self).width == old(self).width,
            final(self).height == old(self).height,
    {
        proof {
            assert(self@.len() == self.cells@.len());
            assert(self@[y as int] == self.cells@[y as int]@);
        }
        self.cells[y][x] = cell;
        proof {
            assert(final(self)@ =~= old(self)@.update(
                y as int,
                old(self)@[y as int].update(x as int, cell),
            ));
        }
    }

    /// The in-map neighbors of the cell's position, enumerated left, top,
    /// right, bottom; a position at the edge simply has fewer.
    pub fn get_neighbors(&self, cell: &Cell) -> (r: Vec<Cell>)
        requires
            maze_wf(self),
        ensures
            r@ == neighbors_spec(self@, cell.x as int, cell.y as int),
    {
        let x = cell.x;
        let y = cell.y;
        let mut r: Vec<Cell> = Vec::new();

        // To the left
        if x > 0 {
            if let Some(c) = self.get_cell(x - 1, y) {
                r.push(c);
            }
        }
        assert(r@ =~= nb_opt(self@, x - 1, y as int));

        // To the top
        if y > 0 {
            if let Some(c) = self.get_cell(x, y - 1) {
                r.push(c);
            }
        }
        assert(r@ =~= nb_opt(self@, x - 1, y as int) + nb_opt(self@, x as int, y - 1));

        // To the right
        if x < self.width {
            if let Some(c) = self.get_cell(x + 1, y) {
                r.push(c);
            }
        } else {
            proof {
                assert(forall|j: int| 0 <= j < self@.len() ==> #[trigger] self@[j].len() == self.width);
                assert(nb_opt(self@, x + 1, y as int) =~= Seq::empty());
            }
        }
        assert(r@ =~= nb_opt(self@, x - 1, y as int) + nb_opt(self@, x as int, y - 1) + nb_opt(
            self@,
            x + 1,
            y as int,
        ));

        // To the bottom
        if y < self.height {
            if let Some(c) = self.get_cell(x, y + 1) {
                r.push(c);
            }
        } else {
            proof {
                assert(nb_opt(self@, x as int, y + 1) =~= Seq::empty());
            }
        }
        assert(r@ =~= neighbors_spec(self@, x as int, y as int));

        r
    }

    /// Opens the mutual wall between the two cells' positions atomically:
    /// both positions and both relations are validated first, so that on any
    /// error the map is left exactly as it was, and on success both sides of
    /// the shared wall open together.
    pub fn connect_cells(&mut self, cell_a: &Cell, cell_b: &Cell) -> (r: Result<(), MazeError>)
        ensures
            final(self).width == old(self).width,
            final(self).height == old(self).height,
            r is Err ==> final(self)@ == old(self)@,
            ({
                let g = old(self)@;
                let ax = cell_a.x as int;
                let ay = cell_a.y as int;
                let bx = cell_b.x as int;
                let by = cell_b.y as int;
                if !(0 <= ay < g.len() && 0 <= ax < g[ay].len()) || !(0 <= by < g.len() && 0 <= bx
                    < g[by].len()) {
                    r == Err::<(), MazeError>(MazeError::OutOfBounds)
                } else {
                    let ca = g[ay][ax];
                    let cb = g[by][bx];
                    match rel_at(ca.x as int, ca.y as int, bx, by) {
                        None => r == Err::<(), MazeError>(MazeError::InconsistentAdjacency),
                        Some(rel1) => match rel_at(cb.x as int, cb.y as int, ax, ay) {
                            None => r == Err::<(), MazeError>(MazeError::InconsistentAdjacency),
                            Some(rel2) => {
                                let g1 = g.update(ay, g[ay].update(ax, with_wall_open(ca, rel1)));
                                r == Ok::<(), MazeError>(()) && final(self)@ == g1.update(
                                    by,
                                    g1[by].update(bx, with_wall_open(cb, rel2)),
                                )
                            },
                        },
                    }
                }
            }),
    {
        let ca = match self.get_cell(cell_a.x, cell_a.y) {
            Some(c) => c,
            None => {
                return Err(MazeError::OutOfBounds);
            },
        };
        let cb = match self.get_cell(cell_b.x, cell_b.y) {
            Some(c) => c,
            None => {
                return Err(MazeError::OutOfBounds);
            },
        };
        let mut ca2 = ca;
        match ca2.open_wall_to(cell_b) {
            Ok(()) => {},
            Err(e) => {
                return Err(e);
            },
        }
        let mut cb2 = cb;
        match cb2.open_wall_to(cell_a) {
            Ok(()) => {},
            Err(e) => {
                return Err(e);
            },
        }
        self.set_cell(cell_a.x, cell_a.y, ca2);
        self.set_cell(cell_b.x, cell_b.y, cb2);

        Ok(())
    }
}

/// Membership in the neighbor enumeration, characterized by coordinates: a
/// cell is enumerated from (x, y) exactly when it is stored at an in-map
/// position one step away.
pub proof fn lemma_neighbors_characterization(m: &MazeMap, x: int, y: int, c: Cell)
    requires
        maze_wf(m),
    ensures
        neighbors_spec(m@, x, y).contains(c) <==> (0 <= c.y < m@.len() && 0 <= c.x < m.width
            && m@[c.y as int][c.x as int] == c && rel_at(x, y, c.x as int, c.y as int) is Some),
{
    let g = m@;
    let r = neighbors_spec(g, x, y);
    let s1 = nb_opt(g, x - 1, y);
    let s2 = nb_opt(g, x, y - 1);
    let s3 = nb_opt(g, x + 1, y);
    let s4 = nb_opt(g, x, y + 1);
    if r.contains(c) {
        let k = choose|k: int| 0 <= k < r.len() && r[k] == c;
        if k < s1.len() {
            assert(s1[k] == c);
        } else if k < s1.len() + s2.len() {
            assert(s2[k - s1.len()] == c);
        } else if k < s1.len() + s2.len() + s3.len() {
            assert(s3[k - s1.len() - s2.len()] == c);
        } else {
            assert(s4[k - s1.len() - s2.len() - s3.len()] == c);
        }
    }
    if 0 <= c.y < g.len() && 0 <= c.x < m.width && g[c.y as int][c.x as int] == c && rel_at(
        x,
        y,
        c.x as int,
        c.y as int,
    ) is Some {
        if c.x == x - 1 && c.y == y {
            assert(s1[0int] == c);
            assert(r[0int] == c);
        } else if c.x == x + 1 && c.y == y {
            assert(s3[0int] == c);
            assert(r[s1.len() + s2.len() as int] == c);
        } else if c.y == y - 1 && c.x == x {
            assert(s2[0int] == c);
            assert(r[s1.len() as int] == c);
        } else {
            assert(s4[0int] == c);
            assert(r[(s1.len() + s2.len() + s3.len()) as int] == c);
        }
    }
}

/// Every in-map position is connected to itself.
proof fn lemma_connected_self(g: Seq<Seq<Cell>>, w: int, h: int, x: int, y: int)
    requires
        0 <= x < w,
        0 <= y < h,
    ensures
        connected(g, w, h, x, y, x, y),
{
    let p: Seq<(int, int)> = seq![(x, y)];
    assert(path_connects(g, w, h, p, x, y, x, y));
}

/// A position with an open step onto a connected position is connected too.
proof fn lemma_connected_prepend(g: Seq<Seq<Cell>>, w: int, h: int, nx: int, ny: int, cx: int, cy: int)
    requires
        step_open(g, w, h, nx, ny, cx, cy),
        connected(g, w, h, cx, cy, 0, 0),
    ensures
        connected(g, w, h, nx, ny, 0, 0),
{
    let p = choose|p: Seq<(int, int)>| path_connects(g, w, h, p, cx, cy, 0, 0);
    let p2 = seq![(nx, ny)] + p;
    assert(p2[0] == (nx, ny));
    assert(p2.last() == p.last());
    assert forall|k: int| 0 < k < p2.len() implies #[trigger] step_open(
        g,
        w,
        h,
        p2[k - 1].0,
        p2[k - 1].1,
        p2[k].0,
        p2[k].1,
    ) by {
        if k == 1 {
            assert(p2[0] == (nx, ny));
            assert(p2[1] == p[0]);
        } else {
            assert(p2[k - 1] == p[k - 2]);
            assert(p2[k] == p[k - 1]);
            assert(step_open(g, w, h, p[k - 2].0, p[k - 2].1, p[k - 1].0, p[k - 1].1));
        }
    }
    assert(path_connects(g, w, h, p2, nx, ny, 0, 0));
}

/// Opening walls never disconnects: a walk through open walls stays open when
/// every cell keeps its open walls.
proof fn lemma_connected_monotone(g1: Seq<Seq<Cell>>, g2: Seq<Seq<Cell>>, w: int, h: int, ax: int, ay: int)
    requires
        g1.len() == h,
        g2.len() == h,
        forall|y: int| 0 <= y < h ==> #[trigger] g1[y].len() == w && g2[y].len() == w,
        forall|x: int, y: int|
            0 <= x < w && 0 <= y < h ==> walls_le(#[trigger] g1[y][x], g2[y][x]),
        connected(g1, w, h, ax, ay, 0, 0),
    ensures
        connected(g2, w, h, ax, ay, 0, 0),
{
    let p = choose|p: Seq<(int, int)>| path_connects(g1, w, h, p, ax, ay, 0, 0);
    assert forall|k: int| 0 < k < p.len() implies #[trigger] step_open(
        g2,
        w,
        h,
        p[k - 1].0,
        p[k - 1].1,
        p[k].0,
        p[k].1,
    ) by {
        assert(step_open(g1, w, h, p[k - 1].0, p[k - 1].1, p[k].0, p[k].1));
        let c1 = g1[p[k - 1].1][p[k - 1].0];
        let c2 = g2[p[k - 1].1][p[k - 1].0];
        assert(walls_le(c1, c2));
        let rel = rel_at(p[k - 1].0, p[k - 1].1, p[k].0, p[k].1).unwrap();
        assert(wall_toward(c1, rel) == Wall::Open);
        match rel {
            Relation::Top => assert(c2.top == Wall::Open),
            Relation::Right => assert(c2.right == Wall::Open),
            Relation::Bottom => assert(c2.bottom == Wall::Open),
            Relation::Left => assert(c2.left == Wall::Open),
        }
    }
    assert(path_connects(g2, w, h, p, ax, ay, 0, 0));
}

/// In a visited grid that contains the origin and is closed under stepping to
/// neighbors, every in-bounds position is visited.
proof fn lemma_visited_closure(vv: Seq<Seq<bool>>, w: int, h: int, x: int, y: int)
    requires
        1 <= w,
        1 <= h,
        vv.len() == h,
        forall|j: int| 0 <= j < h ==> #[trigger] vv[j].len() == w,
        vv[0][0],
        forall|cx: int, cy: int, nx: int, ny: int|
            0 <= cx < w && 0 <= cy < h && 0 <= nx < w && 0 <= ny < h && #[trigger] vv[cy][cx]
                && #[trigger] rel_at(cx, cy, nx, ny) is Some ==> vv[ny][nx],
        0 <= x < w,
        0 <= y < h,
    ensures
        vv[y][x],
    decreases x + y,
{
    if x == 0 && y == 0 {
    } else if x > 0 {
        lemma_visited_closure(vv, w, h, x - 1, y);
        assert(rel_at(x - 1, y, x, y) is Some);
    } else {
        lemma_visited_closure(vv, w, h, x, y - 1);
        assert(rel_at(x, y - 1, x, y) is Some);
    }
}

/// Replacing the cell at one position changes a pair count by the difference
/// of that position's own scores.
proof fn lemma_pair_count_update(g: Seq<Seq<Cell>>, w: int, h: int, x: int, y: int, c: Cell, wall: Wall)
    requires
        g.len() == h,
        forall|j: int| 0 <= j < h ==> #[trigger] g[j].len() == w,
        0 <= y < h,
        0 <= x < w,
    ensures
        pair_count(g.update(y, g[y].update(x, c)), w, h, wall) == pair_count(g, w, h, wall)
            - cell_pair_score(g[y][x], x, y, w, h, wall) + cell_pair_score(c, x, y, w, h, wall),
{
    let g2 = g.update(y, g[y].update(x, c));
    let outer1 = Seq::new(h as nat, |j: int| row_pair_count(g, j, w, h, wall));
    let outer2 = Seq::new(h as nat, |j: int| row_pair_count(g2, j, w, h, wall));
    assert forall|j: int| 0 <= j < h && j != y implies outer2[j] == outer1[j] by {
        assert(g2[j] =~= g[j]);
        assert(Seq::new(w as nat, |i: int| cell_pair_score(g2[j][i], i, j, w, h, wall)) =~= Seq::new(
            w as nat,
            |i: int| cell_pair_score(g[j][i], i, j, w, h, wall),
        ));
    }
    let inner1 = Seq::new(w as nat, |i: int| cell_pair_score(g[y][i], i, y, w, h, wall));
    let inner2 = Seq::new(w as nat, |i: int| cell_pair_score(g2[y][i], i, y, w, h, wall));
    assert(inner2 =~= inner1.update(x, cell_pair_score(c, x, y, w, h, wall)));
    lemma_seq_sum_update(inner1, x, cell_pair_score(c, x, y, w, h, wall));
    assert(outer2 =~= outer1.update(y, row_pair_count(g2, y, w, h, wall)));
    lemma_seq_sum_update(outer1, y, row_pair_count(g2, y, w, h, wall));
}

/// A pair count lies between zero and twice the area.
proof fn lemma_pair_count_bounds(g: Seq<Seq<Cell>>, w: int, h: int, wall: Wall)
    requires
        0 <= w,
        0 <= h,
    ensures
        0 <= pair_count(g, w, h, wall) <= h * (2 * w),
{
    let outer = Seq::new(h as nat, |j: int| row_pair_count(g, j, w, h, wall));
    assert forall|j: int| 0 <= j < h implies 0 <= #[trigger] outer[j] <= 2 * w by {
        let inner = Seq::new(w as nat, |i: int| cell_pair_score(g[j][i], i, j, w, h, wall));
        crate::sums::lemma_seq_sum_bounded(inner, 2);
    }
    crate::sums::lemma_seq_sum_bounded(outer, 2 * w);
}

/// In a fully closed maze no wall pair is open.
proof fn lemma_pair_count_all_closed(g: Seq<Seq<Cell>>, w: int, h: int)
    requires
        0 <= w,
        0 <= h,
        g.len() == h,
        forall|j: int| 0 <= j < h ==> #[trigger] g[j].len() == w,
        forall|y: int, x: int| 0 <= y < h && 0 <= x < w ==> walls_closed(#[trigger] g[y][x]),
    ensures
        pair_count(g, w, h, Wall::Open) == 0,
{
    let outer = Seq::new(h as nat, |j: int| row_pair_count(g, j, w, h, Wall::Open));
    assert forall|j: int| 0 <= j < h implies #[trigger] outer[j] == 0 by {
        let inner = Seq::new(w as nat, |i: int| cell_pair_score(g[j][i], i, j, w, h, Wall::Open));
        assert(forall|i: int| 0 <= i < w ==> #[trigger] inner[i] == 0);
        crate::sums::lemma_seq_sum_constant(inner, 0);
    }
    crate::sums::lemma_seq_sum_constant(outer, 0);
}

/// Setting one flag raises the visited count by one when it was clear.
proof fn lemma_visited_count_update(vv: Seq<Seq<bool>>, x: int, y: int)
    requires
        0 <= y < vv.len(),
        0 <= x < vv[y].len(),
    ensures
        visited_count(vv.update(y, vv[y].update(x, true))) == visited_count(vv) + (if vv[y][x] {
            0int
        } else {
            1int
        }),
{
    let vv2 = vv.update(y, vv[y].update(x, true));
    let outer1 = Seq::new(vv.len(), |j: int| row_visited_count(vv[j]));
    let outer2 = Seq::new(vv2.len(), |j: int| row_visited_count(vv2[j]));
    assert forall|j: int| 0 <= j < vv.len() && j != y implies outer2[j] == outer1[j] by {
        assert(vv2[j] =~= vv[j]);
    }
    let row1 = vv[y];
    let row2 = vv2[y];
    let inner1 = Seq::new(
        row1.len(),
        |i: int|
            if row1[i] {
                1int
            } else {
                0int
            },
    );
    let inner2 = Seq::new(
        row2.len(),
        |i: int|
            if row2[i] {
                1int
            } else {
                0int
            },
    );
    assert(inner2 =~= inner1.update(x, 1int));
    lemma_seq_sum_update(inner1, x, 1int);
    assert(outer2 =~= outer1.update(y, row_visited_count(vv2[y])));
    lemma_seq_sum_update(outer1, y, row_visited_count(vv2[y]));
}

/// The visited count lies between zero and the area.
proof fn lemma_visited_count_bounds(vv: Seq<Seq<bool>>, w: int, h: int)
    requires
        vv.len() == h,
        forall|j: int| 0 <= j < h ==> #[trigger] vv[j].len() == w,
        0 <= w,
        0 <= h,
    ensures
        0 <= visited_count(vv) <= h * w,
{
    let outer = Seq::new(vv.len(), |j: int| row_visited_count(vv[j]));
    assert forall|j: int| 0 <= j < h implies 0 <= #[trigger] outer[j] <= w by {
        let row = vv[j];
        let inner = Seq::new(
            row.len(),
            |i: int|
                if row[i] {
                    1int
                } else {
                    0int
                },
        );
        lemma_seq_sum_bounded(inner, 1);
    }
    lemma_seq_sum_bounded(outer, w);
}

/// The visited flags of maze generation, as a grid of booleans.
pub open spec fn flags_of(v: &Vec<Vec<bool>>) -> Seq<Seq<bool>> {
    v@.map_values(|row: Vec<bool>| row@)
}

/// A grid of cleared visited flags.
fn make_flags(width: usize, height: usize) -> (r: Vec<Vec<bool>>)
    ensures
        flags_of(&r).len() == height,
        forall|j: int| 0 <= j < height ==> #[trigger] flags_of(&r)[j].len() == width,
        forall|j: int, i: int| 0 <= j < height && 0 <= i < width ==> !(#[trigger] flags_of(&r)[j][i]),
{
    let mut v: Vec<Vec<bool>> = Vec::new();
    let mut y: usize = 0;
    while y < height
        invariant
            y <= height,
            v@.len() == y,
            forall|j: int| 0 <= j < y ==> #[trigger] v@[j]@.len() == width,
            forall|j: int, i: int| 0 <= j < y && 0 <= i < width ==> !(#[trigger] v@[j]@[i]),
        decreases height - y,
    {
        let row: Vec<bool> = vec![false; width];
        v.push(row);
        y += 1;
    }
    v
}

/// Reads one visited flag.
fn get_flag(v: &Vec<Vec<bool>>, x: usize, y: usize) -> (r: bool)
    requires
        (y as int) < flags_of(v).len(),
        (x as int) < flags_of(v)[y as int].len(),
    ensures
        r == flags_of(v)[y as int][x as int],
{
    proof {
        assert(flags_of(v)[y as int] == v@[y as int]@);
    }
    let row = &v[y];
    row[x]
}

/// Marks one position visited.
fn set_flag(v: &mut Vec<Vec<bool>>, x: usize, y: usize)
    requires
        (y as int) < flags_of(old(v)).len(),
        (x as int) < flags_of(old(v))[y as int].len(),
    ensures
        flags_of(final(v)) == flags_of(old(v)).update(
            y as int,
            flags_of(old(v))[y as int].update(x as int, true),
        ),
{
    proof {
        assert(flags_of(v)[y as int] == v@[y as int]@);
    }
    v[y][x] = true;
    proof {
        assert(flags_of(final(v)) =~= flags_of(old(v)).update(
            y as int,
            flags_of(old(v))[y as int].update(x as int, true),
        ));
    }
}

/// Everything the generation loop keeps true between iterations: the maze is
/// well-formed with symmetric walls, untouched cells are fully closed, the
/// stack holds visited in-map positions, every visited position is connected
/// to the origin, and a visited position off the stack has no unvisited
/// neighbor left.
pub open spec fn gen_inv(m: &MazeMap, vv: Seq<Seq<bool>>, st: Seq<(usize, usize)>) -> bool {
    let g = m@;
    let w = m.width as int;
    let h = m.height as int;
    &&& maze_wf(m)
    &&& 1 <= w && 1 <= h
    &&& vv.len() == h
    &&& forall|j: int| 0 <= j < h ==> #[trigger] vv[j].len() == w
    &&& vv[0][0]
    &&& forall|k: int|
        0 <= k < st.len() ==> (#[trigger] st[k]).0 < m.width && st[k].1 < m.height
            && vv[st[k].1 as int][st[k].0 as int]
    &&& forall|x: int, y: int|
        0 <= x < w && 0 <= y < h && !(#[trigger] vv[y][x]) ==> walls_closed(g[y][x])
    &&& walls_symmetric(g, w, h)
    &&& boundary_closed(g, w, h)
    &&& forall|x: int, y: int|
        0 <= x < w && 0 <= y < h && #[trigger] vv[y][x] ==> connected(g, w, h, x, y, 0, 0)
    &&& forall|x: int, y: int|
        0 <= x < w && 0 <= y < h && #[trigger] vv[y][x] ==> (st.contains(
            ((x as usize), (y as usize)),
        ) || (forall|nx: int, ny: int|
            0 <= nx < w && 0 <= ny < h && #[trigger] rel_at(x, y, nx, ny) is Some ==> vv[ny][nx]))
    &&& 1 <= visited_count(vv)
}

/// The wall of (cx, cy) toward a fully closed neighbor is closed, by the
/// mutual consistency of walls.
proof fn lemma_shared_wall_closed(g: Seq<Seq<Cell>>, w: int, h: int, cx: int, cy: int, nx: int, ny: int)
    requires
        walls_symmetric(g, w, h),
        0 <= cx < w,
        0 <= cy < h,
        0 <= nx < w,
        0 <= ny < h,
        rel_at(cx, cy, nx, ny) is Some,
        walls_closed(g[ny][nx]),
    ensures
        wall_toward(g[cy][cx], rel_at(cx, cy, nx, ny).unwrap()) == Wall::Closed,
{
    let rel = rel_at(cx, cy, nx, ny).unwrap();
    match rel {
        Relation::Right => {
            assert(g[cy][cx].right == g[cy][cx + 1].left);
        },
        Relation::Bottom => {
            assert(g[cy][cx].bottom == g[cy + 1][cx].top);
        },
        Relation::Left => {
            assert(g[cy][nx].right == g[cy][nx + 1].left);
        },
        Relation::Top => {
            assert(g[ny][cx].bottom == g[ny + 1][cx].top);
        },
    }
}

/// The wall symmetry invariant: opening the mutual wall between two adjacent
/// in-map positions — this side's wall toward the other and the other side's
/// wall back, as the connect operation does — leaves every cell's wall states
/// mutually consistent with each of its actual neighbors' wall states. Since
/// a fresh maze is fully closed and hence consistent, the walls stay
/// consistent after any sequence of connect operations.
pub proof fn lemma_connect_preserves_symmetry(
    g0: Seq<Seq<Cell>>,
    w: int,
    h: int,
    cx: int,
    cy: int,
    chx: int,
    chy: int,
)
    requires
        g0.len() == h,
        forall|j: int| 0 <= j < h ==> #[trigger] g0[j].len() == w,
        0 <= cx < w,
        0 <= cy < h,
        0 <= chx < w,
        0 <= chy < h,
        rel_at(cx, cy, chx, chy) is Some,
        walls_symmetric(g0, w, h),
    ensures
        ({
            let rel1 = rel_at(cx, cy, chx, chy).unwrap();
            let rel2 = rel_at(chx, chy, cx, cy).unwrap();
            let g1 = g0.update(cy, g0[cy].update(cx, with_wall_open(g0[cy][cx], rel1)));
            let g2 = g1.update(chy, g1[chy].update(chx, with_wall_open(g1[chy][chx], rel2)));
            walls_symmetric(g2, w, h)
        }),
{
    let rel1 = rel_at(cx, cy, chx, chy).unwrap();
    let rel2 = rel_at(chx, chy, cx, cy).unwrap();
    let g1 = g0.update(cy, g0[cy].update(cx, with_wall_open(g0[cy][cx], rel1)));
    let g2 = g1.update(chy, g1[chy].update(chx, with_wall_open(g1[chy][chx], rel2)));
    assert forall|x: int, y: int|
        0 <= x < w && 0 <= y < h && x + 1 < w implies #[trigger] g2[y][x].right == g2[y][x
        + 1].left by {
        assert(g0[y][x].right == g0[y][x + 1].left);
    }
    assert forall|x: int, y: int|
        0 <= x < w && 0 <= y < h && y + 1 < h implies #[trigger] g2[y][x].bottom == g2[y
        + 1][x].top by {
        assert(g0[y][x].bottom == g0[y + 1][x].top);
    }
}

/// The effect of opening the mutual wall between (cx, cy) and its neighbor at
/// (chx, chy) on grid `g0`: both updated cells keep their coordinates and all
/// their other walls, the wall consistency survives, walls only open, and the
/// pair counts move by exactly one.
#[verifier::rlimit(100)]
#[verifier::spinoff_prover]
proof fn lemma_connect_effect(g0: Seq<Seq<Cell>>, w: int, h: int, cx: int, cy: int, chx: int, chy: int)
    requires
        g0.len() == h,
        forall|j: int| 0 <= j < h ==> #[trigger] g0[j].len() == w,
        0 <= cx < w,
        0 <= cy < h,
        0 <= chx < w,
        0 <= chy < h,
        rel_at(cx, cy, chx, chy) is Some,
        wall_toward(g0[cy][cx], rel_at(cx, cy, chx, chy).unwrap()) == Wall::Closed,
        walls_symmetric(g0, w, h),
    ensures
        ({
            let rel1 = rel_at(cx, cy, chx, chy).unwrap();
            let rel2 = rel_at(chx, chy, cx, cy).unwrap();
            let ca = g0[cy][cx];
            let g1 = g0.update(cy, g0[cy].update(cx, with_wall_open(ca, rel1)));
            let cb = g0[chy][chx];
            let g2 = g1.update(chy, g1[chy].update(chx, with_wall_open(cb, rel2)));
            &&& rel_at(chx, chy, cx, cy) is Some
            &&& g1[chy][chx] == cb
            &&& g2.len() == h
            &&& forall|j: int| 0 <= j < h ==> #[trigger] g2[j].len() == w
            &&& forall|x: int, y: int|
                0 <= x < w && 0 <= y < h ==> walls_le(#[trigger] g0[y][x], g2[y][x])
            &&& walls_symmetric(g2, w, h)
            &&& (boundary_closed(g0, w, h) ==> boundary_closed(g2, w, h))
            &&& wall_toward(g2[chy][chx], rel2) == Wall::Open
            &&& pair_count(g2, w, h, Wall::Closed) == pair_count(g0, w, h, Wall::Closed) - 1
            &&& pair_count(g2, w, h, Wall::Open) == pair_count(g0, w, h, Wall::Open) + 1
        }),
{
    let rel1 = rel_at(cx, cy, chx, chy).unwrap();
    let rel2 = rel_at(chx, chy, cx, cy).unwrap();
    let ca = g0[cy][cx];
    let ca2 = with_wall_open(ca, rel1);
    let g1 = g0.update(cy, g0[cy].update(cx, ca2));
    let cb = g0[chy][chx];
    let cb2 = with_wall_open(cb, rel2);
    let g2 = g1.update(chy, g1[chy].update(chx, cb2));
    assert(g1[chy][chx] == cb);
    lemma_pair_count_update(g0, w, h, cx, cy, ca2, Wall::Closed);
    lemma_pair_count_update(g1, w, h, chx, chy, cb2, Wall::Closed);
    lemma_pair_count_update(g0, w, h, cx, cy, ca2, Wall::Open);
    lemma_pair_count_update(g1, w, h, chx, chy, cb2, Wall::Open);
    assert(wall_toward(cb, rel2) == wall_toward(ca, rel1)) by {
        match rel1 {
            Relation::Right => assert(g0[cy][cx].right == g0[cy][cx + 1].left),
            Relation::Bottom => assert(g0[cy][cx].bottom == g0[cy + 1][cx].top),
            Relation::Left => assert(g0[chy][chx].right == g0[chy][chx + 1].left),
            Relation::Top => assert(g0[chy][chx].bottom == g0[chy + 1][chx].top),
        }
    }
    assert(pair_count(g2, w, h, Wall::Closed) == pair_count(g0, w, h, Wall::Closed) - 1
        && pair_count(g2, w, h, Wall::Open) == pair_count(g0, w, h, Wall::Open) + 1) by {
        match rel1 {
            Relation::Right => {
                assert(chx == cx + 1 && chy == cy);
                assert(rel2 == Relation::Left);
                assert(cell_pair_score(ca2, cx, cy, w, h, Wall::Closed) == cell_pair_score(
                    ca, cx, cy, w, h, Wall::Closed) - 1);
                assert(cell_pair_score(ca2, cx, cy, w, h, Wall::Open) == cell_pair_score(
                    ca, cx, cy, w, h, Wall::Open) + 1);
                assert(cell_pair_score(cb2, chx, chy, w, h, Wall::Closed) == cell_pair_score(
                    cb, chx, chy, w, h, Wall::Closed));
                assert(cell_pair_score(cb2, chx, chy, w, h, Wall::Open) == cell_pair_score(
                    cb, chx, chy, w, h, Wall::Open));
            },
            Relation::Bottom => {
                assert(chy == cy + 1 && chx == cx);
                assert(rel2 == Relation::Top);
                assert(cell_pair_score(ca2, cx, cy, w, h, Wall::Closed) == cell_pair_score(
                    ca, cx, cy, w, h, Wall::Closed) - 1);
                assert(cell_pair_score(ca2, cx, cy, w, h, Wall::Open) == cell_pair_score(
                    ca, cx, cy, w, h, Wall::Open) + 1);
                assert(cell_pair_score(cb2, chx, chy, w, h, Wall::Closed) == cell_pair_score(
                    cb, chx, chy, w, h, Wall::Closed));
                assert(cell_pair_score(cb2, chx, chy, w, h, Wall::Open) == cell_pair_score(
                    cb, chx, chy, w, h, Wall::Open));
            },
            Relation::Left => {
                assert(chx == cx - 1 && chy == cy);
                assert(rel2 == Relation::Right);
                assert(cb.right == Wall::Closed);
                assert(cell_pair_score(cb2, chx, chy, w, h, Wall::Closed) == cell_pair_score(
                    cb, chx, chy, w, h, Wall::Closed) - 1);
                assert(cell_pair_score(cb2, chx, chy, w, h, Wall::Open) == cell_pair_score(
                    cb, chx, chy, w, h, Wall::Open) + 1);
                assert(cell_pair_score(ca2, cx, cy, w, h, Wall::Closed) == cell_pair_score(
                    ca, cx, cy, w, h, Wall::Closed));
                assert(cell_pair_score(ca2, cx, cy, w, h, Wall::Open) == cell_pair_score(
                    ca, cx, cy, w, h, Wall::Open));
            },
            Relation::Top => {
                assert(chy == cy - 1 && chx == cx);
                assert(rel2 == Relation::Bottom);
                assert(cb.bottom == Wall::Closed);
                assert(cell_pair_score(cb2, chx, chy, w, h, Wall::Closed) == cell_pair_score(
                    cb, chx, chy, w, h, Wall::Closed) - 1);
                assert(cell_pair_score(cb2, chx, chy, w, h, Wall::Open) == cell_pair_score(
                    cb, chx, chy, w, h, Wall::Open) + 1);
                assert(cell_pair_score(ca2, cx, cy, w, h, Wall::Closed) == cell_pair_score(
                    ca, cx, cy, w, h, Wall::Closed));
                assert(cell_pair_score(ca2, cx, cy, w, h, Wall::Open) == cell_pair_score(
                    ca, cx, cy, w, h, Wall::Open));
            },
        }
    }
    lemma_connect_preserves_symmetry(g0, w, h, cx, cy, chx, chy);
    assert(g1[chy][chx] == cb);
    if boundary_closed(g0, w, h) {
        lemma_connect_preserves_boundary(g0, w, h, cx, cy, chx, chy);
    }
}

/// The two walls a connect opens face each other between two in-map
/// positions, so no outward-facing boundary wall ever opens.
proof fn lemma_connect_preserves_boundary(g0: Seq<Seq<Cell>>, w: int, h: int, cx: int, cy: int, chx: int, chy: int)
    requires
        g0.len() == h,
        forall|j: int| 0 <= j < h ==> #[trigger] g0[j].len() == w,
        0 <= cx < w,
        0 <= cy < h,
        0 <= chx < w,
        0 <= chy < h,
        rel_at(cx, cy, chx, chy) is Some,
        boundary_closed(g0, w, h),
    ensures
        ({
            let rel1 = rel_at(cx, cy, chx, chy).unwrap();
            let rel2 = rel_at(chx, chy, cx, cy).unwrap();
            let g1 = g0.update(cy, g0[cy].update(cx, with_wall_open(g0[cy][cx], rel1)));
            let g2 = g1.update(chy, g1[chy].update(chx, with_wall_open(g1[chy][chx], rel2)));
            boundary_closed(g2, w, h)
        }),
{
    let rel1 = rel_at(cx, cy, chx, chy).unwrap();
    let rel2 = rel_at(chx, chy, cx, cy).unwrap();
    let g1 = g0.update(cy, g0[cy].update(cx, with_wall_open(g0[cy][cx], rel1)));
    let g2 = g1.update(chy, g1[chy].update(chx, with_wall_open(g1[chy][chx], rel2)));
    let ca2 = with_wall_open(g0[cy][cx], rel1);
    let cb2 = with_wall_open(g1[chy][chx], rel2);
    reveal(boundary_closed);
    match rel1 {
        Relation::Right => {
            assert(chx == cx + 1 && chy == cy && rel2 == Relation::Left);
            assert(cx < w - 1 && chx > 0);
        },
        Relation::Bottom => {
            assert(chy == cy + 1 && chx == cx && rel2 == Relation::Top);
            assert(cy < h - 1 && chy > 0);
        },
        Relation::Left => {
            assert(chx == cx - 1 && chy == cy && rel2 == Relation::Right);
            assert(cx > 0 && chx < w - 1);
        },
        Relation::Top => {
            assert(chy == cy - 1 && chx == cx && rel2 == Relation::Bottom);
            assert(cy > 0 && chy < h - 1);
        },
    }
    assert forall|x: int, y: int| 0 <= x < w && 0 <= y < h implies {
        let c = #[trigger] g2[y][x];
        &&& (x == 0 ==> c.left == Wall::Closed)
        &&& (x == w - 1 ==> c.right == Wall::Closed)
        &&& (y == 0 ==> c.top == Wall::Closed)
        &&& (y == h - 1 ==> c.bottom == Wall::Closed)
    } by {
        if x == cx && y == cy {
            assert(g2[y][x] == ca2 || g2[y][x] == cb2);
        } else if x == chx && y == chy {
            assert(g2[y][x] == cb2);
        } else {
            assert(g2[y][x] == g0[y][x]);
        }
    }
}

/// Replacing one cell by one with the same walls moves no pair count and keeps
/// the wall consistency.
#[verifier::rlimit(100)]
#[verifier::spinoff_prover]
proof fn lemma_recolor_effect(g2: Seq<Seq<Cell>>, w: int, h: int, cx: int, cy: int, c: Cell)
    requires
        g2.len() == h,
        forall|j: int| 0 <= j < h ==> #[trigger] g2[j].len() == w,
        0 <= cx < w,
        0 <= cy < h,
        c.top == g2[cy][cx].top,
        c.right == g2[cy][cx].right,
        c.bottom == g2[cy][cx].bottom,
        c.left == g2[cy][cx].left,
    ensures
        ({
            let g3 = g2.update(cy, g2[cy].update(cx, c));
            &&& g3.len() == h
            &&& forall|j: int| 0 <= j < h ==> #[trigger] g3[j].len() == w
            &&& forall|x: int, y: int|
                0 <= x < w && 0 <= y < h ==> walls_le(#[trigger] g2[y][x], g3[y][x])
            &&& walls_symmetric(g2, w, h) ==> walls_symmetric(g3, w, h)
            &&& boundary_closed(g2, w, h) ==> boundary_closed(g3, w, h)
            &&& pair_count(g3, w, h, Wall::Closed) == pair_count(g2, w, h, Wall::Closed)
            &&& pair_count(g3, w, h, Wall::Open) == pair_count(g2, w, h, Wall::Open)
        }),
{
    let g3 = g2.update(cy, g2[cy].update(cx, c));
    lemma_pair_count_update(g2, w, h, cx, cy, c, Wall::Closed);
    lemma_pair_count_update(g2, w, h, cx, cy, c, Wall::Open);
    if boundary_closed(g2, w, h) {
        reveal(boundary_closed);
        assert forall|x: int, y: int| 0 <= x < w && 0 <= y < h implies {
            let cc = #[trigger] g3[y][x];
            &&& (x == 0 ==> cc.left == Wall::Closed)
            &&& (x == w - 1 ==> cc.right == Wall::Closed)
            &&& (y == 0 ==> cc.top == Wall::Closed)
            &&& (y == h - 1 ==> cc.bottom == Wall::Closed)
        } by {
            assert(g2[y][x].left == g3[y][x].left && g2[y][x].right == g3[y][x].right && g2[y][x].top
                == g3[y][x].top && g2[y][x].bottom == g3[y][x].bottom);
        }
    }
    if walls_symmetric(g2, w, h) {
        assert forall|x: int, y: int|
            0 <= x < w && 0 <= y < h && x + 1 < w implies #[trigger] g3[y][x].right == g3[y][x
            + 1].left by {
            assert(g2[y][x].right == g2[y][x + 1].left);
        }
        assert forall|x: int, y: int|
            0 <= x < w && 0 <= y < h && y + 1 < h implies #[trigger] g3[y][x].bottom == g3[y
            + 1][x].top by {
            assert(g2[y][x].bottom == g2[y + 1][x].top);
        }
    }
}

/// One expansion step of the generator: the current top of the stack is
/// connected to the chosen candidate through their shared closed wall, the
/// current cell takes the running color, and the candidate is marked visited
/// and pushed. Exactly one wall pair opens.
#[verifier::rlimit(100)]
#[verifier::spinoff_prover]
fn connect_step(
    map: &mut MazeMap,
    visited: &mut Vec<Vec<bool>>,
    stack: &mut Vec<(usize, usize)>,
    color: Color,
    cx: usize,
    cy: usize,
    chosen: Cell,
)
    requires
        gen_inv(old(map), flags_of(old(visited)), old(stack)@),
        cx < old(map).width,
        cy < old(map).height,
        flags_of(old(visited))[cy as int][cx as int],
        chosen.x < old(map).width,
        chosen.y < old(map).height,
        chosen == old(map)@[chosen.y as int][chosen.x as int],
        rel_at(cx as int, cy as int, chosen.x as int, chosen.y as int) is Some,
        wall_toward(
            old(map)@[cy as int][cx as int],
            rel_at(cx as int, cy as int, chosen.x as int, chosen.y as int).unwrap(),
        ) == Wall::Closed,
    ensures
        gen_inv(final(map), flags_of(final(visited)), final(stack)@),
        final(map).width == old(map).width,
        final(map).height == old(map).height,
        final(stack)@ == old(stack)@.push((chosen.x, chosen.y)),
        visited_count(flags_of(final(visited))) == visited_count(flags_of(old(visited))) + (
        if flags_of(old(visited))[chosen.y as int][chosen.x as int] {
            0int
        } else {
            1int
        }),
        pair_count(final(map)@, old(map).width as int, old(map).height as int, Wall::Closed)
            == pair_count(old(map)@, old(map).width as int, old(map).height as int, Wall::Closed)
            - 1,
        pair_count(final(map)@, old(map).width as int, old(map).height as int, Wall::Open)
            == pair_count(old(map)@, old(map).width as int, old(map).height as int, Wall::Open) + 1,
{
    let ghost g0 = map@;
    let ghost w = map.width as int;
    let ghost h = map.height as int;
    let ghost chx = chosen.x as int;
    let ghost chy = chosen.y as int;
    let ghost rel1 = rel_at(cx as int, cy as int, chx, chy).unwrap();
    let ghost rel2 = rel_at(chx, chy, cx as int, cy as int).unwrap();
    let ghost ca = g0[cy as int][cx as int];
    let ghost cb = g0[chy][chx];

    proof {
        lemma_connect_effect(g0, w, h, cx as int, cy as int, chx, chy);
    }

    let current = match map.get_cell(cx, cy) {
        Some(c) => c,
        None => unreached(),
    };

    let connect_result = map.connect_cells(&current, &chosen);
    let ghost g1 = g0.update(cy as int, g0[cy as int].update(cx as int, with_wall_open(ca, rel1)));
    let ghost g2 = g1.update(chy, g1[chy].update(chx, with_wall_open(cb, rel2)));
    match connect_result {
        Ok(()) => {},
        Err(_) => unreached(),
    }
    proof {
        assert(map@ == g2);
        assert(forall|j: int, i: int|
            0 <= j < h && 0 <= i < w ==> (#[trigger] g2[j][i]).x == i && g2[j][i].y == j);
    }

    // the current cell takes the running region color
    let cur2 = match map.get_cell(cx, cy) {
        Some(c) => c,
        None => unreached(),
    };
    let mut cur3 = cur2;
    cur3.set_color(color);
    proof {
        lemma_recolor_effect(g2, w, h, cx as int, cy as int, cur3);
    }
    map.set_cell(cx, cy, cur3);
    let ghost g3 = map@;

    proof {
        assert(forall|j: int, i: int|
            0 <= j < h && 0 <= i < w ==> (#[trigger] g3[j][i]).x == i && g3[j][i].y == j);
        // walls only ever open across the whole step
        assert forall|x: int, y: int|
            0 <= x < w && 0 <= y < h implies walls_le(#[trigger] g0[y][x], g3[y][x]) by {
            assert(walls_le(g0[y][x], g2[y][x]));
            assert(walls_le(g2[y][x], g3[y][x]));
        }
    }

    set_flag(visited, chosen.x, chosen.y);
    proof {
        lemma_visited_count_update(flags_of(old(visited)), chx, chy);
    }
    stack.push((chosen.x, chosen.y));

    proof {
        let vv0 = flags_of(old(visited));
        let vv2 = flags_of(visited);
        let st0 = old(stack)@;
        let st2 = stack@;
        // connectivity: every visited position stays connected, and the chosen
        // one gains a step through the freshly opened wall
        assert forall|x: int, y: int|
            0 <= x < w && 0 <= y < h && #[trigger] vv2[y][x] implies connected(g3, w, h, x, y, 0, 0) by {
            if vv0[y][x] {
                lemma_connected_monotone(g0, g3, w, h, x, y);
            } else {
                // the newly visited position: step onto the current cell
                assert(x == chx && y == chy);
                lemma_connected_monotone(g0, g3, w, h, cx as int, cy as int);
                assert(wall_toward(g2[chy][chx], rel2) == Wall::Open);
                assert(wall_toward(g3[chy][chx], rel2) == Wall::Open);
                assert(step_open(g3, w, h, chx, chy, cx as int, cy as int));
                lemma_connected_prepend(g3, w, h, chx, chy, cx as int, cy as int);
            }
        }
        // stack membership survives the push
        assert forall|z: (usize, usize)| st0.contains(z) implies st2.contains(z) by {
            let i = choose|i: int| 0 <= i < st0.len() && st0[i] == z;
            assert(st2[i] == z);
        }
        assert(st2[st2.len() - 1] == (chosen.x, chosen.y));
        assert(st2.contains((chosen.x, chosen.y)));
        // a visited position off the stack still has all neighbors visited
        assert forall|x: int, y: int|
            0 <= x < w && 0 <= y < h && #[trigger] vv2[y][x] && !st2.contains(
                ((x as usize), (y as usize)),
            ) implies (forall|nx: int, ny: int|
            0 <= nx < w && 0 <= ny < h && #[trigger] rel_at(x, y, nx, ny) is Some ==> vv2[ny][nx]) by {
            assert((x, y) != (chx, chy));
            assert(vv0[y][x]);
            assert(!st0.contains(((x as usize), (y as usize))));
            assert forall|nx: int, ny: int|
                0 <= nx < w && 0 <= ny < h && #[trigger] rel_at(x, y, nx, ny) is Some implies vv2[ny][nx] by {
                assert(vv0[ny][nx]);
            }
        }
        assert(gen_inv(map, vv2, st2));
    }
}

/// A grid of cleared flags has count zero.
proof fn lemma_visited_count_empty(vv: Seq<Seq<bool>>, w: int, h: int)
    requires
        vv.len() == h,
        forall|j: int| 0 <= j < h ==> #[trigger] vv[j].len() == w,
        forall|y: int, x: int| 0 <= y < h && 0 <= x < w ==> !(#[trigger] vv[y][x]),
        0 <= w,
        0 <= h,
    ensures
        visited_count(vv) == 0,
{
    let outer = Seq::new(vv.len(), |j: int| row_visited_count(vv[j]));
    assert forall|j: int| 0 <= j < h implies #[trigger] outer[j] == 0 by {
        let row = vv[j];
        let inner = Seq::new(
            row.len(),
            |i: int|
                if row[i] {
                    1int
                } else {
                    0int
                },
        );
        assert(forall|i: int| 0 <= i < w ==> #[trigger] inner[i] == 0);
        crate::sums::lemma_seq_sum_constant(inner, 0);
    }
    crate::sums::lemma_seq_sum_constant(outer, 0);
}

/// A fully visited grid has the full area as its count.
proof fn lemma_visited_count_full(vv: Seq<Seq<bool>>, w: int, h: int)
    requires
        vv.len() == h,
        forall|j: int| 0 <= j < h ==> #[trigger] vv[j].len() == w,
        forall|y: int, x: int| 0 <= y < h && 0 <= x < w ==> #[trigger] vv[y][x],
        0 <= w,
        0 <= h,
    ensures
        visited_count(vv) == h * w,
{
    let outer = Seq::new(vv.len(), |j: int| row_visited_count(vv[j]));
    assert forall|j: int| 0 <= j < h implies #[trigger] outer[j] == w by {
        let row = vv[j];
        let inner = Seq::new(
            row.len(),
            |i: int|
                if row[i] {
                    1int
                } else {
                    0int
                },
        );
        assert(forall|i: int| 0 <= i < w ==> #[trigger] inner[i] == 1);
        lemma_seq_sum_ones(inner);
    }
    crate::sums::lemma_seq_sum_constant(outer, w);
}

/// One whole on the parts-per-million probability scale that `generate_maze`
/// takes its loop probability in.
pub const PROB_UNIT: u32 = 1_000_000;

/// The entered loop probability is divided by the damping ratio 31/5 = 6.2,
/// to create a behavior in which one is almost total connection and zero is
/// no loops.
const LOOP_DAMPING_NUM: u32 = 5;

const LOOP_DAMPING_DEN: u32 = 31;

/// What makes a neighbor of the current position (cx, cy) a generation
/// candidate: it is the in-map cell one step away, the shared wall is still
/// closed, and with no loop probability it is unvisited.
pub open spec fn cand_ok(
    g: Seq<Seq<Cell>>,
    vv: Seq<Seq<bool>>,
    w: int,
    h: int,
    cx: int,
    cy: int,
    c: Cell,
    eff: int,
) -> bool {
    &&& 0 <= (c.x as int) < w
    &&& 0 <= (c.y as int) < h
    &&& c == g[c.y as int][c.x as int]
    &&& rel_at(cx, cy, c.x as int, c.y as int) is Some
    &&& wall_toward(g[cy][cx], rel_at(cx, cy, c.x as int, c.y as int).unwrap()) == Wall::Closed
    &&& eff == 0 ==> !vv[c.y as int][c.x as int]
}

/// Generates a random maze of the given dimensions by randomized iterative
/// backtracking with probabilistic loop insertion and region coloring.
///
/// `loop_prob` is a probability on the [`PROB_UNIT`] parts-per-million scale:
/// a visited neighbor behind a still-closed wall is reconsidered with the
/// damped probability, which opens an extra connection (a loop). With no loop
/// probability the result is a spanning structure: exactly
/// `width * height - 1` wall pairs are open. Either way every cell ends up
/// connected to the origin, walls stay mutually consistent, and dimensions of
/// zero are rejected.
#[verifier::loop_isolation(false)]
#[verifier::rlimit(100)]
pub fn generate_maze(width: usize, height: usize, loop_prob: Option<u32>) -> (r: Result<
    MazeMap,
    MazeError,
>)
    requires
        loop_prob matches Some(p) ==> p < PROB_UNIT,
    ensures
        r is Err <==> (width == 0 || height == 0),
        r matches Err(e) ==> e == MazeError::InvalidDimensions,
        r matches Ok(m) ==> ({
            &&& m.width == width
            &&& m.height == height
            &&& maze_wf(&m)
            &&& walls_symmetric(m@, width as int, height as int)
            &&& boundary_closed(m@, width as int, height as int)
            &&& forall|x: int, y: int|
                0 <= x < width && 0 <= y < height ==> connected(
                    m@,
                    width as int,
                    height as int,
                    x,
                    y,
                    0,
                    0,
                )
            &&& (loop_prob == None::<u32> || loop_prob == Some(0u32)) ==> pair_count(
                m@,
                width as int,
                height as int,
                Wall::Open,
            ) == (width as int) * (height as int) - 1
        }),
{
    let map_init = MazeMap::new(width, height);
    let mut map = map_init;
    let first_cell = match map.get_cell(0, 0) {
        Some(c) => c,
        None => {
            return Err(MazeError::InvalidDimensions);
        },
    };
    let ghost w = width as int;
    let ghost h = height as int;

    let eff: u32 = match loop_prob {
        Some(p) => {
            if p == 0 {
                0
            } else {
                proof {
                    vstd::arithmetic::div_mod::lemma_div_is_ordered(
                        (p * LOOP_DAMPING_NUM) as int,
                        4_999_995int,
                        LOOP_DAMPING_DEN as int,
                    );
                }
                (p * LOOP_DAMPING_NUM) / LOOP_DAMPING_DEN
            }
        },
        None => 0,
    };
    assert(eff <= PROB_UNIT);

    let mut visited = make_flags(width, height);
    proof {
        lemma_visited_count_empty(flags_of(&visited), w, h);
    }
    let ghost vv_init = flags_of(&visited);
    set_flag(&mut visited, 0, 0);
    proof {
        lemma_visited_count_update(vv_init, 0, 0);
    }
    let mut stack: Vec<(usize, usize)> = Vec::new();
    stack.push((0, 0));
    let mut color = random_color();

    proof {
        let g = map@;
        let vv = flags_of(&visited);
        assert(vv[0][0]);
        assert(visited_count(vv) == 1);
        assert(stack@[0] == (0usize, 0usize));
        assert(stack@.contains((0usize, 0usize)));
        assert(walls_symmetric(g, w, h)) by {
            assert forall|x: int, y: int|
                0 <= x < w && 0 <= y < h && x + 1 < w implies #[trigger] g[y][x].right == g[y][x
                + 1].left by {
                assert(walls_closed(g[y][x]) && walls_closed(g[y][x + 1]));
            }
            assert forall|x: int, y: int|
                0 <= x < w && 0 <= y < h && y + 1 < h implies #[trigger] g[y][x].bottom == g[y
                + 1][x].top by {
                assert(walls_closed(g[y][x]) && walls_closed(g[y + 1][x]));
            }
        }
        assert forall|x: int, y: int|
            0 <= x < w && 0 <= y < h && #[trigger] vv[y][x] implies connected(g, w, h, x, y, 0, 0) by {
            assert(x == 0 && y == 0);
            lemma_connected_self(g, w, h, 0, 0);
        }
        lemma_pair_count_all_closed(g, w, h);
        assert(boundary_closed(g, w, h)) by {
            reveal(boundary_closed);
            assert forall|x: int, y: int| 0 <= x < w && 0 <= y < h implies {
                let c = #[trigger] g[y][x];
                &&& (x == 0 ==> c.left == Wall::Closed)
                &&& (x == w - 1 ==> c.right == Wall::Closed)
                &&& (y == 0 ==> c.top == Wall::Closed)
                &&& (y == h - 1 ==> c.bottom == Wall::Closed)
            } by {
                assert(walls_closed(g[y][x]));
            }
        }
        assert(gen_inv(&map, vv, stack@));
    }

    while stack.len() != 0
        invariant
            map.width == width,
            map.height == height,
            1 <= width,
            1 <= height,
            eff <= PROB_UNIT,
            gen_inv(&map, flags_of(&visited), stack@),
            eff == 0 ==> pair_count(map@, width as int, height as int, Wall::Open)
                == visited_count(flags_of(&visited)) - 1,
            (loop_prob == None::<u32> || loop_prob == Some(0u32)) ==> eff == 0,
        decreases
            (width as int) * (height as int) - visited_count(flags_of(&visited)),
            pair_count(map@, width as int, height as int, Wall::Closed),
            stack@.len(),
    {
        let ghost st0 = stack@;
        let top = match stack.pop() {
            Some(t) => t,
            None => unreached(),
        };
        let cx = top.0;
        let cy = top.1;
        proof {
            assert(st0[st0.len() - 1] == (cx, cy));
            assert(flags_of(&visited)[cy as int][cx as int]);
        }

        let current = match map.get_cell(cx, cy) {
            Some(c) => c,
            None => unreached(),
        };
        proof {
            assert(current == map@[cy as int][cx as int]);
            assert(current.x == cx && current.y == cy);
        }
        let neighbors = map.get_neighbors(&current);

        let mut candidates: Vec<Cell> = Vec::new();
        let mut k: usize = 0;
        while k < neighbors.len()
            invariant
                k <= neighbors@.len(),
                map.width == width,
                map.height == height,
                1 <= width,
                1 <= height,
                cx < width,
                cy < height,
                eff <= PROB_UNIT,
                maze_wf(&map),
                walls_symmetric(map@, width as int, height as int),
                flags_of(&visited).len() == height,
                forall|j: int| 0 <= j < height ==> #[trigger] flags_of(&visited)[j].len() == width,
                forall|x: int, y: int|
                    0 <= x < width && 0 <= y < height && !(#[trigger] flags_of(&visited)[y][x])
                        ==> walls_closed(map@[y][x]),
                neighbors@ == neighbors_spec(map@, cx as int, cy as int),
                forall|j: int|
                    0 <= j < candidates@.len() ==> cand_ok(
                        map@,
                        flags_of(&visited),
                        width as int,
                        height as int,
                        cx as int,
                        cy as int,
                        #[trigger] candidates@[j],
                        eff as int,
                    ),
                forall|j: int|
                    0 <= j < k ==> flags_of(&visited)[(#[trigger] neighbors@[j]).y as int][neighbors@[j].x as int]
                        || candidates@.contains(neighbors@[j]),
            decreases neighbors@.len() - k,
        {
            let nb = neighbors[k];
            proof {
                assert(neighbors_spec(map@, cx as int, cy as int)[k as int] == nb);
                assert(neighbors_spec(map@, cx as int, cy as int).contains(nb));
                lemma_neighbors_characterization(&map, cx as int, cy as int, nb);
            }
            if !get_flag(&visited, nb.x, nb.y) {
                proof {
                    lemma_shared_wall_closed(
                        map@,
                        width as int,
                        height as int,
                        cx as int,
                        cy as int,
                        nb.x as int,
                        nb.y as int,
                    );
                }
                candidates.push(nb);
                proof {
                    assert(cand_ok(
                        map@,
                        flags_of(&visited),
                        width as int,
                        height as int,
                        cx as int,
                        cy as int,
                        nb,
                        eff as int,
                    ));
                    assert(candidates@.contains(nb));
                }
            } else if rand_ratio(eff, PROB_UNIT) {
                proof {
                    assert(eff != 0);
                }
                let rel = match current.relation(&nb) {
                    Ok(rel) => rel,
                    Err(_) => unreached(),
                };
                if current.wall_facing(rel) == Wall::Closed {
                    candidates.push(nb);
                    proof {
                        assert(cand_ok(
                            map@,
                            flags_of(&visited),
                            width as int,
                            height as int,
                            cx as int,
                            cy as int,
                            nb,
                            eff as int,
                        ));
                        assert(candidates@.contains(nb));
                    }
                }
            }
            k += 1;
        }

        if candidates.len() > 0 {
            stack.push((cx, cy));
            proof {
                let st2 = stack@;
                assert(st2[st2.len() - 1] == (cx, cy));
                assert forall|z: (usize, usize)| st0.contains(z) implies st2.contains(z) by {
                    let i = choose|i: int| 0 <= i < st0.len() && st0[i] == z;
                    if i < st0.len() - 1 {
                        assert(st2[i] == z);
                    } else {
                        assert(st2[st2.len() - 1] == z);
                    }
                }
                assert(gen_inv(&map, flags_of(&visited), st2));
            }
            let idx = rand_index(candidates.len());
            let chosen = candidates[idx];
            let ghost was_visited = flags_of(&visited)[chosen.y as int][chosen.x as int];
            proof {
                assert(cand_ok(map@, flags_of(&visited), w, h, cx as int, cy as int, chosen, eff as int));
            }
            connect_step(&mut map, &mut visited, &mut stack, color, cx, cy, chosen);
            proof {
                lemma_visited_count_bounds(flags_of(&visited), w, h);
                lemma_pair_count_bounds(map@, w, h, Wall::Closed);
                if eff == 0 {
                    assert(!was_visited);
                }
            }
        } else {
            color = random_color();
            proof {
                let st1 = stack@;
                let vv = flags_of(&visited);
                let g = map@;
                // every neighbor of the current position is visited: an
                // unvisited one would have entered the candidates
                assert forall|nx: int, ny: int|
                    0 <= nx < w && 0 <= ny < h && #[trigger] rel_at(cx as int, cy as int, nx, ny) is Some
                    implies vv[ny][nx] by {
                    assert(g[ny].len() == w);
                    let c = g[ny][nx];
                    assert(c.x == nx && c.y == ny);
                    lemma_neighbors_characterization(&map, cx as int, cy as int, c);
                    assert(neighbors_spec(g, cx as int, cy as int).contains(c));
                    let j = choose|j: int| 0 <= j < neighbors@.len() && neighbors@[j] == c;
                    assert(candidates@.len() == 0);
                    assert(!candidates@.contains(c));
                    assert(vv[neighbors@[j].y as int][neighbors@[j].x as int]
                        || candidates@.contains(neighbors@[j]));
                    assert(vv[ny][nx]);
                }
                // invariants survive the pop: whoever leaves the stack has no
                // unvisited neighbor left
                assert forall|x: int, y: int|
                    0 <= x < w && 0 <= y < h && #[trigger] vv[y][x] && !st1.contains(
                        ((x as usize), (y as usize)),
                    ) implies (forall|nx: int, ny: int|
                    0 <= nx < w && 0 <= ny < h && #[trigger] rel_at(x, y, nx, ny) is Some
                        ==> vv[ny][nx]) by {
                    if st0.contains(((x as usize), (y as usize))) {
                        let i = choose|i: int|
                            0 <= i < st0.len() && st0[i] == ((x as usize), (y as usize));
                        if i < st0.len() - 1 {
                            assert(st1[i] == ((x as usize), (y as usize)));
                            assert(st1.contains(((x as usize), (y as usize))));
                        } else {
                            assert(x == cx as int && y == cy as int);
                        }
                    }
                }
                assert(gen_inv(&map, vv, st1));
            }
        }
    }

    proof {
        let g = map@;
        let vv = flags_of(&visited);
        assert(stack@.len() == 0);
        assert forall|ax: int, ay: int, nx: int, ny: int|
            0 <= ax < w && 0 <= ay < h && 0 <= nx < w && 0 <= ny < h && #[trigger] vv[ay][ax]
                && #[trigger] rel_at(ax, ay, nx, ny) is Some implies vv[ny][nx] by {
            assert(!stack@.contains(((ax as usize), (ay as usize))));
        }
        assert forall|x: int, y: int| 0 <= x < w && 0 <= y < h implies #[trigger] vv[y][x] by {
            lemma_visited_closure(vv, w, h, x, y);
        }
        lemma_visited_count_full(vv, w, h);
        assert forall|x: int, y: int|
            0 <= x < w && 0 <= y < h implies connected(g, w, h, x, y, 0, 0) by {
            assert(vv[y][x]);
        }
        assert(visited_count(vv) == h * w);
        if loop_prob == None::<u32> || loop_prob == Some(0u32) {
            assert(eff == 0);
            assert(pair_count(g, w, h, Wall::Open) == h * w - 1);
            assert(h * w == w * h) by (nonlinear_arith);
        }
    }

    Ok(map)
}

}

