use vstd::prelude::*;
use vstd::string::StringExecFns;

verus! {

/// Upper bound on grid dimensions, so that coordinate arithmetic (squared
/// distances in the search heuristic) stays comfortably inside `u128`.
pub const MAX_DIM: usize = 0x1000_0000;

/// The terrain category of one grid block, derived from the palette of the
/// raster maps this library works on.
#[derive(Clone, Copy, Debug, PartialEq, Eq, Structural)]
pub enum BlockType {
    White,
    Black,
    Orange,
    Blue,
    Green,
    Yellow,
    Border,
    Solution,
}

/// One grid unit: its coordinates and its terrain category.
#[derive(Clone, Copy, Debug, PartialEq, Eq, Structural)]
pub struct Block {
    pub x: usize,
    pub y: usize,
    pub block_type: BlockType,
}

/// Whether an agent may stand on a block of this category.
pub open spec fn is_walkable_of(t: BlockType) -> bool {
    !(t == BlockType::Black || t == BlockType::White)
}

/// The movement cost paid for entering a block of this category; the
/// `usize::MAX` sentinel marks categories that are effectively impassable.
pub open spec fn speed_of(t: BlockType) -> usize {
    match t {
        BlockType::White => usize::MAX,
        BlockType::Black => usize::MAX,
        BlockType::Orange => 5,
        BlockType::Blue => 2,
        BlockType::Green => 1,
        BlockType::Yellow => 7,
        BlockType::Border => usize::MAX,
        BlockType::Solution => usize::MAX,
    }
}

impl Block {
    pub fn new(x: usize, y: usize, block_type: BlockType) -> (r: Block)
        ensures
            r == (Block { x, y, block_type }),
    {
        Block { x, y, block_type }
    }

    pub fn is_walkable(&self) -> (r: bool)
        ensures
            r == is_walkable_of(self.block_type),
    {
        !(self.block_type == BlockType::Black || self.block_type == BlockType::White)
    }

    /// The smaller the better!!!
    pub fn speed(&self) -> (r: usize)
        ensures
            r == speed_of(self.block_type),
    {
        match self.block_type {
            BlockType::White => usize::MAX,
            BlockType::Black => usize::MAX,
            BlockType::Orange => 5,
            BlockType::Blue => 2,
            BlockType::Green => 1,
            BlockType::Yellow => 7,
            BlockType::Border => usize::MAX,
            BlockType::Solution => usize::MAX,
        }
    }
}

/// A rectangular terrain grid of blocks, row-major, with origin (0,0) in the
/// top-left corner, y growing downward and x growing rightward.
#[derive(Debug, Clone)]
pub struct Grid {
    blocks: Vec<Vec<Block>>,
}

impl View for Grid {
    type V = Seq<Seq<Block>>;

    closed spec fn view(&self) -> Seq<Seq<Block>> {
        self.blocks@.map_values(|row: Vec<Block>| row@)
    }
}

/// Well-formedness of a grid: non-empty, rectangular, bounded, and every
/// block records the coordinates of the position that holds it.
pub open spec fn grid_wf(g: Seq<Seq<Block>>) -> bool {
    &&& 1 <= g.len() <= MAX_DIM
    &&& 1 <= g[0].len() <= MAX_DIM
    &&& forall|y: int| 0 <= y < g.len() ==> #[trigger] g[y].len() == g[0].len()
    &&& forall|y: int, x: int|
        0 <= y < g.len() && 0 <= x < g[y].len() ==> (#[trigger] g[y][x]).x == x && g[y][x].y == y
}

/// The block stored at (x, y), if those coordinates lie inside the grid.
pub open spec fn spec_get_block(g: Seq<Seq<Block>>, x: int, y: int) -> Option<Block> {
    if 0 <= y < g.len() && 0 <= x < g[y].len() {
        Some(g[y][x])
    } else {
        None
    }
}

/// The walkable block at (x, y) as a sequence of at most one element:
/// a building brick for the neighbor enumeration.
pub open spec fn walk_opt(g: Seq<Seq<Block>>, x: int, y: int) -> Seq<Block> {
    match spec_get_block(g, x, y) {
        Some(b) => if is_walkable_of(b.block_type) {
            seq![b]
        } else {
            Seq::empty()
        },
        None => Seq::empty(),
    }
}

/// The walkable axis-adjacent neighbors of (x, y), clipped at the boundary,
/// enumerated left, top, right, bottom.
pub open spec fn reachable_spec(g: Seq<Seq<Block>>, x: int, y: int) -> Seq<Block> {
    walk_opt(g, x - 1, y) + walk_opt(g, x, y - 1) + walk_opt(g, x + 1, y) + walk_opt(g, x, y + 1)
}

/// Two coordinate pairs that differ by exactly one step along one axis.
pub open spec fn adjacent(ax: int, ay: int, bx: int, by: int) -> bool {
    ||| bx == ax - 1 && by == ay
    ||| bx == ax + 1 && by == ay
    ||| by == ay - 1 && bx == ax
    ||| by == ay + 1 && bx == ax
}

/// Some listed location has the block's coordinates; the terrain category of
/// the listed location does not matter.
pub open spec fn at_listed_coords(locs: Seq<Block>, b: Block) -> bool {
    exists|k: int| 0 <= k < locs.len() && (#[trigger] locs[k]).x == b.x && locs[k].y == b.y
}

/// A block retagged as part of a solution when its coordinates appear among
/// `locs`.
pub open spec fn stamp_block(b: Block, locs: Seq<Block>) -> Block {
    if at_listed_coords(locs, b) {
        Block { block_type: BlockType::Solution, ..b }
    } else {
        b
    }
}

/// The grid with every block whose coordinates appear in `locs` retagged as
/// solution.
pub open spec fn stamped(g: Seq<Seq<Block>>, locs: Seq<Block>) -> Seq<Seq<Block>> {
    g.map_values(|row: Seq<Block>| row.map_values(|b: Block| stamp_block(b, locs)))
}

impl Grid {
    pub fn new(blocks: Vec<Vec<Block>>) -> (r: Grid)
        requires
            grid_wf(blocks@.map_values(|row: Vec<Block>| row@)),
        ensures
            r@ == blocks@.map_values(|row: Vec<Block>| row@),
            grid_wf(r@),
    {
        Grid { blocks }
    }

    pub fn height(&self) -> (r: usize)
        ensures
            r == self@.len(),
    {
        proof {
            assert(self@.len() == self.blocks@.len());
        }
        self.blocks.len()
    }

    pub fn width(&self) -> (r: usize)
        requires
            self@.len() >= 1,
        ensures
            r == self@[0].len(),
    {
        proof {
            assert(self@[0] == self.blocks@[0]@);
        }
        self.blocks[0].len()
    }

    pub fn get_block(&self, x: usize, y: usize) -> (r: Option<Block>)
        ensures
            r == spec_get_block(self@, x as int, y as int),
    {
        proof {
            assert(self@.len() == self.blocks@.len());
            if y < self.blocks@.len() {
                assert(self@[y as int] == self.blocks@[y as int]@);
            }
        }
        if y < self.blocks.len() {
            let row = &self.blocks[y];
            if x < row.len() {
                Some(row[x])
            } else {
                None
            }
        } else {
            None
        }
    }

    pub fn get_reachable(&self, x: usize, y: usize) -> (r: Vec<Block>)
        requires
            grid_wf(self@),
        ensures
            r@ == reachable_spec(self@, x as int, y as int),
    {
        let mut r: Vec<Block> = Vec::new();

        // To the left
        if x > 0 {
            if let Some(b) = self.get_block(x - 1, y) {
                if b.is_walkable() {
                    r.push(b);
                }
            }
        }
        assert(r@ =~= walk_opt(self@, x - 1, y as int));

        // To the top
        if y > 0 {
            if let Some(b) = self.get_block(x, y - 1) {
                if b.is_walkable() {
                    r.push(b);
                }
            }
        }
        assert(r@ =~= walk_opt(self@, x - 1, y as int) + walk_opt(self@, x as int, y - 1));

        // To the right
        if x < usize::MAX {
            if let Some(b) = self.get_block(x + 1, y) {
                if b.is_walkable() {
                    r.push(b);
                }
            }
        } else {
            proof {
                assert(spec_get_block(self@, x + 1, y as int) is None);
            }
        }
        assert(r@ =~= walk_opt(self@, x - 1, y as int) + walk_opt(self@, x as int, y - 1) + walk_opt(
            self@,
            x + 1,
            y as int,
        ));

        // To the bottom
        if y < usize::MAX {
            if let Some(b) = self.get_block(x, y + 1) {
                if b.is_walkable() {
                    r.push(b);
                }
            }
        } else {
            proof {
                assert(spec_get_block(self@, x as int, y + 1) is None);
            }
        }
        assert(r@ =~= reachable_spec(self@, x as int, y as int));

        r
    }

    /// A deep copy whose view is the same; spelled out so that verified
    /// callers know the copy equals the original.
    pub(crate) fn duplicate(&self) -> (r: Grid)
        ensures
            r@ == self@,
    {
        let mut rows: Vec<Vec<Block>> = Vec::new();
        let mut y: usize = 0;
        while y < self.blocks.len()
            invariant
                y <= self.blocks@.len(),
                rows@.len() == y,
                forall|j: int| 0 <= j < y ==> #[trigger] rows@[j]@ == self.blocks@[j]@,
            decreases self.blocks@.len() - y,
        {
            let src = &self.blocks[y];
            let mut row: Vec<Block> = Vec::new();
            let mut x: usize = 0;
            while x < src.len()
                invariant
                    x <= src@.len(),
                    row@ =~= src@.subrange(0, x as int),
                decreases src@.len() - x,
            {
                row.push(src[x]);
                x += 1;
            }
            assert(row@ =~= src@);
            rows.push(row);
            y += 1;
        }
        let r = Grid { blocks: rows };
        proof {
            assert(r@ =~= self@);
        }
        r
    }

    /// Renders the grid as symbol rows, painting every block that appears
    /// among `locations` as a solution block.
    pub fn to_string_with_locations(&self, locations: &Vec<Block>) -> (r: String)
        ensures
            r@ == grid_chars(stamped(self@, locations@)),
    {
        let ghost sg = stamped(self@, locations@);
        let mut res = String::new();
        proof {
            reveal_strlit("\n");
            assert(sg.subrange(0, 0) =~= Seq::empty());
            assert(res@ =~= grid_chars(sg.subrange(0, 0)));
        }
        let mut y: usize = 0;
        while y < self.blocks.len()
            invariant
                y <= self.blocks@.len(),
                sg == stamped(self@, locations@),
                sg.len() == self.blocks@.len(),
                forall|j: int|
                    0 <= j < sg.len() ==> #[trigger] sg[j] == self@[j].map_values(
                        |b: Block| stamp_block(b, locations@),
                    ),
                res@ == grid_chars(sg.subrange(0, y as int)),
            decreases self.blocks@.len() - y,
        {
            let src = &self.blocks[y];
            proof {
                assert(self@[y as int] == self.blocks@[y as int]@);
            }
            let mut x: usize = 0;
            while x < src.len()
                invariant
                    x <= src@.len(),
                    y < self.blocks@.len(),
                    src@ == self.blocks@[y as int]@,
                    self@[y as int] == self.blocks@[y as int]@,
                    sg == stamped(self@, locations@),
                    sg.len() == self.blocks@.len(),
                    sg[y as int] == self@[y as int].map_values(
                        |b: Block| stamp_block(b, locations@),
                    ),
                    res@ == grid_chars(sg.subrange(0, y as int)) + Seq::new(
                        x as nat,
                        |i: int| block_char(sg[y as int][i].block_type),
                    ),
                decreases src@.len() - x,
            {
                let b = src[x];
                let shown = if contains_coords(locations, b) {
                    BlockType::Solution
                } else {
                    b.block_type
                };
                proof {
                    assert(shown == stamp_block(b, locations@).block_type);
                    assert(sg[y as int][x as int] == stamp_block(b, locations@));
                }
                res.append(block_symbol(shown));
                proof {
                    assert(res@ =~= grid_chars(sg.subrange(0, y as int)) + Seq::new(
                        (x + 1) as nat,
                        |i: int| block_char(sg[y as int][i].block_type),
                    ));
                }
                x += 1;
            }
            res.append("\n");
            proof {
                reveal_strlit("\n");
                assert("\n"@ =~= seq!['\n']);
                assert(sg.subrange(0, (y + 1) as int).drop_last() =~= sg.subrange(0, y as int));
                assert(sg.subrange(0, (y + 1) as int).last() == sg[y as int]);
                assert(row_chars(sg[y as int]) =~= Seq::new(
                    src@.len(),
                    |i: int| block_char(sg[y as int][i].block_type),
                ).push('\n'));
                assert(res@ =~= grid_chars(sg.subrange(0, (y + 1) as int)));
            }
            y += 1;
        }
        proof {
            assert(sg.subrange(0, sg.len() as int) =~= sg);
        }
        res
    }

    pub fn enter_solution(&mut self, locations: &Vec<Block>)
        ensures
            final(self)@ == stamped(old(self)@, locations@),
    {
        let mut rows: Vec<Vec<Block>> = Vec::new();
        let mut y: usize = 0;
        while y < self.blocks.len()
            invariant
                y <= self.blocks@.len(),
                rows@.len() == y,
                forall|j: int| #![auto]
                    0 <= j < y ==> rows@[j]@ == self.blocks@[j]@.map_values(
                        |b: Block| stamp_block(b, locations@),
                    ),
            decreases self.blocks@.len() - y,
        {
            let src = &self.blocks[y];
            let mut row: Vec<Block> = Vec::new();
            let mut x: usize = 0;
            while x < src.len()
                invariant
                    x <= src@.len(),
                    row@.len() == x,
                    forall|i: int| #![auto]
                        0 <= i < x ==> row@[i] == stamp_block(src@[i], locations@),
                decreases src@.len() - x,
            {
                let b = src[x];
                if contains_coords(locations, b) {
                    row.push(Block { x: b.x, y: b.y, block_type: BlockType::Solution });
                } else {
                    row.push(b);
                }
                x += 1;
            }
            assert(row@ =~= src@.map_values(|b: Block| stamp_block(b, locations@)));
            rows.push(row);
            y += 1;
        }
        self.blocks = rows;
        proof {
            assert(final(self)@ =~= stamped(old(self)@, locations@));
        }
    }
}

/// The display symbol of a terrain category.
pub open spec fn block_char(t: BlockType) -> char {
    match t {
        BlockType::White => '⬜',
        BlockType::Black => '⬛',
        BlockType::Orange => '🟧',
        BlockType::Blue => '🟦',
        BlockType::Green => '🟩',
        BlockType::Yellow => '🟨',
        BlockType::Border => '🟥',
        BlockType::Solution => '🤖',
    }
}

/// One rendered grid row: a symbol per block, closed by a newline.
pub open spec fn row_chars(row: Seq<Block>) -> Seq<char> {
    Seq::new(row.len(), |i: int| block_char(row[i].block_type)).push('\n')
}

/// The whole rendered grid, row by row.
pub open spec fn grid_chars(g: Seq<Seq<Block>>) -> Seq<char>
    decreases g.len(),
{
    if g.len() == 0 {
        Seq::empty()
    } else {
        grid_chars(g.drop_last()) + row_chars(g.last())
    }
}

/// The display symbol of a terrain category, as a string slice.
fn block_symbol(t: BlockType) -> (r: &'static str)
    ensures
        r@ == seq![block_char(t)],
{
    match t {
        BlockType::White => {
            proof {
                reveal_strlit("⬜");
                assert("⬜"@ =~= seq![block_char(t)]);
            }
            "⬜"
        },
        BlockType::Black => {
            proof {
                reveal_strlit("⬛");
                assert("⬛"@ =~= seq![block_char(t)]);
            }
            "⬛"
        },
        BlockType::Orange => {
            proof {
                reveal_strlit("🟧");
                assert("🟧"@ =~= seq![block_char(t)]);
            }
            "🟧"
        },
        BlockType::Blue => {
            proof {
                reveal_strlit("🟦");
                assert("🟦"@ =~= seq![block_char(t)]);
            }
            "🟦"
        },
        BlockType::Green => {
            proof {
                reveal_strlit("🟩");
                assert("🟩"@ =~= seq![block_char(t)]);
            }
            "🟩"
        },
        BlockType::Yellow => {
            proof {
                reveal_strlit("🟨");
                assert("🟨"@ =~= seq![block_char(t)]);
            }
            "🟨"
        },
        BlockType::Border => {
            proof {
                reveal_strlit("🟥");
                assert("🟥"@ =~= seq![block_char(t)]);
            }
            "🟥"
        },
        BlockType::Solution => {
            proof {
                reveal_strlit("🤖");
                assert("🤖"@ =~= seq![block_char(t)]);
            }
            "🤖"
        },
    }
}

/// Linear test whether some block of `v` has the coordinates of `b`.
fn contains_coords(v: &Vec<Block>, b: Block) -> (r: bool)
    ensures
        r == at_listed_coords(v@, b),
{
    let mut k: usize = 0;
    while k < v.len()
        invariant
            k <= v@.len(),
            forall|i: int| 0 <= i < k ==> !((#[trigger] v@[i]).x == b.x && v@[i].y == b.y),
        decreases v@.len() - k,
    {
        if v[k].x == b.x && v[k].y == b.y {
            return true;
        }
        k += 1;
    }
    false
}

/// Membership in the neighbor enumeration, characterized by coordinates:
/// a block is reachable from (x, y) exactly when it sits at an adjacent
/// in-bounds position and is walkable.
pub proof fn lemma_reachable_characterization(g: Seq<Seq<Block>>, x: int, y: int, b: Block)
    requires
        grid_wf(g),
    ensures
        reachable_spec(g, x, y).contains(b) <==> (0 <= b.y < g.len() && 0 <= b.x < g[0].len()
            && g[b.y as int][b.x as int] == b && is_walkable_of(b.block_type) && adjacent(
            x,
            y,
            b.x as int,
            b.y as int,
        )),
{
    let r = reachable_spec(g, x, y);
    if r.contains(b) {
        let k = choose|k: int| 0 <= k < r.len() && r[k] == b;
        assert(walk_opt(g, x - 1, y).contains(b) || walk_opt(g, x, y - 1).contains(b) || walk_opt(
            g,
            x + 1,
            y,
        ).contains(b) || walk_opt(g, x, y + 1).contains(b)) by {
            let s1 = walk_opt(g, x - 1, y);
            let s2 = walk_opt(g, x, y - 1);
            let s3 = walk_opt(g, x + 1, y);
            let s4 = walk_opt(g, x, y + 1);
            if k < s1.len() {
                assert(s1[k] == b);
            } else if k < s1.len() + s2.len() {
                assert(s2[k - s1.len()] == b);
            } else if k < s1.len() + s2.len() + s3.len() {
                assert(s3[k - s1.len() - s2.len()] == b);
            } else {
                assert(s4[k - s1.len() - s2.len() - s3.len()] == b);
            }
        }
    }
    if 0 <= b.y < g.len() && 0 <= b.x < g[0].len() && g[b.y as int][b.x as int] == b
        && is_walkable_of(b.block_type) && adjacent(x, y, b.x as int, b.y as int) {
        let s1 = walk_opt(g, x - 1, y);
        let s2 = walk_opt(g, x, y - 1);
        let s3 = walk_opt(g, x + 1, y);
        let s4 = walk_opt(g, x, y + 1);
        if b.x == x - 1 && b.y == y {
            assert(s1[0int] == b);
            assert(r[0int] == b);
        } else if b.x == x + 1 && b.y == y {
            assert(s3[0int] == b);
            assert(r[s1.len() + s2.len() as int] == b);
        } else if b.y == y - 1 && b.x == x {
            assert(s2[0int] == b);
            assert(r[s1.len() as int] == b);
        } else {
            assert(s4[0int] == b);
            assert(r[(s1.len() + s2.len() + s3.len()) as int] == b);
        }
    }
}

/// Neighbor symmetry: whenever `b` is a walkable neighbor of the walkable
/// block at (ax, ay), that block is in turn a neighbor of `b`. At edges and
/// corners the enumeration is merely shorter, never asymmetric.
pub proof fn lemma_reachable_symmetric(g: Seq<Seq<Block>>, ax: int, ay: int, b: Block)
    requires
        grid_wf(g),
        0 <= ay < g.len(),
        0 <= ax < g[0].len(),
        is_walkable_of(g[ay][ax].block_type),
        reachable_spec(g, ax, ay).contains(b),
    ensures
        reachable_spec(g, b.x as int, b.y as int).contains(g[ay][ax]),
{
    lemma_reachable_characterization(g, ax, ay, b);
    lemma_reachable_characterization(g, b.x as int, b.y as int, g[ay][ax]);
}

}
