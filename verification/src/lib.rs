use vstd::pervasive::unreached;
use vstd::prelude::*;

mod map;
mod maze_generation;
mod pqueue;
mod rng;
mod sums;

pub use map::Block;
pub use map::BlockType;
pub use map::Grid;
pub use map::MAX_DIM;
pub use maze_generation::generate_maze;
pub use maze_generation::Cell;
pub use maze_generation::Color;
pub use maze_generation::MazeError;
pub use maze_generation::MazeMap;
pub use maze_generation::Relation;
pub use maze_generation::Wall;
pub use maze_generation::PROB_UNIT;

use crate::map::grid_chars;
use crate::map::grid_wf;
use crate::map::is_walkable_of;
use crate::map::lemma_reachable_characterization;
use crate::map::reachable_spec;
use crate::map::spec_get_block;
use crate::map::speed_of;
use crate::map::stamped;
use crate::pqueue::pq_empty;
use crate::pqueue::pq_is_empty;
use crate::pqueue::pq_new;
use crate::pqueue::pq_pop;
use crate::pqueue::pq_push;
use crate::pqueue::pq_remove;
use crate::pqueue::pq_view;
use crate::pqueue::Frontier;
use crate::sums::lemma_seq_sum_nonneg;
use crate::sums::lemma_seq_sum_update;
use crate::sums::seq_sum;

verus! {

/// The failure of a path search: the frontier ran out before the destination
/// was reached.
#[derive(Debug, Clone, Copy, PartialEq, Eq, Structural)]
pub enum SearchError {
    NotFound,
}

/// A search state: the block the agent stands on.
#[derive(Debug, Clone, Copy, PartialEq, Eq, Structural)]
pub struct State {
    pub location: Block,
}

impl State {
    fn new(location: Block) -> (r: State)
        ensures
            r == (State { location }),
    {
        State { location }
    }

    /// Renders the grid with this state's location painted as a solution
    /// block.
    pub fn display_on_map(&self, map: &Grid) -> (r: String)
        ensures
            r@ == grid_chars(stamped(map@, seq![self.location])),
    {
        let mut locations: Vec<Block> = Vec::new();
        locations.push(self.location);
        proof {
            assert(locations@ =~= seq![self.location]);
        }
        map.to_string_with_locations(&locations)
    }
}

/// A search node in the arena: its state, the arena index of its parent, and
/// the cost accumulated from the start. Nodes are never edited, only
/// superseded, so a parent chain read later still describes the walk that
/// created it.
struct Node {
    state: State,
    parent: Option<usize>,
    cost: u128,
}

impl Node {
    fn new(state: State, parent: Option<usize>, cost: u128) -> (r: Node)
        ensures
            r.state == state,
            r.parent == parent,
            r.cost == cost,
    {
        Node { state, parent, cost }
    }

    /// The frontier ordering value: accumulated cost plus the straight-line
    /// distance to the destination, so the cheapest promising node pops first.
    fn f(&self, destination: Block) -> (r: u128)
        requires
            self.state.location.x <= MAX_DIM,
            self.state.location.y <= MAX_DIM,
            destination.x <= MAX_DIM,
            destination.y <= MAX_DIM,
            self.cost <= (usize::MAX as u128) * (usize::MAX as u128),
        ensures
            r as int == self.cost + heuristic(self.state.location, destination),
            r >= self.cost,
            self.state.location == destination ==> r == self.cost,
            r <= self.cost + 0x2000_0000,
    {
        let h = euclidean_distance(self.state.location, destination);
        proof {
            assert(self.cost + h <= u128::MAX) by (nonlinear_arith)
                requires
                    self.cost <= (usize::MAX as u128) * (usize::MAX as u128),
                    h <= 0x2000_0000,
            ;
        }
        h + self.cost
    }
}

/// The squared straight-line distance between two blocks' coordinates.
pub open spec fn dist_sq(a: Block, b: Block) -> int {
    (a.x - b.x) * (a.x - b.x) + (a.y - b.y) * (a.y - b.y)
}

/// The truncated integer square root: the greatest `r` with `r * r <= n`.
pub open spec fn spec_isqrt(n: int) -> int
    decreases n,
{
    if n <= 0 {
        0
    } else {
        let r = spec_isqrt(n - 1);
        if (r + 1) * (r + 1) <= n {
            r + 1
        } else {
            r
        }
    }
}

/// The search heuristic: the straight-line distance between two blocks,
/// truncated to an integer.
pub open spec fn heuristic(a: Block, b: Block) -> int {
    spec_isqrt(dist_sq(a, b))
}

/// The characterization of the truncated square root.
pub proof fn lemma_spec_isqrt_bounds(n: int)
    requires
        n >= 0,
    ensures
        spec_isqrt(n) >= 0,
        spec_isqrt(n) * spec_isqrt(n) <= n,
        n < (spec_isqrt(n) + 1) * (spec_isqrt(n) + 1),
    decreases n,
{
    if n > 0 {
        lemma_spec_isqrt_bounds(n - 1);
        let r = spec_isqrt(n - 1);
        if (r + 1) * (r + 1) <= n {
            assert(n < (r + 2) * (r + 2)) by (nonlinear_arith)
                requires
                    r >= 0,
                    n - 1 < (r + 1) * (r + 1),
            ;
        }
    }
}

/// Only one value satisfies the square-root characterization.
proof fn lemma_spec_isqrt_unique(n: int, r: int)
    requires
        n >= 0,
        r >= 0,
        r * r <= n,
        n < (r + 1) * (r + 1),
    ensures
        r == spec_isqrt(n),
{
    lemma_spec_isqrt_bounds(n);
    let s = spec_isqrt(n);
    assert(r == s) by (nonlinear_arith)
        requires
            r >= 0,
            s >= 0,
            r * r <= n,
            n < (r + 1) * (r + 1),
            s * s <= n,
            n < (s + 1) * (s + 1),
    ;
}

/// The straight-line distance between the two blocks' coordinates, truncated
/// to an integer.
fn euclidean_distance(a: Block, b: Block) -> (r: u128)
    requires
        a.x <= MAX_DIM,
        a.y <= MAX_DIM,
        b.x <= MAX_DIM,
        b.y <= MAX_DIM,
    ensures
        r as int == heuristic(a, b),
        r <= 0x2000_0000,
        a == b ==> r == 0,
{
    let dx: u128 = if a.x >= b.x {
        (a.x - b.x) as u128
    } else {
        (b.x - a.x) as u128
    };
    let dy: u128 = if a.y >= b.y {
        (a.y - b.y) as u128
    } else {
        (b.y - a.y) as u128
    };
    proof {
        assert(dx * dx + dy * dy <= 2 * (0x1000_0000 as u128) * (0x1000_0000 as u128))
            by (nonlinear_arith)
            requires
                dx <= 0x1000_0000u128,
                dy <= 0x1000_0000u128,
        ;
    }
    let dd = dx * dx + dy * dy;
    let r = isqrt(dd);
    proof {
        assert(r <= 0x2000_0000) by (nonlinear_arith)
            requires
                r * r <= dd,
                dd <= 2 * (0x1000_0000 as u128) * (0x1000_0000 as u128),
        ;
        if a == b {
            assert(dx == 0 && dy == 0);
            assert(dd == 0) by (nonlinear_arith)
                requires
                    dx == 0u128,
                    dy == 0u128,
                    dd == dx * dx + dy * dy,
            ;
            assert(r == 0) by (nonlinear_arith)
                requires
                    r * r <= 0u128,
            ;
        }
        assert(dd as int == dist_sq(a, b)) by (nonlinear_arith)
            requires
                (dx as int == a.x - b.x || dx as int == b.x - a.x),
                (dy as int == a.y - b.y || dy as int == b.y - a.y),
                dd == dx * dx + dy * dy,
        ;
        lemma_spec_isqrt_unique(dist_sq(a, b), r as int);
    }
    r
}

/// The integer square root, truncated: the greatest `r` with `r * r <= n`.
fn isqrt(n: u128) -> (r: u128)
    requires
        n < 0x4000_0000_0000_0000 * 0x4000_0000_0000_0000,
    ensures
        r * r <= n,
        n < (r + 1) * (r + 1),
{
    let mut lo: u128 = 0;
    let mut hi: u128 = 0x4000_0000_0000_0000;
    while lo + 1 < hi
        invariant
            lo < hi,
            hi <= 0x4000_0000_0000_0000,
            lo * lo <= n,
            n < hi * hi,
        decreases hi - lo,
    {
        let mid = lo + (hi - lo) / 2;
        proof {
            assert(mid * mid <= 0x4000_0000_0000_0000 * 0x4000_0000_0000_0000)
                by (nonlinear_arith)
                requires
                    mid <= 0x4000_0000_0000_0000u128,
            ;
        }
        if mid * mid <= n {
            lo = mid;
        } else {
            hi = mid;
        }
    }
    lo
}

/// The locations along a sequence of states.
pub open spec fn locations_of(states: Seq<State>) -> Seq<Block> {
    states.map_values(|s: State| s.location)
}

/// Each state after the first is a walkable neighbor of its predecessor.
pub open spec fn is_path(g: Seq<Seq<Block>>, states: Seq<State>) -> bool {
    forall|k: int|
        0 < k < states.len() ==> reachable_spec(
            g,
            states[k - 1].location.x as int,
            states[k - 1].location.y as int,
        ).contains((#[trigger] states[k]).location)
}

/// The accumulated movement cost of a walk: each state after the first is
/// paid for at its own speed; standing on the start is free.
pub open spec fn path_cost(states: Seq<State>) -> int
    decreases states.len(),
{
    if states.len() <= 1 {
        0
    } else {
        path_cost(states.drop_last()) + speed_of(states.last().location.block_type)
    }
}

/// The block is stored in the grid at its own coordinates and is walkable.
pub open spec fn walkable_block_at(g: Seq<Seq<Block>>, b: Block) -> bool {
    spec_get_block(g, b.x as int, b.y as int) == Some(b) && is_walkable_of(b.block_type)
}

/// The walk recorded by the parent links of node `i`: the start state first,
/// the node's own state last.
spec fn chain(nodes: Seq<Node>, i: int) -> Seq<State>
    decreases i,
{
    if 0 <= i < nodes.len() {
        match nodes[i].parent {
            None => seq![nodes[i].state],
            Some(p) => if (p as int) < i {
                chain(nodes, p as int).push(nodes[i].state)
            } else {
                Seq::empty()
            },
        }
    } else {
        Seq::empty()
    }
}

/// Growing the arena never changes the walk of an existing node.
proof fn lemma_chain_push(nodes: Seq<Node>, n: Node, i: int)
    requires
        0 <= i < nodes.len(),
    ensures
        chain(nodes.push(n), i) == chain(nodes, i),
    decreases i,
{
    match nodes[i].parent {
        None => {},
        Some(p) => {
            if (p as int) < i {
                lemma_chain_push(nodes, n, p as int);
            }
        },
    }
}

/// Parent links only ever point backwards in the arena.
spec fn parents_ok(nodes: Seq<Node>) -> bool {
    forall|j: int|
        0 <= j < nodes.len() ==> match (#[trigger] nodes[j]).parent {
            Some(p) => (p as int) < j,
            None => true,
        }
}

/// Everything that holds of one arena node: its parent walk starts at the
/// start block, moves only between walkable neighbors, ends in its own state,
/// and its cost is that walk's cost, bounded by its position in the arena.
spec fn node_ok(g: Seq<Seq<Block>>, start: Block, nodes: Seq<Node>, i: int) -> bool {
    let c = chain(nodes, i);
    &&& c.len() >= 1
    &&& c[0].location == start
    &&& c.last() == nodes[i].state
    &&& is_path(g, c)
    &&& nodes[i].cost == path_cost(c)
    &&& nodes[i].cost <= i * (usize::MAX as int)
    &&& (i == 0 || walkable_block_at(g, nodes[i].state.location))
    &&& nodes[i].state.location.x <= MAX_DIM
    &&& nodes[i].state.location.y <= MAX_DIM
}

spec fn arena_ok(g: Seq<Seq<Block>>, start: Block, nodes: Seq<Node>) -> bool {
    &&& parents_ok(nodes)
    &&& forall|i: int| 0 <= i < nodes.len() ==> node_ok(g, start, nodes, i)
}

/// The reached index as a grid of optional arena indices.
spec fn rv_of(r: &Vec<Vec<Option<usize>>>) -> Seq<Seq<Option<usize>>> {
    r@.map_values(|row: Vec<Option<usize>>| row@)
}

/// The reached index mirrors the grid and each entry names the best arena
/// node found so far for that coordinate; the start node itself is never
/// indexed, so entry indices are positive.
spec fn reached_ok(g: Seq<Seq<Block>>, nodes: Seq<Node>, rv: Seq<Seq<Option<usize>>>) -> bool {
    &&& rv.len() == g.len()
    &&& forall|y: int| 0 <= y < rv.len() ==> #[trigger] rv[y].len() == g[0].len()
    &&& forall|y: int, x: int|
        0 <= y < rv.len() && 0 <= x < rv[y].len() ==> match #[trigger] rv[y][x] {
            Some(j) => 1 <= (j as int) < nodes.len() && nodes[j as int].state.location == g[y][x],
            None => true,
        }
}

/// The frontier holds valid arena indices; only the start node can carry the
/// greatest possible priority.
spec fn frontier_ok(nodes: Seq<Node>, pqv: Map<usize, u128>) -> bool {
    &&& pqv.dom().finite()
    &&& forall|i: usize|
        #[trigger] pqv.dom().contains(i) ==> (i as int) < nodes.len() && (i != 0 ==> pqv[i]
            < u128::MAX)
}

/// The search loop's whole invariant.
spec fn search_inv(
    g: Seq<Seq<Block>>,
    start: Block,
    nodes: Seq<Node>,
    rv: Seq<Seq<Option<usize>>>,
    pqv: Map<usize, u128>,
) -> bool {
    &&& grid_wf(g)
    &&& nodes.len() >= 1
    &&& nodes[0].state.location == start
    &&& nodes[0].cost == 0
    &&& arena_ok(g, start, nodes)
    &&& reached_ok(g, nodes, rv)
    &&& frontier_ok(nodes, pqv)
}

/// The block's position carries a reached entry.
spec fn coord_reached(rv: Seq<Seq<Option<usize>>>, b: Block) -> bool {
    &&& 0 <= (b.y as int) < rv.len()
    &&& 0 <= (b.x as int) < rv[b.y as int].len()
    &&& rv[b.y as int][b.x as int] is Some
}

/// The position (x, y) has been taken off the frontier and expanded: it is
/// not the destination, and every walkable neighbor has a reached entry.
spec fn coord_expanded(
    g: Seq<Seq<Block>>,
    dest: Block,
    rv: Seq<Seq<Option<usize>>>,
    x: int,
    y: int,
) -> bool {
    &&& g[y][x] != dest
    &&& forall|nb: Block| #[trigger]
        reachable_spec(g, x, y).contains(nb) ==> coord_reached(rv, nb)
}

/// Every reached position still waits in the frontier or has been expanded:
/// the discovered region is only ever abandoned once it is exhausted.
spec fn closure_inv(
    g: Seq<Seq<Block>>,
    dest: Block,
    rv: Seq<Seq<Option<usize>>>,
    pqv: Map<usize, u128>,
) -> bool {
    forall|y: int, x: int|
        0 <= y < rv.len() && 0 <= x < rv[y].len() ==> match #[trigger] rv[y][x] {
            Some(j) => pqv.dom().contains(j) || coord_expanded(g, dest, rv, x, y),
            None => true,
        }
}

/// The start node still waits in the frontier, or it has been expanded
/// without being the destination.
spec fn start_closure(
    g: Seq<Seq<Block>>,
    start: Block,
    dest: Block,
    rv: Seq<Seq<Option<usize>>>,
    pqv: Map<usize, u128>,
) -> bool {
    pqv.dom().contains(0usize) || (start != dest && forall|nb: Block| #[trigger]
        reachable_spec(g, start.x as int, start.y as int).contains(nb) ==> coord_reached(rv, nb))
}

/// Distinct positions never share a reached entry: an entry's node stands on
/// the block of its own position.
proof fn lemma_reached_injective(
    g: Seq<Seq<Block>>,
    nodes: Seq<Node>,
    rv: Seq<Seq<Option<usize>>>,
    x1: int,
    y1: int,
    x2: int,
    y2: int,
)
    requires
        grid_wf(g),
        reached_ok(g, nodes, rv),
        rv.len() == g.len(),
        0 <= y1 < rv.len(),
        0 <= x1 < rv[y1].len(),
        0 <= y2 < rv.len(),
        0 <= x2 < rv[y2].len(),
        rv[y1][x1] is Some,
        rv[y1][x1] == rv[y2][x2],
    ensures
        x1 == x2 && y1 == y2,
{
    let j = rv[y1][x1].unwrap();
    assert(nodes[j as int].state.location == g[y1][x1]);
    assert(nodes[j as int].state.location == g[y2][x2]);
    assert(g[y1][x1].x == x1 && g[y1][x1].y == y1);
    assert(g[y2][x2].x == x2 && g[y2][x2].y == y2);
}

/// One relax call keeps the closure invariants, with the popped position
/// excused: only the neighbor's position changes its entry, frontier indices
/// leave only when their position is re-queued, and reached entries never
/// disappear.
#[verifier::rlimit(100)]
proof fn lemma_closure_step(
    g: Seq<Seq<Block>>,
    start: Block,
    dest: Block,
    loc: Block,
    nodes0: Seq<Node>,
    nodes1: Seq<Node>,
    rv0: Seq<Seq<Option<usize>>>,
    rv1: Seq<Seq<Option<usize>>>,
    pqv0: Map<usize, u128>,
    pqv1: Map<usize, u128>,
    nb: Block,
    newidx: usize,
)
    requires
        grid_wf(g),
        reached_ok(g, nodes0, rv0),
        rv0.len() == g.len(),
        0 <= (nb.y as int) < rv0.len(),
        0 <= (nb.x as int) < rv0[nb.y as int].len(),
        (rv1 == rv0 && pqv1 == pqv0) || (rv1 == rv0.update(
            nb.y as int,
            rv0[nb.y as int].update(nb.x as int, Some(newidx)),
        ) && pqv1.dom().contains(newidx)),
        forall|jj: usize|
            #[trigger] pqv0.dom().contains(jj) ==> pqv1.dom().contains(jj) || rv0[nb.y as int][nb.x as int]
                == Some(jj),
        forall|i: int| 0 <= i < nodes0.len() ==> #[trigger] nodes1[i] == nodes0[i],
        nodes1.len() >= nodes0.len(),
        // the invariants before the call, with the popped position excused
        forall|y: int, x: int|
            0 <= y < rv0.len() && 0 <= x < rv0[y].len() ==> match #[trigger] rv0[y][x] {
                Some(j) => pqv0.dom().contains(j) || coord_expanded(g, dest, rv0, x, y)
                    || nodes0[j as int].state.location == loc,
                None => true,
            },
        pqv0.dom().contains(0usize) || (start != dest && forall|nbs: Block| #[trigger]
            reachable_spec(g, start.x as int, start.y as int).contains(nbs) ==> coord_reached(
                rv0,
                nbs,
            )) || loc == start,
    ensures
        forall|y: int, x: int|
            0 <= y < rv1.len() && 0 <= x < rv1[y].len() ==> match #[trigger] rv1[y][x] {
                Some(j) => pqv1.dom().contains(j) || coord_expanded(g, dest, rv1, x, y)
                    || nodes1[j as int].state.location == loc,
                None => true,
            },
        pqv1.dom().contains(0usize) || (start != dest && forall|nbs: Block| #[trigger]
            reachable_spec(g, start.x as int, start.y as int).contains(nbs) ==> coord_reached(
                rv1,
                nbs,
            )) || loc == start,
        forall|b: Block| #[trigger] coord_reached(rv0, b) ==> coord_reached(rv1, b),
{
    let nx = nb.x as int;
    let ny = nb.y as int;
    assert forall|b: Block| #[trigger] coord_reached(rv0, b) implies coord_reached(rv1, b) by {
        if rv1 != rv0 {
            if b.y as int == ny && b.x as int == nx {
                assert(rv1[ny][nx] == Some(newidx));
            } else {
                assert(rv1[b.y as int][b.x as int] == rv0[b.y as int][b.x as int]);
            }
        }
    }
    assert forall|y: int, x: int|
        0 <= y < rv1.len() && 0 <= x < rv1[y].len() implies match #[trigger] rv1[y][x] {
        Some(j) => pqv1.dom().contains(j) || coord_expanded(g, dest, rv1, x, y)
            || nodes1[j as int].state.location == loc,
        None => true,
    } by {
        match rv1[y][x] {
            Some(j) => {
                if rv1 != rv0 && y == ny && x == nx {
                    assert(j == newidx);
                    assert(pqv1.dom().contains(j));
                } else {
                    assert(rv1[y][x] == rv0[y][x]);
                    if pqv0.dom().contains(j) {
                        if !pqv1.dom().contains(j) {
                            assert(rv0[ny][nx] == Some(j));
                            lemma_reached_injective(g, nodes0, rv0, x, y, nx, ny);
                            assert(false);
                        }
                    } else if coord_expanded(g, dest, rv0, x, y) {
                        assert forall|nbs: Block| #[trigger]
                            reachable_spec(g, x, y).contains(nbs) implies coord_reached(
                            rv1,
                            nbs,
                        ) by {
                            assert(coord_reached(rv0, nbs));
                        }
                        assert(coord_expanded(g, dest, rv1, x, y));
                    } else {
                        assert(nodes0[j as int].state.location == loc);
                        assert(nodes1[j as int] == nodes0[j as int]);
                    }
                }
            },
            None => {},
        }
    }
    if !pqv1.dom().contains(0usize) && loc != start {
        if pqv0.dom().contains(0usize) {
            // index zero is never a reached entry, so it can only have left
            // with the whole queue unchanged
            assert(rv0[ny][nx] != Some(0usize));
            assert(false);
        }
        if start != dest {
            assert forall|nbs: Block| #[trigger]
                reachable_spec(g, start.x as int, start.y as int).contains(nbs) implies
                coord_reached(rv1, nbs) by {
                assert(coord_reached(rv0, nbs));
            }
        }
    }
}

/// Once the search has abandoned its whole frontier, every position along a
/// walk from the start carries a reached entry: the first step is a neighbor
/// of the start, and each expanded position has reached all its neighbors.
proof fn lemma_path_reached(
    g: Seq<Seq<Block>>,
    start: Block,
    dest: Block,
    rv: Seq<Seq<Option<usize>>>,
    p: Seq<State>,
    k: int,
)
    requires
        grid_wf(g),
        rv.len() == g.len(),
        forall|y: int| 0 <= y < rv.len() ==> #[trigger] rv[y].len() == g[0].len(),
        forall|y: int, x: int|
            0 <= y < rv.len() && 0 <= x < rv[y].len() && (#[trigger] rv[y][x]) is Some
                ==> coord_expanded(g, dest, rv, x, y),
        forall|nb: Block| #[trigger]
            reachable_spec(g, start.x as int, start.y as int).contains(nb) ==> coord_reached(
                rv,
                nb,
            ),
        is_path(g, p),
        p.len() >= 1,
        p[0].location == start,
        1 <= k < p.len(),
    ensures
        coord_reached(rv, p[k].location),
        walkable_block_at(g, p[k].location),
    decreases k,
{
    if k == 1 {
        assert(reachable_spec(g, start.x as int, start.y as int).contains(p[1].location));
    } else {
        lemma_path_reached(g, start, dest, rv, p, k - 1);
        let b = p[k - 1].location;
        assert(rv[b.y as int][b.x as int] is Some);
        assert(coord_expanded(g, dest, rv, b.x as int, b.y as int));
        assert(reachable_spec(g, b.x as int, b.y as int).contains(p[k].location));
    }
    lemma_reachable_characterization(
        g,
        p[k - 1].location.x as int,
        p[k - 1].location.y as int,
        p[k].location,
    );
}

/// How many entries of one row are still unreached.
spec fn row_unreached(row: Seq<Option<usize>>) -> int {
    seq_sum(
        Seq::new(
            row.len(),
            |x: int|
                if row[x] is None {
                    1int
                } else {
                    0int
                },
        ),
    )
}

/// How many grid positions have no reached entry yet.
spec fn unreached_count(rv: Seq<Seq<Option<usize>>>) -> int {
    seq_sum(Seq::new(rv.len(), |y: int| row_unreached(rv[y])))
}

/// The cost recorded for one reached entry.
spec fn entry_cost(e: Option<usize>, nodes: Seq<Node>) -> int {
    match e {
        Some(j) => if 0 <= (j as int) < nodes.len() {
            nodes[j as int].cost as int
        } else {
            0
        },
        None => 0,
    }
}

/// The recorded costs of one row of reached entries.
spec fn row_cost(row: Seq<Option<usize>>, nodes: Seq<Node>) -> int {
    seq_sum(Seq::new(row.len(), |x: int| entry_cost(row[x], nodes)))
}

/// The sum of all reached costs: it shrinks whenever a cheaper route
/// supersedes an entry.
spec fn cost_sum(rv: Seq<Seq<Option<usize>>>, nodes: Seq<Node>) -> int {
    seq_sum(Seq::new(rv.len(), |y: int| row_cost(rv[y], nodes)))
}

proof fn lemma_unreached_count_update(rv: Seq<Seq<Option<usize>>>, x: int, y: int, j: usize)
    requires
        0 <= y < rv.len(),
        0 <= x < rv[y].len(),
    ensures
        unreached_count(rv.update(y, rv[y].update(x, Some(j)))) == unreached_count(rv) - (
        if rv[y][x] is None {
            1int
        } else {
            0int
        }),
{
    let rv2 = rv.update(y, rv[y].update(x, Some(j)));
    let outer1 = Seq::new(rv.len(), |yy: int| row_unreached(rv[yy]));
    let outer2 = Seq::new(rv2.len(), |yy: int| row_unreached(rv2[yy]));
    assert forall|yy: int| 0 <= yy < rv.len() && yy != y implies outer2[yy] == outer1[yy] by {
        assert(rv2[yy] =~= rv[yy]);
    }
    let inner1 = Seq::new(
        rv[y].len(),
        |xx: int|
            if rv[y][xx] is None {
                1int
            } else {
                0int
            },
    );
    let inner2 = Seq::new(
        rv2[y].len(),
        |xx: int|
            if rv2[y][xx] is None {
                1int
            } else {
                0int
            },
    );
    assert(inner2 =~= inner1.update(x, 0int));
    lemma_seq_sum_update(inner1, x, 0int);
    assert(outer2 =~= outer1.update(y, row_unreached(rv2[y])));
    lemma_seq_sum_update(outer1, y, row_unreached(rv2[y]));
}

proof fn lemma_cost_sum_update(rv: Seq<Seq<Option<usize>>>, nodes: Seq<Node>, x: int, y: int, j: usize)
    requires
        0 <= y < rv.len(),
        0 <= x < rv[y].len(),
    ensures
        cost_sum(rv.update(y, rv[y].update(x, Some(j))), nodes) == cost_sum(rv, nodes) - entry_cost(
            rv[y][x],
            nodes,
        ) + entry_cost(Some(j), nodes),
{
    let rv2 = rv.update(y, rv[y].update(x, Some(j)));
    let outer1 = Seq::new(rv.len(), |yy: int| row_cost(rv[yy], nodes));
    let outer2 = Seq::new(rv2.len(), |yy: int| row_cost(rv2[yy], nodes));
    assert forall|yy: int| 0 <= yy < rv.len() && yy != y implies outer2[yy] == outer1[yy] by {
        assert(rv2[yy] =~= rv[yy]);
    }
    let inner1 = Seq::new(rv[y].len(), |xx: int| entry_cost(rv[y][xx], nodes));
    let inner2 = Seq::new(rv2[y].len(), |xx: int| entry_cost(rv2[y][xx], nodes));
    assert(inner2 =~= inner1.update(x, entry_cost(Some(j), nodes)));
    lemma_seq_sum_update(inner1, x, entry_cost(Some(j), nodes));
    assert(outer2 =~= outer1.update(y, row_cost(rv2[y], nodes)));
    lemma_seq_sum_update(outer1, y, row_cost(rv2[y], nodes));
}

/// Growing the arena changes no recorded cost: entries only ever index into
/// the existing prefix.
proof fn lemma_cost_sum_push(rv: Seq<Seq<Option<usize>>>, nodes: Seq<Node>, n: Node)
    requires
        forall|y: int, x: int|
            0 <= y < rv.len() && 0 <= x < rv[y].len() ==> match #[trigger] rv[y][x] {
                Some(j) => (j as int) < nodes.len(),
                None => true,
            },
    ensures
        cost_sum(rv, nodes.push(n)) == cost_sum(rv, nodes),
{
    let nodes2 = nodes.push(n);
    let outer1 = Seq::new(rv.len(), |yy: int| row_cost(rv[yy], nodes));
    let outer2 = Seq::new(rv.len(), |yy: int| row_cost(rv[yy], nodes2));
    assert forall|yy: int| 0 <= yy < rv.len() implies outer2[yy] == outer1[yy] by {
        let inner1 = Seq::new(rv[yy].len(), |xx: int| entry_cost(rv[yy][xx], nodes));
        let inner2 = Seq::new(rv[yy].len(), |xx: int| entry_cost(rv[yy][xx], nodes2));
        assert forall|xx: int| 0 <= xx < rv[yy].len() implies inner2[xx] == inner1[xx] by {
            match rv[yy][xx] {
                Some(j) => {
                    assert(nodes2[j as int] == nodes[j as int]);
                },
                None => {},
            }
        }
        assert(inner2 =~= inner1);
    }
    assert(outer2 =~= outer1);
}

proof fn lemma_unreached_count_nonneg(rv: Seq<Seq<Option<usize>>>)
    ensures
        unreached_count(rv) >= 0,
{
    let outer = Seq::new(rv.len(), |yy: int| row_unreached(rv[yy]));
    assert forall|yy: int| 0 <= yy < rv.len() implies #[trigger] outer[yy] >= 0 by {
        let inner = Seq::new(
            rv[yy].len(),
            |xx: int|
                if rv[yy][xx] is None {
                    1int
                } else {
                    0int
                },
        );
        lemma_seq_sum_nonneg(inner);
    }
    lemma_seq_sum_nonneg(outer);
}

proof fn lemma_cost_sum_nonneg(rv: Seq<Seq<Option<usize>>>, nodes: Seq<Node>)
    ensures
        cost_sum(rv, nodes) >= 0,
{
    let outer = Seq::new(rv.len(), |yy: int| row_cost(rv[yy], nodes));
    assert forall|yy: int| 0 <= yy < rv.len() implies #[trigger] outer[yy] >= 0 by {
        let inner = Seq::new(rv[yy].len(), |xx: int| entry_cost(rv[yy][xx], nodes));
        assert forall|xx: int| 0 <= xx < inner.len() implies #[trigger] inner[xx] >= 0 by {}
        lemma_seq_sum_nonneg(inner);
    }
    lemma_seq_sum_nonneg(outer);
}

/// A grid of empty reached entries, one per grid position.
fn make_reached(map: &Grid) -> (r: Vec<Vec<Option<usize>>>)
    requires
        grid_wf(map@),
    ensures
        rv_of(&r).len() == map@.len(),
        forall|y: int| 0 <= y < map@.len() ==> #[trigger] rv_of(&r)[y].len() == map@[0].len(),
        forall|y: int, x: int|
            0 <= y < map@.len() && 0 <= x < map@[0].len() ==> #[trigger] rv_of(&r)[y][x] is None,
{
    let height = map.height();
    let width = map.width();
    let mut v: Vec<Vec<Option<usize>>> = Vec::new();
    let mut y: usize = 0;
    while y < height
        invariant
            y <= height,
            v@.len() == y,
            forall|j: int| 0 <= j < y ==> #[trigger] v@[j]@.len() == width,
            forall|j: int, i: int| 0 <= j < y && 0 <= i < width ==> #[trigger] v@[j]@[i] is None,
        decreases height - y,
    {
        let row: Vec<Option<usize>> = vec![None; width];
        v.push(row);
        y += 1;
    }
    v
}

fn get_reached(r: &Vec<Vec<Option<usize>>>, x: usize, y: usize) -> (e: Option<usize>)
    requires
        (y as int) < rv_of(r).len(),
        (x as int) < rv_of(r)[y as int].len(),
    ensures
        e == rv_of(r)[y as int][x as int],
{
    proof {
        assert(rv_of(r)[y as int] == r@[y as int]@);
    }
    let row = &r[y];
    row[x]
}

fn set_reached(r: &mut Vec<Vec<Option<usize>>>, x: usize, y: usize, j: usize)
    requires
        (y as int) < rv_of(old(r)).len(),
        (x as int) < rv_of(old(r))[y as int].len(),
    ensures
        rv_of(final(r)) == rv_of(old(r)).update(
            y as int,
            rv_of(old(r))[y as int].update(x as int, Some(j)),
        ),
{
    proof {
        assert(rv_of(r)[y as int] == r@[y as int]@);
    }
    r[y][x] = Some(j);
    proof {
        assert(rv_of(final(r)) =~= rv_of(old(r)).update(
            y as int,
            rv_of(old(r))[y as int].update(x as int, Some(j)),
        ));
    }
}

/// The solved search: the ordered states from start to destination, the map
/// with the walk burned in, and the total accumulated cost.
#[derive(Debug)]
pub struct Solution {
    pub states: Vec<State>,
    pub map: Grid,
    pub cost: u128,
}

/// Reconstructs the walk of node `i` by following parent links back to the
/// start.
fn get_steps(nodes: &Vec<Node>, i: usize) -> (r: Vec<State>)
    requires
        parents_ok(nodes@),
        (i as int) < nodes@.len(),
    ensures
        r@ == chain(nodes@, i as int),
    decreases i,
{
    let mut v: Vec<State> = match nodes[i].parent {
        Some(p) => get_steps(nodes, p),
        None => Vec::new(),
    };
    v.push(nodes[i].state);
    proof {
        assert(v@ =~= chain(nodes@, i as int));
    }
    v
}

impl Solution {
    /// Builds the solution for node `i`: its reconstructed walk, the walk's
    /// cost, and a copy of the map with the walk stamped in.
    fn new(nodes: &Vec<Node>, i: usize, map: &Grid) -> (r: Solution)
        requires
            parents_ok(nodes@),
            (i as int) < nodes@.len(),
        ensures
            r.states@ == chain(nodes@, i as int),
            r.cost == nodes@[i as int].cost,
            r.map@ == stamped(map@, locations_of(chain(nodes@, i as int))),
    {
        let states = get_steps(nodes, i);
        let cost = nodes[i].cost;
        let mut solution_map = map.duplicate();
        let mut locations: Vec<Block> = Vec::new();
        let mut k: usize = 0;
        while k < states.len()
            invariant
                k <= states@.len(),
                locations@.len() == k,
                forall|j: int| 0 <= j < k ==> #[trigger] locations@[j] == states@[j].location,
            decreases states@.len() - k,
        {
            locations.push(states[k].location);
            k += 1;
        }
        proof {
            assert(locations@ =~= locations_of(states@));
        }
        solution_map.enter_solution(&locations);
        Solution { states, map: solution_map, cost }
    }

    pub fn to_solution_map(self) -> (r: Grid)
        ensures
            r == self.map,
    {
        self.map
    }

    /// One rendered frame per step of the solution, each painting that step's
    /// location on the given grid.
    pub fn as_sequence_of_maps(&self, map: &Grid) -> (r: Vec<String>)
        ensures
            r@.len() == self.states@.len(),
            forall|i: int|
                0 <= i < r@.len() ==> (#[trigger] r@[i])@ == grid_chars(
                    stamped(map@, seq![self.states@[i].location]),
                ),
    {
        let mut out: Vec<String> = Vec::new();
        let mut k: usize = 0;
        while k < self.states.len()
            invariant
                k <= self.states@.len(),
                out@.len() == k,
                forall|i: int|
                    0 <= i < k ==> (#[trigger] out@[i])@ == grid_chars(
                        stamped(map@, seq![self.states@[i].location]),
                    ),
            decreases self.states@.len() - k,
        {
            out.push(self.states[k].display_on_map(map));
            k += 1;
        }
        out
    }
}

/// Appending a fresh child node keeps the whole arena well-formed: the
/// child's walk is its parent's walk extended by the child's own state.
#[verifier::rlimit(100)]
#[verifier::spinoff_prover]
proof fn lemma_arena_push(g: Seq<Seq<Block>>, start: Block, nodes0: Seq<Node>, n: Node, parent: usize)
    requires
        grid_wf(g),
        arena_ok(g, start, nodes0),
        (parent as int) < nodes0.len(),
        n.parent == Some(parent),
        reachable_spec(
            g,
            nodes0[parent as int].state.location.x as int,
            nodes0[parent as int].state.location.y as int,
        ).contains(n.state.location),
        n.cost as int == nodes0[parent as int].cost + speed_of(n.state.location.block_type),
        n.cost as int <= nodes0.len() * (usize::MAX as int),
    ensures
        arena_ok(g, start, nodes0.push(n)),
        forall|i: int| 0 <= i < nodes0.len() ==> chain(nodes0.push(n), i) == #[trigger] chain(
            nodes0,
            i,
        ),
        chain(nodes0.push(n), nodes0.len() as int) == chain(nodes0, parent as int).push(n.state),
{
    let nodes2 = nodes0.push(n);
    let newidx = nodes0.len() as int;
    let nb = n.state.location;
    assert forall|i: int| 0 <= i < nodes0.len() implies chain(nodes2, i) == #[trigger] chain(
        nodes0,
        i,
    ) by {
        lemma_chain_push(nodes0, n, i);
    }
    lemma_reachable_characterization(
        g,
        nodes0[parent as int].state.location.x as int,
        nodes0[parent as int].state.location.y as int,
        nb,
    );
    assert(node_ok(g, start, nodes0, parent as int));
    let c0 = chain(nodes0, parent as int);
    let c1 = chain(nodes2, newidx);
    assert(c1 == chain(nodes2, parent as int).push(n.state));
    assert(c1 == c0.push(n.state));
    assert(is_path(g, c1)) by {
        assert forall|k: int|
            0 < k < c1.len() implies reachable_spec(
            g,
            c1[k - 1].location.x as int,
            c1[k - 1].location.y as int,
        ).contains((#[trigger] c1[k]).location) by {
            if k < c0.len() {
                assert(c1[k] == c0[k] && c1[k - 1] == c0[k - 1]);
                assert(is_path(g, c0));
            } else {
                assert(c1[k - 1] == c0.last());
                assert(c0.last() == nodes0[parent as int].state);
            }
        }
    }
    assert(c1.drop_last() =~= c0);
    assert(path_cost(c1) == path_cost(c0) + speed_of(nb.block_type));
    assert(walkable_block_at(g, nb));
    assert(node_ok(g, start, nodes2, newidx));
    assert forall|i: int| 0 <= i < nodes2.len() implies node_ok(g, start, nodes2, i) by {
        if i < nodes0.len() {
            assert(node_ok(g, start, nodes0, i));
            assert(chain(nodes2, i) == chain(nodes0, i));
        }
    }
}

/// Considers one walkable neighbor of the node at `parent`: a first route to
/// its position is recorded and queued, a strictly cheaper route supersedes
/// the recorded entry — the superseded node leaves the frontier and the
/// position is re-queued — and a route at least as expensive as the recorded
/// one changes nothing at all.
#[verifier::loop_isolation(false)]
#[verifier::rlimit(100)]
#[verifier::spinoff_prover]
fn relax(
    map: &Grid,
    nodes: &mut Vec<Node>,
    reached: &mut Vec<Vec<Option<usize>>>,
    frontier: &mut Frontier,
    parent: usize,
    nb: Block,
    destination_block: Block,
    start: Ghost<Block>,
)
    requires
        destination_block.x <= MAX_DIM,
        destination_block.y <= MAX_DIM,
        (parent as int) < old(nodes)@.len(),
        search_inv(map@, start@, old(nodes)@, rv_of(old(reached)), pq_view(*old(frontier))),
        reachable_spec(
            map@,
            old(nodes)@[parent as int].state.location.x as int,
            old(nodes)@[parent as int].state.location.y as int,
        ).contains(nb),
    ensures
        search_inv(map@, start@, final(nodes)@, rv_of(final(reached)), pq_view(*final(frontier))),
        final(nodes)@.len() >= old(nodes)@.len(),
        forall|i: int| 0 <= i < old(nodes)@.len() ==> #[trigger] final(nodes)@[i] == old(nodes)@[i],
        forall|jj: usize|
            #[trigger] pq_view(*old(frontier)).dom().contains(jj) ==> pq_view(
                *final(frontier),
            ).dom().contains(jj) || rv_of(old(reached))[nb.y as int][nb.x as int] == Some(jj),
        ({
            let nodes0 = old(nodes)@;
            let rv0 = rv_of(old(reached));
            let pqv0 = pq_view(*old(frontier));
            let c = nodes0[parent as int].cost + speed_of(nb.block_type);
            let nx = nb.x as int;
            let ny = nb.y as int;
            let newidx = nodes0.len();
            match rv0[ny][nx] {
                Some(j) => if c >= nodes0[j as int].cost {
                    &&& final(nodes)@ == nodes0
                    &&& rv_of(final(reached)) == rv0
                    &&& pq_view(*final(frontier)) == pqv0
                } else {
                    &&& rv_of(final(reached)) == rv0.update(ny, rv0[ny].update(nx, Some((newidx as usize))))
                    &&& (exists|pr: u128|
                        pr < u128::MAX && pq_view(*final(frontier)) == #[trigger] pqv0.remove(
                            j,
                        ).insert((newidx as usize), pr))
                    &&& unreached_count(rv_of(final(reached))) == unreached_count(rv0)
                    &&& cost_sum(rv_of(final(reached)), final(nodes)@) < cost_sum(rv0, nodes0)
                },
                None => {
                    &&& rv_of(final(reached)) == rv0.update(ny, rv0[ny].update(nx, Some((newidx as usize))))
                    &&& (exists|pr: u128|
                        pr < u128::MAX && pq_view(*final(frontier)) == #[trigger] pqv0.insert(
                            (newidx as usize),
                            pr,
                        ))
                    &&& unreached_count(rv_of(final(reached))) == unreached_count(rv0) - 1
                },
            }
        }),
{
    let ghost g = map@;
    let ghost nodes0 = nodes@;
    let ghost rv0 = rv_of(reached);
    let ghost pqv0 = pq_view(*frontier);
    let ghost ploc = nodes@[parent as int].state.location;

    proof {
        lemma_reachable_characterization(g, ploc.x as int, ploc.y as int, nb);
    }

    let sp = nb.speed();
    let arena_len = nodes.len();
    proof {
        assert(speed_of(nb.block_type) >= 1);
        assert(node_ok(g, start@, nodes0, parent as int));
        assert(nodes0[parent as int].cost <= (parent as int) * (usize::MAX as int));
        assert((parent as int) < arena_len as int && arena_len as int <= usize::MAX as int);
        assert(nodes0[parent as int].cost + (speed_of(nb.block_type) as int) <= (
        usize::MAX as int) * (usize::MAX as int)) by (nonlinear_arith)
            requires
                nodes0[parent as int].cost <= (parent as int) * (usize::MAX as int),
                (parent as int) <= (usize::MAX as int) - 1,
                1 <= (speed_of(nb.block_type) as int) <= usize::MAX as int,
        ;
    }
    let c = nodes[parent].cost + (sp as u128);

    let existing = get_reached(reached, nb.x, nb.y);
    let is_better = match existing {
        Some(j) => c < nodes[j].cost,
        None => true,
    };
    if !is_better {
        return ;
    }
    if let Some(j) = existing {
        // Remove old (worse) node
        let _ = pq_remove(frontier, j);
    }
    let newidx = nodes.len();
    nodes.push(Node::new(State::new(nb), Some(parent), c));
    set_reached(reached, nb.x, nb.y, newidx);
    proof {
        let n = nodes@[nodes0.len() as int];
        assert(nodes@[newidx as int].cost as int <= nodes0.len() * (usize::MAX as int))
            by (nonlinear_arith)
            requires
                nodes@[newidx as int].cost as int == nodes0[parent as int].cost + (speed_of(
                    nb.block_type,
                ) as int),
                nodes0[parent as int].cost <= (parent as int) * (usize::MAX as int),
                (parent as int) + 1 <= newidx as int,
                newidx as int == nodes0.len(),
                1 <= (speed_of(nb.block_type) as int) <= usize::MAX as int,
        ;
        lemma_arena_push(g, start@, nodes0, n, parent);
        assert(arena_ok(g, start@, nodes@));
        // the counting measures move as promised
        lemma_cost_sum_push(rv0, nodes0, n);
        lemma_unreached_count_update(rv0, nb.x as int, nb.y as int, newidx);
        lemma_cost_sum_update(rv0, nodes@, nb.x as int, nb.y as int, newidx);
    }
    let fv = nodes[newidx].f(destination_block);
    proof {
        assert(fv >= 1);
    }
    pq_push(frontier, newidx, u128::MAX - fv);
    proof {
        let pr = (u128::MAX - fv) as u128;
        assert(pr < u128::MAX);
        match rv0[nb.y as int][nb.x as int] {
            Some(j) => {
                assert(pq_view(*frontier) == pqv0.remove(j).insert(newidx, pr));
                assert(pq_view(*frontier).dom() =~= pqv0.dom().remove(j).insert(newidx));
            },
            None => {
                assert(pq_view(*frontier) == pqv0.insert(newidx, pr));
                assert(pq_view(*frontier).dom() =~= pqv0.dom().insert(newidx));
            },
        }
        let rv2 = rv_of(reached);
        assert(reached_ok(g, nodes@, rv2)) by {
            assert(rv2.len() == rv0.len());
            assert forall|y: int| 0 <= y < rv2.len() implies #[trigger] rv2[y].len()
                == g[0].len() by {
                assert(rv0[y].len() == g[0].len());
            }
            assert forall|y: int, x: int|
                0 <= y < rv2.len() && 0 <= x < rv2[y].len() implies match #[trigger] rv2[y][x] {
                Some(j) => 1 <= (j as int) < nodes@.len() && nodes@[j as int].state.location
                    == g[y][x],
                None => true,
            } by {
                if y == nb.y as int && x == nb.x as int {
                    assert(rv2[y][x] == Some(newidx));
                    assert(nodes@[newidx as int].state.location == nb);
                } else {
                    assert(rv2[y][x] == rv0[y][x]);
                }
            }
        }
        let pqv2 = pq_view(*frontier);
        assert forall|jj: usize| #[trigger] pqv0.dom().contains(jj) implies pqv2.dom().contains(
            jj,
        ) || rv0[nb.y as int][nb.x as int] == Some(jj) by {
            match rv0[nb.y as int][nb.x as int] {
                Some(j) => {
                    if jj != j {
                        assert(pqv2.dom().contains(jj));
                    }
                },
                None => {
                    assert(pqv2.dom().contains(jj));
                },
            }
        }
        assert(frontier_ok(nodes@, pqv2)) by {
            assert(pqv2.dom().finite());
            assert forall|ii: usize| #[trigger] pqv2.dom().contains(ii) implies (ii as int)
                < nodes@.len() && (ii != 0 ==> pqv2[ii] < u128::MAX) by {
                if ii == newidx {
                    assert(pqv2[ii] == pr);
                } else {
                    assert(pqv0.dom().contains(ii));
                    assert(pqv2[ii] == pqv0[ii]);
                }
            }
        }
        assert(search_inv(g, start@, nodes@, rv_of(reached), pq_view(*frontier)));
    }
}

/// Searches a cheapest walk from `start_block` to `destination_block` over the
/// walkable blocks of the grid, expanding the frontier in the order of
/// accumulated cost plus straight-line distance and re-opening a position
/// whenever a strictly cheaper route to it turns up.
///
/// A returned solution always walks from start to destination over walkable
/// neighbors, and its cost is the walk's accumulated cost. When start and
/// destination coincide the search succeeds immediately with the trivial
/// walk, and otherwise it fails exactly when no such walk exists at all. The
/// straight-line ordering heuristic is a distance-based estimate over
/// per-block entry costs, so how close the found walk comes to the true
/// optimum is not stated here, only exercised by the callers' scenarios.
#[verifier::loop_isolation(false)]
#[verifier::rlimit(100)]
pub fn a_star(map: &Grid, start_block: Block, destination_block: Block) -> (r: Result<
    Solution,
    SearchError,
>)
    requires
        grid_wf(map@),
        start_block.x <= MAX_DIM,
        start_block.y <= MAX_DIM,
        destination_block.x <= MAX_DIM,
        destination_block.y <= MAX_DIM,
    ensures
        match r {
            Ok(sol) => {
                &&& sol.states@.len() >= 1
                &&& sol.states@[0].location == start_block
                &&& sol.states@.last().location == destination_block
                &&& is_path(map@, sol.states@)
                &&& sol.cost as int == path_cost(sol.states@)
                &&& sol.map@ == stamped(map@, locations_of(sol.states@))
                &&& (destination_block == start_block || walkable_block_at(
                    map@,
                    destination_block,
                ))
            },
            Err(e) => {
                &&& e == SearchError::NotFound
                &&& start_block != destination_block
            },
        },
        start_block == destination_block ==> (r matches Ok(sol) && sol.states@.len() == 1
            && sol.cost == 0),
        r is Err ==> forall|p: Seq<State>|
            !(p.len() >= 1 && #[trigger] is_path(map@, p) && p[0].location == start_block
                && p.last().location == destination_block),
{
    let first_state = State::new(start_block);
    let mut nodes: Vec<Node> = Vec::new();
    nodes.push(Node::new(first_state, None, 0));
    let mut frontier: Frontier = pq_new();
    let mut reached = make_reached(map);

    let first_f = nodes[0].f(destination_block);
    pq_push(&mut frontier, 0, u128::MAX - first_f);

    proof {
        assert(chain(nodes@, 0) =~= seq![first_state]);
        assert(node_ok(map@, start_block, nodes@, 0));
        assert(pq_view(frontier) == pq_empty().insert(0usize, (u128::MAX - first_f) as u128));
        assert(pq_view(frontier).dom() =~= Set::empty().insert(0usize));
        assert(search_inv(map@, start_block, nodes@, rv_of(&reached), pq_view(frontier)));
        assert(closure_inv(map@, destination_block, rv_of(&reached), pq_view(frontier)));
        assert(start_closure(map@, start_block, destination_block, rv_of(&reached), pq_view(frontier)));
    }

    while !pq_is_empty(&frontier)
        invariant
            search_inv(map@, start_block, nodes@, rv_of(&reached), pq_view(frontier)),
            closure_inv(map@, destination_block, rv_of(&reached), pq_view(frontier)),
            start_closure(map@, start_block, destination_block, rv_of(&reached), pq_view(frontier)),
            start_block == destination_block ==> pq_view(frontier).dom().contains(0usize)
                && pq_view(frontier)[0usize] == u128::MAX,
        decreases
            unreached_count(rv_of(&reached)),
            cost_sum(rv_of(&reached), nodes@),
            pq_view(frontier).dom().len(),
    {
        let ghost pqv_head = pq_view(frontier);
        let ghost uc0 = unreached_count(rv_of(&reached));
        let ghost cs0 = cost_sum(rv_of(&reached), nodes@);
        proof {
            lemma_unreached_count_nonneg(rv_of(&reached));
            lemma_cost_sum_nonneg(rv_of(&reached), nodes@);
        }

        let popped = match pq_pop(&mut frontier) {
            Some(p) => p,
            None => unreached(),
        };
        let i = popped.0;
        let ghost pqv1 = pq_view(frontier);
        proof {
            if start_block == destination_block {
                assert(pqv_head.dom().contains(0usize));
                assert(pqv_head[0usize] <= popped.1);
                assert(pqv_head.contains_pair(i, popped.1));
                if i != 0 {
                    assert(pqv_head[i] < u128::MAX);
                    assert(false);
                }
            }
        }

        if nodes[i].state.location == destination_block {
            proof {
                assert(node_ok(map@, start_block, nodes@, i as int));
                if start_block == destination_block {
                    assert(i == 0);
                    assert(chain(nodes@, 0).len() == 1);
                }
            }
            return Ok(Solution::new(&nodes, i, map));
        }
        proof {
            assert(start_block != destination_block);
        }

        let loc = nodes[i].state.location;
        let nbrs = map.get_reachable(loc.x, loc.y);
        proof {
            // the popped index is excused from the closure until its
            // neighbors have all been considered
            let g = map@;
            let rv = rv_of(&reached);
            assert forall|y: int, x: int|
                0 <= y < rv.len() && 0 <= x < rv[y].len() implies match #[trigger] rv[y][x] {
                Some(j) => pqv1.dom().contains(j) || coord_expanded(g, destination_block, rv, x, y)
                    || nodes@[j as int].state.location == loc,
                None => true,
            } by {
                match rv[y][x] {
                    Some(j) => {
                        if pqv_head.dom().contains(j) && j != i {
                            assert(pqv1.dom().contains(j));
                        }
                    },
                    None => {},
                }
            }
            if !pqv1.dom().contains(0usize) && loc != start_block {
                if pqv_head.dom().contains(0usize) {
                    assert(i == 0);
                    assert(nodes@[0].state.location == start_block);
                    assert(false);
                }
            }
        }
        let mut k: usize = 0;
        while k < nbrs.len()
            invariant
                k <= nbrs@.len(),
                search_inv(map@, start_block, nodes@, rv_of(&reached), pq_view(frontier)),
                (i as int) < nodes@.len(),
                nodes@[i as int].state.location == loc,
                unreached_count(rv_of(&reached)) <= uc0,
                unreached_count(rv_of(&reached)) == uc0 ==> cost_sum(rv_of(&reached), nodes@)
                    <= cs0,
                (unreached_count(rv_of(&reached)) == uc0 && cost_sum(rv_of(&reached), nodes@)
                    == cs0) ==> pq_view(frontier) == pqv1,
                forall|y: int, x: int|
                    0 <= y < rv_of(&reached).len() && 0 <= x < rv_of(&reached)[y].len()
                        ==> match #[trigger] rv_of(&reached)[y][x] {
                        Some(j) => pq_view(frontier).dom().contains(j) || coord_expanded(
                            map@,
                            destination_block,
                            rv_of(&reached),
                            x,
                            y,
                        ) || nodes@[j as int].state.location == loc,
                        None => true,
                    },
                pq_view(frontier).dom().contains(0usize) || (start_block != destination_block
                    && forall|nbs: Block| #[trigger]
                    reachable_spec(map@, start_block.x as int, start_block.y as int).contains(nbs)
                        ==> coord_reached(rv_of(&reached), nbs)) || loc == start_block,
                forall|jj: int|
                    0 <= jj < k ==> coord_reached(rv_of(&reached), #[trigger] nbrs@[jj]),
            decreases nbrs@.len() - k,
        {
            let ghost nodes_b = nodes@;
            let ghost rv_b = rv_of(&reached);
            let ghost pqv_b = pq_view(frontier);
            relax(
                map,
                &mut nodes,
                &mut reached,
                &mut frontier,
                i,
                nbrs[k],
                destination_block,
                Ghost(start_block),
            );
            proof {
                let g = map@;
                let nb = nbrs@[k as int];
                let newidx = (nodes_b.len()) as usize;
                lemma_reachable_characterization(g, loc.x as int, loc.y as int, nb);
                let c = nodes_b[i as int].cost + speed_of(nb.block_type);
                match rv_b[nb.y as int][nb.x as int] {
                    Some(j) => {
                        if c >= nodes_b[j as int].cost {
                            assert(rv_of(&reached) == rv_b && pq_view(frontier) == pqv_b);
                        } else {
                            let pr = choose|pr: u128|
                                pr < u128::MAX && pq_view(frontier) == #[trigger] pqv_b.remove(
                                    j,
                                ).insert(newidx, pr);
                            assert(pq_view(frontier).dom().contains(newidx));
                        }
                    },
                    None => {
                        let pr = choose|pr: u128|
                            pr < u128::MAX && pq_view(frontier) == #[trigger] pqv_b.insert(
                                newidx,
                                pr,
                            );
                        assert(pq_view(frontier).dom().contains(newidx));
                    },
                }
                lemma_closure_step(
                    g,
                    start_block,
                    destination_block,
                    loc,
                    nodes_b,
                    nodes@,
                    rv_b,
                    rv_of(&reached),
                    pqv_b,
                    pq_view(frontier),
                    nb,
                    newidx,
                );
                // the neighbor just considered is recorded either way
                assert(coord_reached(rv_of(&reached), nb)) by {
                    match rv_b[nb.y as int][nb.x as int] {
                        Some(j) => {
                            if c >= nodes_b[j as int].cost {
                                assert(rv_of(&reached)[nb.y as int][nb.x as int] == Some(j));
                            } else {
                                assert(rv_of(&reached)[nb.y as int][nb.x as int] == Some(newidx));
                            }
                        },
                        None => {
                            assert(rv_of(&reached)[nb.y as int][nb.x as int] == Some(newidx));
                        },
                    }
                }
            }
            k += 1;
        }
        proof {
            lemma_unreached_count_nonneg(rv_of(&reached));
            lemma_cost_sum_nonneg(rv_of(&reached), nodes@);
            if unreached_count(rv_of(&reached)) == uc0 && cost_sum(rv_of(&reached), nodes@)
                == cs0 {
                assert(pq_view(frontier) == pqv1);
                assert(pqv1.dom() =~= pqv_head.dom().remove(i));
                assert(pqv1.dom().len() < pqv_head.dom().len());
            }
            // the popped position is expanded now: every neighbor of its
            // location is recorded
            let g = map@;
            let rv = rv_of(&reached);
            let pqv = pq_view(frontier);
            assert forall|nbs: Block| #[trigger]
                reachable_spec(g, loc.x as int, loc.y as int).contains(nbs) implies coord_reached(
                rv,
                nbs,
            ) by {
                let jj = choose|jj: int| 0 <= jj < nbrs@.len() && nbrs@[jj] == nbs;
                assert(coord_reached(rv, nbrs@[jj]));
            }
            assert(closure_inv(g, destination_block, rv, pqv)) by {
                assert forall|y: int, x: int|
                    0 <= y < rv.len() && 0 <= x < rv[y].len() implies match #[trigger] rv[y][x] {
                    Some(j) => pqv.dom().contains(j) || coord_expanded(g, destination_block, rv, x, y),
                    None => true,
                } by {
                    match rv[y][x] {
                        Some(j) => {
                            if !pqv.dom().contains(j) && !coord_expanded(g, destination_block, rv, x, y) {
                                assert(nodes@[j as int].state.location == loc);
                                assert(nodes@[j as int].state.location == g[y][x]);
                                assert(g[y][x].x == x && g[y][x].y == y);
                                assert(loc.x == x && loc.y == y);
                                assert(g[y][x] != destination_block);
                                assert(coord_expanded(g, destination_block, rv, x, y));
                            }
                        },
                        None => {},
                    }
                }
            }
            assert(start_closure(g, start_block, destination_block, rv, pqv)) by {
                if !pqv.dom().contains(0usize) && loc == start_block {
                    assert forall|nbs: Block| #[trigger]
                        reachable_spec(g, start_block.x as int, start_block.y as int).contains(
                        nbs,
                    ) implies coord_reached(rv, nbs) by {
                        assert(reachable_spec(g, loc.x as int, loc.y as int).contains(nbs));
                    }
                }
            }
        }
    }

    proof {
        if start_block == destination_block {
            assert(pq_view(frontier).dom().contains(0usize));
            assert(false);
        }
        let g = map@;
        let rv = rv_of(&reached);
        assert(pq_view(frontier).dom() =~= Set::empty());
        assert forall|y: int, x: int|
            0 <= y < rv.len() && 0 <= x < rv[y].len() && (#[trigger] rv[y][x]) is Some implies
            coord_expanded(g, destination_block, rv, x, y) by {
            match rv[y][x] {
                Some(j) => {
                    assert(!pq_view(frontier).dom().contains(j));
                },
                None => {},
            }
        }
        assert(!pq_view(frontier).dom().contains(0usize));
        assert forall|p: Seq<State>|
            !(p.len() >= 1 && #[trigger] is_path(g, p) && p[0].location == start_block
                && p.last().location == destination_block) by {
            if p.len() >= 1 && is_path(g, p) && p[0].location == start_block && p.last().location
                == destination_block {
                if p.len() == 1 {
                    assert(start_block == destination_block);
                    assert(false);
                } else {
                    lemma_path_reached(g, start_block, destination_block, rv, p, p.len() - 1);
                    let d = destination_block;
                    assert(coord_reached(rv, d));
                    assert(walkable_block_at(g, d));
                    assert(g[d.y as int][d.x as int] == d);
                    assert(coord_expanded(g, d, rv, d.x as int, d.y as int));
                    assert(false);
                }
            }
        }
    }
    Err(SearchError::NotFound)
}

}

