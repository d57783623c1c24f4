use std::collections::HashMap;
use std::collections::HashSet;
use std::collections::VecDeque;
use vstd::prelude::*;
use vstd::set_lib::lemma_int_range;
use vstd::set_lib::lemma_len_subset;
use vstd::set_lib::set_int_range;

verus! {

broadcast use vstd::std_specs::hash::group_hash_axioms;

/// A cell of the level grid.
#[derive(Debug, Hash, PartialEq, Eq, Structural, PartialOrd, Ord, Clone, Copy)]
pub struct GridPos {
    pub x: i32,
    pub y: i32,
}

impl GridPos {
    pub fn new(x: i32, y: i32) -> (r: Self)
        ensures
            r == (GridPos { x, y }),
    {
        Self { x, y }
    }
}

/// Whether a cell lies outside the box whose corners are `c.0` (smallest
/// coordinates) and `c.1` (largest coordinates), both included in the box.
pub open spec fn outside_box(pos: GridPos, c: (GridPos, GridPos)) -> bool {
    pos.x < c.0.x || pos.x > c.1.x || pos.y < c.0.y || pos.y > c.1.y
}

/// Whether a cell lies outside the level box.
pub fn outside(pos: &GridPos, constraints: &(GridPos, GridPos)) -> (r: bool)
    ensures
        r == outside_box(*pos, *constraints),
{
    pos.x < constraints.0.x || pos.x > constraints.1.x || pos.y < constraints.0.y || pos.y
        > constraints.1.y
}

/// The four cells next to `p`: left, right, above, below.
pub open spec fn neighbors_of(p: GridPos) -> Seq<GridPos> {
    seq![
        GridPos { x: (p.x - 1) as i32, y: p.y },
        GridPos { x: (p.x + 1) as i32, y: p.y },
        GridPos { x: p.x, y: (p.y - 1) as i32 },
        GridPos { x: p.x, y: (p.y + 1) as i32 },
    ]
}

/// Whether `b` is one of the four cells next to `a`.
pub open spec fn adjacent(a: GridPos, b: GridPos) -> bool {
    ||| a.x == b.x && (b.y == a.y - 1 || b.y == a.y + 1)
    ||| a.y == b.y && (b.x == a.x - 1 || b.x == a.x + 1)
}

/// Whether the neighbors of a cell can be computed without leaving the range
/// of `i32`.
pub open spec fn has_neighbors_in_range(p: GridPos) -> bool {
    i32::MIN < p.x < i32::MAX && i32::MIN < p.y < i32::MAX
}

/// The neighbors of a cell inside the level box; none for a cell outside it.
pub fn get_neighbor_pos(current: &GridPos, constraints: &(GridPos, GridPos)) -> (r: Option<
    [GridPos; 4],
>)
    requires
        !outside_box(*current, *constraints) ==> has_neighbors_in_range(*current),
    ensures
        r is None <==> outside_box(*current, *constraints),
        r matches Some(a) ==> a@ == neighbors_of(*current),
{
    if outside(current, constraints) {
        None
    } else {
        let a = [
            GridPos::new(current.x - 1, current.y),
            GridPos::new(current.x + 1, current.y),
            GridPos::new(current.x, current.y - 1),
            GridPos::new(current.x, current.y + 1),
        ];
        assert(a@ =~= neighbors_of(*current));
        Some(a)
    }
}

/// The cells adjacent to a cell whose neighbors are in range are exactly its
/// four listed neighbors.
pub proof fn lemma_adjacent_is_neighbor(p: GridPos, n: GridPos)
    requires
        has_neighbors_in_range(p),
    ensures
        adjacent(p, n) <==> neighbors_of(p).contains(n),
{
    if adjacent(p, n) {
        if n.x == p.x - 1 {
            assert(neighbors_of(p)[0] == n);
        } else if n.x == p.x + 1 {
            assert(neighbors_of(p)[1] == n);
        } else if n.y == p.y - 1 {
            assert(neighbors_of(p)[2] == n);
        } else {
            assert(neighbors_of(p)[3] == n);
        }
    }
    if neighbors_of(p).contains(n) {
        let i = choose|i: int| 0 <= i < 4 && neighbors_of(p)[i] == n;
        assert(0 <= i < 4);
    }
}

/// The number under which a cell is kept in hash tables: both coordinates
/// shifted to be non-negative, `x` in the high 32 bits, `y` in the low ones.
pub open spec fn cell_key(p: GridPos) -> int {
    (p.x - i32::MIN) * 0x1_0000_0000 + (p.y - i32::MIN)
}

/// Distinct cells have distinct keys, and every key fits in a `u64`.
pub proof fn lemma_cell_key(a: GridPos, b: GridPos)
    ensures
        0 <= cell_key(a) < 0x1_0000_0000_0000_0000,
        cell_key(a) == cell_key(b) ==> a == b,
{
}

/// The key of a cell.
pub fn grid_key(p: &GridPos) -> (k: u64)
    ensures
        k as int == cell_key(*p),
{
    proof {
        lemma_cell_key(*p, *p);
    }
    let hi = (p.x as i64 - i32::MIN as i64) as u64;
    let lo = (p.y as i64 - i32::MIN as i64) as u64;
    hi * 0x1_0000_0000 + lo
}

/// The set of cells that hold a tile, kept by cell key.
pub struct TileGrid {
    cells: HashSet<u64>,
}

impl View for TileGrid {
    type V = Set<GridPos>;

    closed spec fn view(&self) -> Set<GridPos> {
        Set::new(|p: GridPos| self.cells@.contains(cell_key(p) as u64))
    }
}

impl TileGrid {
    /// An empty grid.
    pub fn new() -> (r: Self)
        ensures
            r@ == Set::<GridPos>::empty(),
    {
        let r = TileGrid { cells: HashSet::new() };
        assert(r@ =~= Set::<GridPos>::empty());
        r
    }

    /// Adds a cell.
    pub fn insert(&mut self, p: GridPos)
        ensures
            final(self)@ == old(self)@.insert(p),
    {
        let k = grid_key(&p);
        self.cells.insert(k);
        assert forall|q: GridPos| #[trigger] final(self)@.contains(q) <==> old(self)@.insert(p).contains(q) by {
            lemma_cell_key(q, p);
        }
        assert(final(self)@ =~= old(self)@.insert(p));
    }

    /// Whether a cell holds a tile.
    pub fn contains(&self, p: &GridPos) -> (r: bool)
        ensures
            r == self@.contains(*p),
    {
        let k = grid_key(p);
        self.cells.contains(&k)
    }
}

/// Builds the grid of the cells that the level's tiles occupy.
pub fn build_tile_grid(tile_cells: &Vec<GridPos>) -> (r: TileGrid)
    ensures
        r@ == tile_cells@.to_set(),
{
    let mut grid = TileGrid::new();
    let mut i: usize = 0;
    while i < tile_cells.len()
        invariant
            i <= tile_cells@.len(),
            grid@ == tile_cells@.take(i as int).to_set(),
        decreases tile_cells@.len() - i,
    {
        let ghost before = tile_cells@.take(i as int);
        grid.insert(tile_cells[i]);
        assert(tile_cells@.take(i + 1) =~= before.push(tile_cells@[i as int]));
        assert(grid@ =~= tile_cells@.take(i + 1).to_set()) by {
            broadcast use vstd::seq_lib::group_seq_properties;

        }
        i += 1;
    }
    assert(tile_cells@.take(i as int) =~= tile_cells@);
    grid
}


/// The cell recorded as the predecessor of `p`.
pub open spec fn parent_of(came_from: Map<u64, GridPos>, p: GridPos) -> GridPos {
    came_from[cell_key(p) as u64]
}

/// Whether following recorded predecessors from `cur` reaches `start` within
/// `n` steps.
pub open spec fn chain_reaches(came_from: Map<u64, GridPos>, cur: GridPos, start: GridPos, n: nat) -> bool
    decreases n,
{
    cur == start || (n > 0 && came_from.contains_key(cell_key(cur) as u64) && chain_reaches(
        came_from,
        parent_of(came_from, cur),
        start,
        (n - 1) as nat,
    ))
}

/// Whether `path` runs from `start` to `target` by recorded predecessors:
/// each cell after the first is not `start` and has the cell before it as
/// its predecessor.
pub open spec fn is_predecessor_chain(
    came_from: Map<u64, GridPos>,
    path: Seq<GridPos>,
    start: GridPos,
    target: GridPos,
) -> bool {
    &&& path.len() >= 1
    &&& path[0] == start
    &&& path.last() == target
    &&& forall|i: int|
        #![trigger path[i]]
        1 <= i < path.len() ==> {
            &&& path[i] != start
            &&& came_from.contains_key(cell_key(path[i]) as u64)
            &&& parent_of(came_from, path[i]) == path[i - 1]
        }
}

/// Follows the recorded predecessors back from `target` to `start` and
/// returns the cells from `start` to `target`.
pub fn reconstruct_path(came_from: &HashMap<u64, GridPos>, start: GridPos, target: GridPos) -> (path:
    Vec<GridPos>)
    requires
        exists|n: nat| chain_reaches(came_from@, target, start, n),
    ensures
        is_predecessor_chain(came_from@, path@, start, target),
{
    let ghost n = choose|n: nat| chain_reaches(came_from@, target, start, n);
    let ghost mut k: nat = n;
    let mut back: Vec<GridPos> = Vec::new();
    let mut current = target;
    back.push(current);
    while current != start
        invariant
            chain_reaches(came_from@, current, start, k),
            back@.len() >= 1,
            back@[0] == target,
            back@.last() == current,
            forall|i: int|
                #![trigger back@[i]]
                0 <= i < back@.len() - 1 ==> {
                    &&& back@[i] != start
                    &&& came_from@.contains_key(cell_key(back@[i]) as u64)
                    &&& parent_of(came_from@, back@[i]) == back@[i + 1]
                },
        decreases k,
    {
        let key = grid_key(&current);
        let next = match came_from.get(&key) {
            Some(p) => *p,
            None => {
                proof {
                    assert(false);
                }
                current
            },
        };
        proof {
            k = (k - 1) as nat;
        }
        current = next;
        back.push(current);
    }
    let mut path: Vec<GridPos> = Vec::new();
    let mut j: usize = back.len();
    while j > 0
        invariant
            j <= back@.len(),
            path@.len() == back@.len() - j,
            forall|i: int| 0 <= i < path@.len() ==> path@[i] == back@[back@.len() - 1 - i],
        decreases j,
    {
        j -= 1;
        path.push(back[j]);
    }
    proof {
        assert forall|i: int| #![trigger path@[i]] 1 <= i < path@.len() implies {
            &&& path@[i] != start
            &&& came_from@.contains_key(cell_key(path@[i]) as u64)
            &&& parent_of(came_from@, path@[i]) == path@[i - 1]
        } by {
            let b = back@.len() - 1 - i;
            assert(back@[b] == path@[i]);
            assert(back@[b + 1] == path@[i - 1]);
        }
    }
    path
}


/// Whether one may go from cell `a` to cell `b` in one move: `a` lies inside
/// the level box, `b` is next to it, and `b` holds no tile.
pub open spec fn can_step(a: GridPos, b: GridPos, tiles: Set<GridPos>, c: (GridPos, GridPos)) -> bool {
    !outside_box(a, c) && adjacent(a, b) && !tiles.contains(b)
}

/// The move from the `i`th to the `i + 1`th cell of `w` is allowed.
pub open spec fn step_at(w: Seq<GridPos>, i: int, tiles: Set<GridPos>, c: (GridPos, GridPos)) -> bool {
    can_step(w[i], w[i + 1], tiles, c)
}

/// A non-empty sequence of cells in which each move is allowed.
pub open spec fn is_walk(w: Seq<GridPos>, tiles: Set<GridPos>, c: (GridPos, GridPos)) -> bool {
    &&& w.len() >= 1
    &&& forall|i: int| 0 <= i < w.len() - 1 ==> #[trigger] step_at(w, i, tiles, c)
}

/// A walk from `start` to `target`.
pub open spec fn is_route(
    w: Seq<GridPos>,
    start: GridPos,
    target: GridPos,
    tiles: Set<GridPos>,
    c: (GridPos, GridPos),
) -> bool {
    &&& is_walk(w, tiles, c)
    &&& w[0] == start
    &&& w.last() == target
}

/// Whether some walk leads from `start` to `target`.
pub open spec fn reachable(
    start: GridPos,
    target: GridPos,
    tiles: Set<GridPos>,
    c: (GridPos, GridPos),
) -> bool {
    exists|w: Seq<GridPos>| is_route(w, start, target, tiles, c)
}

/// A route from `start` to `target` that no other route beats in length.
pub open spec fn is_shortest_route(
    r: Seq<GridPos>,
    start: GridPos,
    target: GridPos,
    tiles: Set<GridPos>,
    c: (GridPos, GridPos),
) -> bool {
    &&& is_route(r, start, target, tiles, c)
    &&& forall|w: Seq<GridPos>| #[trigger] is_route(w, start, target, tiles, c) ==> r.len() <= w.len()
}

/// The number of the move from `a` to `b` among the four moves in the order
/// the search tries them: left, right, up, down.
pub open spec fn move_index(a: GridPos, b: GridPos) -> int {
    if b.x == a.x - 1 && b.y == a.y {
        0
    } else if b.x == a.x + 1 && b.y == a.y {
        1
    } else if b.x == a.x && b.y == a.y - 1 {
        2
    } else {
        3
    }
}

/// `r` and `w` agree on their first `i` cells and part at cell `i`, where
/// the move of `r` comes first in the search's order.
pub open spec fn parts_before(r: Seq<GridPos>, w: Seq<GridPos>, i: int) -> bool {
    &&& 0 < i < r.len()
    &&& i < w.len()
    &&& forall|j: int| 0 <= j < i ==> #[trigger] r[j] == w[j]
    &&& move_index(r[i - 1], r[i]) < move_index(w[i - 1], w[i])
}

/// Two walks of the same length, `r` ordered before `w`: at the first cell
/// where they part, the move of `r` is tried first.
pub open spec fn precedes(r: Seq<GridPos>, w: Seq<GridPos>) -> bool {
    &&& r.len() == w.len()
    &&& exists|i: int| #[trigger] parts_before(r, w, i)
}

/// The shortest route that comes first in the search's order: every other
/// shortest route parts from it with a move that is tried later.
pub open spec fn is_first_shortest_route(
    r: Seq<GridPos>,
    start: GridPos,
    target: GridPos,
    tiles: Set<GridPos>,
    c: (GridPos, GridPos),
) -> bool {
    &&& is_shortest_route(r, start, target, tiles, c)
    &&& forall|w: Seq<GridPos>|
        #[trigger] is_shortest_route(w, start, target, tiles, c) && w != r ==> precedes(r, w)
}

/// What the path search answers: nothing when `start` is `target` or when
/// `target` cannot be reached, else the first shortest route in the order in
/// which the moves are tried (left, right, up, down), both ends included.
pub open spec fn is_search_result(
    r: Seq<GridPos>,
    start: GridPos,
    target: GridPos,
    tiles: Set<GridPos>,
    c: (GridPos, GridPos),
) -> bool {
    if start == target {
        r.len() == 0
    } else if reachable(start, target, tiles, c) {
        is_first_shortest_route(r, start, target, tiles, c)
    } else {
        r.len() == 0
    }
}

/// Every cell inside a non-empty level box has its neighbors in the range of
/// `i32`.
pub open spec fn box_in_range(c: (GridPos, GridPos)) -> bool {
    c.0.x <= c.1.x && c.0.y <= c.1.y ==> {
        &&& i32::MIN < c.0.x
        &&& c.1.x < i32::MAX
        &&& i32::MIN < c.0.y
        &&& c.1.y < i32::MAX
    }
}

/// Whether the level box meets the condition of the path search: see
/// `box_in_range`.
pub fn box_in_range_check(c: &(GridPos, GridPos)) -> (r: bool)
    ensures
        r == box_in_range(*c),
{
    !(c.0.x <= c.1.x && c.0.y <= c.1.y) || (i32::MIN < c.0.x && c.1.x < i32::MAX && i32::MIN < c.0.y
        && c.1.y < i32::MAX)
}

/// The number of values of a `u64`.
pub open spec fn key_space() -> int {
    0x1_0000_0000_0000_0000
}

/// Each visited cell other than `start` has a recorded predecessor that was
/// visited one level earlier and from which it can be reached in one move.
#[verifier::opaque]
spec fn parents_ok(
    dist: Map<GridPos, int>,
    cf: Map<u64, GridPos>,
    start: GridPos,
    tiles: Set<GridPos>,
    c: (GridPos, GridPos),
) -> bool {
    forall|p: GridPos|
        #![trigger dist.dom().contains(p)]
        dist.dom().contains(p) && p != start ==> {
            &&& cf.contains_key(cell_key(p) as u64)
            &&& dist.dom().contains(parent_of(cf, p))
            &&& dist[parent_of(cf, p)] == dist[p] - 1
            &&& can_step(parent_of(cf, p), p, tiles, c)
        }
}

/// Every move out of an expanded cell leads to a visited cell at most one
/// level further.
#[verifier::opaque]
spec fn closed_expanded(
    closed: Set<GridPos>,
    dist: Map<GridPos, int>,
    tiles: Set<GridPos>,
    c: (GridPos, GridPos),
) -> bool {
    forall|v: GridPos, n: GridPos|
        #![trigger closed.contains(v), can_step(v, n, tiles, c)]
        closed.contains(v) && can_step(v, n, tiles, c) ==> dist.dom().contains(n) && dist[n]
            <= dist[v] + 1
}

/// Every walk from `start` of at most `level` moves ends in a visited cell
/// whose level is at most its number of moves.
#[verifier::opaque]
spec fn lower_bound(
    start: GridPos,
    tiles: Set<GridPos>,
    c: (GridPos, GridPos),
    dist: Map<GridPos, int>,
    level: int,
) -> bool {
    forall|w: Seq<GridPos>|
        #[trigger] is_walk(w, tiles, c) && w[0] == start && w.len() - 1 <= level ==> {
            &&& dist.dom().contains(w.last())
            &&& dist[w.last()] <= w.len() - 1
        }
}

/// Dropping the last cell of a walk of two or more cells leaves a walk.
proof fn lemma_walk_drop_last(w: Seq<GridPos>, tiles: Set<GridPos>, c: (GridPos, GridPos))
    requires
        is_walk(w, tiles, c),
        w.len() >= 2,
    ensures
        is_walk(w.drop_last(), tiles, c),
{
    let v = w.drop_last();
    assert forall|i: int| 0 <= i < v.len() - 1 implies #[trigger] step_at(v, i, tiles, c) by {
        assert(step_at(w, i, tiles, c));
    }
}

/// A walk that starts in a set closed under moves stays in it.
proof fn lemma_walk_stays_closed(
    w: Seq<GridPos>,
    closed: Set<GridPos>,
    dist: Map<GridPos, int>,
    tiles: Set<GridPos>,
    c: (GridPos, GridPos),
)
    requires
        is_walk(w, tiles, c),
        closed.contains(w[0]),
        closed_expanded(closed, dist, tiles, c),
        forall|p: GridPos| #[trigger] dist.dom().contains(p) ==> closed.contains(p),
    ensures
        closed.contains(w.last()),
    decreases w.len(),
{
    reveal(closed_expanded);
    if w.len() >= 2 {
        lemma_walk_drop_last(w, tiles, c);
        lemma_walk_stays_closed(w.drop_last(), closed, dist, tiles, c);
        let u = w[w.len() - 2];
        assert(w.drop_last().last() == u);
        assert(step_at(w, w.len() - 2, tiles, c));
        assert(can_step(u, w.last(), tiles, c));
        assert(dist.dom().contains(w.last()));
    }
}

/// Following predecessors from a visited cell reaches `start` within as many
/// steps as the cell's level.
proof fn lemma_chain_from_level(
    dist: Map<GridPos, int>,
    cf: Map<u64, GridPos>,
    start: GridPos,
    tiles: Set<GridPos>,
    c: (GridPos, GridPos),
    p: GridPos,
)
    requires
        parents_ok(dist, cf, start, tiles, c),
        forall|q: GridPos| #[trigger] dist.dom().contains(q) ==> 0 <= dist[q],
        dist.dom().contains(p),
    ensures
        chain_reaches(cf, p, start, dist[p] as nat),
    decreases dist[p],
{
    reveal(parents_ok);
    if p != start {
        let q = parent_of(cf, p);
        assert(dist.dom().contains(q));
        lemma_chain_from_level(dist, cf, start, tiles, c, q);
    }
}

/// A predecessor chain over visited cells is a walk with one more cell than
/// the level of its last cell.
proof fn lemma_chain_is_walk(
    dist: Map<GridPos, int>,
    cf: Map<u64, GridPos>,
    start: GridPos,
    target: GridPos,
    tiles: Set<GridPos>,
    c: (GridPos, GridPos),
    r: Seq<GridPos>,
)
    requires
        parents_ok(dist, cf, start, tiles, c),
        dist.dom().contains(start),
        dist[start] == 0,
        dist.dom().contains(target),
        is_predecessor_chain(cf, r, start, target),
    ensures
        is_route(r, start, target, tiles, c),
        r.len() == dist[target] + 1,
{
    reveal(parents_ok);
    lemma_chain_levels(dist, cf, start, target, tiles, c, r, r.len() - 1);
    assert forall|i: int| 0 <= i < r.len() - 1 implies #[trigger] step_at(r, i, tiles, c) by {
        lemma_chain_levels(dist, cf, start, target, tiles, c, r, i + 1);
        assert(r[i + 1] != start);
        assert(dist.dom().contains(r[i + 1]));
    }
    lemma_chain_levels(dist, cf, start, target, tiles, c, r, 0);
}

/// The cells of a predecessor chain are visited, at levels that drop by one
/// per cell back from the end.
proof fn lemma_chain_levels(
    dist: Map<GridPos, int>,
    cf: Map<u64, GridPos>,
    start: GridPos,
    target: GridPos,
    tiles: Set<GridPos>,
    c: (GridPos, GridPos),
    r: Seq<GridPos>,
    i: int,
)
    requires
        parents_ok(dist, cf, start, tiles, c),
        dist.dom().contains(target),
        is_predecessor_chain(cf, r, start, target),
        0 <= i < r.len(),
    ensures
        dist.dom().contains(r[i]),
        dist[r[i]] == dist[target] - (r.len() - 1 - i),
    decreases r.len() - i,
{
    reveal(parents_ok);
    if i < r.len() - 1 {
        lemma_chain_levels(dist, cf, start, target, tiles, c, r, i + 1);
        assert(r[i + 1] != start);
        assert(parent_of(cf, r[i + 1]) == r[i]);
    }
}

/// Raising the level keeps the lower bound when every cell of the old level
/// has been expanded.
proof fn lemma_lower_bound_advance(
    start: GridPos,
    tiles: Set<GridPos>,
    c: (GridPos, GridPos),
    dist: Map<GridPos, int>,
    closed: Set<GridPos>,
    level: int,
)
    requires
        level >= 0,
        lower_bound(start, tiles, c, dist, level),
        closed_expanded(closed, dist, tiles, c),
        forall|p: GridPos|
            #![trigger dist.dom().contains(p)]
            dist.dom().contains(p) && dist[p] <= level ==> closed.contains(p),
    ensures
        lower_bound(start, tiles, c, dist, level + 1),
{
    reveal(lower_bound);
    reveal(closed_expanded);
    assert forall|w: Seq<GridPos>|
        #[trigger] is_walk(w, tiles, c) && w[0] == start && w.len() - 1 <= level + 1 implies {
        &&& dist.dom().contains(w.last())
        &&& dist[w.last()] <= w.len() - 1
    } by {
        if w.len() - 1 == level + 1 {
            lemma_walk_drop_last(w, tiles, c);
            let v = w.drop_last();
            assert(is_walk(v, tiles, c));
            assert(v[0] == start);
            let u = v.last();
            assert(dist.dom().contains(u));
            assert(closed.contains(u));
            assert(step_at(w, w.len() - 2, tiles, c));
            assert(can_step(u, w.last(), tiles, c));
        }
    }
}

/// What holds of the search state between and during the expansions.
spec fn frontier_ok(
    tiles: Set<GridPos>,
    c: (GridPos, GridPos),
    start: GridPos,
    target: GridPos,
    visited: Set<u64>,
    cf: Map<u64, GridPos>,
    q: Seq<GridPos>,
    dist: Map<GridPos, int>,
    closed: Set<GridPos>,
    level: int,
) -> bool {
    &&& forall|p: GridPos|
        #![trigger dist.dom().contains(p)]
        #![trigger visited.contains(cell_key(p) as u64)]
        visited.contains(cell_key(p) as u64) <==> dist.dom().contains(p)
    &&& dist.dom().contains(start)
    &&& dist[start] == 0
    &&& level >= 0
    &&& forall|p: GridPos|
        #![trigger dist.dom().contains(p)]
        dist.dom().contains(p) ==> 0 <= dist[p] <= level + 1
    &&& parents_ok(dist, cf, start, tiles, c)
    &&& forall|i: int|
        #![trigger q[i]]
        0 <= i < q.len() ==> {
            &&& dist.dom().contains(q[i])
            &&& !closed.contains(q[i])
            &&& level <= dist[q[i]] <= level + 1
        }
    &&& forall|i: int, j: int|
        #![trigger q[i], q[j]]
        0 <= i < j < q.len() ==> q[i] != q[j] && dist[q[i]] <= dist[q[j]]
    &&& forall|p: GridPos|
        #![trigger closed.contains(p)]
        closed.contains(p) ==> dist.dom().contains(p) && dist[p] <= level
    &&& closed_expanded(closed, dist, tiles, c)
    &&& lower_bound(start, tiles, c, dist, level)
    &&& !closed.contains(target)
}


/// Every visited cell has been expanded or waits in the queue.
spec fn covered(dist: Map<GridPos, int>, closed: Set<GridPos>, q: Seq<GridPos>) -> bool {
    forall|p: GridPos|
        #![trigger dist.dom().contains(p)]
        dist.dom().contains(p) ==> closed.contains(p) || q.contains(p)
}

/// The search state between two expansions.
#[verifier::opaque]
spec fn search_ok(
    tiles: Set<GridPos>,
    c: (GridPos, GridPos),
    start: GridPos,
    target: GridPos,
    visited: Set<u64>,
    cf: Map<u64, GridPos>,
    q: Seq<GridPos>,
    dist: Map<GridPos, int>,
    closed: Set<GridPos>,
    level: int,
) -> bool {
    &&& frontier_ok(tiles, c, start, target, visited, cf, q, dist, closed, level)
    &&& covered(dist, closed, q)
    &&& q.len() > 0 ==> dist[q[0]] == level
}

/// The search state while the neighbors of `current` are being visited.
#[verifier::opaque]
spec fn expanding_ok(
    tiles: Set<GridPos>,
    c: (GridPos, GridPos),
    start: GridPos,
    target: GridPos,
    visited: Set<u64>,
    cf: Map<u64, GridPos>,
    q: Seq<GridPos>,
    dist: Map<GridPos, int>,
    closed: Set<GridPos>,
    level: int,
    current: GridPos,
) -> bool {
    &&& frontier_ok(tiles, c, start, target, visited, cf, q, dist, closed, level)
    &&& covered(dist, closed, q.push(current))
    &&& dist.dom().contains(current)
    &&& dist[current] == level
    &&& !closed.contains(current)
    &&& current != target
    &&& forall|j: int| 0 <= j < q.len() ==> #[trigger] q[j] != current
}

/// The first `i` neighbors of the cell being expanded, where free of tiles,
/// are visited at most one level further.
spec fn partly_expanded(
    ns: Seq<GridPos>,
    i: int,
    tiles: Set<GridPos>,
    dist: Map<GridPos, int>,
    level: int,
) -> bool {
    forall|j: int|
        #![trigger ns[j]]
        0 <= j < i && !tiles.contains(ns[j]) ==> dist.dom().contains(ns[j]) && dist[ns[j]] <= level
            + 1
}

/// The state right after the search has put `start` in the queue.
proof fn lemma_search_init(
    tiles: Set<GridPos>,
    c: (GridPos, GridPos),
    start: GridPos,
    target: GridPos,
    visited: Set<u64>,
)
    requires
        visited == Set::<u64>::empty().insert(cell_key(start) as u64),
        start != target,
    ensures
        search_ok(
            tiles,
            c,
            start,
            target,
            visited,
            Map::empty(),
            seq![start],
            Map::empty().insert(start, 0),
            Set::empty(),
            0,
        ),
{
    reveal(lower_bound);
    reveal(closed_expanded);
    reveal(parents_ok);
    reveal(search_ok);
    let dist = Map::<GridPos, int>::empty().insert(start, 0);
    assert forall|p: GridPos|
        #![trigger dist.dom().contains(p)]
        #![trigger visited.contains(cell_key(p) as u64)]
        visited.contains(cell_key(p) as u64) <==> dist.dom().contains(p) by {
        lemma_cell_key(p, start);
    }
    assert forall|w: Seq<GridPos>|
        #[trigger] is_walk(w, tiles, c) && w[0] == start && w.len() - 1 <= 0 implies {
        &&& dist.dom().contains(w.last())
        &&& dist[w.last()] <= w.len() - 1
    } by {}
    assert forall|p: GridPos| #[trigger] dist.dom().contains(p) implies Set::<GridPos>::empty().contains(p)
        || seq![start].contains(p) by {
        assert(seq![start][0] == start);
    }
}

/// Taking the first cell out of the queue to expand it.
proof fn lemma_search_pop(
    tiles: Set<GridPos>,
    c: (GridPos, GridPos),
    start: GridPos,
    target: GridPos,
    visited: Set<u64>,
    cf: Map<u64, GridPos>,
    q: Seq<GridPos>,
    dist: Map<GridPos, int>,
    closed: Set<GridPos>,
    level: int,
)
    requires
        search_ok(tiles, c, start, target, visited, cf, q, dist, closed, level),
        q.len() > 0,
        q[0] != target,
    ensures
        expanding_ok(
            tiles,
            c,
            start,
            target,
            visited,
            cf,
            q.subrange(1, q.len() as int),
            dist,
            closed,
            level,
            q[0],
        ),
        partly_expanded(neighbors_of(q[0]), 0, tiles, dist, level),
        !closed.contains(q[0]),
{
    reveal(search_ok);
    reveal(expanding_ok);
    let q2 = q.subrange(1, q.len() as int);
    assert forall|i: int| #![trigger q2[i]] 0 <= i < q2.len() implies {
        &&& dist.dom().contains(q2[i])
        &&& !closed.contains(q2[i])
        &&& level <= dist[q2[i]] <= level + 1
    } by {
        assert(q2[i] == q[i + 1]);
    }
    assert forall|i: int, j: int| #![trigger q2[i], q2[j]] 0 <= i < j < q2.len() implies q2[i] != q2[j]
        && dist[q2[i]] <= dist[q2[j]] by {
        assert(q2[i] == q[i + 1]);
        assert(q2[j] == q[j + 1]);
    }
    assert forall|j: int| 0 <= j < q2.len() implies #[trigger] q2[j] != q[0] by {
        assert(q2[j] == q[j + 1]);
    }
    assert forall|p: GridPos| #[trigger] dist.dom().contains(p) implies closed.contains(p)
        || q2.push(q[0]).contains(p) by {
        if !closed.contains(p) {
            let k = choose|k: int| 0 <= k < q.len() && q[k] == p;
            if k == 0 {
                assert(q2.push(q[0])[q2.len() as int] == p);
            } else {
                assert(q2.push(q[0])[k - 1] == p);
            }
        }
    }
}

/// Passing over a neighbor that holds a tile or was visited before.
proof fn lemma_visit_skip(
    tiles: Set<GridPos>,
    c: (GridPos, GridPos),
    start: GridPos,
    target: GridPos,
    visited: Set<u64>,
    cf: Map<u64, GridPos>,
    q: Seq<GridPos>,
    dist: Map<GridPos, int>,
    closed: Set<GridPos>,
    level: int,
    current: GridPos,
    ns: Seq<GridPos>,
    i: int,
)
    requires
        expanding_ok(tiles, c, start, target, visited, cf, q, dist, closed, level, current),
        partly_expanded(ns, i, tiles, dist, level),
        0 <= i < ns.len(),
        tiles.contains(ns[i]) || visited.contains(cell_key(ns[i]) as u64),
    ensures
        partly_expanded(ns, i + 1, tiles, dist, level),
{
    reveal(expanding_ok);
}

/// Recording a newly visited cell with the cell being expanded as its
/// predecessor keeps every recorded predecessor right.
proof fn lemma_fresh_parents(
    dist: Map<GridPos, int>,
    cf: Map<u64, GridPos>,
    start: GridPos,
    tiles: Set<GridPos>,
    c: (GridPos, GridPos),
    n: GridPos,
    current: GridPos,
    level: int,
)
    requires
        parents_ok(dist, cf, start, tiles, c),
        !dist.dom().contains(n),
        dist.dom().contains(start),
        dist.dom().contains(current),
        dist[current] == level,
        can_step(current, n, tiles, c),
    ensures
        parents_ok(
            dist.insert(n, level + 1),
            cf.insert(cell_key(n) as u64, current),
            start,
            tiles,
            c,
        ),
{
    reveal(parents_ok);
    let dist2 = dist.insert(n, level + 1);
    let cf2 = cf.insert(cell_key(n) as u64, current);
    assert forall|p: GridPos| #![trigger dist2.dom().contains(p)] dist2.dom().contains(p) && p
        != start implies {
        &&& cf2.contains_key(cell_key(p) as u64)
        &&& dist2.dom().contains(parent_of(cf2, p))
        &&& dist2[parent_of(cf2, p)] == dist2[p] - 1
        &&& can_step(parent_of(cf2, p), p, tiles, c)
    } by {
        lemma_cell_key(p, n);
        lemma_cell_key(n, p);
        if p != n {
            assert(dist.dom().contains(p));
            assert(parent_of(cf2, p) == parent_of(cf, p));
        }
    }
}

/// Visiting a new cell keeps what the expanded cells promise.
proof fn lemma_fresh_expanded(
    closed: Set<GridPos>,
    dist: Map<GridPos, int>,
    tiles: Set<GridPos>,
    c: (GridPos, GridPos),
    n: GridPos,
    level: int,
)
    requires
        closed_expanded(closed, dist, tiles, c),
        !dist.dom().contains(n),
        forall|p: GridPos| #[trigger] closed.contains(p) ==> dist.dom().contains(p),
    ensures
        closed_expanded(closed, dist.insert(n, level + 1), tiles, c),
{
    reveal(closed_expanded);
    let dist2 = dist.insert(n, level + 1);
    assert forall|v: GridPos, m: GridPos|
        #![trigger closed.contains(v), can_step(v, m, tiles, c)]
        closed.contains(v) && can_step(v, m, tiles, c) implies dist2.dom().contains(m) && dist2[m]
        <= dist2[v] + 1 by {
        assert(dist.dom().contains(v));
        assert(dist.dom().contains(m));
    }
}

/// Visiting a new cell keeps the lower bound on walk lengths.
proof fn lemma_fresh_lower(
    start: GridPos,
    tiles: Set<GridPos>,
    c: (GridPos, GridPos),
    dist: Map<GridPos, int>,
    level: int,
    n: GridPos,
)
    requires
        lower_bound(start, tiles, c, dist, level),
        !dist.dom().contains(n),
    ensures
        lower_bound(start, tiles, c, dist.insert(n, level + 1), level),
{
    reveal(lower_bound);
    let dist2 = dist.insert(n, level + 1);
    assert forall|w: Seq<GridPos>|
        #[trigger] is_walk(w, tiles, c) && w[0] == start && w.len() - 1 <= level implies {
        &&& dist2.dom().contains(w.last())
        &&& dist2[w.last()] <= w.len() - 1
    } by {
        assert(dist.dom().contains(w.last()));
    }
}

/// Visiting a neighbor for the first time: it is recorded with the cell
/// being expanded as its predecessor, one level further, at the back of the
/// queue.
#[verifier::rlimit(60)]
proof fn lemma_visit_fresh(
    tiles: Set<GridPos>,
    c: (GridPos, GridPos),
    start: GridPos,
    target: GridPos,
    visited: Set<u64>,
    cf: Map<u64, GridPos>,
    q: Seq<GridPos>,
    dist: Map<GridPos, int>,
    closed: Set<GridPos>,
    level: int,
    current: GridPos,
    ns: Seq<GridPos>,
    i: int,
)
    requires
        expanding_ok(tiles, c, start, target, visited, cf, q, dist, closed, level, current),
        partly_expanded(ns, i, tiles, dist, level),
        0 <= i < 4,
        ns == neighbors_of(current),
        !outside_box(current, c),
        has_neighbors_in_range(current),
        !tiles.contains(ns[i]),
        !visited.contains(cell_key(ns[i]) as u64),
    ensures
        expanding_ok(
            tiles,
            c,
            start,
            target,
            visited.insert(cell_key(ns[i]) as u64),
            cf.insert(cell_key(ns[i]) as u64, current),
            q.push(ns[i]),
            dist.insert(ns[i], level + 1),
            closed,
            level,
            current,
        ),
        partly_expanded(ns, i + 1, tiles, dist.insert(ns[i], level + 1), level),
{
    reveal(expanding_ok);
    let n = ns[i];
    let k = cell_key(n) as u64;
    let visited2 = visited.insert(k);
    let cf2 = cf.insert(k, current);
    let q2 = q.push(n);
    let dist2 = dist.insert(n, level + 1);
    lemma_cell_key(n, n);
    assert(!dist.dom().contains(n));
    lemma_adjacent_is_neighbor(current, n);
    assert(neighbors_of(current)[i] == n);
    assert(adjacent(current, n));
    assert forall|p: GridPos|
        #![trigger dist2.dom().contains(p)]
        #![trigger visited2.contains(cell_key(p) as u64)]
        visited2.contains(cell_key(p) as u64) <==> dist2.dom().contains(p) by {
        lemma_cell_key(p, n);
    }
    lemma_fresh_parents(dist, cf, start, tiles, c, n, current, level);
    assert forall|i2: int| #![trigger q2[i2]] 0 <= i2 < q2.len() implies {
        &&& dist2.dom().contains(q2[i2])
        &&& !closed.contains(q2[i2])
        &&& level <= dist2[q2[i2]] <= level + 1
    } by {
        if i2 < q.len() {
            assert(q2[i2] == q[i2]);
        }
    }
    assert forall|i2: int, j2: int| #![trigger q2[i2], q2[j2]] 0 <= i2 < j2 < q2.len() implies q2[i2]
        != q2[j2] && dist2[q2[i2]] <= dist2[q2[j2]] by {
        assert(q2[i2] == q[i2]);
        if j2 < q.len() {
            assert(q2[j2] == q[j2]);
        }
    }
    lemma_fresh_expanded(closed, dist, tiles, c, n, level);
    lemma_fresh_lower(start, tiles, c, dist, level, n);
    assert forall|p: GridPos| #![trigger dist2.dom().contains(p)] dist2.dom().contains(p) implies closed.contains(
        p,
    ) || q2.push(current).contains(p) by {
        if p == n {
            assert(q2.push(current)[q.len() as int] == n);
        } else if !closed.contains(p) {
            assert(q.push(current).contains(p));
            let k2 = choose|k2: int| 0 <= k2 < q.len() + 1 && q.push(current)[k2] == p;
            if k2 < q.len() {
                assert(q2.push(current)[k2] == p);
            } else {
                assert(q2.push(current)[q2.len() as int] == p);
            }
        }
    }
    assert forall|j: int| 0 <= j < q2.len() implies #[trigger] q2[j] != current by {
        if j < q.len() {
            assert(q2[j] == q[j]);
        }
    }
    assert(frontier_ok(tiles, c, start, target, visited2, cf2, q2, dist2, closed, level));
}

/// Once every move out of `current` leads to a visited cell, `current` counts
/// as expanded; the level goes up when the queue holds only cells of the next
/// level.
proof fn lemma_search_close(
    tiles: Set<GridPos>,
    c: (GridPos, GridPos),
    start: GridPos,
    target: GridPos,
    visited: Set<u64>,
    cf: Map<u64, GridPos>,
    q: Seq<GridPos>,
    dist: Map<GridPos, int>,
    closed: Set<GridPos>,
    level: int,
    current: GridPos,
)
    requires
        expanding_ok(tiles, c, start, target, visited, cf, q, dist, closed, level, current),
        forall|n: GridPos|
            #[trigger] can_step(current, n, tiles, c) ==> dist.dom().contains(n) && dist[n] <= level
                + 1,
    ensures
        search_ok(
            tiles,
            c,
            start,
            target,
            visited,
            cf,
            q,
            dist,
            closed.insert(current),
            if q.len() > 0 && dist[q[0]] == level + 1 {
                level + 1
            } else {
                level
            },
        ),
{
    reveal(closed_expanded);
    reveal(expanding_ok);
    reveal(search_ok);
    let closed2 = closed.insert(current);
    assert forall|v: GridPos, m: GridPos|
        #![trigger closed2.contains(v), can_step(v, m, tiles, c)]
        closed2.contains(v) && can_step(v, m, tiles, c) implies dist.dom().contains(m) && dist[m]
        <= dist[v] + 1 by {
        if v != current {
            assert(closed.contains(v));
        }
    }
    assert forall|p: GridPos| #![trigger dist.dom().contains(p)] dist.dom().contains(p) implies closed2.contains(
        p,
    ) || q.contains(p) by {
        if !closed2.contains(p) {
            assert(q.push(current).contains(p));
            let k = choose|k: int| 0 <= k < q.len() + 1 && q.push(current)[k] == p;
            assert(k < q.len());
            assert(q[k] == p);
        }
    }
    assert forall|i: int| #![trigger q[i]] 0 <= i < q.len() implies !closed2.contains(q[i]) by {}
    assert(frontier_ok(tiles, c, start, target, visited, cf, q, dist, closed2, level));
    if q.len() > 0 && dist[q[0]] == level + 1 {
        assert forall|p: GridPos| #![trigger dist.dom().contains(p)] dist.dom().contains(p) && dist[p]
            <= level implies closed2.contains(p) by {
            if !closed2.contains(p) {
                let k = choose|k: int| 0 <= k < q.len() && q[k] == p;
                if k > 0 {
                    assert(dist[q[0]] <= dist[q[k]]);
                }
            }
        }
        lemma_lower_bound_advance(start, tiles, c, dist, closed2, level);
        assert forall|i: int| #![trigger q[i]] 0 <= i < q.len() implies level + 1 <= dist[q[i]] by {
            if i > 0 {
                assert(dist[q[0]] <= dist[q[i]]);
            }
        }
        assert(frontier_ok(tiles, c, start, target, visited, cf, q, dist, closed2, level + 1));
    } else if q.len() > 0 {
        assert(dist[q[0]] == level);
    }
}

/// When `target` leaves the queue, every predecessor chain back to `start`
/// is a shortest route, and one exists.
proof fn lemma_search_found(
    tiles: Set<GridPos>,
    c: (GridPos, GridPos),
    start: GridPos,
    target: GridPos,
    visited: Set<u64>,
    cf: Map<u64, GridPos>,
    q: Seq<GridPos>,
    dist: Map<GridPos, int>,
    closed: Set<GridPos>,
    level: int,
)
    requires
        search_ok(tiles, c, start, target, visited, cf, q, dist, closed, level),
        q.len() > 0,
        q[0] == target,
    ensures
        exists|n: nat| chain_reaches(cf, target, start, n),
        forall|r: Seq<GridPos>|
            #[trigger] is_predecessor_chain(cf, r, start, target) ==> is_shortest_route(
                r,
                start,
                target,
                tiles,
                c,
            ),
{
    reveal(lower_bound);
    reveal(search_ok);
    assert(dist.dom().contains(q[0]));
    lemma_chain_from_level(dist, cf, start, tiles, c, target);
    assert forall|r: Seq<GridPos>| #[trigger] is_predecessor_chain(cf, r, start, target) implies is_shortest_route(
        r,
        start,
        target,
        tiles,
        c,
    ) by {
        lemma_chain_is_walk(dist, cf, start, target, tiles, c, r);
        assert forall|w: Seq<GridPos>| #[trigger] is_route(w, start, target, tiles, c) implies r.len()
            <= w.len() by {
            if w.len() - 1 <= level {
                assert(is_walk(w, tiles, c));
            }
        }
    }
}

/// When the queue runs empty without meeting `target`, no route leads there.
proof fn lemma_search_exhausted(
    tiles: Set<GridPos>,
    c: (GridPos, GridPos),
    start: GridPos,
    target: GridPos,
    visited: Set<u64>,
    cf: Map<u64, GridPos>,
    q: Seq<GridPos>,
    dist: Map<GridPos, int>,
    closed: Set<GridPos>,
    level: int,
)
    requires
        search_ok(tiles, c, start, target, visited, cf, q, dist, closed, level),
        q.len() == 0,
    ensures
        !reachable(start, target, tiles, c),
{
    reveal(search_ok);
    assert forall|w: Seq<GridPos>| is_route(w, start, target, tiles, c) implies false by {
        assert(dist.dom().contains(start));
        assert(closed.contains(start));
        lemma_walk_stays_closed(w, closed, dist, tiles, c);
    }
}

/// The cells of the predecessor chain, `n` moves long, that ends at `p`.
spec fn chain_of(cf: Map<u64, GridPos>, p: GridPos, n: nat) -> Seq<GridPos>
    decreases n,
{
    if n == 0 {
        seq![p]
    } else {
        chain_of(cf, parent_of(cf, p), (n - 1) as nat).push(p)
    }
}

/// The route by which the search reached the visited cell `p`.
spec fn tree_path(cf: Map<u64, GridPos>, dist: Map<GridPos, int>, p: GridPos) -> Seq<GridPos> {
    chain_of(cf, p, dist[p] as nat)
}

/// The cells of one level were reached in the order of their routes.
#[verifier::opaque]
spec fn level_ordered(cf: Map<u64, GridPos>, dist: Map<GridPos, int>, rank: Map<GridPos, int>) -> bool {
    forall|a: GridPos, b: GridPos|
        #![trigger rank[a], rank[b]]
        dist.dom().contains(a) && dist.dom().contains(b) && dist[a] == dist[b] && rank[a] < rank[b]
            ==> precedes(tree_path(cf, dist, a), tree_path(cf, dist, b))
}

/// The predecessor recorded for each visited cell comes first, in the order
/// of routes, among the cells one level earlier from which it can be
/// reached.
#[verifier::opaque]
spec fn parent_first(
    cf: Map<u64, GridPos>,
    dist: Map<GridPos, int>,
    start: GridPos,
    tiles: Set<GridPos>,
    c: (GridPos, GridPos),
) -> bool {
    forall|p: GridPos, u: GridPos|
        #![trigger dist.dom().contains(p), can_step(u, p, tiles, c)]
        dist.dom().contains(p) && p != start && dist.dom().contains(u) && dist[u] == dist[p] - 1
            && can_step(u, p, tiles, c) ==> u == parent_of(cf, p) || precedes(
            tree_path(cf, dist, parent_of(cf, p)),
            tree_path(cf, dist, u),
        )
}

/// The order in which the cells were reached (`rank`), between two
/// expansions: the queue holds the ranks from `head` on, the expanded cells
/// those below it.
#[verifier::opaque]
spec fn order_ok(
    tiles: Set<GridPos>,
    c: (GridPos, GridPos),
    start: GridPos,
    cf: Map<u64, GridPos>,
    q: Seq<GridPos>,
    dist: Map<GridPos, int>,
    closed: Set<GridPos>,
    rank: Map<GridPos, int>,
    head: int,
) -> bool {
    &&& forall|k: int| #![trigger q[k]] 0 <= k < q.len() ==> rank[q[k]] == head + k
    &&& forall|p: GridPos|
        #![trigger dist.dom().contains(p)]
        dist.dom().contains(p) ==> (closed.contains(p) <==> rank[p] < head)
    &&& forall|m: GridPos|
        #![trigger dist.dom().contains(m)]
        dist.dom().contains(m) && m != start ==> closed.contains(parent_of(cf, m))
    &&& level_ordered(cf, dist, rank)
    &&& parent_first(cf, dist, start, tiles, c)
}

/// The order in which the cells were reached while the first `i`
/// neighbors of `current` are being visited.
#[verifier::opaque]
spec fn order_expanding_ok(
    tiles: Set<GridPos>,
    c: (GridPos, GridPos),
    start: GridPos,
    cf: Map<u64, GridPos>,
    q: Seq<GridPos>,
    dist: Map<GridPos, int>,
    closed: Set<GridPos>,
    rank: Map<GridPos, int>,
    head: int,
    current: GridPos,
    i: int,
) -> bool {
    &&& forall|k: int| #![trigger q[k]] 0 <= k < q.len() ==> rank[q[k]] == head + 1 + k
    &&& rank[current] == head
    &&& forall|p: GridPos|
        #![trigger dist.dom().contains(p)]
        dist.dom().contains(p) ==> (closed.contains(p) <==> rank[p] < head)
    &&& forall|m: GridPos|
        #![trigger dist.dom().contains(m)]
        dist.dom().contains(m) && m != start ==> closed.contains(parent_of(cf, m)) || (parent_of(
            cf,
            m,
        ) == current && move_index(current, m) < i)
    &&& level_ordered(cf, dist, rank)
    &&& parent_first(cf, dist, start, tiles, c)
}

/// Lengthening two ordered walks by one cell each keeps them ordered.
proof fn lemma_precedes_push(a: Seq<GridPos>, b: Seq<GridPos>, x: GridPos, y: GridPos)
    requires
        precedes(a, b),
    ensures
        precedes(a.push(x), b.push(y)),
{
    let i = choose|i: int| #[trigger] parts_before(a, b, i);
    let a2 = a.push(x);
    let b2 = b.push(y);
    assert forall|j: int| 0 <= j < i implies #[trigger] a2[j] == b2[j] by {
        assert(a[j] == b[j]);
    }
    assert(parts_before(a2, b2, i));
}

/// A walk lengthened by a move tried earlier comes before the same walk
/// lengthened by a move tried later.
proof fn lemma_precedes_last(a: Seq<GridPos>, x: GridPos, y: GridPos)
    requires
        a.len() >= 1,
        move_index(a.last(), x) < move_index(a.last(), y),
    ensures
        precedes(a.push(x), a.push(y)),
{
    let a2 = a.push(x);
    let b2 = a.push(y);
    assert forall|j: int| 0 <= j < a.len() implies #[trigger] a2[j] == b2[j] by {}
    assert(parts_before(a2, b2, a.len() as int));
}

/// The order of walks is transitive.
proof fn lemma_precedes_trans(a: Seq<GridPos>, b: Seq<GridPos>, d: Seq<GridPos>)
    requires
        precedes(a, b),
        precedes(b, d),
    ensures
        precedes(a, d),
{
    let i = choose|i: int| #[trigger] parts_before(a, b, i);
    let j = choose|j: int| #[trigger] parts_before(b, d, j);
    if i < j {
        assert forall|k: int| 0 <= k < i implies #[trigger] a[k] == d[k] by {
            assert(a[k] == b[k]);
            assert(b[k] == d[k]);
        }
        assert(b[i] == d[i]);
        assert(b[i - 1] == d[i - 1]);
        assert(parts_before(a, d, i));
    } else if j < i {
        assert forall|k: int| 0 <= k < j implies #[trigger] a[k] == d[k] by {
            assert(a[k] == b[k]);
            assert(b[k] == d[k]);
        }
        assert(a[j] == b[j]);
        assert(a[j - 1] == b[j - 1]);
        assert(parts_before(a, d, j));
    } else {
        assert forall|k: int| 0 <= k < i implies #[trigger] a[k] == d[k] by {
            assert(a[k] == b[k]);
            assert(b[k] == d[k]);
        }
        assert(parts_before(a, d, i));
    }
}

/// A predecessor chain `n` moves long has `n + 1` cells and ends at its
/// cell.
proof fn lemma_chain_of_len(cf: Map<u64, GridPos>, p: GridPos, n: nat)
    ensures
        chain_of(cf, p, n).len() == n + 1,
        chain_of(cf, p, n).last() == p,
    decreases n,
{
    if n > 0 {
        lemma_chain_of_len(cf, parent_of(cf, p), (n - 1) as nat);
    }
}

/// The route to a visited cell: one cell more than its level, ending at it,
/// and, but for `start`, the route to its predecessor lengthened by it.
proof fn lemma_tree_path(
    cf: Map<u64, GridPos>,
    dist: Map<GridPos, int>,
    start: GridPos,
    tiles: Set<GridPos>,
    c: (GridPos, GridPos),
    p: GridPos,
)
    requires
        parents_ok(dist, cf, start, tiles, c),
        forall|q: GridPos| #[trigger] dist.dom().contains(q) ==> 0 <= dist[q],
        dist.dom().contains(start),
        dist[start] == 0,
        dist.dom().contains(p),
    ensures
        tree_path(cf, dist, p).len() == dist[p] + 1,
        tree_path(cf, dist, p).last() == p,
        p == start ==> tree_path(cf, dist, p) == seq![start],
        p != start ==> {
            &&& dist[p] > 0
            &&& dist.dom().contains(parent_of(cf, p))
            &&& dist[parent_of(cf, p)] == dist[p] - 1
            &&& tree_path(cf, dist, p) == tree_path(cf, dist, parent_of(cf, p)).push(p)
        },
        dist[p] == 0 ==> p == start,
{
    reveal(parents_ok);
    lemma_chain_of_len(cf, p, dist[p] as nat);
    if p != start {
        let q = parent_of(cf, p);
        assert(dist.dom().contains(q));
        assert(dist[q] == dist[p] - 1);
        assert((dist[p] as nat - 1) as nat == dist[q] as nat);
    }
}

/// Recording a newly visited cell leaves the routes to the cells visited
/// before unchanged.
proof fn lemma_tree_path_fresh(
    cf: Map<u64, GridPos>,
    dist: Map<GridPos, int>,
    start: GridPos,
    tiles: Set<GridPos>,
    c: (GridPos, GridPos),
    n: GridPos,
    parent: GridPos,
    lvl: int,
    p: GridPos,
)
    requires
        parents_ok(dist, cf, start, tiles, c),
        forall|q: GridPos| #[trigger] dist.dom().contains(q) ==> 0 <= dist[q],
        dist.dom().contains(start),
        dist[start] == 0,
        !dist.dom().contains(n),
        dist.dom().contains(p),
    ensures
        tree_path(cf.insert(cell_key(n) as u64, parent), dist.insert(n, lvl), p) == tree_path(
            cf,
            dist,
            p,
        ),
    decreases dist[p],
{
    let cf2 = cf.insert(cell_key(n) as u64, parent);
    let dist2 = dist.insert(n, lvl);
    lemma_tree_path(cf, dist, start, tiles, c, p);
    assert(p != n);
    assert(dist2[p] == dist[p]);
    if p != start {
        let q = parent_of(cf, p);
        lemma_cell_key(p, n);
        assert(parent_of(cf2, p) == q);
        lemma_tree_path_fresh(cf, dist, start, tiles, c, n, parent, lvl, q);
        assert(q != n);
        assert(dist2[q] == dist[q]);
        assert((dist[p] as nat - 1) as nat == dist[q] as nat);
        assert(chain_of(cf2, p, dist[p] as nat) == chain_of(cf2, q, dist[q] as nat).push(p));
    }
}

/// A predecessor chain from `start` to a visited cell is the route by which
/// the search reached it, cell by cell.
proof fn lemma_chain_prefix(
    dist: Map<GridPos, int>,
    cf: Map<u64, GridPos>,
    start: GridPos,
    target: GridPos,
    tiles: Set<GridPos>,
    c: (GridPos, GridPos),
    r: Seq<GridPos>,
    k: int,
)
    requires
        parents_ok(dist, cf, start, tiles, c),
        forall|q: GridPos| #[trigger] dist.dom().contains(q) ==> 0 <= dist[q],
        dist.dom().contains(start),
        dist[start] == 0,
        dist.dom().contains(target),
        is_predecessor_chain(cf, r, start, target),
        0 <= k < r.len(),
    ensures
        r.take(k + 1) == tree_path(cf, dist, r[k]),
    decreases k,
{
    lemma_chain_levels(dist, cf, start, target, tiles, c, r, k);
    if k == 0 {
        lemma_tree_path(cf, dist, start, tiles, c, start);
        assert(r.take(1) =~= seq![start]);
    } else {
        lemma_chain_prefix(dist, cf, start, target, tiles, c, r, k - 1);
        assert(r[k] != start);
        assert(parent_of(cf, r[k]) == r[k - 1]);
        lemma_tree_path(cf, dist, start, tiles, c, r[k]);
        assert(r.take(k + 1) =~= r.take(k).push(r[k]));
    }
}

/// The order of the cells right after the search has put `start` in the
/// queue.
proof fn lemma_order_init(tiles: Set<GridPos>, c: (GridPos, GridPos), start: GridPos)
    ensures
        order_ok(
            tiles,
            c,
            start,
            Map::empty(),
            seq![start],
            Map::empty().insert(start, 0),
            Set::empty(),
            Map::empty().insert(start, 0),
            0,
        ),
{
    reveal(order_ok);
    reveal(level_ordered);
    reveal(parent_first);
}

/// Taking the first cell out of the queue to expand it.
proof fn lemma_order_pop(
    tiles: Set<GridPos>,
    c: (GridPos, GridPos),
    start: GridPos,
    cf: Map<u64, GridPos>,
    q: Seq<GridPos>,
    dist: Map<GridPos, int>,
    closed: Set<GridPos>,
    rank: Map<GridPos, int>,
    head: int,
)
    requires
        order_ok(tiles, c, start, cf, q, dist, closed, rank, head),
        q.len() > 0,
    ensures
        order_expanding_ok(
            tiles,
            c,
            start,
            cf,
            q.subrange(1, q.len() as int),
            dist,
            closed,
            rank,
            head,
            q[0],
            0,
        ),
{
    reveal(order_ok);
    reveal(order_expanding_ok);
    let q2 = q.subrange(1, q.len() as int);
    assert forall|k: int| #![trigger q2[k]] 0 <= k < q2.len() implies rank[q2[k]] == head + 1 + k by {
        assert(q2[k] == q[k + 1]);
    }
}

/// Passing over a neighbor that holds a tile or was visited before.
proof fn lemma_order_skip(
    tiles: Set<GridPos>,
    c: (GridPos, GridPos),
    start: GridPos,
    cf: Map<u64, GridPos>,
    q: Seq<GridPos>,
    dist: Map<GridPos, int>,
    closed: Set<GridPos>,
    rank: Map<GridPos, int>,
    head: int,
    current: GridPos,
    i: int,
)
    requires
        order_expanding_ok(tiles, c, start, cf, q, dist, closed, rank, head, current, i),
    ensures
        order_expanding_ok(tiles, c, start, cf, q, dist, closed, rank, head, current, i + 1),
{
    reveal(order_expanding_ok);
}

/// The index of each listed neighbor of a cell is the number of its move.
proof fn lemma_neighbor_move_index(p: GridPos, i: int)
    requires
        has_neighbors_in_range(p),
        0 <= i < 4,
    ensures
        move_index(p, neighbors_of(p)[i]) == i,
{
}

/// Every visited cell was reached before the one that is about to be
/// visited.
proof fn lemma_rank_below_next(
    tiles: Set<GridPos>,
    c: (GridPos, GridPos),
    start: GridPos,
    target: GridPos,
    visited: Set<u64>,
    cf: Map<u64, GridPos>,
    q: Seq<GridPos>,
    dist: Map<GridPos, int>,
    closed: Set<GridPos>,
    level: int,
    current: GridPos,
    rank: Map<GridPos, int>,
    head: int,
    i: int,
    b: GridPos,
)
    requires
        expanding_ok(tiles, c, start, target, visited, cf, q, dist, closed, level, current),
        order_expanding_ok(tiles, c, start, cf, q, dist, closed, rank, head, current, i),
        dist.dom().contains(b),
    ensures
        rank[b] < head + 1 + q.len(),
        b != current && !closed.contains(b) ==> exists|k: int|
            0 <= k < q.len() && q[k] == b && rank[b] == head + 1 + k,
{
    reveal(expanding_ok);
    reveal(order_expanding_ok);
    if !closed.contains(b) && b != current {
        assert(q.push(current).contains(b));
        let k = choose|k: int| 0 <= k < q.len() + 1 && q.push(current)[k] == b;
        assert(k < q.len());
        assert(q[k] == b);
    }
}

/// Visiting `n`, a neighbor of `current` seen for the first time, keeps the
/// cells of each level in the order of their routes.
#[verifier::rlimit(40)]
proof fn lemma_order_fresh_levels(
    tiles: Set<GridPos>,
    c: (GridPos, GridPos),
    start: GridPos,
    target: GridPos,
    visited: Set<u64>,
    cf: Map<u64, GridPos>,
    q: Seq<GridPos>,
    dist: Map<GridPos, int>,
    closed: Set<GridPos>,
    level: int,
    current: GridPos,
    rank: Map<GridPos, int>,
    head: int,
    i: int,
    n: GridPos,
)
    requires
        expanding_ok(tiles, c, start, target, visited, cf, q, dist, closed, level, current),
        order_expanding_ok(tiles, c, start, cf, q, dist, closed, rank, head, current, i),
        !dist.dom().contains(n),
        move_index(current, n) == i,
    ensures
        level_ordered(
            cf.insert(cell_key(n) as u64, current),
            dist.insert(n, level + 1),
            rank.insert(n, head + 1 + q.len()),
        ),
{
    let cf2 = cf.insert(cell_key(n) as u64, current);
    let dist2 = dist.insert(n, level + 1);
    let rank2 = rank.insert(n, head + 1 + q.len());
    reveal(expanding_ok);
    assert(frontier_ok(tiles, c, start, target, visited, cf, q, dist, closed, level));
    assert(parents_ok(dist, cf, start, tiles, c));
    assert(forall|p: GridPos| #[trigger] dist.dom().contains(p) ==> 0 <= dist[p]);
    reveal(order_expanding_ok);
    reveal(level_ordered);
    lemma_cell_key(n, n);
    assert(parent_of(cf2, n) == current);
    lemma_tree_path(cf, dist, start, tiles, c, current);
    lemma_tree_path_fresh(cf, dist, start, tiles, c, n, current, level + 1, current);
    assert(dist2[n] == level + 1);
    assert((level + 1) as nat - 1 == level as nat);
    assert(tree_path(cf2, dist2, n) == chain_of(cf2, current, level as nat).push(n));
    assert(dist2[current] == level);
    assert(tree_path(cf2, dist2, n) == tree_path(cf, dist, current).push(n));
    assert forall|a: GridPos, b: GridPos|
        #![trigger rank2[a], rank2[b]]
        dist2.dom().contains(a) && dist2.dom().contains(b) && dist2[a] == dist2[b] && rank2[a]
            < rank2[b] implies precedes(tree_path(cf2, dist2, a), tree_path(cf2, dist2, b)) by {
        if a == n {
            lemma_rank_below_next(tiles, c, start, target, visited, cf, q, dist, closed, level, current, rank, head, i, b);
        } else if b == n {
            lemma_tree_path_fresh(cf, dist, start, tiles, c, n, current, level + 1, a);
            lemma_tree_path(cf, dist, start, tiles, c, a);
            assert(a != start);
            let pm = parent_of(cf, a);
            lemma_tree_path(cf, dist, start, tiles, c, pm);
            if closed.contains(pm) {
                assert(rank[pm] < head);
                assert(rank[pm] < rank[current]);
                assert(dist[pm] == dist[current]);
                assert(precedes(tree_path(cf, dist, pm), tree_path(cf, dist, current)));
                lemma_precedes_push(tree_path(cf, dist, pm), tree_path(cf, dist, current), a, n);
            } else {
                assert(pm == current && move_index(current, a) < i);
                lemma_precedes_last(tree_path(cf, dist, current), a, n);
            }
        } else {
            lemma_tree_path_fresh(cf, dist, start, tiles, c, n, current, level + 1, a);
            lemma_tree_path_fresh(cf, dist, start, tiles, c, n, current, level + 1, b);
            assert(rank[a] < rank[b]);
        }
    }
}

/// Visiting `n`, a neighbor of `current` seen for the first time, with
/// `current` as its predecessor: no cell of the level of `current` from
/// which `n` can be reached comes before `current`.
#[verifier::rlimit(40)]
proof fn lemma_order_fresh_parents(
    tiles: Set<GridPos>,
    c: (GridPos, GridPos),
    start: GridPos,
    target: GridPos,
    visited: Set<u64>,
    cf: Map<u64, GridPos>,
    q: Seq<GridPos>,
    dist: Map<GridPos, int>,
    closed: Set<GridPos>,
    level: int,
    current: GridPos,
    rank: Map<GridPos, int>,
    head: int,
    i: int,
    n: GridPos,
)
    requires
        expanding_ok(tiles, c, start, target, visited, cf, q, dist, closed, level, current),
        order_expanding_ok(tiles, c, start, cf, q, dist, closed, rank, head, current, i),
        !dist.dom().contains(n),
    ensures
        parent_first(cf.insert(cell_key(n) as u64, current), dist.insert(n, level + 1), start, tiles, c),
{
    let cf2 = cf.insert(cell_key(n) as u64, current);
    let dist2 = dist.insert(n, level + 1);
    reveal(expanding_ok);
    assert(frontier_ok(tiles, c, start, target, visited, cf, q, dist, closed, level));
    assert(parents_ok(dist, cf, start, tiles, c));
    assert(forall|p: GridPos| #[trigger] dist.dom().contains(p) ==> 0 <= dist[p]);
    assert(closed_expanded(closed, dist, tiles, c));
    reveal(order_expanding_ok);
    reveal(parent_first);
    reveal(level_ordered);
    lemma_cell_key(n, n);
    assert forall|p: GridPos, u: GridPos|
        #![trigger dist2.dom().contains(p), can_step(u, p, tiles, c)]
        dist2.dom().contains(p) && p != start && dist2.dom().contains(u) && dist2[u] == dist2[p] - 1
            && can_step(u, p, tiles, c) implies u == parent_of(cf2, p) || precedes(
            tree_path(cf2, dist2, parent_of(cf2, p)),
            tree_path(cf2, dist2, u),
        ) by {
        if p == n {
            assert(u != n);
            assert(parent_of(cf2, n) == current);
            if u != current {
                if closed.contains(u) {
                    reveal(closed_expanded);
                    assert(dist.dom().contains(n));
                }
                lemma_rank_below_next(tiles, c, start, target, visited, cf, q, dist, closed, level, current, rank, head, i, u);
                assert(rank[current] < rank[u]);
                assert(precedes(tree_path(cf, dist, current), tree_path(cf, dist, u)));
                lemma_tree_path_fresh(cf, dist, start, tiles, c, n, current, level + 1, current);
                lemma_tree_path_fresh(cf, dist, start, tiles, c, n, current, level + 1, u);
            }
        } else {
            assert(dist.dom().contains(p));
            if u == n {
                assert(dist[p] <= level + 1);
                assert(false);
            }
            lemma_cell_key(p, n);
            assert(parent_of(cf2, p) == parent_of(cf, p));
            lemma_tree_path(cf, dist, start, tiles, c, p);
            lemma_tree_path_fresh(cf, dist, start, tiles, c, n, current, level + 1, parent_of(cf, p));
            lemma_tree_path_fresh(cf, dist, start, tiles, c, n, current, level + 1, u);
        }
    }
}

/// Visiting the `i`th neighbor of `current` for the first time: it takes the
/// next rank and the back of the queue.
proof fn lemma_order_fresh(
    tiles: Set<GridPos>,
    c: (GridPos, GridPos),
    start: GridPos,
    target: GridPos,
    visited: Set<u64>,
    cf: Map<u64, GridPos>,
    q: Seq<GridPos>,
    dist: Map<GridPos, int>,
    closed: Set<GridPos>,
    level: int,
    current: GridPos,
    rank: Map<GridPos, int>,
    head: int,
    ns: Seq<GridPos>,
    i: int,
)
    requires
        expanding_ok(tiles, c, start, target, visited, cf, q, dist, closed, level, current),
        order_expanding_ok(tiles, c, start, cf, q, dist, closed, rank, head, current, i),
        0 <= i < 4,
        ns == neighbors_of(current),
        has_neighbors_in_range(current),
        !visited.contains(cell_key(ns[i]) as u64),
    ensures
        order_expanding_ok(
            tiles,
            c,
            start,
            cf.insert(cell_key(ns[i]) as u64, current),
            q.push(ns[i]),
            dist.insert(ns[i], level + 1),
            closed,
            rank.insert(ns[i], head + 1 + q.len()),
            head,
            current,
            i + 1,
        ),
{
    let n = ns[i];
    let cf2 = cf.insert(cell_key(n) as u64, current);
    let q2 = q.push(n);
    let dist2 = dist.insert(n, level + 1);
    let rank2 = rank.insert(n, head + 1 + q.len());
    reveal(expanding_ok);
    assert(frontier_ok(tiles, c, start, target, visited, cf, q, dist, closed, level));
    assert(!dist.dom().contains(n));
    lemma_neighbor_move_index(current, i);
    lemma_order_fresh_levels(tiles, c, start, target, visited, cf, q, dist, closed, level, current, rank, head, i, n);
    lemma_order_fresh_parents(tiles, c, start, target, visited, cf, q, dist, closed, level, current, rank, head, i, n);
    reveal(order_expanding_ok);
    lemma_cell_key(n, n);
    assert forall|k: int| #![trigger q2[k]] 0 <= k < q2.len() implies rank2[q2[k]] == head + 1 + k by {
        if k < q.len() {
            assert(q2[k] == q[k]);
            assert(dist.dom().contains(q[k]));
        }
    }
    assert forall|m: GridPos| #![trigger dist2.dom().contains(m)] dist2.dom().contains(m) && m != start
        implies closed.contains(parent_of(cf2, m)) || (parent_of(cf2, m) == current && move_index(current, m) < i + 1) by {
        if m != n {
            lemma_cell_key(m, n);
            assert(dist.dom().contains(m));
        }
    }
    assert forall|p: GridPos| #![trigger dist2.dom().contains(p)] dist2.dom().contains(p) implies (closed.contains(p) <==> rank2[p] < head) by {
        if p == n {
            assert(!closed.contains(n));
        } else {
            assert(dist.dom().contains(p));
        }
    }
    assert(rank2[current] == head);
}

/// Once `current` is expanded it counts as closed, and the next rank heads
/// the queue.
proof fn lemma_order_close(
    tiles: Set<GridPos>,
    c: (GridPos, GridPos),
    start: GridPos,
    target: GridPos,
    visited: Set<u64>,
    cf: Map<u64, GridPos>,
    q: Seq<GridPos>,
    dist: Map<GridPos, int>,
    closed: Set<GridPos>,
    level: int,
    current: GridPos,
    rank: Map<GridPos, int>,
    head: int,
    i: int,
)
    requires
        expanding_ok(tiles, c, start, target, visited, cf, q, dist, closed, level, current),
        order_expanding_ok(tiles, c, start, cf, q, dist, closed, rank, head, current, i),
    ensures
        order_ok(tiles, c, start, cf, q, dist, closed.insert(current), rank, head + 1),
{
    reveal(order_ok);
    reveal(order_expanding_ok);
    let closed2 = closed.insert(current);
    assert forall|p: GridPos| #![trigger dist.dom().contains(p)] dist.dom().contains(p) implies (closed2.contains(p) <==> rank[p] < head + 1) by {
        if p != current && !closed.contains(p) {
            lemma_rank_below_next(tiles, c, start, target, visited, cf, q, dist, closed, level, current, rank, head, i, p);
        }
    }
}

/// Every walk from `start` to a visited cell of a level below the queue's
/// head, of as many moves as that level, is the route by which the search
/// reached the cell or comes after it.
proof fn lemma_tree_path_first(
    tiles: Set<GridPos>,
    c: (GridPos, GridPos),
    start: GridPos,
    target: GridPos,
    visited: Set<u64>,
    cf: Map<u64, GridPos>,
    q: Seq<GridPos>,
    dist: Map<GridPos, int>,
    closed: Set<GridPos>,
    level: int,
    rank: Map<GridPos, int>,
    head: int,
    p: GridPos,
    w: Seq<GridPos>,
)
    requires
        search_ok(tiles, c, start, target, visited, cf, q, dist, closed, level),
        order_ok(tiles, c, start, cf, q, dist, closed, rank, head),
        dist.dom().contains(p),
        dist[p] <= level,
        is_walk(w, tiles, c),
        w[0] == start,
        w.last() == p,
        w.len() == dist[p] + 1,
    ensures
        w == tree_path(cf, dist, p) || precedes(tree_path(cf, dist, p), w),
    decreases dist[p],
{
    reveal(search_ok);
    reveal(order_ok);
    assert(frontier_ok(tiles, c, start, target, visited, cf, q, dist, closed, level));
    lemma_tree_path(cf, dist, start, tiles, c, p);
    if dist[p] == 0 {
        assert(w =~= seq![start]);
    } else {
        lemma_walk_drop_last(w, tiles, c);
        let w1 = w.drop_last();
        let u = w1.last();
        assert(w1[0] == start);
        reveal(lower_bound);
        assert(is_walk(w1, tiles, c) && w1[0] == start && w1.len() - 1 <= level);
        assert(dist.dom().contains(u));
        assert(dist[u] <= dist[p] - 1);
        if !closed.contains(u) {
            assert(q.contains(u));
            let k = choose|k: int| 0 <= k < q.len() && q[k] == u;
            assert(level <= dist[q[k]]);
            assert(false);
        }
        assert(step_at(w, w.len() - 2, tiles, c));
        assert(can_step(u, p, tiles, c));
        reveal(closed_expanded);
        assert(dist[p] <= dist[u] + 1);
        lemma_tree_path_first(tiles, c, start, target, visited, cf, q, dist, closed, level, rank, head, u, w1);
        reveal(parent_first);
        let par = parent_of(cf, p);
        assert(u == par || precedes(tree_path(cf, dist, par), tree_path(cf, dist, u)));
        assert(w =~= w1.push(p));
        lemma_tree_path(cf, dist, start, tiles, c, u);
        if u == par {
            if w1 != tree_path(cf, dist, u) {
                lemma_precedes_push(tree_path(cf, dist, u), w1, p, p);
            }
        } else {
            if w1 == tree_path(cf, dist, u) {
                lemma_precedes_push(tree_path(cf, dist, par), w1, p, p);
            } else {
                lemma_precedes_trans(tree_path(cf, dist, par), tree_path(cf, dist, u), w1);
                lemma_precedes_push(tree_path(cf, dist, par), w1, p, p);
            }
        }
    }
}

/// When `target` leaves the queue, the predecessor chain back to `start` is
/// the first shortest route in the order in which moves are tried.
proof fn lemma_search_found_first(
    tiles: Set<GridPos>,
    c: (GridPos, GridPos),
    start: GridPos,
    target: GridPos,
    visited: Set<u64>,
    cf: Map<u64, GridPos>,
    q: Seq<GridPos>,
    dist: Map<GridPos, int>,
    closed: Set<GridPos>,
    level: int,
    rank: Map<GridPos, int>,
    head: int,
)
    requires
        search_ok(tiles, c, start, target, visited, cf, q, dist, closed, level),
        order_ok(tiles, c, start, cf, q, dist, closed, rank, head),
        q.len() > 0,
        q[0] == target,
    ensures
        exists|n: nat| chain_reaches(cf, target, start, n),
        forall|r: Seq<GridPos>|
            #[trigger] is_predecessor_chain(cf, r, start, target) ==> is_first_shortest_route(
                r,
                start,
                target,
                tiles,
                c,
            ),
{
    lemma_search_found(tiles, c, start, target, visited, cf, q, dist, closed, level);
    reveal(search_ok);
    assert(frontier_ok(tiles, c, start, target, visited, cf, q, dist, closed, level));
    assert(dist.dom().contains(target));
    assert forall|r: Seq<GridPos>| #[trigger] is_predecessor_chain(cf, r, start, target) implies is_first_shortest_route(
        r,
        start,
        target,
        tiles,
        c,
    ) by {
        assert(is_shortest_route(r, start, target, tiles, c));
        lemma_chain_is_walk(dist, cf, start, target, tiles, c, r);
        lemma_chain_prefix(dist, cf, start, target, tiles, c, r, r.len() - 1);
        assert(r.take(r.len() as int) =~= r);
        assert(r[r.len() - 1] == target);
        assert forall|w: Seq<GridPos>| #[trigger] is_shortest_route(w, start, target, tiles, c) && w != r implies precedes(r, w) by {
            assert(r.len() <= w.len());
            assert(w.len() <= r.len());
            lemma_tree_path_first(tiles, c, start, target, visited, cf, q, dist, closed, level, rank, head, target, w);
        }
    }
}

/// Breadth-first search over the level grid from `start` to `target`,
/// moving between adjacent cells that hold no tile and expanding only cells
/// inside the level box, trying the neighbors of each cell left, right, up,
/// down. Returns the shortest route that comes first in that order of moves,
/// both ends included, or nothing when `start` is `target` or `target`
/// cannot be reached.
pub fn bfs_path_finding(
    start: GridPos,
    target: GridPos,
    tiles: &TileGrid,
    level_constraints: (GridPos, GridPos),
) -> (r: Vec<GridPos>)
    requires
        box_in_range(level_constraints),
    ensures
        is_search_result(r@, start, target, tiles@, level_constraints),
{
    let c = level_constraints;
    let mut queue: VecDeque<GridPos> = VecDeque::new();
    queue.push_back(start);
    let mut visited: HashSet<u64> = HashSet::new();
    let start_key = grid_key(&start);
    visited.insert(start_key);
    let mut came_from: HashMap<u64, GridPos> = HashMap::new();
    if start == target {
        return Vec::new();
    }
    let ghost mut dist: Map<GridPos, int> = Map::empty().insert(start, 0);
    let ghost mut closed: Set<GridPos> = Set::empty();
    let ghost mut closed_keys: Set<int> = Set::empty();
    let ghost mut level: int = 0;
    let ghost mut rank: Map<GridPos, int> = Map::empty().insert(start, 0);
    let ghost mut head: int = 0;
    proof {
        lemma_order_init(tiles@, c, start);
        lemma_int_range(0, key_space());
        assert(visited@ =~= Set::<u64>::empty().insert(cell_key(start) as u64));
        assert(queue@ =~= seq![start]);
        assert(came_from@ =~= Map::<u64, GridPos>::empty());
        lemma_search_init(tiles@, c, start, target, visited@);
    }
    while queue.len() > 0
        invariant
            c == level_constraints,
            box_in_range(c),
            start != target,
            search_ok(tiles@, c, start, target, visited@, came_from@, queue@, dist, closed, level),
            order_ok(tiles@, c, start, came_from@, queue@, dist, closed, rank, head),
            closed_keys.finite(),
            closed_keys.subset_of(set_int_range(0, key_space())),
            set_int_range(0, key_space()).finite(),
            set_int_range(0, key_space()).len() == key_space(),
            forall|p: GridPos| #[trigger] closed.contains(p) <==> closed_keys.contains(cell_key(p)),
        decreases key_space() - closed_keys.len(),
    {
        proof {
            lemma_len_subset(closed_keys, set_int_range(0, key_space()));
        }
        let ghost q0 = queue@;
        let current = match queue.pop_front() {
            Some(p) => p,
            None => {
                proof {
                    assert(false);
                }
                start
            },
        };
        if current == target {
            proof {
                lemma_search_found_first(tiles@, c, start, target, visited@, came_from@, q0, dist, closed, level, rank, head);
            }
            let path = reconstruct_path(&came_from, start, target);
            return path;
        }
        proof {
            lemma_search_pop(tiles@, c, start, target, visited@, came_from@, q0, dist, closed, level);
            lemma_order_pop(tiles@, c, start, came_from@, q0, dist, closed, rank, head);
            assert(queue@ == q0.subrange(1, q0.len() as int));
        }
        let ghost mut tried: int = 0;
        let neighbors = get_neighbor_pos(&current, &c);
        if let Some(ns) = neighbors {
            let mut i: usize = 0;
            while i < 4
                invariant
                    c == level_constraints,
                    box_in_range(c),
                    start != target,
                    i <= 4,
                    ns@ == neighbors_of(current),
                    !outside_box(current, c),
                    has_neighbors_in_range(current),
                    expanding_ok(tiles@, c, start, target, visited@, came_from@, queue@, dist, closed, level, current),
                    order_expanding_ok(tiles@, c, start, came_from@, queue@, dist, closed, rank, head, current, i as int),
                    partly_expanded(ns@, i as int, tiles@, dist, level),
                decreases 4 - i,
            {
                let n = ns[i];
                if !tiles.contains(&n) {
                    let k = grid_key(&n);
                    let ghost v0 = visited@;
                    let fresh = visited.insert(k);
                    if fresh {
                        proof {
                            lemma_cell_key(n, n);
                            assert(k == cell_key(ns@[i as int]) as u64);
                            lemma_order_fresh(tiles@, c, start, target, v0, came_from@, queue@, dist, closed, level, current, rank, head, ns@, i as int);
                            lemma_visit_fresh(tiles@, c, start, target, v0, came_from@, queue@, dist, closed, level, current, ns@, i as int);
                            rank = rank.insert(n, head + 1 + queue@.len());
                        }
                        queue.push_back(n);
                        came_from.insert(k, current);
                        proof {
                            dist = dist.insert(n, level + 1);
                        }
                    } else {
                        proof {
                            assert(visited@ =~= v0);
                            lemma_visit_skip(tiles@, c, start, target, visited@, came_from@, queue@, dist, closed, level, current, ns@, i as int);
                            lemma_order_skip(tiles@, c, start, came_from@, queue@, dist, closed, rank, head, current, i as int);
                        }
                    }
                } else {
                    proof {
                        lemma_visit_skip(tiles@, c, start, target, visited@, came_from@, queue@, dist, closed, level, current, ns@, i as int);
                        lemma_order_skip(tiles@, c, start, came_from@, queue@, dist, closed, rank, head, current, i as int);
                    }
                }
                i += 1;
            }
            proof {
                assert forall|n: GridPos| #[trigger] can_step(current, n, tiles@, c) implies dist.dom().contains(n)
                    && dist[n] <= level + 1 by {
                    lemma_adjacent_is_neighbor(current, n);
                    let j = choose|j: int| 0 <= j < 4 && neighbors_of(current)[j] == n;
                    assert(ns@[j] == n);
                }
                tried = i as int;
            }
        }
        proof {
            lemma_order_close(tiles@, c, start, target, visited@, came_from@, queue@, dist, closed, level, current, rank, head, tried);
            head = head + 1;
            lemma_search_close(tiles@, c, start, target, visited@, came_from@, queue@, dist, closed, level, current);
            lemma_cell_key(current, current);
            assert(!closed_keys.contains(cell_key(current)));
            let ghost old_len = closed_keys.len();
            closed = closed.insert(current);
            closed_keys = closed_keys.insert(cell_key(current));
            lemma_cell_key(current, current);
            assert forall|p: GridPos| #[trigger] closed.contains(p) <==> closed_keys.contains(cell_key(p)) by {
                lemma_cell_key(p, current);
            }
            assert(closed_keys.subset_of(set_int_range(0, key_space())));
            lemma_len_subset(closed_keys, set_int_range(0, key_space()));
            assert(closed_keys.len() == old_len + 1);
            if queue@.len() > 0 && dist[queue@[0]] == level + 1 {
                level = level + 1;
            }
        }
    }
    proof {
        lemma_search_exhausted(tiles@, c, start, target, visited@, came_from@, queue@, dist, closed, level);
    }
    Vec::new()
}


/// Whether the path recorded for entity `e` already ends at `target`.
pub open spec fn path_is_current(paths: Map<u64, Vec<GridPos>>, e: u64, target: GridPos) -> bool {
    &&& paths.contains_key(e)
    &&& paths[e]@.len() > 0
    &&& paths[e]@.last() == target
}

/// Whether the path recorded for entity `e` (its bits) already leads to
/// `target`, so that it need not be searched again.
pub fn target_did_not_update(zombie_paths: &HashMap<u64, Vec<GridPos>>, e: u64, target: &GridPos) -> (r:
    bool)
    ensures
        r == path_is_current(zombie_paths@, e, *target),
{
    match zombie_paths.get(&e) {
        Some(path) => {
            let n = path.len();
            if n > 0 {
                path[n - 1] == *target
            } else {
                false
            }
        },
        None => false,
    }
}

/// A zombie as the path finding sees it: its entity (bits), the cell it
/// stands on, and the cell of the player closest to it, if any player is
/// left.
#[derive(Clone, Copy, Debug)]
pub struct ZombieTarget {
    pub entity: u64,
    pub cell: GridPos,
    pub closest_player: Option<GridPos>,
}

/// Whether no two zombies share an entity.
pub open spec fn distinct_entities(zombies: Seq<ZombieTarget>) -> bool {
    forall|i: int, j: int|
        0 <= i < j < zombies.len() ==> #[trigger] zombies[i].entity != #[trigger] zombies[j].entity
}

/// Whether the entry for `k` is the same in both maps (present in both with
/// the same value, or absent from both).
pub open spec fn same_entry(a: Map<u64, Vec<GridPos>>, b: Map<u64, Vec<GridPos>>, k: u64) -> bool {
    &&& a.contains_key(k) == b.contains_key(k)
    &&& a.contains_key(k) ==> a[k] == b[k]
}

/// What the path finding does for one zombie: with no player left, nothing;
/// with a player whose cell its path already leads to, nothing; else it
/// records a fresh search result from its cell to the player's cell.
pub open spec fn zombie_path_updated(
    before: Map<u64, Vec<GridPos>>,
    after: Map<u64, Vec<GridPos>>,
    z: ZombieTarget,
    tiles: Set<GridPos>,
    c: (GridPos, GridPos),
) -> bool {
    match z.closest_player {
        None => same_entry(before, after, z.entity),
        Some(t) => if path_is_current(before, z.entity, t) {
            same_entry(before, after, z.entity)
        } else {
            &&& after.contains_key(z.entity)
            &&& is_search_result(after[z.entity]@, z.cell, t, tiles, c)
        },
    }
}

/// The entities of the zombies that have no player to go for.
pub open spec fn stopped_entities(zombies: Seq<ZombieTarget>) -> Seq<u64> {
    zombies.filter(|z: ZombieTarget| z.closest_player is None).map_values(|z: ZombieTarget| z.entity)
}

/// Updates the recorded path of each zombie towards the closest player and
/// returns, in order, the zombies that have no player to go for (the caller
/// stops them). Paths are searched again only where the player has moved to
/// another cell than the one the recorded path leads to.
pub fn zombie_pathfinding_system(
    zombies: &Vec<ZombieTarget>,
    tile_grid: &TileGrid,
    level_constraints: (GridPos, GridPos),
    zombie_paths: &mut HashMap<u64, Vec<GridPos>>,
) -> (stopped: Vec<u64>)
    requires
        box_in_range(level_constraints),
        distinct_entities(zombies@),
    ensures
        stopped@ == stopped_entities(zombies@),
        forall|i: int|
            #![trigger zombies@[i]]
            0 <= i < zombies@.len() ==> zombie_path_updated(
                old(zombie_paths)@,
                final(zombie_paths)@,
                zombies@[i],
                tile_grid@,
                level_constraints,
            ),
        forall|k: u64|
            (forall|i: int| 0 <= i < zombies@.len() ==> #[trigger] zombies@[i].entity != k)
                ==> same_entry(old(zombie_paths)@, final(zombie_paths)@, k),
{
    let ghost before = zombie_paths@;
    let mut stopped: Vec<u64> = Vec::new();
    let mut i: usize = 0;
    while i < zombies.len()
        invariant
            i <= zombies@.len(),
            box_in_range(level_constraints),
            distinct_entities(zombies@),
            stopped@ == stopped_entities(zombies@.take(i as int)),
            forall|j: int|
                #![trigger zombies@[j]]
                0 <= j < i ==> zombie_path_updated(
                    before,
                    zombie_paths@,
                    zombies@[j],
                    tile_grid@,
                    level_constraints,
                ),
            forall|k: u64|
                (forall|j: int| 0 <= j < i ==> #[trigger] zombies@[j].entity != k) ==> same_entry(
                    before,
                    zombie_paths@,
                    k,
                ),
        decreases zombies@.len() - i,
    {
        let z = zombies[i];
        let ghost mid = zombie_paths@;
        proof {
            assert forall|j: int| 0 <= j < i implies #[trigger] zombies@[j].entity != z.entity by {}
            assert(same_entry(before, mid, z.entity));
        }
        match z.closest_player {
            Some(target) => {
                if !target_did_not_update(zombie_paths, z.entity, &target) {
                    let path = bfs_path_finding(z.cell, target, tile_grid, level_constraints);
                    zombie_paths.insert(z.entity, path);
                }
            },
            None => {
                stopped.push(z.entity);
            },
        }
        proof {
            assert forall|j: int| #![trigger zombies@[j]] 0 <= j < i + 1 implies zombie_path_updated(
                before,
                zombie_paths@,
                zombies@[j],
                tile_grid@,
                level_constraints,
            ) by {
                if j < i {
                    assert(zombies@[j].entity != z.entity);
                    assert(same_entry(mid, zombie_paths@, zombies@[j].entity));
                }
            }
            assert forall|k: u64|
                (forall|j: int| 0 <= j < i + 1 ==> #[trigger] zombies@[j].entity != k) implies same_entry(
                before,
                zombie_paths@,
                k,
            ) by {
                assert(zombies@[i as int].entity != k);
                assert(forall|j: int| 0 <= j < i ==> #[trigger] zombies@[j].entity != k);
                assert(same_entry(before, mid, k));
                assert(same_entry(mid, zombie_paths@, k));
            }
            let pred = |z: ZombieTarget| z.closest_player is None;
            assert(zombies@.take(i + 1).drop_last() =~= zombies@.take(i as int));
            reveal_with_fuel(Seq::<_>::filter, 1);
            assert(zombies@.take(i + 1).last() == z);
        }
        i += 1;
    }
    proof {
        assert(zombies@.take(zombies@.len() as int) =~= zombies@);
    }
    stopped
}

/// Once the path finding has handled a zombie whose player can be reached
/// from another cell, the recorded path leads to the player's cell, so the
/// next round leaves it alone until the player moves to another cell.
pub proof fn lemma_recorded_route_is_current(
    before: Map<u64, Vec<GridPos>>,
    after: Map<u64, Vec<GridPos>>,
    z: ZombieTarget,
    t: GridPos,
    tiles: Set<GridPos>,
    c: (GridPos, GridPos),
)
    requires
        zombie_path_updated(before, after, z, tiles, c),
        z.closest_player == Some(t),
        z.cell != t,
        reachable(z.cell, t, tiles, c),
    ensures
        path_is_current(after, z.entity, t),
{
}

/// After the path finding, a zombie whose player stands on another cell
/// than the one its recorded path ends at has a recorded path that is the
/// search's answer from its cell to the player's: nothing when it stands on
/// the player's cell or cannot reach it, else the first shortest route.
pub proof fn lemma_stale_route_replaced(
    before: Map<u64, Vec<GridPos>>,
    after: Map<u64, Vec<GridPos>>,
    z: ZombieTarget,
    t: GridPos,
    tiles: Set<GridPos>,
    c: (GridPos, GridPos),
)
    requires
        zombie_path_updated(before, after, z, tiles, c),
        z.closest_player == Some(t),
        !path_is_current(before, z.entity, t),
    ensures
        after.contains_key(z.entity),
        z.cell == t ==> after[z.entity]@.len() == 0,
        !reachable(z.cell, t, tiles, c) ==> after[z.entity]@.len() == 0,
        z.cell != t && reachable(z.cell, t, tiles, c) ==> {
            &&& after[z.entity]@[0] == z.cell
            &&& after[z.entity]@.last() == t
            &&& is_first_shortest_route(after[z.entity]@, z.cell, t, tiles, c)
        },
{
}

} // verus!
