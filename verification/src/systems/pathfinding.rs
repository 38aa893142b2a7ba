use vstd::prelude::*;
use vstd::set_lib::*;

use crate::components::robot::{robots_view, state_is_routing, Robot};
use crate::components::station::stations_view;
use crate::world::World;
use crate::world::grid::{
    adjacent_in, cell_index, neighbors_spec, cell_position, lemma_cell_index, lemma_cell_position, manhattan,
    Grid, Position,
};

verus! {

/// Cost penalty for a tile currently occupied by another robot.
/// Large-but-finite so that the algorithm routes around occupied tiles
/// when any alternative exists, but can still find a path through them
/// as a last resort rather than returning None.
pub const OCCUPIED_TILE_PENALTY: usize = 10_000;

/// Cost of entering tile `v`: 1, plus the penalty when another robot stands there.
pub open spec fn step_cost(occupied: Seq<Position>, v: Position) -> nat {
    if occupied.contains(v) {
        (1 + OCCUPIED_TILE_PENALTY) as nat
    } else {
        1
    }
}

/// Entering `b` from `a` is a legal single move on the grid.
pub open spec fn step_ok(grid: Grid, a: Position, b: Position) -> bool {
    adjacent_in(a, b, grid.width, grid.height) && grid.passable(b)
}

/// The tile a walk stands on before its `i`-th step.
pub open spec fn walk_point(start: Position, q: Seq<Position>, i: int) -> Position {
    if i == 0 {
        start
    } else {
        q[i - 1]
    }
}

/// `q` lists the tiles entered one by one when walking from `start`.
pub open spec fn is_walk(grid: Grid, start: Position, q: Seq<Position>) -> bool {
    forall|i: int| 0 <= i < q.len() ==> step_ok(grid, walk_point(start, q, i), #[trigger] q[i])
}

/// `q` is a walk from `start` that ends on `goal` (the empty walk when they coincide).
pub open spec fn is_route(grid: Grid, start: Position, goal: Position, q: Seq<Position>) -> bool {
    &&& is_walk(grid, start, q)
    &&& if q.len() == 0 {
        start == goal
    } else {
        q.last() == goal
    }
}

/// Total cost of the tiles entered along `q`.
pub open spec fn walk_cost(occupied: Seq<Position>, q: Seq<Position>) -> nat
    decreases q.len(),
{
    if q.len() == 0 {
        0
    } else {
        walk_cost(occupied, q.drop_last()) + step_cost(occupied, q.last())
    }
}

/// The search's arithmetic stays within `usize` on this grid and goal.
pub open spec fn search_fits(grid: Grid, goal: Position) -> bool {
    (1 + OCCUPIED_TILE_PENALTY) * (grid.width * grid.height) + grid.width + grid.height + goal.x
        + goal.y < usize::MAX
}

/// `path` is a cheapest route from `start` to `goal`.
pub open spec fn is_cheapest_route(
    grid: Grid,
    occupied: Seq<Position>,
    start: Position,
    goal: Position,
    path: Seq<Position>,
) -> bool {
    &&& is_route(grid, start, goal, path)
    &&& forall|q: Seq<Position>| #[trigger]
        is_route(grid, start, goal, q) ==> walk_cost(occupied, path) <= walk_cost(occupied, q)
}

/// A node in the open set.
struct AStarNode {
    f_cost: usize,
    g_cost: usize,
    position: Position,
}

spec fn gv(g: Seq<usize>, w: usize, p: Position) -> int {
    g[cell_index(p, w)] as int
}

spec fn open_at(heap: Seq<AStarNode>, g: Seq<usize>, w: usize, u: Position) -> bool {
    exists|k: int|
        0 <= k < heap.len() && (#[trigger] heap[k]).position == u && heap[k].g_cost as int == gv(
            g,
            w,
            u,
        )
}

spec fn relaxed_at(grid: Grid, occupied: Seq<Position>, g: Seq<usize>, u: Position) -> bool {
    forall|v: Position|
        #[trigger] adjacent_in(u, v, grid.width, grid.height) && grid.passable(v) ==> gv(
            g,
            grid.width,
            v,
        ) <= gv(g, grid.width, u) + step_cost(occupied, v)
}

spec fn parent_ok(
    grid: Grid,
    occupied: Seq<Position>,
    g: Seq<usize>,
    parent: Seq<usize>,
    p: Position,
) -> bool {
    let n = grid.width * grid.height;
    let pi = parent[cell_index(p, grid.width)] as int;
    let u = cell_position(pi, grid.width);
    &&& 0 <= pi < n
    &&& gv(g, grid.width, u) < usize::MAX
    &&& step_ok(grid, u, p)
    &&& gv(g, grid.width, u) + step_cost(occupied, p) <= gv(g, grid.width, p)
}

spec fn entry_ok(grid: Grid, goal: Position, g: Seq<usize>, e: AStarNode) -> bool {
    &&& grid.in_bounds(e.position)
    &&& e.g_cost as int >= gv(g, grid.width, e.position)
    &&& e.g_cost <= (1 + OCCUPIED_TILE_PENALTY) * (grid.width * grid.height)
    &&& e.f_cost == e.g_cost + manhattan(e.position, goal)
}

/// Parent links and cost estimates describe real walks from `start`.
spec fn tree_inv(
    grid: Grid,
    occupied: Seq<Position>,
    start: Position,
    g: Seq<usize>,
    parent: Seq<usize>,
) -> bool {
    let n = grid.width * grid.height;
    &&& grid.wf()
    &&& grid.in_bounds(start)
    &&& g.len() == n
    &&& parent.len() == n
    &&& gv(g, grid.width, start) == 0
    &&& parent[cell_index(start, grid.width)] == usize::MAX
    &&& forall|p: Position|
        grid.in_bounds(p) && #[trigger] gv(g, grid.width, p) < usize::MAX && p != start ==> parent_ok(
            grid,
            occupied,
            g,
            parent,
            p,
        )
}

/// Finite estimates are bounded by the number of tiles reached so far.
spec fn bound_inv(grid: Grid, g: Seq<usize>, seen: Set<int>) -> bool {
    let n = grid.width * grid.height;
    &&& seen.subset_of(set_int_range(0, n))
    &&& seen.len() >= 1
    &&& forall|i: int| 0 <= i < n ==> ((g[i] as int) < usize::MAX <==> #[trigger] seen.contains(i))
    &&& forall|i: int|
        0 <= i < n && (g[i] as int) < usize::MAX ==> #[trigger] g[i] <= (1 + OCCUPIED_TILE_PENALTY) * (
        seen.len() - 1)
}

spec fn heap_inv(grid: Grid, goal: Position, g: Seq<usize>, heap: Seq<AStarNode>) -> bool {
    forall|k: int| 0 <= k < heap.len() ==> entry_ok(grid, goal, g, #[trigger] heap[k])
}

spec fn relax_inv(grid: Grid, occupied: Seq<Position>, g: Seq<usize>, heap: Seq<AStarNode>) -> bool {
    forall|p: Position|
        grid.in_bounds(p) && #[trigger] gv(g, grid.width, p) < usize::MAX ==> open_at(
            heap,
            g,
            grid.width,
            p,
        ) || relaxed_at(grid, occupied, g, p)
}

spec fn goal_inv(grid: Grid, goal: Position, g: Seq<usize>, heap: Seq<AStarNode>) -> bool {
    grid.in_bounds(goal) && gv(g, grid.width, goal) < usize::MAX ==> open_at(heap, g, grid.width, goal)
}

spec fn seq_sum(s: Seq<usize>) -> int
    decreases s.len(),
{
    if s.len() == 0 {
        0
    } else {
        seq_sum(s.drop_last()) + s.last()
    }
}

proof fn lemma_seq_sum_update(s: Seq<usize>, i: int, x: usize)
    requires
        0 <= i < s.len(),
    ensures
        seq_sum(s.update(i, x)) == seq_sum(s) - s[i] + x,
    decreases s.len(),
{
    let t = s.update(i, x);
    if i == s.len() - 1 {
        assert(t.drop_last() =~= s.drop_last());
    } else {
        lemma_seq_sum_update(s.drop_last(), i, x);
        assert(t.drop_last() =~= s.drop_last().update(i, x));
    }
}

proof fn lemma_seq_sum_nonneg(s: Seq<usize>)
    ensures
        seq_sum(s) >= 0,
    decreases s.len(),
{
    if s.len() > 0 {
        lemma_seq_sum_nonneg(s.drop_last());
    }
}

/// Distinct in-bounds positions have distinct row-major indices.
proof fn lemma_index_injective(p: Position, q: Position, w: usize, h: usize)
    requires
        p.x < w,
        p.y < h,
        q.x < w,
        q.y < h,
        cell_index(p, w) == cell_index(q, w),
    ensures
        p == q,
{
    lemma_cell_index(p, w, h);
    lemma_cell_index(q, w, h);
}

/// A walk's cost grows by at least one per step.
proof fn lemma_cost_growth(occupied: Seq<Position>, q: Seq<Position>, i: int, j: int)
    requires
        0 <= i <= j <= q.len(),
    ensures
        walk_cost(occupied, q.take(j)) >= walk_cost(occupied, q.take(i)) + (j - i),
    decreases j - i,
{
    if i < j {
        lemma_cost_growth(occupied, q, i, j - 1);
        assert(q.take(j).drop_last() =~= q.take(j - 1));
    }
}

/// The Manhattan distance to the end of a walk is at most its remaining steps.
proof fn lemma_manhattan_steps(grid: Grid, start: Position, q: Seq<Position>, i: int)
    requires
        is_walk(grid, start, q),
        q.len() > 0,
        0 <= i <= q.len(),
    ensures
        manhattan(walk_point(start, q, i), q.last()) <= q.len() - i,
    decreases q.len() - i,
{
    if i < q.len() {
        lemma_manhattan_steps(grid, start, q, i + 1);
        assert(step_ok(grid, walk_point(start, q, i), q[i]));
        assert(walk_point(start, q, i + 1) == q[i]);
    }
}

/// Walking `q` from `start` either reaches its end with a cost estimate no
/// larger than the walk's cost, or passes a tile that is still open with a
/// priority no larger than the walk's cost.
proof fn lemma_frontier(
    grid: Grid,
    occupied: Seq<Position>,
    start: Position,
    goal: Position,
    g: Seq<usize>,
    heap: Seq<AStarNode>,
    q: Seq<Position>,
    i: int,
)
    requires
        grid.wf(),
        grid.in_bounds(start),
        g.len() == grid.width * grid.height,
        relax_inv(grid, occupied, g, heap),
        heap_inv(grid, goal, g, heap),
        forall|p: Position|
            grid.in_bounds(p) && #[trigger] gv(g, grid.width, p) < usize::MAX ==> gv(g, grid.width, p)
                + 1 + OCCUPIED_TILE_PENALTY < usize::MAX,
        is_walk(grid, start, q),
        q.len() > 0,
        q.last() == goal,
        0 <= i <= q.len(),
        grid.in_bounds(walk_point(start, q, i)),
        gv(g, grid.width, walk_point(start, q, i)) < usize::MAX,
        gv(g, grid.width, walk_point(start, q, i)) <= walk_cost(occupied, q.take(i)),
    ensures
        (gv(g, grid.width, goal) < usize::MAX && gv(g, grid.width, goal) <= walk_cost(occupied, q)) || (
        exists|k: int| 0 <= k < heap.len() && (#[trigger] heap[k]).f_cost <= walk_cost(occupied, q)),
    decreases q.len() - i,
{
    let u = walk_point(start, q, i);
    if i == q.len() {
        assert(q.take(i) =~= q);
    } else {
        assert(step_ok(grid, u, q[i]));
        if relaxed_at(grid, occupied, g, u) {
            let v = q[i];
            assert(adjacent_in(u, v, grid.width, grid.height));
            assert(q.take(i + 1).drop_last() =~= q.take(i));
            assert(walk_point(start, q, i + 1) == v);
            lemma_frontier(grid, occupied, start, goal, g, heap, q, i + 1);
        } else {
            assert(open_at(heap, g, grid.width, u));
            let k = choose|k: int|
                0 <= k < heap.len() && (#[trigger] heap[k]).position == u && heap[k].g_cost as int
                    == gv(g, grid.width, u);
            assert(entry_ok(grid, goal, g, heap[k]));
            lemma_manhattan_steps(grid, start, q, i);
            lemma_cost_growth(occupied, q, i, q.len() as int);
            assert(q.take(q.len() as int) =~= q);
        }
    }
}

/// A walk costs at least what entering any one of its tiles costs.
proof fn lemma_cost_at_least_step(occupied: Seq<Position>, q: Seq<Position>, k: int)
    requires
        0 <= k < q.len(),
    ensures
        walk_cost(occupied, q) >= step_cost(occupied, q[k]),
    decreases q.len(),
{
    if k < q.len() - 1 {
        lemma_cost_at_least_step(occupied, q.drop_last(), k);
        assert(q.drop_last()[k] == q[k]);
    }
}

/// A walk that enters no occupied tile costs one per step.
proof fn lemma_cost_free_walk(occupied: Seq<Position>, q: Seq<Position>)
    requires
        forall|k: int| 0 <= k < q.len() ==> !occupied.contains(#[trigger] q[k]),
    ensures
        walk_cost(occupied, q) == q.len(),
    decreases q.len(),
{
    if q.len() > 0 {
        let r = q.drop_last();
        assert forall|k: int| 0 <= k < r.len() implies !occupied.contains(#[trigger] r[k]) by {
            assert(r[k] == q[k]);
        }
        lemma_cost_free_walk(occupied, r);
        assert(!occupied.contains(q[q.len() - 1]));
    }
}

/// Occupied tiles are avoided whenever an alternative exists: if some route
/// to the goal enters no occupied tile and takes no more steps than the
/// penalty, a cheapest route enters no occupied tile either.
pub proof fn lemma_cheapest_avoids_occupied(
    grid: Grid,
    occupied: Seq<Position>,
    start: Position,
    goal: Position,
    path: Seq<Position>,
    q: Seq<Position>,
)
    requires
        is_cheapest_route(grid, occupied, start, goal, path),
        is_route(grid, start, goal, q),
        q.len() <= OCCUPIED_TILE_PENALTY,
        forall|k: int| 0 <= k < q.len() ==> !occupied.contains(#[trigger] q[k]),
    ensures
        forall|k: int| 0 <= k < path.len() ==> !occupied.contains(#[trigger] path[k]),
{
    lemma_cost_free_walk(occupied, q);
    assert(walk_cost(occupied, path) <= walk_cost(occupied, q));
    assert forall|k: int| 0 <= k < path.len() implies !occupied.contains(#[trigger] path[k]) by {
        lemma_cost_at_least_step(occupied, path, k);
    }
}

/// Step cost of a tile, as the search computes it.
fn is_occupied(occupied: &Vec<Position>, p: Position) -> (b: bool)
    ensures
        b == occupied@.contains(p),
{
    let mut i: usize = 0;
    while i < occupied.len()
        invariant
            i <= occupied@.len(),
            forall|j: int| 0 <= j < i ==> occupied@[j] != p,
        decreases occupied@.len() - i,
    {
        if occupied[i] == p {
            return true;
        }
        i = i + 1;
    }
    false
}

/// Entry `a` comes before entry `b`: smaller `f_cost`, then smaller `g_cost`.
spec fn entry_before(a: AStarNode, b: AStarNode) -> bool {
    a.f_cost < b.f_cost || (a.f_cost == b.f_cost && a.g_cost < b.g_cost)
}

/// `m` is the first entry of the open set that no entry comes before.
spec fn is_min_entry(open: Seq<AStarNode>, m: int) -> bool {
    &&& 0 <= m < open.len()
    &&& forall|k: int| 0 <= k < open.len() ==> !entry_before(#[trigger] open[k], open[m])
    &&& forall|k: int| 0 <= k < m ==> entry_before(open[m], #[trigger] open[k])
}

/// The entry the search expands next.
spec fn min_entry(open: Seq<AStarNode>) -> int {
    choose|m: int| is_min_entry(open, m)
}

proof fn lemma_min_entry_unique(open: Seq<AStarNode>, m: int)
    requires
        is_min_entry(open, m),
    ensures
        min_entry(open) == m,
{
    let c = choose|c: int| is_min_entry(open, c);
    assert(is_min_entry(open, c));
    if c < m {
        assert(entry_before(open[m], open[c]));
    } else if m < c {
        assert(entry_before(open[c], open[m]));
    }
}

/// Index of the first open-set entry with the smallest `(f_cost, g_cost)`.
fn min_index(open: &Vec<AStarNode>) -> (m: usize)
    requires
        open@.len() > 0,
    ensures
        m < open@.len(),
        m as int == min_entry(open@),
        forall|k: int|
            0 <= k < open@.len() ==> open@[m as int].f_cost <= (#[trigger] open@[k]).f_cost,
{
    let mut m: usize = 0;
    let mut i: usize = 1;
    while i < open.len()
        invariant
            0 < i <= open@.len(),
            m < i,
            forall|k: int| 0 <= k < i ==> !entry_before(#[trigger] open@[k], open@[m as int]),
            forall|k: int| 0 <= k < m ==> entry_before(open@[m as int], #[trigger] open@[k]),
        decreases open@.len() - i,
    {
        if open[i].f_cost < open[m].f_cost || (open[i].f_cost == open[m].f_cost && open[i].g_cost
            < open[m].g_cost) {
            m = i;
        }
        i = i + 1;
    }
    proof {
        lemma_min_entry_unique(open@, m as int);
        assert forall|k: int| 0 <= k < open@.len() implies open@[m as int].f_cost <= (
        #[trigger] open@[k]).f_cost by {
            assert(!entry_before(open@[k], open@[m as int]));
        }
    }
    m
}

/// Prepending one legal step to a walk gives a walk.
proof fn lemma_walk_prepend(grid: Grid, a: Position, b: Position, q: Seq<Position>)
    requires
        step_ok(grid, a, b),
        is_walk(grid, b, q),
    ensures
        is_walk(grid, a, seq![b] + q),
{
    let r = seq![b] + q;
    assert forall|i: int| 0 <= i < r.len() implies step_ok(grid, walk_point(a, r, i), #[trigger] r[i]) by {
        if i > 0 {
            assert(r[i] == q[i - 1]);
            assert(walk_point(a, r, i) == walk_point(b, q, i - 1));
        }
    }
}

proof fn lemma_cost_prepend(occupied: Seq<Position>, b: Position, q: Seq<Position>)
    ensures
        walk_cost(occupied, seq![b] + q) == step_cost(occupied, b) + walk_cost(occupied, q),
    decreases q.len(),
{
    let r = seq![b] + q;
    if q.len() == 0 {
        assert(r.drop_last() =~= Seq::<Position>::empty());
        assert(r.last() == b);
        assert(walk_cost(occupied, r) == walk_cost(occupied, r.drop_last()) + step_cost(occupied, r.last()));
    } else {
        lemma_cost_prepend(occupied, b, q.drop_last());
        assert(r.drop_last() =~= seq![b] + q.drop_last());
        assert(r.last() == q.last());
        assert(walk_cost(occupied, r) == walk_cost(occupied, r.drop_last()) + step_cost(occupied, r.last()));
        assert(walk_cost(occupied, q) == walk_cost(occupied, q.drop_last()) + step_cost(occupied, q.last()));
    }
}

/// One parent-link step of path reconstruction keeps the reconstruction invariant.
proof fn lemma_reconstruct_step(
    grid: Grid,
    occupied: Seq<Position>,
    start: Position,
    goal: Position,
    g: Seq<usize>,
    parent: Seq<usize>,
    current: Position,
    path: Seq<Position>,
)
    requires
        tree_inv(grid, occupied, start, g, parent),
        grid.in_bounds(current),
        current != start,
        gv(g, grid.width, current) < usize::MAX,
        is_walk(grid, current, path),
        path.len() == 0 ==> current == goal,
        path.len() > 0 ==> path.last() == goal,
        gv(g, grid.width, current) + walk_cost(occupied, path) <= gv(g, grid.width, goal),
    ensures
        ({
            let pi = parent[cell_index(current, grid.width)] as int;
            let prev = cell_position(pi, grid.width);
            &&& 0 <= pi < grid.width * grid.height
            &&& grid.in_bounds(prev)
            &&& cell_index(prev, grid.width) == pi
            &&& gv(g, grid.width, prev) < gv(g, grid.width, current)
            &&& is_walk(grid, prev, seq![current] + path)
            &&& (seq![current] + path).last() == goal
            &&& gv(g, grid.width, prev) + walk_cost(occupied, seq![current] + path) <= gv(
                g,
                grid.width,
                goal,
            )
        }),
{
    assert(parent_ok(grid, occupied, g, parent, current));
    let pi = parent[cell_index(current, grid.width)] as int;
    let prev = cell_position(pi, grid.width);
    lemma_cell_position(pi, grid.width, grid.height);
    lemma_walk_prepend(grid, prev, current, path);
    lemma_cost_prepend(occupied, current, path);
}

/// Where the search stands.
enum SearchPhase {
    Running,
    Found,
    Exhausted,
}

/// The search's data: cost estimates and parent links per tile (row-major,
/// `usize::MAX` for none) and the open set.
struct SearchState {
    g: Seq<usize>,
    parent: Seq<usize>,
    open: Seq<AStarNode>,
    phase: SearchPhase,
}

/// The search before its first step: only `start` is known, at cost 0.
spec fn search_start(grid: Grid, start: Position, goal: Position) -> SearchState {
    let n = (grid.width * grid.height) as nat;
    SearchState {
        g: Seq::new(n, |i: int| usize::MAX).update(cell_index(start, grid.width), 0),
        parent: Seq::new(n, |i: int| usize::MAX),
        open: seq![AStarNode { f_cost: manhattan(start, goal) as usize, g_cost: 0, position: start }],
        phase: SearchPhase::Running,
    }
}

/// Relaxing the move from `cur` (at cost `cg`) onto `nb`: a cheaper estimate
/// for a passable `nb` is recorded with `cur` as its parent and `nb` is opened.
#[verifier::opaque]
spec fn relax_one(
    grid: Grid,
    occupied: Seq<Position>,
    goal: Position,
    cur: Position,
    cg: int,
    nb: Position,
    s: SearchState,
) -> SearchState {
    let ni = cell_index(nb, grid.width);
    let t = cg + step_cost(occupied, nb);
    if grid.passable(nb) && t < s.g[ni] {
        SearchState {
            g: s.g.update(ni, t as usize),
            parent: s.parent.update(ni, cell_index(cur, grid.width) as usize),
            open: s.open.push(
                AStarNode { f_cost: (t + manhattan(nb, goal)) as usize, g_cost: t as usize, position: nb },
            ),
            ..s
        }
    } else {
        s
    }
}

/// Relaxing the moves onto the first `j` neighbours, in order.
#[verifier::opaque]
spec fn relax_all(
    grid: Grid,
    occupied: Seq<Position>,
    goal: Position,
    cur: Position,
    cg: int,
    nbrs: Seq<Position>,
    s: SearchState,
    j: nat,
) -> SearchState
    decreases j,
{
    if j == 0 {
        s
    } else {
        relax_one(
            grid,
            occupied,
            goal,
            cur,
            cg,
            nbrs[j - 1],
            relax_all(grid, occupied, goal, cur, cg, nbrs, s, (j - 1) as nat),
        )
    }
}

/// One step of the search: take the first entry with the smallest
/// `(f_cost, g_cost)` out of the open set; stop when it is the goal, else
/// relax the moves to its neighbours (west, east, north, south).
#[verifier::opaque]
spec fn search_step(grid: Grid, occupied: Seq<Position>, goal: Position, s: SearchState) -> SearchState {
    if s.phase != SearchPhase::Running {
        s
    } else if s.open.len() == 0 {
        SearchState { phase: SearchPhase::Exhausted, ..s }
    } else {
        let m = min_entry(s.open);
        let cur = s.open[m].position;
        let popped = SearchState { open: s.open.remove(m), ..s };
        if cur == goal {
            SearchState { phase: SearchPhase::Found, ..popped }
        } else {
            let nbrs = neighbors_spec(cur, grid.width, grid.height);
            relax_all(
                grid,
                occupied,
                goal,
                cur,
                s.g[cell_index(cur, grid.width)] as int,
                nbrs,
                popped,
                nbrs.len(),
            )
        }
    }
}

/// A cheaper estimate for a passable neighbour is what `relax_one` records.
proof fn lemma_relax_taken(
    grid: Grid,
    occupied: Seq<Position>,
    goal: Position,
    cur: Position,
    cg: int,
    nb: Position,
    s: SearchState,
    g2: Seq<usize>,
    parent2: Seq<usize>,
    open2: Seq<AStarNode>,
)
    requires
        grid.passable(nb),
        cg + step_cost(occupied, nb) < s.g[cell_index(nb, grid.width)],
        g2 == s.g.update(cell_index(nb, grid.width), (cg + step_cost(occupied, nb)) as usize),
        parent2 == s.parent.update(cell_index(nb, grid.width), cell_index(cur, grid.width) as usize),
        open2 == s.open.push(
            AStarNode {
                f_cost: (cg + step_cost(occupied, nb) + manhattan(nb, goal)) as usize,
                g_cost: (cg + step_cost(occupied, nb)) as usize,
                position: nb,
            },
        ),
    ensures
        (SearchState { g: g2, parent: parent2, open: open2, phase: s.phase }) == relax_one(
            grid,
            occupied,
            goal,
            cur,
            cg,
            nb,
            s,
        ),
{
    reveal(relax_one);
}

/// A wall, or no cheaper estimate, leaves the search unchanged.
proof fn lemma_relax_skipped(
    grid: Grid,
    occupied: Seq<Position>,
    goal: Position,
    cur: Position,
    cg: int,
    nb: Position,
    s: SearchState,
)
    requires
        !(grid.passable(nb) && cg + step_cost(occupied, nb) < s.g[cell_index(nb, grid.width)]),
    ensures
        relax_one(grid, occupied, goal, cur, cg, nb, s) == s,
{
    reveal(relax_one);
}

proof fn lemma_relax_next(
    grid: Grid,
    occupied: Seq<Position>,
    goal: Position,
    cur: Position,
    cg: int,
    nbrs: Seq<Position>,
    s: SearchState,
    j: nat,
)
    requires
        j < nbrs.len(),
    ensures
        relax_all(grid, occupied, goal, cur, cg, nbrs, s, j + 1) == relax_one(
            grid,
            occupied,
            goal,
            cur,
            cg,
            nbrs[j as int],
            relax_all(grid, occupied, goal, cur, cg, nbrs, s, j),
        ),
{
    reveal(relax_all);
}

proof fn lemma_relax_none(
    grid: Grid,
    occupied: Seq<Position>,
    goal: Position,
    cur: Position,
    cg: int,
    nbrs: Seq<Position>,
    s: SearchState,
)
    ensures
        relax_all(grid, occupied, goal, cur, cg, nbrs, s, 0) == s,
{
    reveal(relax_all);
}

/// What one search step does from a running state with a non-empty open set.
proof fn lemma_search_step(grid: Grid, occupied: Seq<Position>, goal: Position, s: SearchState)
    requires
        s.phase == SearchPhase::Running,
    ensures
        s.open.len() == 0 ==> search_step(grid, occupied, goal, s) == (SearchState {
            phase: SearchPhase::Exhausted,
            ..s
        }),
        s.open.len() > 0 && s.open[min_entry(s.open)].position == goal ==> search_step(
            grid,
            occupied,
            goal,
            s,
        ) == (SearchState {
            open: s.open.remove(min_entry(s.open)),
            phase: SearchPhase::Found,
            ..s
        }),
        s.open.len() > 0 && s.open[min_entry(s.open)].position != goal ==> {
            let cur = s.open[min_entry(s.open)].position;
            let nbrs = neighbors_spec(cur, grid.width, grid.height);
            search_step(grid, occupied, goal, s) == relax_all(
                grid,
                occupied,
                goal,
                cur,
                s.g[cell_index(cur, grid.width)] as int,
                nbrs,
                SearchState { open: s.open.remove(min_entry(s.open)), ..s },
                nbrs.len(),
            )
        },
{
    reveal(search_step);
}

/// `k + 1` steps are one step after `k` steps; zero steps change nothing.
proof fn lemma_search_run(grid: Grid, occupied: Seq<Position>, goal: Position, s0: SearchState, k: nat)
    ensures
        search_run(grid, occupied, goal, s0, 0) == s0,
        search_run(grid, occupied, goal, s0, k + 1) == search_step(
            grid,
            occupied,
            goal,
            search_run(grid, occupied, goal, s0, k),
        ),
{
    reveal(search_run);
}

/// The search after `k` steps.
#[verifier::opaque]
spec fn search_run(grid: Grid, occupied: Seq<Position>, goal: Position, s0: SearchState, k: nat) -> SearchState
    decreases k,
{
    if k == 0 {
        s0
    } else {
        search_step(grid, occupied, goal, search_run(grid, occupied, goal, s0, (k - 1) as nat))
    }
}

/// Once the search has stopped, further steps change nothing.
proof fn lemma_search_settled(grid: Grid, occupied: Seq<Position>, goal: Position, s0: SearchState, k: nat, b: nat)
    requires
        k <= b,
        search_run(grid, occupied, goal, s0, k).phase != SearchPhase::Running,
    ensures
        search_run(grid, occupied, goal, s0, b) == search_run(grid, occupied, goal, s0, k),
    decreases b - k,
{
    reveal(search_run);
    reveal(search_step);
    if k < b {
        lemma_search_settled(grid, occupied, goal, s0, k, (b - 1) as nat);
    }
}

/// The parent links the search ends with when it reaches `goal`, or `None`
/// when it runs out of tiles to expand. Each step strictly lowers the sum of
/// the estimates (doubled) plus the size of the open set, so the search stops
/// within the number of steps given here. When `start` is the goal there is
/// nothing to search and no tile has a parent.
pub closed spec fn search_links(grid: Grid, occupied: Seq<Position>, start: Position, goal: Position) -> Option<
    Seq<usize>,
> {
    if start == goal {
        Some(Seq::new((grid.width * grid.height) as nat, |i: int| usize::MAX))
    } else {
        let s0 = search_start(grid, start, goal);
        let f = search_run(grid, occupied, goal, s0, (2 * seq_sum(s0.g) + 2) as nat);
        if f.phase == SearchPhase::Found {
            Some(f.parent)
        } else {
            None
        }
    }
}

/// `path` is the route from `start` to `goal` that the parent links trace:
/// the start has no parent, and the parent of each tile on the path is the
/// tile before it.
pub open spec fn traces(links: Seq<usize>, grid: Grid, start: Position, goal: Position, path: Seq<Position>) -> bool {
    &&& is_route(grid, start, goal, path)
    &&& links[cell_index(start, grid.width)] == usize::MAX
    &&& forall|i: int|
        0 <= i < path.len() ==> links[cell_index(#[trigger] path[i], grid.width)] as int == cell_index(
            walk_point(start, path, i),
            grid.width,
        )
}

/// Two routes traced by the same parent links agree from the goal backwards.
proof fn lemma_traces_suffix(
    links: Seq<usize>,
    grid: Grid,
    start: Position,
    goal: Position,
    p: Seq<Position>,
    q: Seq<Position>,
    m: int,
)
    requires
        grid.in_bounds(start),
        grid.width * grid.height <= usize::MAX,
        traces(links, grid, start, goal, p),
        traces(links, grid, start, goal, q),
        0 <= m < p.len(),
        m < q.len(),
    ensures
        p[p.len() - 1 - m] == q[q.len() - 1 - m],
    decreases m,
{
    if m > 0 {
        lemma_traces_suffix(links, grid, start, goal, p, q, m - 1);
        let i = p.len() - m;
        let j = q.len() - m;
        assert(step_ok(grid, walk_point(start, p, i - 1), p[i - 1]));
        assert(step_ok(grid, walk_point(start, q, j - 1), q[j - 1]));
        assert(links[cell_index(p[i], grid.width)] as int == cell_index(walk_point(start, p, i), grid.width));
        assert(links[cell_index(q[j], grid.width)] as int == cell_index(walk_point(start, q, j), grid.width));
        lemma_index_injective(p[i - 1], q[j - 1], grid.width, grid.height);
    }
}

/// The start does not occur on a route that its links trace: it has no parent.
proof fn lemma_traces_avoid_start(
    links: Seq<usize>,
    grid: Grid,
    start: Position,
    goal: Position,
    p: Seq<Position>,
    i: int,
)
    requires
        grid.in_bounds(start),
        grid.width * grid.height <= usize::MAX,
        traces(links, grid, start, goal, p),
        0 <= i < p.len(),
    ensures
        p[i] != start,
{
    let a = walk_point(start, p, i);
    if i > 0 {
        assert(step_ok(grid, walk_point(start, p, i - 1), p[i - 1]));
    }
    assert(grid.in_bounds(a));
    lemma_cell_index(a, grid.width, grid.height);
    assert(links[cell_index(p[i], grid.width)] as int == cell_index(a, grid.width));
}

/// A route traced by the same links as another is no longer than it.
proof fn lemma_traces_not_shorter(
    links: Seq<usize>,
    grid: Grid,
    start: Position,
    goal: Position,
    p: Seq<Position>,
    q: Seq<Position>,
)
    requires
        grid.in_bounds(start),
        grid.width * grid.height <= usize::MAX,
        traces(links, grid, start, goal, p),
        traces(links, grid, start, goal, q),
    ensures
        q.len() <= p.len(),
{
    if p.len() < q.len() {
        let j = q.len() - 1 - p.len();
        if p.len() == 0 {
            lemma_traces_avoid_start(links, grid, start, goal, q, q.len() - 1);
        } else {
            lemma_traces_suffix(links, grid, start, goal, p, q, p.len() - 1);
            // p[0] == q[j + 1], so the tile before q[j + 1] is the start.
            assert(step_ok(grid, walk_point(start, q, j), q[j]));
            assert(links[cell_index(p[0], grid.width)] as int == cell_index(start, grid.width));
            assert(links[cell_index(q[j + 1], grid.width)] as int == cell_index(q[j], grid.width));
            lemma_index_injective(q[j], start, grid.width, grid.height);
            lemma_traces_avoid_start(links, grid, start, goal, q, j);
        }
    }
}

/// The parent links trace at most one route from `start` to `goal`: a route
/// that `find_path` returns is the one its search's links trace.
pub proof fn lemma_traces_unique(
    links: Seq<usize>,
    grid: Grid,
    start: Position,
    goal: Position,
    p: Seq<Position>,
    q: Seq<Position>,
)
    requires
        grid.in_bounds(start),
        grid.width * grid.height <= usize::MAX,
        traces(links, grid, start, goal, p),
        traces(links, grid, start, goal, q),
    ensures
        p == q,
{
    lemma_traces_not_shorter(links, grid, start, goal, p, q);
    lemma_traces_not_shorter(links, grid, start, goal, q, p);
    assert forall|i: int| 0 <= i < p.len() implies p[i] == q[i] by {
        lemma_traces_suffix(links, grid, start, goal, p, q, p.len() - 1 - i);
    }
    assert(p =~= q);
}

/// Follows parent links back from `goal` and returns the walk from `start` to it,
/// with the start position excluded (it's where the robot already is): the
/// recorded predecessor of each tile on the path is the tile before it.
/// Since the start has no recorded predecessor, this fixes the path.
#[verifier::rlimit(40)]
fn reconstruct_path(
    parent: &Vec<usize>,
    width: usize,
    goal: Position,
    Ghost(grid): Ghost<Grid>,
    Ghost(occupied): Ghost<Seq<Position>>,
    Ghost(start): Ghost<Position>,
    Ghost(g): Ghost<Seq<usize>>,
) -> (path: Vec<Position>)
    requires
        width == grid.width,
        tree_inv(grid, occupied, start, g, parent@),
        grid.in_bounds(goal),
        gv(g, width, goal) < usize::MAX,
    ensures
        is_route(grid, start, goal, path@),
        walk_cost(occupied, path@) <= gv(g, width, goal),
        forall|i: int|
            0 <= i < path@.len() ==> parent@[cell_index(#[trigger] path@[i], width)] as int
                == cell_index(walk_point(start, path@, i), width),
{
    let mut path: Vec<Position> = Vec::new();
    let mut current = goal;
    let _n = parent.len();
    proof {
        lemma_cell_index(goal, grid.width, grid.height);
        assert(0 <= goal.y * width) by (nonlinear_arith);
    }
    let mut ci = current.y * width + current.x;
    while parent[ci] != usize::MAX
        invariant
            width == grid.width,
            tree_inv(grid, occupied, start, g, parent@),
            grid.in_bounds(current),
            ci as int == cell_index(current, width),
            0 <= ci < grid.width * grid.height,
            gv(g, width, current) < usize::MAX,
            is_walk(grid, current, path@),
            path@.len() == 0 ==> current == goal,
            path@.len() > 0 ==> path@.last() == goal,
            gv(g, width, current) + walk_cost(occupied, path@) <= gv(g, width, goal),
            forall|i: int|
                0 <= i < path@.len() ==> parent@[cell_index(#[trigger] path@[i], width)] as int
                    == cell_index(walk_point(current, path@, i), width),
        decreases gv(g, width, current),
    {
        let pi = parent[ci];
        proof {
            lemma_reconstruct_step(grid, occupied, start, goal, g, parent@, current, path@);
        }
        let prev = Position::new(pi % width, pi / width);
        let ghost old_path = path@;
        path.insert(0, current);
        proof {
            assert(prev == cell_position(pi as int, width));
            assert(path@ =~= seq![current] + old_path);
            lemma_cell_position(pi as int, grid.width, grid.height);
            assert forall|i: int| 0 <= i < path@.len() implies parent@[cell_index(#[trigger] path@[i], width)] as int
                == cell_index(walk_point(prev, path@, i), width) by {
                if i > 0 {
                    assert(path@[i] == old_path[i - 1]);
                    assert(walk_point(prev, path@, i) == walk_point(current, old_path, i - 1));
                }
            }
        }
        current = prev;
        ci = pi;
    }
    proof {
        if current != start {
            assert(parent_ok(grid, occupied, g, parent@, current));
        }
    }
    path
}

/// After the smallest entry is removed from the open set, every tile other
/// than the removed entry's position keeps its relaxation invariant, and the
/// entry and goal invariants still hold.
proof fn lemma_after_pop(
    grid: Grid,
    occupied: Seq<Position>,
    goal: Position,
    g: Seq<usize>,
    heap0: Seq<AStarNode>,
    m: int,
)
    requires
        0 <= m < heap0.len(),
        heap0[m].position != goal,
        heap_inv(grid, goal, g, heap0),
        relax_inv(grid, occupied, g, heap0),
        goal_inv(grid, goal, g, heap0),
    ensures
        heap_inv(grid, goal, g, heap0.remove(m)),
        goal_inv(grid, goal, g, heap0.remove(m)),
        forall|p: Position|
            grid.in_bounds(p) && #[trigger] gv(g, grid.width, p) < usize::MAX && p != heap0[m].position
                ==> open_at(heap0.remove(m), g, grid.width, p) || relaxed_at(grid, occupied, g, p),
{
    let heap1 = heap0.remove(m);
    let w = grid.width;
    assert forall|p: Position|
        grid.in_bounds(p) && #[trigger] gv(g, w, p) < usize::MAX && p != heap0[m].position implies open_at(
            heap1,
            g,
            w,
            p,
        ) || relaxed_at(grid, occupied, g, p) by {
        if !relaxed_at(grid, occupied, g, p) {
            assert(open_at(heap0, g, w, p));
            let k = choose|k: int|
                0 <= k < heap0.len() && (#[trigger] heap0[k]).position == p && heap0[k].g_cost as int
                    == gv(g, w, p);
            if k < m {
                assert(heap1[k] == heap0[k]);
            } else {
                assert(heap1[k - 1] == heap0[k]);
            }
        }
    }
    if grid.in_bounds(goal) && gv(g, w, goal) < usize::MAX {
        let k = choose|k: int|
            0 <= k < heap0.len() && (#[trigger] heap0[k]).position == goal && heap0[k].g_cost as int
                == gv(g, w, goal);
        if k < m {
            assert(heap1[k] == heap0[k]);
        } else {
            assert(heap1[k - 1] == heap0[k]);
        }
    }
    assert forall|k: int| 0 <= k < heap1.len() implies entry_ok(grid, goal, g, #[trigger] heap1[k]) by {
        if k < m {
            assert(heap1[k] == heap0[k]);
        } else {
            assert(heap1[k] == heap0[k + 1]);
        }
    }
}

/// Finite estimates leave room for one more step within `usize`.
proof fn lemma_estimates_fit(grid: Grid, goal: Position, g: Seq<usize>, seen: Set<int>)
    requires
        grid.wf(),
        g.len() == grid.width * grid.height,
        search_fits(grid, goal),
        bound_inv(grid, g, seen),
    ensures
        seen.len() <= grid.width * grid.height,
        forall|p: Position|
            grid.in_bounds(p) && #[trigger] gv(g, grid.width, p) < usize::MAX ==> gv(g, grid.width, p)
                + 1 + OCCUPIED_TILE_PENALTY < usize::MAX,
        forall|p: Position|
            grid.in_bounds(p) && #[trigger] gv(g, grid.width, p) < usize::MAX ==> gv(g, grid.width, p)
                <= (1 + OCCUPIED_TILE_PENALTY) * (grid.width * grid.height - 1),
{
    let n = grid.width * grid.height;
    lemma_int_range(0, n);
    lemma_len_subset(seen, set_int_range(0, n));
    assert forall|p: Position|
        grid.in_bounds(p) && #[trigger] gv(g, grid.width, p) < usize::MAX implies gv(g, grid.width, p)
            <= (1 + OCCUPIED_TILE_PENALTY) * (grid.width * grid.height - 1) by {
        lemma_cell_index(p, grid.width, grid.height);
        assert(g[cell_index(p, grid.width)] <= (1 + OCCUPIED_TILE_PENALTY) * (seen.len() - 1));
    }
}

/// When the goal's entry is the cheapest one in the open set, the goal's
/// estimate is no larger than the cost of any route to it.
proof fn lemma_goal_optimal(
    grid: Grid,
    occupied: Seq<Position>,
    start: Position,
    goal: Position,
    g: Seq<usize>,
    heap0: Seq<AStarNode>,
    m: int,
)
    requires
        grid.wf(),
        grid.in_bounds(start),
        g.len() == grid.width * grid.height,
        gv(g, grid.width, start) == 0,
        0 <= m < heap0.len(),
        heap0[m].position == goal,
        search_fits(grid, goal),
        forall|k: int| 0 <= k < heap0.len() ==> heap0[m].f_cost <= (#[trigger] heap0[k]).f_cost,
        heap_inv(grid, goal, g, heap0),
        relax_inv(grid, occupied, g, heap0),
        forall|p: Position|
            grid.in_bounds(p) && #[trigger] gv(g, grid.width, p) < usize::MAX ==> gv(g, grid.width, p)
                + 1 + OCCUPIED_TILE_PENALTY < usize::MAX,
    ensures
        gv(g, grid.width, goal) < usize::MAX,
        forall|q: Seq<Position>| #[trigger]
            is_route(grid, start, goal, q) && q.len() > 0 ==> gv(g, grid.width, goal) <= walk_cost(
                occupied,
                q,
            ),
{
    assert(entry_ok(grid, goal, g, heap0[m]));
    assert(manhattan(goal, goal) == 0);
    assert forall|q: Seq<Position>| #[trigger]
        is_route(grid, start, goal, q) && q.len() > 0 implies gv(g, grid.width, goal) <= walk_cost(
            occupied,
            q,
        ) by {
        assert(q.take(0) =~= Seq::<Position>::empty());
        lemma_frontier(grid, occupied, start, goal, g, heap0, q, 0);
    }
}

/// With an empty open set, no route reaches the goal.
proof fn lemma_exhausted(
    grid: Grid,
    occupied: Seq<Position>,
    start: Position,
    goal: Position,
    g: Seq<usize>,
    heap: Seq<AStarNode>,
)
    requires
        grid.wf(),
        grid.in_bounds(start),
        start != goal,
        g.len() == grid.width * grid.height,
        gv(g, grid.width, start) == 0,
        heap.len() == 0,
        heap_inv(grid, goal, g, heap),
        relax_inv(grid, occupied, g, heap),
        goal_inv(grid, goal, g, heap),
        forall|p: Position|
            grid.in_bounds(p) && #[trigger] gv(g, grid.width, p) < usize::MAX ==> gv(g, grid.width, p)
                + 1 + OCCUPIED_TILE_PENALTY < usize::MAX,
    ensures
        forall|q: Seq<Position>| !#[trigger] is_route(grid, start, goal, q),
{
    assert forall|q: Seq<Position>| !#[trigger] is_route(grid, start, goal, q) by {
        if is_route(grid, start, goal, q) {
            assert(q.len() > 0);
            assert(step_ok(grid, walk_point(start, q, q.len() - 1), q[q.len() - 1]));
            assert(q.take(0) =~= Seq::<Position>::empty());
            lemma_frontier(grid, occupied, start, goal, g, heap, q, 0);
        }
    }
}

/// Finds a path from `start` to `goal`.
///
/// Tiles in `occupied_positions` are penalized heavily, routing around them
/// without making them absolutely impassable
/// (adaptation of A* for dynamic obstacle avoidance).
///
/// Returns `Some(path)` where `path[0]` is the first step to take: a cheapest
/// walk to the goal. Returns `None` exactly when no walk reaches the goal
/// (e.g. goal is fully surrounded by walls).
#[verifier::rlimit(80)]
pub fn find_path(grid: &Grid, occupied_positions: &Vec<Position>, start: Position, goal: Position) -> (result: Option<Vec<Position>>)
    requires
        grid.wf(),
        grid.in_bounds(start),
        search_fits(*grid, goal),
    ensures
        start == goal ==> (result matches Some(p) && p@.len() == 0),
        result matches Some(p) ==> is_cheapest_route(*grid, occupied_positions@, start, goal, p@),
        result is None ==> forall|q: Seq<Position>| !#[trigger] is_route(*grid, start, goal, q),
        match result {
            Some(p) => search_links(*grid, occupied_positions@, start, goal) matches Some(l) && traces(
                l,
                *grid,
                start,
                goal,
                p@,
            ),
            None => search_links(*grid, occupied_positions@, start, goal) is None,
        },
{
    if start == goal {
        let empty: Vec<Position> = Vec::new();
        proof {
            lemma_cell_index(start, grid.width, grid.height);
            assert forall|q: Seq<Position>| #[trigger] is_route(*grid, start, goal, q) implies walk_cost(
                occupied_positions@,
                empty@,
            ) <= walk_cost(occupied_positions@, q) by {}
        }
        return Some(empty);
    }
    let ghost occ = occupied_positions@;
    let ghost gr = *grid;
    let w = grid.width;
    let h = grid.height;
    let n = w * h;
    proof {
        lemma_cell_index(start, w, h);
        lemma_int_range(0, n as int);
    }
    let mut g: Vec<usize> = Vec::with_capacity(n);
    let mut parent: Vec<usize> = Vec::with_capacity(n);
    let mut i: usize = 0;
    while i < n
        invariant
            i <= n,
            g@.len() == i,
            parent@.len() == i,
            forall|j: int| 0 <= j < i ==> g@[j] == usize::MAX && parent@[j] == usize::MAX,
        decreases n - i,
    {
        g.push(usize::MAX);
        parent.push(usize::MAX);
        i = i + 1;
    }
    let si = start.y * w + start.x;
    g.set(si, 0);
    let mut open: Vec<AStarNode> = Vec::new();
    open.push(AStarNode { f_cost: start.manhattan_distance(&goal), g_cost: 0, position: start });
    let ghost mut seen: Set<int> = set![si as int];
    let ghost s0 = search_start(gr, start, goal);
    let ghost mut k: nat = 0;
    proof {
        assert(g@ =~= s0.g);
        assert(parent@ =~= s0.parent);
        assert(open@ =~= s0.open);
        lemma_search_run(gr, occ, goal, s0, 0);
        assert(search_run(gr, occ, goal, s0, 0) == (SearchState {
            g: g@,
            parent: parent@,
            open: open@,
            phase: SearchPhase::Running,
        }));
        lemma_seq_sum_nonneg(g@);
        assert(seen.len() == 1);
        assert forall|p: Position| grid.in_bounds(p) && #[trigger] gv(g@, w, p) < usize::MAX implies p == start by {
            lemma_cell_index(p, w, h);
            if p != start {
                lemma_index_injective(p, start, w, h);
            }
        }
        assert(open_at(open@, g@, w, start)) by {
            assert(open@[0].position == start);
        }
        assert(bound_inv(gr, g@, seen)) by {
            assert forall|i: int| 0 <= i < n implies ((g@[i] as int) < usize::MAX <==> #[trigger] seen.contains(i)) by {}
        }
        assert(goal_inv(gr, goal, g@, open@)) by {
            if grid.in_bounds(goal) && gv(g@, w, goal) < usize::MAX {
                lemma_index_injective(goal, start, w, h);
            }
        }
    }
    while open.len() > 0
        invariant
            gr == *grid,
            occ == occupied_positions@,
            w == grid.width,
            h == grid.height,
            n == w * h,
            start != goal,
            search_fits(gr, goal),
            tree_inv(gr, occ, start, g@, parent@),
            bound_inv(gr, g@, seen),
            heap_inv(gr, goal, g@, open@),
            relax_inv(gr, occ, g@, open@),
            goal_inv(gr, goal, g@, open@),
            s0 == search_start(gr, start, goal),
            search_run(gr, occ, goal, s0, k) == (SearchState {
                g: g@,
                parent: parent@,
                open: open@,
                phase: SearchPhase::Running,
            }),
            k + 2 * seq_sum(g@) + open@.len() + 1 <= 2 * seq_sum(s0.g) + 2,
        decreases 2 * seq_sum(g@) + open@.len(),
    {
        let ghost heap0 = open@;
        let ghost measure0 = 2 * seq_sum(g@) + open@.len();
        let ghost stk = SearchState { g: g@, parent: parent@, open: open@, phase: SearchPhase::Running };
        let m = min_index(&open);
        let current_node = open.remove(m);
        let current = current_node.position;
        proof {
            assert(entry_ok(gr, goal, g@, heap0[m as int]));
            lemma_estimates_fit(gr, goal, g@, seen);
            lemma_seq_sum_nonneg(g@);
        }
        if current == goal {
            proof {
                lemma_goal_optimal(gr, occ, start, goal, g@, heap0, m as int);
                lemma_search_run(gr, occ, goal, s0, k);
                lemma_search_step(gr, occ, goal, stk);
                lemma_search_settled(gr, occ, goal, s0, k + 1, (2 * seq_sum(s0.g) + 2) as nat);
            }
            let path = reconstruct_path(
                &parent,
                w,
                goal,
                Ghost(gr),
                Ghost(occ),
                Ghost(start),
                Ghost(g@),
            );
            return Some(path);
        }
        proof {
            lemma_cell_index(current, w, h);
            lemma_after_pop(gr, occ, goal, g@, heap0, m as int);
            lemma_seq_sum_nonneg(g@);
        }
        let ci = current.y * w + current.x;
        let current_g = g[ci];
        let nbrs = current.neighbors(w, h);
        let ghost popped = SearchState {
            g: g@,
            parent: parent@,
            open: open@,
            phase: SearchPhase::Running,
        };
        proof {
            lemma_search_run(gr, occ, goal, s0, k);
            lemma_search_step(gr, occ, goal, stk);
            lemma_relax_none(gr, occ, goal, current, current_g as int, nbrs@, popped);
            assert(search_step(gr, occ, goal, stk) == relax_all(
                gr,
                occ,
                goal,
                current,
                current_g as int,
                nbrs@,
                popped,
                nbrs@.len(),
            ));
            assert(popped == relax_all(gr, occ, goal, current, current_g as int, nbrs@, popped, 0));
        }
        let mut j: usize = 0;
        while j < nbrs.len()
            invariant
                nbrs@ == neighbors_spec(current, w, h),
                search_run(gr, occ, goal, s0, k + 1) == relax_all(
                    gr,
                    occ,
                    goal,
                    current,
                    current_g as int,
                    nbrs@,
                    popped,
                    nbrs@.len(),
                ),
                (SearchState { g: g@, parent: parent@, open: open@, phase: SearchPhase::Running })
                    == relax_all(gr, occ, goal, current, current_g as int, nbrs@, popped, j as nat),
                k + measure0 + 1 <= 2 * seq_sum(s0.g) + 2,
                s0 == search_start(gr, start, goal),
                gr == *grid,
                occ == occupied_positions@,
                w == grid.width,
                h == grid.height,
                n == w * h,
                start != goal,
                current != goal,
                search_fits(gr, goal),
                grid.in_bounds(current),
                ci as int == cell_index(current, w),
                current_g as int == gv(g@, w, current),
                (current_g as int) < usize::MAX,
                forall|k: int| 0 <= k < nbrs@.len() ==> adjacent_in(current, #[trigger] nbrs@[k], w, h),
                forall|q: Position| adjacent_in(current, q, w, h) ==> #[trigger] nbrs@.contains(q),
                j <= nbrs@.len(),
                tree_inv(gr, occ, start, g@, parent@),
                bound_inv(gr, g@, seen),
                heap_inv(gr, goal, g@, open@),
                goal_inv(gr, goal, g@, open@),
                forall|p: Position|
                    grid.in_bounds(p) && #[trigger] gv(g@, w, p) < usize::MAX && p != current ==> open_at(
                        open@,
                        g@,
                        w,
                        p,
                    ) || relaxed_at(gr, occ, g@, p),
                forall|k: int|
                    0 <= k < j && grid.passable(#[trigger] nbrs@[k]) ==> gv(g@, w, nbrs@[k])
                        <= current_g + step_cost(occ, nbrs@[k]),
                2 * seq_sum(g@) + open@.len() < measure0,
                seq_sum(g@) >= 0,
            decreases nbrs@.len() - j,
        {
            let ghost sj = SearchState { g: g@, parent: parent@, open: open@, phase: SearchPhase::Running };
            let nb = nbrs[j];
            proof {
                assert(adjacent_in(current, nb, w, h));
                lemma_cell_index(nb, w, h);
                lemma_estimates_fit(gr, goal, g@, seen);
            }
            if grid.is_passable(nb) {
                let step = if is_occupied(occupied_positions, nb) {
                    1 + OCCUPIED_TILE_PENALTY
                } else {
                    1
                };
                let tentative = current_g + step;
                let ni = nb.y * w + nb.x;
                if tentative < g[ni] {
                    let ghost g1 = g@;
                    let ghost parent1 = parent@;
                    let ghost heap1 = open@;
                    let ghost seen1 = seen;
                    parent.set(ni, ci);
                    g.set(ni, tentative);
                    let hh = nb.manhattan_distance(&goal);
                    open.push(AStarNode { f_cost: tentative + hh, g_cost: tentative, position: nb });
                    proof {
                        lemma_relax_taken(gr, occ, goal, current, current_g as int, nb, sj, g@, parent@, open@);
                        if (g1[ni as int] as int) == usize::MAX {
                            seen = seen1.insert(ni as int);
                        }
                        lemma_step_update(
                            gr, occ, start, goal, current, nb, g1, parent1, heap1, seen1, g@,
                            parent@, open@, seen,
                        );
                        lemma_seq_sum_update(g1, ni as int, tentative);
                        lemma_seq_sum_nonneg(g@);
                        assert forall|k: int|
                            0 <= k < j + 1 && grid.passable(#[trigger] nbrs@[k]) implies gv(g@, w, nbrs@[k])
                                <= current_g + step_cost(occ, nbrs@[k]) by {
                            if nbrs@[k] != nb {
                                assert(adjacent_in(current, nbrs@[k], w, h));
                            }
                        }
                    }
                } else {
                    proof {
                        lemma_relax_skipped(gr, occ, goal, current, current_g as int, nb, sj);
                    }
                }
            } else {
                proof {
                    lemma_relax_skipped(gr, occ, goal, current, current_g as int, nb, sj);
                }
            }
            proof {
                lemma_relax_next(gr, occ, goal, current, current_g as int, nbrs@, popped, j as nat);
            }
            j = j + 1;
        }
        proof {
            assert(relaxed_at(gr, occ, g@, current)) by {
                assert forall|v: Position|
                    #[trigger] adjacent_in(current, v, w, h) && grid.passable(v) implies gv(g@, w, v)
                        <= gv(g@, w, current) + step_cost(occ, v) by {
                    assert(nbrs@.contains(v));
                    let kk = choose|kk: int| 0 <= kk < nbrs@.len() && nbrs@[kk] == v;
                    assert(grid.passable(nbrs@[kk]));
                }
            }
            k = k + 1;
        }
    }
    proof {
        lemma_estimates_fit(gr, goal, g@, seen);
        lemma_exhausted(gr, occ, start, goal, g@, open@);
        lemma_seq_sum_nonneg(g@);
        lemma_search_run(gr, occ, goal, s0, k);
        lemma_search_step(gr, occ, goal, SearchState {
            g: g@,
            parent: parent@,
            open: open@,
            phase: SearchPhase::Running,
        });
        assert(search_run(gr, occ, goal, s0, k + 1).phase == SearchPhase::Exhausted);
        lemma_search_settled(gr, occ, goal, s0, k + 1, (2 * seq_sum(s0.g) + 2) as nat);
    }
    None
}

/// One successful relaxation of the edge `current -> nb` keeps every search invariant.
proof fn lemma_step_update(
    grid: Grid,
    occupied: Seq<Position>,
    start: Position,
    goal: Position,
    current: Position,
    nb: Position,
    g1: Seq<usize>,
    parent1: Seq<usize>,
    heap1: Seq<AStarNode>,
    seen1: Set<int>,
    g2: Seq<usize>,
    parent2: Seq<usize>,
    heap2: Seq<AStarNode>,
    seen2: Set<int>,
)
    requires
        search_fits(grid, goal),
        grid.in_bounds(current),
        current != goal,
        adjacent_in(current, nb, grid.width, grid.height),
        grid.passable(nb),
        tree_inv(grid, occupied, start, g1, parent1),
        bound_inv(grid, g1, seen1),
        heap_inv(grid, goal, g1, heap1),
        goal_inv(grid, goal, g1, heap1),
        forall|p: Position|
            grid.in_bounds(p) && #[trigger] gv(g1, grid.width, p) < usize::MAX && p != current ==> open_at(
                heap1,
                g1,
                grid.width,
                p,
            ) || relaxed_at(grid, occupied, g1, p),
        gv(g1, grid.width, current) < usize::MAX,
        gv(g1, grid.width, current) + step_cost(occupied, nb) < gv(g1, grid.width, nb),
        g2 == g1.update(
            cell_index(nb, grid.width),
            (gv(g1, grid.width, current) + step_cost(occupied, nb)) as usize,
        ),
        parent2 == parent1.update(cell_index(nb, grid.width), cell_index(current, grid.width) as usize),
        heap2 == heap1.push(
            AStarNode {
                f_cost: (gv(g1, grid.width, current) + step_cost(occupied, nb) + manhattan(nb, goal)) as usize,
                g_cost: (gv(g1, grid.width, current) + step_cost(occupied, nb)) as usize,
                position: nb,
            },
        ),
        seen2 == (if gv(g1, grid.width, nb) == usize::MAX {
            seen1.insert(cell_index(nb, grid.width))
        } else {
            seen1
        }),
    ensures
        tree_inv(grid, occupied, start, g2, parent2),
        bound_inv(grid, g2, seen2),
        heap_inv(grid, goal, g2, heap2),
        goal_inv(grid, goal, g2, heap2),
        gv(g2, grid.width, current) == gv(g1, grid.width, current),
        forall|p: Position|
            grid.in_bounds(p) && #[trigger] gv(g2, grid.width, p) < usize::MAX && p != current ==> open_at(
                heap2,
                g2,
                grid.width,
                p,
            ) || relaxed_at(grid, occupied, g2, p),
        forall|p: Position| grid.in_bounds(p) && p != nb ==> #[trigger] gv(g2, grid.width, p) == gv(g1, grid.width, p),
        gv(g2, grid.width, nb) == gv(g1, grid.width, current) + step_cost(occupied, nb),
{
    let w = grid.width;
    let h = grid.height;
    let n = w * h;
    let ni = cell_index(nb, w);
    let t = gv(g1, w, current) + step_cost(occupied, nb);
    lemma_cell_index(nb, w, h);
    lemma_cell_index(current, w, h);
    lemma_int_range(0, n);
    lemma_len_subset(seen1, set_int_range(0, n));
    assert(current != nb);
    assert forall|p: Position| grid.in_bounds(p) && p != nb implies #[trigger] gv(g2, w, p) == gv(g1, w, p) by {
        lemma_cell_index(p, w, h);
        if cell_index(p, w) == ni {
            lemma_index_injective(p, nb, w, h);
        }
    }
    assert(gv(g2, w, nb) == t);
    assert(nb != start) by {
        if nb == start {
            assert(gv(g1, w, start) == 0);
        }
    }
    // tree
    assert forall|p: Position|
        grid.in_bounds(p) && #[trigger] gv(g2, w, p) < usize::MAX && p != start implies parent_ok(
            grid,
            occupied,
            g2,
            parent2,
            p,
        ) by {
        lemma_cell_index(p, w, h);
        if p == nb {
            assert(cell_position(cell_index(current, w), w) == current);
        } else {
            if cell_index(p, w) == ni {
                lemma_index_injective(p, nb, w, h);
            }
            assert(parent_ok(grid, occupied, g1, parent1, p));
            let pi = parent1[cell_index(p, w)] as int;
            let u = cell_position(pi, w);
            lemma_cell_position(pi, w, h);
            assert(gv(g2, w, u) <= gv(g1, w, u)) by {
                if u == nb {
                } else {
                }
            }
        }
    }
    assert(gv(g2, w, start) == 0);
    lemma_cell_index(start, w, h);
    assert(cell_index(start, w) != ni) by {
        if cell_index(start, w) == ni {
            lemma_index_injective(start, nb, w, h);
        }
    }
    assert(parent2[cell_index(start, w)] == usize::MAX);
    assert(g2.len() == n && parent2.len() == n);
    assert(tree_inv(grid, occupied, start, g2, parent2));
    // bound
    assert(t <= (1 + OCCUPIED_TILE_PENALTY) * (seen2.len() - 1)) by {
        assert(seen1.contains(cell_index(current, w)));
        if gv(g1, w, nb) == usize::MAX {
            assert(!seen1.contains(ni));
            assert(seen2.len() == seen1.len() + 1);
        } else {
            assert(g1[ni] <= (1 + OCCUPIED_TILE_PENALTY) * (seen1.len() - 1));
        }
    }
    assert(seen2.subset_of(set_int_range(0, n)));
    lemma_len_subset(seen2, set_int_range(0, n));
    assert(bound_inv(grid, g2, seen2)) by {
        assert forall|i: int| 0 <= i < n implies ((g2[i] as int) < usize::MAX <==> #[trigger] seen2.contains(i)) by {
            if i == ni {
            } else {
                assert(g2[i] == g1[i]);
            }
        }
        assert forall|i: int|
            0 <= i < n && (g2[i] as int) < usize::MAX implies #[trigger] g2[i] <= (1 + OCCUPIED_TILE_PENALTY) * (
            seen2.len() - 1) by {
            if i != ni {
                assert(g2[i] == g1[i]);
                assert(seen2.len() >= seen1.len());
            }
        }
    }
    // heap
    assert(heap_inv(grid, goal, g2, heap2)) by {
        assert forall|k: int| 0 <= k < heap2.len() implies entry_ok(grid, goal, g2, #[trigger] heap2[k]) by {
            if k < heap1.len() {
                assert(heap2[k] == heap1[k]);
                assert(entry_ok(grid, goal, g1, heap1[k]));
                let p = heap1[k].position;
                if p != nb {
                    assert(gv(g2, w, p) == gv(g1, w, p));
                }
            } else {
                assert(heap2[k].position == nb);
                assert(seen2.len() <= n);
            }
        }
    }
    let last = heap2.len() - 1;
    assert(heap2[last].position == nb && heap2[last].g_cost as int == gv(g2, w, nb));
    assert(open_at(heap2, g2, w, nb));
    // open or relaxed for every other tile
    assert forall|p: Position|
        grid.in_bounds(p) && #[trigger] gv(g2, w, p) < usize::MAX && p != current implies open_at(
            heap2,
            g2,
            w,
            p,
        ) || relaxed_at(grid, occupied, g2, p) by {
        if p != nb {
            assert(gv(g2, w, p) == gv(g1, w, p));
            if open_at(heap1, g1, w, p) {
                let k = choose|k: int|
                    0 <= k < heap1.len() && (#[trigger] heap1[k]).position == p
                        && heap1[k].g_cost as int == gv(g1, w, p);
                assert(heap2[k] == heap1[k]);
            } else {
                assert(relaxed_at(grid, occupied, g1, p));
                assert forall|v: Position|
                    #[trigger] adjacent_in(p, v, grid.width, grid.height) && grid.passable(v) implies gv(
                        g2,
                        grid.width,
                        v,
                    ) <= gv(g2, grid.width, p) + step_cost(occupied, v) by {
                    if v != nb {
                        assert(gv(g2, w, v) == gv(g1, w, v));
                    }
                }
            }
        }
    }
    assert(goal_inv(grid, goal, g2, heap2)) by {
        if grid.in_bounds(goal) && gv(g2, w, goal) < usize::MAX {
            if goal != nb {
                assert(gv(g2, w, goal) == gv(g1, w, goal));
                let k = choose|k: int|
                    0 <= k < heap1.len() && (#[trigger] heap1[k]).position == goal
                        && heap1[k].g_cost as int == gv(g1, w, goal);
                assert(heap2[k] == heap1[k]);
            }
        }
    }
}


/// Every grid position's search fits in `usize`.
pub open spec fn grid_fits(grid: Grid) -> bool {
    (1 + OCCUPIED_TILE_PENALTY) * (grid.width * grid.height) + 2 * (grid.width + grid.height)
        < usize::MAX
}

/// Some route leads from `start` to `goal`.
pub open spec fn reachable(grid: Grid, start: Position, goal: Position) -> bool {
    exists|q: Seq<Position>| is_route(grid, start, goal, q)
}

/// The positions of the robots, in robot order.
pub open spec fn robot_positions(robots: Seq<Robot>) -> Seq<Position> {
    robots.map_values(|r: Robot| r.position)
}

/// The tiles that a robot standing on `own` treats as occupied: every robot
/// position other than its own tile.
pub open spec fn obstacles_for(robots: Seq<Robot>, own: Position) -> Seq<Position> {
    other_tiles(robot_positions(robots), own)
}

/// The tiles of `positions` other than `own`, in order.
pub open spec fn other_tiles(positions: Seq<Position>, own: Position) -> Seq<Position> {
    positions.filter(|p: Position| p != own)
}

/// The route a robot follows after replanning: when its destination can be
/// reached, the cheapest route that the search returns (the one its parent
/// links trace), its old route otherwise.
pub open spec fn replanned(grid: Grid, robots: Seq<Robot>, r0: Robot, path: Seq<Position>) -> bool {
    if state_is_routing(r0.state) && r0.destination is Some && reachable(
        grid,
        r0.position,
        r0.destination->0,
    ) {
        &&& is_cheapest_route(
            grid,
            obstacles_for(robots, r0.position),
            r0.position,
            r0.destination->0,
            path,
        )
        &&& search_links(grid, obstacles_for(robots, r0.position), r0.position, r0.destination->0)
            matches Some(links)
        &&& traces(
            links,
            grid,
            r0.position,
            r0.destination->0,
            path,
        )
    } else {
        path == r0.planned_path@
    }
}

fn obstacles_except(positions: &Vec<Position>, own: Position) -> (r: Vec<Position>)
    ensures
        r@ == other_tiles(positions@, own),
{
    let mut r: Vec<Position> = Vec::new();
    let mut i: usize = 0;
    while i < positions.len()
        invariant
            i <= positions@.len(),
            r@ == other_tiles(positions@.take(i as int), own),
        decreases positions@.len() - i,
    {
        let p = positions[i];
        proof {
            reveal(Seq::filter);
            let t = positions@.take(i + 1);
            assert(t.drop_last() =~= positions@.take(i as int));
            assert(t.last() == p);
        }
        if p != own {
            r.push(p);
        }
        i = i + 1;
    }
    proof {
        assert(positions@.take(positions@.len() as int) =~= positions@);
    }
    r
}

/// Recalculates planned_path for every routing robot each tick.
///
/// Runs every tick so robots continuously reroute around each other as they
/// move, implementing the dynamic obstacle avoidance. Each robot plans around
/// the tiles of all robots, its own tile excepted; a robot whose destination
/// cannot be reached keeps its previous route.
#[verifier::rlimit(40)]
pub fn run(world: &mut World)
    requires
        old(world).wf(),
        grid_fits(old(world).grid),
    ensures
        final(world).wf(),
        final(world).grid == old(world).grid,
        final(world).stations == old(world).stations,
        final(world).pending_orders == old(world).pending_orders,
        final(world).active_orders == old(world).active_orders,
        final(world).completed_orders == old(world).completed_orders,
        final(world).dispatch_position == old(world).dispatch_position,
        final(world).next_order_id == old(world).next_order_id,
        final(world).tick == old(world).tick,
        old(world).fleet_consistent() ==> final(world).fleet_consistent(),
        old(world).orders_consistent() ==> final(world).orders_consistent(),
        final(world).order_id_multiset() == old(world).order_id_multiset(),
        final(world).robots@.len() == old(world).robots@.len(),
        forall|i: int|
            0 <= i < old(world).robots@.len() ==> {
                let r0 = old(world).robots@[i];
                let r1 = #[trigger] final(world).robots@[i];
                &&& r1.id == r0.id
                &&& r1.position == r0.position
                &&& r1.state == r0.state
                &&& r1.destination == r0.destination
                &&& r1.is_carrying_payload == r0.is_carrying_payload
                &&& replanned(old(world).grid, old(world).robots@, r0, r1.planned_path@)
            },
{
    let ghost robots0 = world.robots@;
    // Phase 1: snapshot all robot positions as obstacles.
    let mut positions: Vec<Position> = Vec::new();
    let mut i: usize = 0;
    while i < world.robots.len()
        invariant
            world.robots@ == robots0,
            i <= robots0.len(),
            positions@ == robot_positions(robots0).take(i as int),
        decreases robots0.len() - i,
    {
        positions.push(world.robots[i].position);
        proof {
            assert(positions@ =~= robot_positions(robots0).take(i + 1));
        }
        i = i + 1;
    }
    proof {
        assert(positions@ =~= robot_positions(robots0));
    }
    // Phase 2 and 3: compute each routing robot's path (its own tile is not an
    // obstacle) and apply it, in robot order.
    let mut k: usize = 0;
    while k < world.robots.len()
        invariant
            world.wf(),
            grid_fits(world.grid),
            world.grid == old(world).grid,
            world.stations == old(world).stations,
            world.pending_orders == old(world).pending_orders,
            world.active_orders == old(world).active_orders,
            world.completed_orders == old(world).completed_orders,
            world.dispatch_position == old(world).dispatch_position,
            world.next_order_id == old(world).next_order_id,
            world.tick == old(world).tick,
            robots0 == old(world).robots@,
            positions@ == robot_positions(robots0),
            world.robots@.len() == robots0.len(),
            k <= robots0.len(),
            forall|j: int|
                0 <= j < robots0.len() ==> {
                    let r0 = robots0[j];
                    let r1 = #[trigger] world.robots@[j];
                    &&& r1.id == r0.id
                    &&& r1.position == r0.position
                    &&& r1.state == r0.state
                    &&& r1.destination == r0.destination
                    &&& r1.is_carrying_payload == r0.is_carrying_payload
                    &&& (j < k ==> replanned(old(world).grid, robots0, r0, r1.planned_path@))
                    &&& (j >= k ==> r1.planned_path@ == r0.planned_path@)
                },
        decreases robots0.len() - k,
    {
        let routing = world.robots[k].is_routing();
        let own = world.robots[k].position;
        let dest = world.robots[k].destination;
        proof {
            assert(world.robot_ok(k as int));
        }
        if routing {
            if let Some(goal) = dest {
                let obstacles = obstacles_except(&positions, own);
                proof {
                    assert(search_fits(world.grid, goal));
                }
                let found = find_path(&world.grid, &obstacles, own, goal);
                match found {
                    Some(path) => {
                        proof {
                            assert(reachable(world.grid, own, goal));
                            assert forall|m: int| 0 <= m < path@.len() implies world.grid.in_bounds(#[trigger] path@[m]) by {
                                assert(step_ok(world.grid, walk_point(own, path@, m), path@[m]));
                            }
                        }
                        world.set_route(k, path);
                    },
                    None => {
                        proof {
                            assert(!reachable(world.grid, own, goal));
                        }
                    },
                }
            }
        }
        k = k + 1;
    }
    proof {
        if old(world).fleet_consistent() {
            crate::consistency::lemma_fleet_frame(
                robots_view(robots0),
                stations_view(world.stations@),
                robots_view(world.robots@),
                stations_view(world.stations@),
            );
        }
        if old(world).orders_consistent() {
            crate::orders_law::lemma_orders_same_tasks(*old(world), *world);
        }
    }
}

} // verus!
