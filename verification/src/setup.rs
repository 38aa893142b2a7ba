use rand::rngs::StdRng;
use vstd::prelude::*;
use vstd::set_lib::*;

use crate::components::robot::{robots_view, Robot, RobotId, RobotState, RobotView};
use crate::components::station::{stations_view, ChargingStation, StationId, StationView};
use crate::config::WorldConfig;
use crate::random::random_index;
use crate::world::grid::{cell_index, lemma_cell_index, Grid, Position, TileKind};
use crate::world::World;

verus! {

/// Column of the `k`-th of `count` positions spread evenly over a row of
/// `width` tiles: `(k + 1) * (width / (count + 1))`, clamped to the last column.
pub open spec fn spread_x(count: usize, width: usize, k: int) -> usize {
    let spacing = (width as int) / (count as int + 1);
    if (k + 1) * spacing < width - 1 {
        ((k + 1) * spacing) as usize
    } else {
        (width - 1) as usize
    }
}

/// Returns `count` evenly-spaced positions along a given row.
pub fn distribute_evenly(count: usize, grid_width: usize, row: usize) -> (r: Vec<Position>)
    requires
        count > 0 ==> grid_width > 0,
        count < usize::MAX,
    ensures
        r@.len() == count,
        forall|k: int|
            0 <= k < count ==> #[trigger] r@[k] == (Position { x: spread_x(count, grid_width, k), y: row }),
{
    let mut r: Vec<Position> = Vec::new();
    if count == 0 {
        return r;
    }
    let spacing = grid_width / (count + 1);
    let mut i: usize = 1;
    while i <= count
        invariant
            1 <= i <= count + 1,
            count > 0,
            grid_width > 0,
            count < usize::MAX,
            spacing == (grid_width as int) / (count as int + 1),
            r@.len() == i - 1,
            forall|k: int|
                0 <= k < i - 1 ==> #[trigger] r@[k] == (Position {
                    x: spread_x(count, grid_width, k),
                    y: row,
                }),
        decreases count + 1 - i,
    {
        proof {
            assert(i * spacing <= grid_width) by (nonlinear_arith)
                requires
                    spacing == (grid_width as int) / (count as int + 1),
                    1 <= i <= count,
                    count + 1 > 0,
            ;
        }
        let product = i * spacing;
        let x = if product < grid_width - 1 {
            product
        } else {
            grid_width - 1
        };
        r.push(Position::new(x, row));
        i = i + 1;
    }
    r
}

/// The tiles that differ between two layouts.
pub open spec fn changed_cells(a: Seq<TileKind>, b: Seq<TileKind>) -> Set<int> {
    Set::new(|i: int| 0 <= i < a.len() && a[i] != b[i])
}

/// `b` is `a` with some floor tiles outside row 0 (indices `>= width`)
/// turned into `kind`.
pub open spec fn scattered(a: Seq<TileKind>, b: Seq<TileKind>, kind: TileKind, width: usize) -> bool {
    &&& b.len() == a.len()
    &&& forall|i: int|
        0 <= i < a.len() ==> #[trigger] b[i] == a[i] || (a[i] == TileKind::Floor && b[i] == kind && i
            >= width)
}

/// Turns the tile at `pos` into `kind` if it is floor; returns whether it did.
pub fn place_if_floor(grid: &mut Grid, pos: Position, kind: TileKind) -> (placed: bool)
    requires
        old(grid).valid_index(pos),
    ensures
        placed == (old(grid).tile(pos) == TileKind::Floor),
        final(grid).width == old(grid).width,
        final(grid).height == old(grid).height,
        placed ==> final(grid)@ == old(grid)@.update(cell_index(pos, old(grid).width), kind),
        !placed ==> final(grid)@ == old(grid)@,
{
    if grid.get(pos) == TileKind::Floor {
        grid.set(pos, kind);
        true
    } else {
        false
    }
}

/// The layout after the positions `draws` have been tried in order: each
/// draw that lands on a floor tile turns it into `kind`.
pub open spec fn scatter(tiles: Seq<TileKind>, width: usize, kind: TileKind, draws: Seq<Position>) -> Seq<
    TileKind,
>
    decreases draws.len(),
{
    if draws.len() == 0 {
        tiles
    } else {
        let t = scatter(tiles, width, kind, draws.drop_last());
        let i = cell_index(draws.last(), width);
        if t[i] == TileKind::Floor {
            t.update(i, kind)
        } else {
            t
        }
    }
}

/// How many of the draws landed on a floor tile.
pub open spec fn landed(tiles: Seq<TileKind>, width: usize, kind: TileKind, draws: Seq<Position>) -> nat
    decreases draws.len(),
{
    if draws.len() == 0 {
        0
    } else {
        landed(tiles, width, kind, draws.drop_last()) + if scatter(
            tiles,
            width,
            kind,
            draws.drop_last(),
        )[cell_index(draws.last(), width)] == TileKind::Floor {
            1nat
        } else {
            0nat
        }
    }
}

/// The draws of a scatter: tiles of the grid outside row 0, at most
/// `20 * count` of them, tried until `count` have landed, so that it stops
/// short of `count` only once all attempts are spent.
pub open spec fn scatter_draws(
    tiles: Seq<TileKind>,
    width: usize,
    height: usize,
    kind: TileKind,
    count: usize,
    draws: Seq<Position>,
) -> bool {
    &&& draws.len() <= count * 20
    &&& forall|k: int| 0 <= k < draws.len() ==> (#[trigger] draws[k]).x < width && 1 <= draws[k].y < height
    &&& forall|k: int| 0 <= k < draws.len() ==> #[trigger] landed(tiles, width, kind, draws.take(k)) < count
    &&& landed(tiles, width, kind, draws) <= count
    &&& (landed(tiles, width, kind, draws) == count || draws.len() == count * 20)
}

proof fn lemma_scatter_push(tiles: Seq<TileKind>, width: usize, kind: TileKind, draws: Seq<Position>, pos: Position)
    ensures
        ({
            let t = scatter(tiles, width, kind, draws);
            let i = cell_index(pos, width);
            &&& scatter(tiles, width, kind, draws.push(pos)) == if t[i] == TileKind::Floor {
                t.update(i, kind)
            } else {
                t
            }
            &&& landed(tiles, width, kind, draws.push(pos)) == landed(tiles, width, kind, draws) + if t[i]
                == TileKind::Floor {
                1nat
            } else {
                0nat
            }
        }),
{
    assert(draws.push(pos).drop_last() =~= draws);
}

/// Randomly scatters `count` tiles of a given type onto Floor tiles outside
/// row 0 (reserved for stations). Retries up to 20× per tile to find a free
/// spot; stops early if the grid is too full to place all requested tiles.
pub fn place_randomly(grid: &mut Grid, kind: TileKind, count: usize, rng: &mut StdRng)
    requires
        old(grid).wf(),
        count > 0 ==> old(grid).width > 0 && old(grid).height > 1,
        count * 20 <= usize::MAX,
    ensures
        final(grid).wf(),
        final(grid).width == old(grid).width,
        final(grid).height == old(grid).height,
        scattered(old(grid)@, final(grid)@, kind, old(grid).width),
        changed_cells(old(grid)@, final(grid)@).finite(),
        changed_cells(old(grid)@, final(grid)@).len() <= count,
        // On a grid whose rows below row 0 are all floor, the first draw
        // always lands.
        count > 0 && kind != TileKind::Floor && (forall|p: Position|
            old(grid).in_bounds(p) && p.y >= 1 ==> #[trigger] old(grid).tile(p) == TileKind::Floor)
            ==> changed_cells(old(grid)@, final(grid)@).len() >= 1,
        // The grid is the scatter of the draws made: tried until `count` have
        // landed or all `20 * count` attempts are spent; each landed draw of a
        // kind other than floor claims a new tile.
        exists|draws: Seq<Position>|
            #![trigger scatter(old(grid)@, old(grid).width, kind, draws)]
            {
                &&& scatter_draws(old(grid)@, old(grid).width, old(grid).height, kind, count, draws)
                &&& final(grid)@ == scatter(old(grid)@, old(grid).width, kind, draws)
                &&& kind != TileKind::Floor ==> changed_cells(old(grid)@, final(grid)@).len() == landed(
                    old(grid)@,
                    old(grid).width,
                    kind,
                    draws,
                )
            },
{
    let ghost tiles0 = grid@;
    let ghost mut draws: Seq<Position> = Seq::empty();
    let ghost all_floor = count > 0 && kind != TileKind::Floor && (forall|p: Position|
        old(grid).in_bounds(p) && p.y >= 1 ==> #[trigger] old(grid).tile(p) == TileKind::Floor);
    let ghost mut first: int = 0;
    let ghost mut placed_cells: Set<int> = Set::empty();
    let mut placed: usize = 0;
    let mut attempts: usize = 0;
    let max_attempts = count * 20;
    while placed < count && attempts < max_attempts
        invariant
            grid.wf(),
            grid.width == old(grid).width,
            grid.height == old(grid).height,
            tiles0 == old(grid)@,
            count > 0 ==> grid.width > 0 && grid.height > 1,
            max_attempts == count * 20,
            placed <= count,
            attempts <= max_attempts,
            scattered(tiles0, grid@, kind, grid.width),
            placed_cells.finite(),
            placed_cells.len() <= placed,
            changed_cells(tiles0, grid@).subset_of(placed_cells),
            attempts == 0 ==> placed == 0 && grid@ == tiles0,
            all_floor == (count > 0 && kind != TileKind::Floor && (forall|p: Position|
                old(grid).in_bounds(p) && p.y >= 1 ==> #[trigger] old(grid).tile(p) == TileKind::Floor)),
            all_floor && attempts > 0 ==> 0 <= first < tiles0.len() && grid@[first] != tiles0[first],
            draws.len() == attempts,
            grid@ == scatter(tiles0, grid.width, kind, draws),
            placed == landed(tiles0, grid.width, kind, draws),
            forall|k: int| 0 <= k < draws.len() ==> (#[trigger] draws[k]).x < grid.width && 1 <= draws[k].y < grid.height,
            forall|k: int| 0 <= k < draws.len() ==> #[trigger] landed(tiles0, grid.width, kind, draws.take(k)) < count,
            kind != TileKind::Floor ==> changed_cells(tiles0, grid@) == placed_cells && placed_cells.len() == placed,
        decreases max_attempts - attempts,
    {
        let x = random_index(rng, 0, grid.width);
        let y = random_index(rng, 1, grid.height);
        let pos = Position::new(x, y);
        proof {
            lemma_cell_index(pos, grid.width, grid.height);
            assert(0 <= pos.y * grid.width) by (nonlinear_arith);
            assert(cell_index(pos, grid.width) >= grid.width) by (nonlinear_arith)
                requires
                    pos.y >= 1,
                    cell_index(pos, grid.width) == pos.y * grid.width + pos.x,
            ;
        }
        let ghost before = grid@;
        let ghost idx = cell_index(pos, grid.width);
        let ghost draws0 = draws;
        let ghost placed_cells0 = placed_cells;
        proof {
            if all_floor && attempts == 0 {
                assert(old(grid).tile(pos) == TileKind::Floor);
            }
            lemma_scatter_push(tiles0, grid.width, kind, draws0, pos);
            draws = draws0.push(pos);
            assert forall|k: int| 0 <= k < draws.len() implies #[trigger] landed(tiles0, grid.width, kind, draws.take(k)) < count by {
                if k < draws0.len() {
                    assert(draws.take(k) =~= draws0.take(k));
                } else {
                    assert(draws.take(k) =~= draws0);
                }
            }
            if kind != TileKind::Floor && before[idx] == TileKind::Floor {
                assert(!changed_cells(tiles0, before).contains(idx));
            }
        }
        if place_if_floor(grid, pos, kind) {
            placed = placed + 1;
            proof {
                if attempts == 0 {
                    first = idx;
                }
                placed_cells = placed_cells.insert(idx);
                assert forall|i: int| 0 <= i < tiles0.len() implies #[trigger] grid@[i] == tiles0[i] || (
                tiles0[i] == TileKind::Floor && grid@[i] == kind && i >= grid.width) by {
                    if i != idx {
                        assert(grid@[i] == before[i]);
                    }
                }
                assert forall|i: int| changed_cells(tiles0, grid@).contains(i) implies placed_cells.contains(i) by {
                    if i != idx {
                        assert(grid@[i] == before[i]);
                        assert(changed_cells(tiles0, before).contains(i));
                    }
                }
                if kind != TileKind::Floor {
                    assert(changed_cells(tiles0, grid@) =~= placed_cells0.insert(idx)) by {
                        assert forall|i: int| changed_cells(tiles0, grid@).contains(i) == placed_cells0.insert(idx).contains(i) by {
                            if i != idx {
                                if 0 <= i < tiles0.len() {
                                    assert(grid@[i] == before[i]);
                                }
                                assert(changed_cells(tiles0, grid@).contains(i) == changed_cells(tiles0, before).contains(i));
                            }
                        }
                    }
                }
            }
        }
        attempts = attempts + 1;
    }
    proof {
        lemma_len_subset(changed_cells(tiles0, grid@), placed_cells);
        assert(draws.take(draws.len() as int) =~= draws);
        assert(scatter_draws(tiles0, grid.width, grid.height, kind, count, draws));
        if all_floor {
            let changed = changed_cells(tiles0, grid@);
            assert(changed.contains(first));
            assert(changed.remove(first).len() + 1 == changed.len());
        }
    }
}

/// The layout before walls and shelves are scattered: charging stations on
/// row 0, the dispatch zone, and floor everywhere else.
pub open spec fn base_tile(wc: WorldConfig, p: Position) -> TileKind {
    partial_layout(wc, wc.num_charging_stations as int, p)
}

/// The layout once the dispatch zone and the first `i` stations are placed.
/// The dispatch zone is claimed first, so a station spot on it keeps the
/// dispatch tile.
pub open spec fn partial_layout(wc: WorldConfig, i: int, p: Position) -> TileKind {
    if p == (Position { x: wc.dispatch_x, y: wc.dispatch_y }) {
        TileKind::DispatchZone
    } else if p.y == 0 && exists|k: int|
        0 <= k < i && #[trigger] spread_x(wc.num_charging_stations, wc.width, k) == p.x {
        TileKind::ChargingStation
    } else {
        TileKind::Floor
    }
}

/// Tile `t` at `p` is the base layout's tile, or a wall or shelf scattered
/// onto a floor tile outside row 0.
pub open spec fn layout_ok(wc: WorldConfig, t: TileKind, p: Position) -> bool {
    ||| t == base_tile(wc, p)
    ||| (base_tile(wc, p) == TileKind::Floor && p.y >= 1 && (t == TileKind::Wall || t
        == TileKind::ShelfLocation))
}

/// The tiles of the base layout, in row-major order.
pub open spec fn base_tiles(wc: WorldConfig) -> Seq<TileKind> {
    Seq::new(
        (wc.width * wc.height) as nat,
        |i: int| base_tile(wc, crate::world::grid::cell_position(i, wc.width)),
    )
}

/// A freshly built station `k`.
pub open spec fn initial_station(wc: WorldConfig, k: int) -> StationView {
    StationView {
        id: StationId(k as u32),
        position: Position { x: spread_x(wc.num_charging_stations, wc.width, k), y: 0 },
        charging_robot: None,
        queue: Seq::empty(),
    }
}

/// A freshly spawned robot `i`: idle, near the dispatch zone on its row.
pub open spec fn initial_robot(wc: WorldConfig, i: int) -> RobotView {
    RobotView {
        id: RobotId(i as u32),
        position: Position {
            x: if wc.dispatch_x + i < wc.width - 1 {
                (wc.dispatch_x + i) as usize
            } else {
                (wc.width - 1) as usize
            },
            y: wc.dispatch_y,
        },
        state: RobotState::Idle,
        destination: None,
        planned_path: Seq::empty(),
        is_carrying_payload: false,
    }
}

/// The cells of a layout that hold `kind`.
pub open spec fn cells_of_kind(tiles: Seq<TileKind>, kind: TileKind) -> Set<int> {
    Set::new(|i: int| 0 <= i < tiles.len() && tiles[i] == kind)
}

/// The configuration can be built without overflow or out-of-range access.
pub open spec fn buildable(wc: WorldConfig) -> bool {
    &&& wc.width * wc.height <= usize::MAX
    &&& wc.dispatch_x < wc.width
    &&& wc.dispatch_y < wc.height
    &&& wc.num_charging_stations < usize::MAX
    &&& wc.num_charging_stations <= u32::MAX + 1
    &&& wc.num_robots <= u32::MAX + 1
    &&& wc.dispatch_x + wc.num_robots <= usize::MAX
    &&& (wc.num_obstacles > 0 || wc.num_shelf_locations > 0) ==> wc.height > 1
    &&& wc.num_obstacles * 20 <= usize::MAX
    &&& wc.num_shelf_locations * 20 <= usize::MAX
}

/// Builds the initial World from configuration.
///
/// Placement order matters — each step skips tiles already claimed:
///   1. Mark the dispatch zone
///   2. Place charging stations (evenly spaced, top row)
///   3. Scatter random wall/obstacle tiles
///   4. Scatter random shelf locations
///   5. Spawn robots near the dispatch zone
pub fn build_world(wc: &WorldConfig, rng: &mut StdRng) -> (world: World)
    requires
        buildable(*wc),
    ensures
        world.wf(),
        world.grid.width == wc.width,
        world.grid.height == wc.height,
        world.dispatch_position == (Position { x: wc.dispatch_x, y: wc.dispatch_y }),
        forall|p: Position| world.grid.in_bounds(p) ==> #[trigger] layout_ok(*wc, world.grid.tile(p), p),
        cells_of_kind(world.grid@, TileKind::Wall).len() <= wc.num_obstacles,
        cells_of_kind(world.grid@, TileKind::ShelfLocation).len() <= wc.num_shelf_locations,
        world.stations@.len() == wc.num_charging_stations,
        forall|k: int|
            0 <= k < wc.num_charging_stations ==> (#[trigger] world.stations@[k])@ == initial_station(*wc, k),
        world.robots@.len() == wc.num_robots,
        forall|i: int|
            0 <= i < wc.num_robots ==> (#[trigger] world.robots@[i])@ == initial_robot(*wc, i),
        world.pending_orders@.len() == 0,
        world.active_orders@.len() == 0,
        world.completed_orders@.len() == 0,
        world.next_order_id == 0,
        world.tick == 0,
        world.orders_consistent(),
        world.fleet_consistent(),
        world.grid.tile(world.dispatch_position) == TileKind::DispatchZone,
        // With the dispatch zone on row 0, every row below is floor before the
        // scatter steps, so each step places at least one tile.
        wc.dispatch_y == 0 && wc.num_obstacles > 0 ==> cells_of_kind(world.grid@, TileKind::Wall).len()
            >= 1,
        wc.dispatch_y == 0 && wc.num_obstacles == 0 && wc.num_shelf_locations > 0 ==> cells_of_kind(
            world.grid@,
            TileKind::ShelfLocation,
        ).len() >= 1,
        // Walls, then shelves, are scattered over the base layout, each tried
        // until all requested tiles have landed or every attempt is spent.
        exists|walls: Seq<Position>, shelves: Seq<Position>|
            #![trigger scatter(base_tiles(*wc), wc.width, TileKind::Wall, walls), scatter(
                scatter(base_tiles(*wc), wc.width, TileKind::Wall, walls),
                wc.width,
                TileKind::ShelfLocation,
                shelves,
            )]
            {
                let after_walls = scatter(base_tiles(*wc), wc.width, TileKind::Wall, walls);
                &&& scatter_draws(base_tiles(*wc), wc.width, wc.height, TileKind::Wall, wc.num_obstacles, walls)
                &&& scatter_draws(
                    after_walls,
                    wc.width,
                    wc.height,
                    TileKind::ShelfLocation,
                    wc.num_shelf_locations,
                    shelves,
                )
                &&& world.grid@ == scatter(after_walls, wc.width, TileKind::ShelfLocation, shelves)
            },
{
    let w = wc.width;
    let h = wc.height;
    let mut grid = Grid::new_empty(w, h);

    // --- 1. Dispatch zone ---
    let dispatch_pos = Position::new(wc.dispatch_x, wc.dispatch_y);
    proof {
        lemma_cell_index(dispatch_pos, w, h);
    }
    grid.set(dispatch_pos, TileKind::DispatchZone);
    proof {
        assert forall|p: Position| grid.in_bounds(p) implies #[trigger] grid.tile(p) == partial_layout(*wc, 0, p) by {
            lemma_cell_index(p, w, h);
            if p != dispatch_pos && cell_index(p, w) == cell_index(dispatch_pos, w) {
                lemma_cell_index(dispatch_pos, w, h);
            }
        }
    }

    // --- 2. Charging stations (evenly spaced along the top row) ---
    let n_st = wc.num_charging_stations;
    let spots = distribute_evenly(n_st, w, 0);
    let mut stations: Vec<ChargingStation> = Vec::new();
    let mut i: usize = 0;
    while i < n_st
        invariant
            buildable(*wc),
            w == wc.width,
            h == wc.height,
            n_st == wc.num_charging_stations,
            dispatch_pos == (Position { x: wc.dispatch_x, y: wc.dispatch_y }),
            i <= n_st,
            spots@.len() == n_st,
            forall|k: int|
                0 <= k < n_st ==> #[trigger] spots@[k] == (Position { x: spread_x(n_st, w, k), y: 0 }),
            grid.wf(),
            grid.width == w,
            grid.height == h,
            forall|p: Position|
                grid.in_bounds(p) ==> #[trigger] grid.tile(p) == partial_layout(*wc, i as int, p),
            stations@.len() == i,
            forall|k: int|
                0 <= k < i ==> (#[trigger] stations@[k])@ == initial_station(*wc, k),
        decreases n_st - i,
    {
        let pos = spots[i];
        let id = StationId(i as u32);
        proof {
            assert(spread_x(n_st, w, i as int) < w);
            lemma_cell_index(pos, w, h);
        }
        let ghost before = grid;
        // A tile already claimed (the dispatch zone) is skipped.
        if grid.get(pos) == TileKind::Floor {
            grid.set(pos, TileKind::ChargingStation);
        }
        proof {
            assert forall|p: Position| grid.in_bounds(p) implies #[trigger] grid.tile(p) == partial_layout(*wc, i + 1, p) by {
                lemma_cell_index(p, w, h);
                if p == pos {
                    assert(spread_x(n_st, w, i as int) == p.x);
                    assert(before.tile(p) == partial_layout(*wc, i as int, p));
                } else {
                    if cell_index(p, w) == cell_index(pos, w) {
                        lemma_cell_index(pos, w, h);
                    }
                    assert(grid.tile(p) == before.tile(p));
                    if p.y == 0 && exists|k: int| 0 <= k < i + 1 && #[trigger] spread_x(n_st, w, k) == p.x {
                        let k = choose|k: int| 0 <= k < i + 1 && #[trigger] spread_x(n_st, w, k) == p.x;
                        assert(k != i);
                    }
                }
            }
        }
        stations.push(ChargingStation::new(id, pos));
        proof {
            assert(stations@[i as int]@.queue =~= Seq::<RobotId>::empty());
        }
        i = i + 1;
    }
    let ghost g2 = grid@;
    proof {
        assert forall|p: Position| grid.in_bounds(p) implies #[trigger] g2[cell_index(p, w)] == base_tile(*wc, p) by {
            assert(grid.tile(p) == partial_layout(*wc, n_st as int, p));
        }
        assert(cells_of_kind(g2, TileKind::Wall) =~= Set::empty()) by {
            assert forall|j: int| !cells_of_kind(g2, TileKind::Wall).contains(j) by {
                if 0 <= j < g2.len() {
                    crate::world::grid::lemma_cell_position(j, w, h);
                    let p = crate::world::grid::cell_position(j, w);
                    assert(grid.tile(p) == g2[j]);
                }
            }
        }
        assert(cells_of_kind(g2, TileKind::ShelfLocation) =~= Set::empty()) by {
            assert forall|j: int| !cells_of_kind(g2, TileKind::ShelfLocation).contains(j) by {
                if 0 <= j < g2.len() {
                    crate::world::grid::lemma_cell_position(j, w, h);
                    let p = crate::world::grid::cell_position(j, w);
                    assert(grid.tile(p) == g2[j]);
                }
            }
        }
    }

    let ghost gr2 = grid;
    proof {
        assert(g2 =~= base_tiles(*wc)) by {
            assert forall|j: int| 0 <= j < g2.len() implies g2[j] == base_tiles(*wc)[j] by {
                crate::world::grid::lemma_cell_position(j, w, h);
                let p = crate::world::grid::cell_position(j, w);
                assert(g2[cell_index(p, w)] == base_tile(*wc, p));
            }
        }
        if wc.dispatch_y == 0 {
            assert forall|p: Position| gr2.in_bounds(p) && p.y >= 1 implies #[trigger] gr2.tile(p)
                == TileKind::Floor by {
                assert(g2[cell_index(p, w)] == base_tile(*wc, p));
            }
        }
    }

    // --- 3. Obstacle/wall tiles (randomly placed on remaining floor tiles) ---
    place_randomly(&mut grid, TileKind::Wall, wc.num_obstacles, rng);
    let ghost g3 = grid@;
    let ghost gr3 = grid;
    proof {
        if wc.dispatch_y == 0 && wc.num_obstacles == 0 {
            let changed = changed_cells(g2, g3);
            assert forall|p: Position| gr3.in_bounds(p) && p.y >= 1 implies #[trigger] gr3.tile(p)
                == TileKind::Floor by {
                lemma_cell_index(p, w, h);
                let j = cell_index(p, w);
                assert(gr2.tile(p) == TileKind::Floor);
                if g3[j] != g2[j] {
                    assert(changed.contains(j));
                    assert(changed.remove(j).len() + 1 == changed.len());
                }
            }
        }
    }

    // --- 4. Shelf locations (randomly placed on remaining floor tiles) ---
    place_randomly(&mut grid, TileKind::ShelfLocation, wc.num_shelf_locations, rng);
    let ghost g4 = grid@;
    proof {
        let walls = choose|d: Seq<Position>|
            #![trigger scatter(g2, w, TileKind::Wall, d)]
            {
                &&& scatter_draws(g2, w, h, TileKind::Wall, wc.num_obstacles, d)
                &&& g3 == scatter(g2, w, TileKind::Wall, d)
                &&& TileKind::Wall != TileKind::Floor ==> changed_cells(g2, g3).len() == landed(
                    g2,
                    w,
                    TileKind::Wall,
                    d,
                )
            };
        let shelves = choose|d: Seq<Position>|
            #![trigger scatter(g3, w, TileKind::ShelfLocation, d)]
            {
                &&& scatter_draws(g3, w, h, TileKind::ShelfLocation, wc.num_shelf_locations, d)
                &&& g4 == scatter(g3, w, TileKind::ShelfLocation, d)
                &&& TileKind::ShelfLocation != TileKind::Floor ==> changed_cells(g3, g4).len() == landed(
                    g3,
                    w,
                    TileKind::ShelfLocation,
                    d,
                )
            };
        assert(scatter(base_tiles(*wc), wc.width, TileKind::Wall, walls) == g3);
        assert(scatter(scatter(base_tiles(*wc), wc.width, TileKind::Wall, walls), wc.width, TileKind::ShelfLocation, shelves) == g4);
    }
    proof {
        if wc.dispatch_y == 0 && wc.num_obstacles > 0 {
            assert(changed_cells(g2, g3).subset_of(cells_of_kind(g4, TileKind::Wall))) by {
                assert forall|j: int| changed_cells(g2, g3).contains(j) implies cells_of_kind(g4, TileKind::Wall).contains(j) by {
                    assert(g3[j] == g2[j] || (g2[j] == TileKind::Floor && g3[j] == TileKind::Wall));
                    assert(g4[j] == g3[j] || (g3[j] == TileKind::Floor && g4[j] == TileKind::ShelfLocation));
                }
            }
        }
        if wc.dispatch_y == 0 && wc.num_obstacles == 0 && wc.num_shelf_locations > 0 {
            assert(changed_cells(g3, g4).subset_of(cells_of_kind(g4, TileKind::ShelfLocation))) by {
                assert forall|j: int| changed_cells(g3, g4).contains(j) implies cells_of_kind(g4, TileKind::ShelfLocation).contains(j) by {
                    assert(g4[j] == g3[j] || (g3[j] == TileKind::Floor && g4[j] == TileKind::ShelfLocation));
                }
            }
        }
    }
    proof {
        assert(cells_of_kind(g4, TileKind::Wall).subset_of(changed_cells(g2, g3))) by {
            assert forall|j: int| cells_of_kind(g4, TileKind::Wall).contains(j) implies changed_cells(g2, g3).contains(j) by {
                assert(g4[j] == g3[j] || (g3[j] == TileKind::Floor && g4[j] == TileKind::ShelfLocation));
                assert(!cells_of_kind(g2, TileKind::Wall).contains(j));
            }
        }
        lemma_len_subset(cells_of_kind(g4, TileKind::Wall), changed_cells(g2, g3));
        assert(cells_of_kind(g4, TileKind::ShelfLocation).subset_of(changed_cells(g3, g4))) by {
            assert forall|j: int| cells_of_kind(g4, TileKind::ShelfLocation).contains(j) implies changed_cells(g3, g4).contains(j) by {
                assert(g3[j] == g2[j] || (g2[j] == TileKind::Floor && g3[j] == TileKind::Wall));
                assert(!cells_of_kind(g2, TileKind::ShelfLocation).contains(j));
            }
        }
        lemma_len_subset(cells_of_kind(g4, TileKind::ShelfLocation), changed_cells(g3, g4));
        if wc.dispatch_y == 0 && wc.num_obstacles > 0 {
            lemma_len_subset(changed_cells(g2, g3), cells_of_kind(g4, TileKind::Wall));
        }
        if wc.dispatch_y == 0 && wc.num_obstacles == 0 && wc.num_shelf_locations > 0 {
            lemma_len_subset(changed_cells(g3, g4), cells_of_kind(g4, TileKind::ShelfLocation));
        }
        assert forall|p: Position| grid.in_bounds(p) implies #[trigger] layout_ok(*wc, grid.tile(p), p) by {
            lemma_cell_index(p, w, h);
            let j = cell_index(p, w);
            assert(g2[j] == base_tile(*wc, p));
            assert(g3[j] == g2[j] || (g2[j] == TileKind::Floor && g3[j] == TileKind::Wall && j >= w));
            assert(g4[j] == g3[j] || (g3[j] == TileKind::Floor && g4[j] == TileKind::ShelfLocation && j >= w));
            if j >= w {
                assert(p.y >= 1) by (nonlinear_arith)
                    requires
                        j == p.y * w + p.x,
                        p.x < w,
                        j >= w,
                ;
            }
        }
    }

    // --- 5. Robots (spread out from the dispatch zone along the bottom row) ---
    let n_r = wc.num_robots;
    let mut robots: Vec<Robot> = Vec::new();
    let mut r: usize = 0;
    while r < n_r
        invariant
            buildable(*wc),
            w == wc.width,
            n_r == wc.num_robots,
            r <= n_r,
            robots@.len() == r,
            forall|j: int|
                0 <= j < r ==> (#[trigger] robots@[j])@ == initial_robot(*wc, j),
        decreases n_r - r,
    {
        let id = RobotId(r as u32);
        let sum = wc.dispatch_x + r;
        let x = if sum < w - 1 {
            sum
        } else {
            w - 1
        };
        let pos = Position::new(x, wc.dispatch_y);
        robots.push(Robot::new(id, pos));
        proof {
            assert(robots@[r as int].planned_path@ =~= Seq::<Position>::empty());
        }
        r = r + 1;
    }
    let world = World::new(grid, robots, stations, dispatch_pos);
    proof {
        assert forall|j: int| 0 <= j < world.robots@.len() implies #[trigger] world.robot_ok(j) by {
            assert(world.robots@[j]@.planned_path.len() == 0);
        }
        assert forall|j: int| 0 <= j < world.stations@.len() implies #[trigger] world.station_ok(j) by {
            assert(world.stations@[j]@.queue.len() == 0);
        }
        // No order exists yet and every robot is idle with empty hands.
        broadcast use vstd::multiset::group_multiset_axioms;
        broadcast use vstd::seq_lib::group_to_multiset_ensures;
        assert(crate::world::order_ids(world.pending_orders@) =~= Seq::empty());
        assert(crate::world::order_ids(world.active_orders@) =~= Seq::empty());
        assert(crate::world::order_ids(world.completed_orders@) =~= Seq::empty());
        assert(world.order_id_multiset() =~= vstd::multiset::Multiset::empty());
        assert forall|j: int| 0 <= j < world.robots@.len() implies crate::world::robot_task_ok(
            #[trigger] world.robots@[j],
            world.active_orders@,
        ) by {
            assert(world.robots@[j]@ == initial_robot(*wc, j));
        }
        // No robot waits at or uses a station, and every station is empty.
        let rv = robots_view(world.robots@);
        let sv = stations_view(world.stations@);
        assert forall|j: int| 0 <= j < rv.len() implies (#[trigger] rv[j]).state == RobotState::Idle
            && rv[j].id.index() == j by {
            assert(rv[j] == world.robots@[j]@);
        }
        assert forall|k: int| 0 <= k < sv.len() implies (#[trigger] sv[k]).charging_robot is None
            && sv[k].queue.len() == 0 && sv[k].id.0 == k by {
            assert(sv[k] == world.stations@[k]@);
        }
    }
    world
}

} // verus!
