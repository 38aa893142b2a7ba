use rand::rngs::StdRng;
use vstd::prelude::*;

use crate::components::order::{Order, OrderId, OrderStatus};
use crate::random::random_index;
use crate::world::grid::{all_positions, Position, TileKind};
use crate::world::World;

verus! {

/// The shelf tiles of the world's grid, in row-major order.
pub open spec fn shelves_of(world: World) -> Seq<Position> {
    all_positions(world.grid.width, world.grid.height).filter(
        |p: Position| world.grid.tile(p) == TileKind::ShelfLocation,
    )
}

/// Every shelf tile lies on the grid.
pub proof fn lemma_shelf_in_bounds(world: World, p: Position)
    requires
        shelves_of(world).contains(p),
    ensures
        world.grid.in_bounds(p),
{
    let all = all_positions(world.grid.width, world.grid.height);
    all.lemma_filter_contains_rev(|q: Position| world.grid.tile(q) == TileKind::ShelfLocation, p);
    let m = choose|m: int| 0 <= m < all.len() && all[m] == p;
    crate::world::grid::lemma_cell_position(m, world.grid.width, world.grid.height);
}

/// The ids `first, first + 1, ...` of `n` orders created one after another.
pub open spec fn fresh_ids(first: u32, n: nat) -> Seq<OrderId> {
    Seq::new(n, |k: int| OrderId((first + k) as u32))
}

/// Injects `num_new_orders` new orders into the pending queue, each one
/// targeting a randomly selected shelf tile. Nothing happens when the grid
/// has no shelf tile.
///
/// The number of orders per tick is drawn from a Poisson distribution by the
/// caller; this function only places them.
pub fn run(world: &mut World, num_new_orders: u64, rng: &mut StdRng)
    requires
        old(world).wf(),
        shelves_of(*old(world)).len() > 0 ==> old(world).next_order_id + num_new_orders
            <= u32::MAX,
    ensures
        final(world).wf(),
        old(world).fleet_consistent() ==> final(world).fleet_consistent(),
        old(world).orders_consistent() ==> final(world).orders_consistent(),
        final(world).grid == old(world).grid,
        final(world).robots == old(world).robots,
        final(world).stations == old(world).stations,
        final(world).active_orders == old(world).active_orders,
        final(world).completed_orders == old(world).completed_orders,
        final(world).dispatch_position == old(world).dispatch_position,
        final(world).tick == old(world).tick,
        shelves_of(*old(world)).len() == 0 ==> final(world).order_id_multiset()
            == old(world).order_id_multiset(),
        shelves_of(*old(world)).len() > 0 ==> final(world).order_id_multiset()
            == old(world).order_id_multiset().add(
            fresh_ids(old(world).next_order_id, num_new_orders as nat).to_multiset(),
        ),
        shelves_of(*old(world)).len() == 0 ==> {
            &&& final(world).pending_orders == old(world).pending_orders
            &&& final(world).next_order_id == old(world).next_order_id
        },
        shelves_of(*old(world)).len() > 0 ==> {
            let n0 = old(world).pending_orders@.len();
            &&& final(world).next_order_id == old(world).next_order_id + num_new_orders
            &&& final(world).pending_orders@.len() == n0 + num_new_orders
            &&& final(world).pending_orders@.subrange(0, n0 as int) == old(world).pending_orders@
            &&& forall|k: int|
                0 <= k < num_new_orders ==> {
                    let o = #[trigger] final(world).pending_orders@[n0 + k];
                    &&& o.id == OrderId((old(world).next_order_id + k) as u32)
                    &&& o.status == OrderStatus::Pending
                    &&& o.assigned_to is None
                    &&& o.created_at_tick == old(world).tick
                    &&& o.completed_at_tick is None
                    &&& shelves_of(*old(world)).contains(o.pickup_location)
                }
        },
{
    let ghost shelves = shelves_of(*world);
    let shelf_positions = world.shelf_positions();
    if shelf_positions.len() == 0 {
        return;
    }
    let ghost n0 = world.pending_orders@.len();
    proof {
        broadcast use vstd::seq_lib::group_to_multiset_ensures;
        broadcast use vstd::multiset::group_multiset_axioms;

        let f = fresh_ids(world.next_order_id, 0);
        assert(f.len() == 0);
        assert(f.to_multiset().len() == 0);
        assert(f.to_multiset() =~= vstd::multiset::Multiset::empty());
        assert(world.order_id_multiset().add(f.to_multiset()) =~= world.order_id_multiset());
    }
    let mut k: u64 = 0;
    while k < num_new_orders
        invariant
            world.wf(),
            shelf_positions@ == shelves,
            shelves == shelves_of(*old(world)),
            shelves.len() > 0,
            k <= num_new_orders,
            old(world).next_order_id + num_new_orders <= u32::MAX,
            world.next_order_id == old(world).next_order_id + k,
            n0 == old(world).pending_orders@.len(),
            world.pending_orders@.len() == n0 + k,
            world.pending_orders@.subrange(0, n0 as int) == old(world).pending_orders@,
            forall|j: int|
                0 <= j < k ==> {
                    let o = #[trigger] world.pending_orders@[n0 + j];
                    &&& o.id == OrderId((old(world).next_order_id + j) as u32)
                    &&& o.status == OrderStatus::Pending
                    &&& o.assigned_to is None
                    &&& o.created_at_tick == old(world).tick
                    &&& o.completed_at_tick is None
                    &&& shelves.contains(o.pickup_location)
                },
            world.grid == old(world).grid,
            world.robots == old(world).robots,
            world.stations == old(world).stations,
            world.active_orders == old(world).active_orders,
            world.completed_orders == old(world).completed_orders,
            world.dispatch_position == old(world).dispatch_position,
            world.tick == old(world).tick,
            world.order_id_multiset() == old(world).order_id_multiset().add(
                fresh_ids(old(world).next_order_id, k as nat).to_multiset(),
            ),
            old(world).orders_consistent() ==> world.orders_consistent(),
        decreases num_new_orders - k,
    {
        let idx = random_index(rng, 0, shelf_positions.len());
        let pickup_location = shelf_positions[idx];
        proof {
            assert(shelves.contains(pickup_location)) by {
                assert(shelves[idx as int] == pickup_location);
            }
            lemma_shelf_in_bounds(*old(world), pickup_location);
        }
        let ghost before = world.pending_orders@;
        let ghost w0 = *world;
        world.inject_order(pickup_location);
        proof {
            broadcast use vstd::seq_lib::group_to_multiset_ensures;
            broadcast use vstd::multiset::group_multiset_axioms;

            let f0 = fresh_ids(old(world).next_order_id, k as nat);
            let f1 = fresh_ids(old(world).next_order_id, (k + 1) as nat);
            assert(f1 =~= f0.push(OrderId((old(world).next_order_id + k) as u32)));
            assert(world.order_id_multiset() =~= old(world).order_id_multiset().add(f1.to_multiset()));
            assert(world.pending_orders@.subrange(0, n0 as int) =~= before.subrange(0, n0 as int));
            assert forall|j: int| 0 <= j < world.pending_orders@.len() implies world.grid.in_bounds(
                (#[trigger] world.pending_orders@[j]).pickup_location,
            ) by {
                if j < before.len() {
                    assert(world.pending_orders@[j] == before[j]);
                }
            }
            assert forall|j: int| 0 <= j < k + 1 implies {
                let o = #[trigger] world.pending_orders@[n0 + j];
                &&& o.id == OrderId((old(world).next_order_id + j) as u32)
                &&& o.status == OrderStatus::Pending
                &&& o.assigned_to is None
                &&& o.created_at_tick == old(world).tick
                &&& o.completed_at_tick is None
                &&& shelves.contains(o.pickup_location)
            } by {
                if j < k {
                    assert(world.pending_orders@[n0 + j] == before[n0 + j]);
                }
            }
            assert forall|j: int| 0 <= j < world.robots@.len() implies #[trigger] world.robot_ok(j) by {
                assert(w0.robot_ok(j));
            }
            assert forall|j: int| 0 <= j < world.stations@.len() implies #[trigger] world.station_ok(j) by {
                assert(w0.station_ok(j));
            }
        }
        k = k + 1;
    }
}

} // verus!
