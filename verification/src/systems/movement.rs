use vstd::prelude::*;

use crate::components::robot::{robots_view, state_is_routing, Robot, RobotId};
use crate::components::station::stations_view;
use crate::world::grid::Position;
use crate::world::World;

verus! {

/// Emitted when a robot takes its final step and reaches its destination.
/// Processed by the arrival handling to trigger state transitions.
#[derive(Debug, Clone, Copy, PartialEq, Eq, Structural)]
pub struct ArrivalEvent {
    pub robot_id: RobotId,
    pub arrived_at: Position,
}

/// The arrival event a robot produces this tick, if any: a routing robot
/// arrives when at most one step of its route is left.
pub open spec fn arrival_of(r: Robot) -> Option<ArrivalEvent> {
    if state_is_routing(r.state) && r.planned_path@.len() <= 1 {
        Some(
            ArrivalEvent {
                robot_id: r.id,
                arrived_at: if r.planned_path@.len() == 1 {
                    r.planned_path@[0]
                } else {
                    r.position
                },
            },
        )
    } else {
        None
    }
}

/// The arrival events of the first `k` robots, in robot order.
pub open spec fn arrivals_of(robots: Seq<Robot>, k: nat) -> Seq<ArrivalEvent>
    decreases k,
{
    if k == 0 {
        Seq::empty()
    } else {
        let prev = arrivals_of(robots, (k - 1) as nat);
        match arrival_of(robots[k - 1]) {
            Some(e) => prev.push(e),
            None => prev,
        }
    }
}

/// A robot after one movement step: a routing robot with a route steps onto
/// its first tile and drops it from the route; every other robot stays put.
pub open spec fn moved(r0: Robot, r1: Robot) -> bool {
    &&& r1.id == r0.id
    &&& r1.state == r0.state
    &&& r1.destination == r0.destination
    &&& r1.is_carrying_payload == r0.is_carrying_payload
    &&& if state_is_routing(r0.state) && r0.planned_path@.len() > 0 {
        &&& r1.position == r0.planned_path@[0]
        &&& r1.planned_path@ == r0.planned_path@.drop_first()
    } else {
        &&& r1.position == r0.position
        &&& r1.planned_path@ == r0.planned_path@
    }
}

/// Moves robot `i` one step along its route.
fn step_robot(world: &mut World, i: usize)
    requires
        old(world).wf(),
        i < old(world).robots@.len(),
        old(world).robots@[i as int].planned_path@.len() > 0,
    ensures
        final(world).wf(),
        final(world).robots@.len() == old(world).robots@.len(),
        final(world).robots@[i as int].id == old(world).robots@[i as int].id,
        final(world).robots@[i as int].state == old(world).robots@[i as int].state,
        final(world).robots@[i as int].destination == old(world).robots@[i as int].destination,
        final(world).robots@[i as int].is_carrying_payload == old(world).robots@[i as int].is_carrying_payload,
        final(world).robots@[i as int].position == old(world).robots@[i as int].planned_path@[0],
        final(world).robots@[i as int].planned_path@ == old(world).robots@[i as int].planned_path@.drop_first(),
        forall|j: int| 0 <= j < old(world).robots@.len() && j != i ==> #[trigger] final(world).robots@[j] == old(world).robots@[j],
        final(world).grid == old(world).grid,
        final(world).stations == old(world).stations,
        final(world).pending_orders == old(world).pending_orders,
        final(world).active_orders == old(world).active_orders,
        final(world).completed_orders == old(world).completed_orders,
        final(world).dispatch_position == old(world).dispatch_position,
        final(world).next_order_id == old(world).next_order_id,
        final(world).tick == old(world).tick,
{
    let ghost before = world.robots@;
    proof {
        assert(world.robot_ok(i as int));
    }
    let next_pos = world.robots[i].planned_path[0];
    world.robots[i].position = next_pos;
    world.robots[i].planned_path.remove(0);
    proof {
        assert(world.robots@[i as int].planned_path@ =~= before[i as int].planned_path@.drop_first());
        assert forall|j: int| 0 <= j < world.robots@.len() implies #[trigger] world.robot_ok(j) by {
            assert(old(world).robot_ok(j));
            if j != i {
                assert(world.robots@[j] == before[j]);
            } else {
                let r = world.robots@[j];
                assert forall|k: int| 0 <= k < r.planned_path@.len() implies world.grid.in_bounds(#[trigger] r.planned_path@[k]) by {
                    assert(r.planned_path@[k] == before[j].planned_path@[k + 1]);
                }
            }
        }
        assert forall|j: int| 0 <= j < world.stations@.len() implies #[trigger] world.station_ok(j) by {
            assert(old(world).station_ok(j));
        }
    }
}

/// Advances every routing robot exactly one step along its planned path.
///
/// Returns arrival events, in robot order, for any robot that reached its
/// destination this tick. A routing robot whose path is already empty also
/// reports an arrival (at its current tile) so that the state machine can
/// recover, e.g. when no path was found last tick. State transitions are
/// handled by the caller so this system stays focused on movement only.
pub fn run(world: &mut World) -> (arrivals: Vec<ArrivalEvent>)
    requires
        old(world).wf(),
    ensures
        final(world).wf(),
        old(world).fleet_consistent() ==> final(world).fleet_consistent(),
        old(world).orders_consistent() ==> final(world).orders_consistent(),
        final(world).order_id_multiset() == old(world).order_id_multiset(),
        arrivals@ == arrivals_of(old(world).robots@, old(world).robots@.len()),
        final(world).robots@.len() == old(world).robots@.len(),
        forall|i: int|
            0 <= i < old(world).robots@.len() ==> moved(
                old(world).robots@[i],
                #[trigger] final(world).robots@[i],
            ),
        final(world).grid == old(world).grid,
        final(world).stations == old(world).stations,
        final(world).pending_orders == old(world).pending_orders,
        final(world).active_orders == old(world).active_orders,
        final(world).completed_orders == old(world).completed_orders,
        final(world).dispatch_position == old(world).dispatch_position,
        final(world).next_order_id == old(world).next_order_id,
        final(world).tick == old(world).tick,
{
    let ghost robots0 = world.robots@;
    let mut arrivals: Vec<ArrivalEvent> = Vec::new();
    let n = world.robots.len();
    let mut i: usize = 0;
    while i < n
        invariant
            world.wf(),
            n == robots0.len(),
            robots0 == old(world).robots@,
            world.robots@.len() == n,
            i <= n,
            arrivals@ == arrivals_of(robots0, i as nat),
            forall|j: int| 0 <= j < i ==> moved(robots0[j], #[trigger] world.robots@[j]),
            forall|j: int| i <= j < n ==> #[trigger] world.robots@[j] == robots0[j],
            world.grid == old(world).grid,
            world.stations == old(world).stations,
            world.pending_orders == old(world).pending_orders,
            world.active_orders == old(world).active_orders,
            world.completed_orders == old(world).completed_orders,
            world.dispatch_position == old(world).dispatch_position,
            world.next_order_id == old(world).next_order_id,
            world.tick == old(world).tick,
        decreases n - i,
    {
        let id = world.robots[i].id;
        if world.robots[i].is_routing() {
            if world.robots[i].planned_path.len() > 0 {
                let next_pos = world.robots[i].planned_path[0];
                let ghost before = world.robots@;
                step_robot(world, i);
                if world.robots[i].planned_path.len() == 0 {
                    arrivals.push(ArrivalEvent { robot_id: id, arrived_at: next_pos });
                }
                proof {
                    assert forall|j: int| 0 <= j < i implies moved(robots0[j], #[trigger] world.robots@[j]) by {
                        assert(world.robots@[j] == before[j]);
                    }
                }
            } else {
                // Path is empty but robot is still routing — treat as arrival so
                // the state machine can recover (e.g. if A* found no path last tick).
                let here = world.robots[i].position;
                arrivals.push(ArrivalEvent { robot_id: id, arrived_at: here });
            }
        }
        i = i + 1;
    }
    proof {
        if old(world).fleet_consistent() {
            crate::consistency::lemma_fleet_frame(
                robots_view(robots0),
                stations_view(world.stations@),
                robots_view(world.robots@),
                stations_view(world.stations@),
            );
        }
        if old(world).orders_consistent() {
            crate::orders_law::lemma_orders_same_tasks(*old(world), *world);
        }
    }
    arrivals
}

} // verus!
