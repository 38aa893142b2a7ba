use vstd::prelude::*;

use crate::components::order::{Order, OrderId, OrderStatus};
use crate::components::robot::{robots_view, RobotState, RobotView};
use crate::components::station::{stations_view, StationView};
use crate::systems::movement::ArrivalEvent;
use crate::world::grid::Position;
use crate::world::{first_index, World};

verus! {

/// The part of the world that arrivals change.
pub struct ArrivalState {
    pub robots: Seq<RobotView>,
    pub stations: Seq<StationView>,
    pub active: Seq<Order>,
    pub completed: Seq<Order>,
}

impl World {
    pub open spec fn arrival_state(&self) -> ArrivalState {
        ArrivalState {
            robots: robots_view(self.robots@),
            stations: stations_view(self.stations@),
            active: self.active_orders@,
            completed: self.completed_orders@,
        }
    }
}

/// Moves the first active order with `id` to the completed list, stamped with `tick`.
pub open spec fn complete_in(active: Seq<Order>, completed: Seq<Order>, id: OrderId, tick: u64) -> (Seq<
    Order,
>, Seq<Order>) {
    let k = first_index(active, id);
    if k >= 0 {
        (
            active.remove(k),
            completed.push(
                Order { status: OrderStatus::Completed, completed_at_tick: Some(tick), ..active[k] },
            ),
        )
    } else {
        (active, completed)
    }
}

/// The state transition one arrival event triggers.
///
/// A robot arriving at its pickup location picks up the item and heads to
/// the dispatch zone; a robot arriving at the dispatch zone delivers the item
/// and becomes idle; a robot arriving at a station waits in its queue.
pub open spec fn arrival_step(st: ArrivalState, e: ArrivalEvent, dispatch: Position, tick: u64) -> ArrivalState {
    let i = e.robot_id.0 as int;
    let r = st.robots[i];
    match r.state {
        RobotState::RoutingToPickup { order_id } => ArrivalState {
            robots: st.robots.update(
                i,
                RobotView {
                    is_carrying_payload: true,
                    state: RobotState::RoutingToDropoff { order_id },
                    destination: Some(dispatch),
                    ..r
                },
            ),
            ..st
        },
        RobotState::RoutingToDropoff { order_id } => {
            let (a, c) = complete_in(st.active, st.completed, order_id, tick);
            ArrivalState {
                robots: st.robots.update(
                    i,
                    RobotView {
                        is_carrying_payload: false,
                        state: RobotState::Idle,
                        destination: None,
                        ..r
                    },
                ),
                active: a,
                completed: c,
                ..st
            }
        },
        RobotState::RoutingToCharge { station_id } => {
            let s = station_id.0 as int;
            ArrivalState {
                robots: st.robots.update(
                    i,
                    RobotView {
                        state: RobotState::WaitingToCharge { station_id },
                        destination: None,
                        planned_path: Seq::empty(),
                        ..r
                    },
                ),
                stations: st.stations.update(
                    s,
                    StationView { queue: st.stations[s].queue.push(e.robot_id), ..st.stations[s] },
                ),
                ..st
            }
        },
        _ => st,
    }
}

/// The state after the first `k` events, handled in order.
pub open spec fn after_arrivals(
    st: ArrivalState,
    events: Seq<ArrivalEvent>,
    k: nat,
    dispatch: Position,
    tick: u64,
) -> ArrivalState
    decreases k,
{
    if k == 0 {
        st
    } else {
        arrival_step(after_arrivals(st, events, (k - 1) as nat, dispatch, tick), events[k - 1], dispatch, tick)
    }
}

/// Handles one arrival event.
fn handle_arrival(world: &mut World, event: ArrivalEvent)
    requires
        old(world).wf(),
        event.robot_id.0 < old(world).robots@.len(),
    ensures
        final(world).wf(),
        final(world).arrival_state() == arrival_step(
            old(world).arrival_state(),
            event,
            old(world).dispatch_position,
            old(world).tick,
        ),
        final(world).robots@.len() == old(world).robots@.len(),
        final(world).grid == old(world).grid,
        final(world).pending_orders == old(world).pending_orders,
        final(world).dispatch_position == old(world).dispatch_position,
        final(world).next_order_id == old(world).next_order_id,
        final(world).tick == old(world).tick,
        final(world).order_id_multiset() == old(world).order_id_multiset(),
        old(world).orders_consistent() ==> final(world).orders_consistent(),
{
    let i = event.robot_id.0 as usize;
    let state = world.robots[i].state;
    let ghost st0 = world.arrival_state();
    proof {
        assert(world.robot_ok(i as int));
        assert(st0.robots[i as int] == world.robots@[i as int]@);
    }
    match state {
        RobotState::RoutingToPickup { order_id } => {
            // Robot reached the shelf; pick up item and head to dispatch.
            let dispatch = world.dispatch_position;
            world.set_task(i, RobotState::RoutingToDropoff { order_id }, Some(dispatch), true);
            proof {
                assert(world.arrival_state().robots =~= arrival_step(st0, event, old(world).dispatch_position, old(world).tick).robots);
                assert(world.arrival_state().stations =~= st0.stations);
                if old(world).orders_consistent() {
                    crate::orders_law::lemma_orders_retask(*old(world), *world, i as int);
                }
            }
        },
        RobotState::RoutingToDropoff { order_id } => {
            // Robot reached dispatch — deliver item, become idle.
            world.complete_order(order_id);
            let ghost w1 = *world;
            proof {
                assert forall|j: int| 0 <= j < world.robots@.len() implies #[trigger] world.robot_ok(j) by {
                    assert(old(world).robot_ok(j));
                }
                assert forall|j: int| 0 <= j < world.stations@.len() implies #[trigger] world.station_ok(j) by {
                    assert(old(world).station_ok(j));
                }
                assert forall|j: int| 0 <= j < world.active_orders@.len() implies world.grid.in_bounds(
                    (#[trigger] world.active_orders@[j]).pickup_location,
                ) by {
                    crate::world::lemma_first_index(old(world).active_orders@, order_id);
                    let k = first_index(old(world).active_orders@, order_id);
                    if k < 0 || j < k {
                        assert(world.active_orders@[j] == old(world).active_orders@[j]);
                    } else {
                        assert(world.active_orders@[j] == old(world).active_orders@[j + 1]);
                    }
                }
            }
            world.set_task(i, RobotState::Idle, None, false);
            proof {
                assert(world.arrival_state().robots =~= arrival_step(st0, event, old(world).dispatch_position, old(world).tick).robots);
                assert(world.arrival_state().stations =~= st0.stations);
                if old(world).orders_consistent() {
                    crate::orders_law::lemma_orders_release(
                        *old(world),
                        *world,
                        i as int,
                        world.robots@[i as int],
                        false,
                    );
                }
            }
        },
        RobotState::RoutingToCharge { station_id } => {
            // Robot has physically arrived at the station: it waits in the
            // queue until the charging system pulls it into the slot.
            let carrying = world.robots[i].is_carrying_payload;
            world.set_task(i, RobotState::WaitingToCharge { station_id }, None, carrying);
            world.set_route(i, Vec::new());
            let s = station_id.0 as usize;
            world.enqueue_at(s, event.robot_id);
            proof {
                assert(world.arrival_state().robots =~= arrival_step(st0, event, old(world).dispatch_position, old(world).tick).robots);
                assert(world.arrival_state().stations =~= arrival_step(st0, event, old(world).dispatch_position, old(world).tick).stations);
                if old(world).orders_consistent() {
                    assert(crate::world::robot_task_ok(old(world).robots@[i as int], old(world).active_orders@));
                    crate::orders_law::lemma_orders_retask(*old(world), *world, i as int);
                }
            }
        },
        // No transition needed for these states
        _ => {},
    }
}

/// Handles state transitions when robots finish the last step of their
/// journeys, one event after another in the order given.
pub fn handle_arrivals(world: &mut World, arrivals: Vec<ArrivalEvent>)
    requires
        old(world).wf(),
        forall|k: int| 0 <= k < arrivals@.len() ==> (#[trigger] arrivals@[k]).robot_id.0 < old(world).robots@.len(),
    ensures
        final(world).wf(),
        final(world).arrival_state() == after_arrivals(
            old(world).arrival_state(),
            arrivals@,
            arrivals@.len(),
            old(world).dispatch_position,
            old(world).tick,
        ),
        old(world).fleet_consistent() ==> final(world).fleet_consistent(),
        final(world).order_id_multiset() == old(world).order_id_multiset(),
        old(world).orders_consistent() ==> final(world).orders_consistent(),
        final(world).robots@.len() == old(world).robots@.len(),
        final(world).grid == old(world).grid,
        final(world).pending_orders == old(world).pending_orders,
        final(world).dispatch_position == old(world).dispatch_position,
        final(world).next_order_id == old(world).next_order_id,
        final(world).tick == old(world).tick,
{
    let mut k: usize = 0;
    while k < arrivals.len()
        invariant
            world.wf(),
            k <= arrivals@.len(),
            world.robots@.len() == old(world).robots@.len(),
            forall|j: int| 0 <= j < arrivals@.len() ==> (#[trigger] arrivals@[j]).robot_id.0 < old(world).robots@.len(),
            world.arrival_state() == after_arrivals(
                old(world).arrival_state(),
                arrivals@,
                k as nat,
                old(world).dispatch_position,
                old(world).tick,
            ),
            world.grid == old(world).grid,
            world.pending_orders == old(world).pending_orders,
            world.dispatch_position == old(world).dispatch_position,
            world.next_order_id == old(world).next_order_id,
            world.tick == old(world).tick,
            old(world).fleet_consistent() ==> world.fleet_consistent(),
            world.order_id_multiset() == old(world).order_id_multiset(),
            old(world).orders_consistent() ==> world.orders_consistent(),
        decreases arrivals@.len() - k,
    {
        let event = arrivals[k];
        proof {
            if old(world).fleet_consistent() {
                crate::consistency::lemma_arrival_keeps_fleet(
                    world.arrival_state(),
                    event,
                    world.dispatch_position,
                    world.tick,
                );
            }
        }
        handle_arrival(world, event);
        k = k + 1;
    }
}

} // verus!
