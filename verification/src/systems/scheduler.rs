use vstd::prelude::*;

use crate::components::order::{Order, OrderId, OrderStatus};
use crate::components::robot::{robots_view, state_in_charge_cycle, Robot, RobotId, RobotState};
use crate::consistency::{at_station, lemma_fleet_frame};
use crate::components::station::{station_load, stations_view, ChargingStation, StationId};
use crate::world::grid::{manhattan, Grid, Position};
use crate::orders_law::{lemma_orders_release, lemma_orders_retask, lemma_orders_take};
use crate::world::{find_order, first_index, order_of, robot_task_ok, station_ref_ok, World};

verus! {

// ---------------------------------------------------------------------------
// Battery triage
// ---------------------------------------------------------------------------

/// How attractive a station is for a robot at `pos`: distance plus twice the
/// number of robots already waiting or charging there.
pub open spec fn station_cost(s: ChargingStation, pos: Position) -> nat {
    manhattan(s.position, pos) + 2 * station_load(s)
}

/// `b` is the first station of least cost for a robot at `pos`.
pub open spec fn is_best_station(stations: Seq<ChargingStation>, pos: Position, b: int) -> bool {
    &&& 0 <= b < stations.len()
    &&& forall|j: int|
        0 <= j < stations.len() ==> station_cost(stations[b], pos) <= station_cost(
            #[trigger] stations[j],
            pos,
        )
    &&& forall|j: int|
        0 <= j < b ==> station_cost(stations[b], pos) < station_cost(#[trigger] stations[j], pos)
}

/// Station costs stay within `usize` on this grid.
pub open spec fn loads_fit(stations: Seq<ChargingStation>, grid: Grid) -> bool {
    forall|j: int|
        0 <= j < stations.len() ==> 2 * station_load(#[trigger] stations[j]) + grid.width
            + grid.height <= usize::MAX
}

/// The triage sends this robot to a charger: its battery is low and it is not
/// already heading to, waiting at or using one.
pub open spec fn triage_selects(r: Robot, needs_recharge: bool) -> bool {
    needs_recharge && !state_in_charge_cycle(r.state)
}

/// Returns the first active order with `id` to the pending queue, if there is one.
pub open spec fn return_to_pending(pending: Seq<Order>, active: Seq<Order>, id: OrderId) -> (Seq<
    Order,
>, Seq<Order>) {
    let k = first_index(active, id);
    if k >= 0 {
        (
            pending.push(Order { status: OrderStatus::Pending, assigned_to: None, ..active[k] }),
            active.remove(k),
        )
    } else {
        (pending, active)
    }
}

/// The pending and active queues after the triage has handled the first `k` robots.
pub open spec fn triage_orders(
    robots: Seq<Robot>,
    needs_recharge: Seq<bool>,
    pending: Seq<Order>,
    active: Seq<Order>,
    k: nat,
) -> (Seq<Order>, Seq<Order>)
    decreases k,
{
    if k == 0 {
        (pending, active)
    } else {
        let (p, a) = triage_orders(robots, needs_recharge, pending, active, (k - 1) as nat);
        let r = robots[k - 1];
        if triage_selects(r, needs_recharge[k - 1]) && order_of(r.state) is Some {
            return_to_pending(p, a, order_of(r.state)->0)
        } else {
            (p, a)
        }
    }
}

/// The first station of least cost for a robot at `pos`, or -1 when there is no station.
pub open spec fn best_station_index(stations: Seq<ChargingStation>, pos: Position) -> int {
    if exists|b: int| is_best_station(stations, pos, b) {
        choose|b: int| is_best_station(stations, pos, b)
    } else {
        -1
    }
}

/// A robot after the triage has handled it.
pub open spec fn triaged_robot(r0: Robot, needs_recharge: bool, stations: Seq<ChargingStation>) -> Robot {
    let b = best_station_index(stations, r0.position);
    if triage_selects(r0, needs_recharge) && b >= 0 {
        Robot {
            state: RobotState::RoutingToCharge { station_id: StationId(b as u32) },
            destination: Some(stations[b].position),
            is_carrying_payload: false,
            ..r0
        }
    } else {
        r0
    }
}

/// The robots after the triage.
pub open spec fn triaged_robots(
    robots: Seq<Robot>,
    needs_recharge: Seq<bool>,
    stations: Seq<ChargingStation>,
) -> Seq<Robot> {
    Seq::new(robots.len(), |i: int| triaged_robot(robots[i], needs_recharge[i], stations))
}

proof fn lemma_best_station_unique(stations: Seq<ChargingStation>, pos: Position, b: int)
    requires
        is_best_station(stations, pos, b),
    ensures
        best_station_index(stations, pos) == b,
{
    let c = choose|c: int| is_best_station(stations, pos, c);
    assert(is_best_station(stations, pos, c));
    if c < b {
        assert(station_cost(stations[b], pos) < station_cost(stations[c], pos));
        assert(station_cost(stations[c], pos) <= station_cost(stations[b], pos));
    } else if b < c {
        assert(station_cost(stations[c], pos) < station_cost(stations[b], pos));
        assert(station_cost(stations[b], pos) <= station_cost(stations[c], pos));
    }
}

/// The first station of least cost, when there is a station.
fn best_station(stations: &Vec<ChargingStation>, pos: Position, Ghost(grid): Ghost<Grid>) -> (b:
    Option<usize>)
    requires
        grid.in_bounds(pos),
        loads_fit(stations@, grid),
        forall|j: int| 0 <= j < stations@.len() ==> grid.in_bounds(#[trigger] stations@[j].position),
    ensures
        match b {
            Some(i) => is_best_station(stations@, pos, i as int) && i as int == best_station_index(
                stations@,
                pos,
            ),
            None => stations@.len() == 0 && best_station_index(stations@, pos) == -1,
        },
{
    if stations.len() == 0 {
        return None;
    }
    let mut best: usize = 0;
    let mut best_cost: usize = 0;
    let mut i: usize = 0;
    while i < stations.len()
        invariant
            grid.in_bounds(pos),
            loads_fit(stations@, grid),
            forall|j: int| 0 <= j < stations@.len() ==> grid.in_bounds(#[trigger] stations@[j].position),
            0 < stations@.len(),
            i <= stations@.len(),
            best < stations@.len(),
            i > 0 ==> best < i,
            i > 0 ==> best_cost == station_cost(stations@[best as int], pos),
            i == 0 ==> best == 0,
            forall|j: int|
                0 <= j < i ==> station_cost(stations@[best as int], pos) <= station_cost(
                    #[trigger] stations@[j],
                    pos,
                ),
            forall|j: int|
                0 <= j < best ==> station_cost(stations@[best as int], pos) < station_cost(
                    #[trigger] stations@[j],
                    pos,
                ),
        decreases stations@.len() - i,
    {
        let s = &stations[i];
        proof {
            assert(grid.in_bounds(s.position));
            assert(2 * station_load(stations@[i as int]) + grid.width + grid.height <= usize::MAX);
        }
        let cost = s.position.manhattan_distance(&pos) + s.total_load() * 2;
        if i == 0 || cost < best_cost {
            best = i;
            best_cost = cost;
        }
        i = i + 1;
    }
    proof {
        lemma_best_station_unique(stations@, pos, best as int);
    }
    Some(best)
}

/// Moves the first active order with `id` back to the pending queue.
fn return_order(world: &mut World, id: OrderId)
    requires
        old(world).wf(),
    ensures
        final(world).order_id_multiset() == old(world).order_id_multiset(),
        final(world).wf(),
        (final(world).pending_orders@, final(world).active_orders@) == return_to_pending(
            old(world).pending_orders@,
            old(world).active_orders@,
            id,
        ),
        final(world).grid == old(world).grid,
        final(world).robots == old(world).robots,
        final(world).stations == old(world).stations,
        final(world).completed_orders == old(world).completed_orders,
        final(world).dispatch_position == old(world).dispatch_position,
        final(world).next_order_id == old(world).next_order_id,
        final(world).tick == old(world).tick,
{
    if let Some(pos) = find_order(&world.active_orders, id) {
        let ghost a0 = world.active_orders@;
        let mut order = world.active_orders.remove(pos);
        order.status = OrderStatus::Pending;
        order.assigned_to = None;
        world.pending_orders.push(order);
        proof {
            broadcast use vstd::multiset::group_multiset_axioms;

            crate::world::lemma_move_order(a0, old(world).pending_orders@, pos as int, order);
            let a1 = crate::world::order_ids(world.active_orders@).to_multiset();
            let p1 = crate::world::order_ids(world.pending_orders@).to_multiset();
            let a0m = crate::world::order_ids(a0).to_multiset();
            let p0 = crate::world::order_ids(old(world).pending_orders@).to_multiset();
            assert forall|x: OrderId| #[trigger] world.order_id_multiset().count(x) == old(world).order_id_multiset().count(x) by {
                assert(a1.add(p1).count(x) == a0m.add(p0).count(x));
            }
            assert(world.order_id_multiset() =~= old(world).order_id_multiset());
            assert forall|j: int| 0 <= j < world.active_orders@.len() implies world.grid.in_bounds(
                (#[trigger] world.active_orders@[j]).pickup_location,
            ) by {
                if j < pos {
                    assert(world.active_orders@[j] == old(world).active_orders@[j]);
                } else {
                    assert(world.active_orders@[j] == old(world).active_orders@[j + 1]);
                }
            }
            assert forall|j: int| 0 <= j < world.pending_orders@.len() implies world.grid.in_bounds(
                (#[trigger] world.pending_orders@[j]).pickup_location,
            ) by {
                if j < old(world).pending_orders@.len() {
                    assert(world.pending_orders@[j] == old(world).pending_orders@[j]);
                }
            }
            assert forall|j: int| 0 <= j < world.robots@.len() implies #[trigger] world.robot_ok(j) by {
                assert(old(world).robot_ok(j));
            }
            assert forall|j: int| 0 <= j < world.stations@.len() implies #[trigger] world.station_ok(j) by {
                assert(old(world).station_ok(j));
            }
        }
    }
}

/// Handles robot `i` in the triage: when its battery is low (`needs_recharge`)
/// and it is not already in a charge cycle, any order it holds goes back to
/// the pending queue and, when there is a station, it heads to the station of
/// least cost.
fn triage_robot(world: &mut World, i: usize, needs_recharge: bool)
    requires
        old(world).wf(),
        i < old(world).robots@.len(),
        loads_fit(old(world).stations@, old(world).grid),
    ensures
        final(world).wf(),
        ({
            let r0 = old(world).robots@[i as int];
            (final(world).pending_orders@, final(world).active_orders@) == if triage_selects(
                r0,
                needs_recharge,
            ) && order_of(r0.state) is Some {
                return_to_pending(
                    old(world).pending_orders@,
                    old(world).active_orders@,
                    order_of(r0.state)->0,
                )
            } else {
                (old(world).pending_orders@, old(world).active_orders@)
            }
        }),
        final(world).robots@ == old(world).robots@.update(
            i as int,
            triaged_robot(old(world).robots@[i as int], needs_recharge, old(world).stations@),
        ),
        old(world).orders_consistent() && old(world).stations@.len() > 0
            ==> final(world).orders_consistent(),
        final(world).order_id_multiset() == old(world).order_id_multiset(),
        final(world).grid == old(world).grid,
        final(world).stations == old(world).stations,
        final(world).completed_orders == old(world).completed_orders,
        final(world).dispatch_position == old(world).dispatch_position,
        final(world).next_order_id == old(world).next_order_id,
        final(world).tick == old(world).tick,
{
    let ghost keep = old(world).orders_consistent() && old(world).stations@.len() > 0;
    let ghost wb = *world;
    let state = world.robots[i].state;
    let in_cycle = match state {
        RobotState::Charging { .. }
        | RobotState::WaitingToCharge { .. }
        | RobotState::RoutingToCharge { .. } => true,
        _ => false,
    };
    if needs_recharge && !in_cycle {
        let robot_pos = world.robots[i].position;
        proof {
            assert(world.robot_ok(i as int));
        }
        // If the robot was mid-task, return that order to the pending queue.
        let abandoned_order_id = match state {
            RobotState::RoutingToPickup { order_id } | RobotState::RoutingToDropoff {
                order_id,
            } => Some(order_id),
            _ => None,
        };
        if let Some(order_id) = abandoned_order_id {
            return_order(world, order_id);
        }
        proof {
            assert forall|j: int| 0 <= j < world.stations@.len() implies world.grid.in_bounds(
                #[trigger] world.stations@[j].position,
            ) by {
                assert(world.station_ok(j));
            }
        }
        // Find the nearest station, weighted by queue length to spread load.
        let best = best_station(&world.stations, robot_pos, Ghost(world.grid));
        if let Some(b) = best {
            let station_pos = world.stations[b].position;
            proof {
                assert(world.station_ok(b as int));
            }
            world.set_task(i, RobotState::RoutingToCharge { station_id: StationId(b as u32) }, Some(station_pos), false);
            proof {
                if keep {
                    if abandoned_order_id is Some {
                        lemma_orders_release(wb, *world, i as int, world.robots@[i as int], true);
                    } else {
                        assert(robot_task_ok(wb.robots@[i as int], wb.active_orders@));
                        lemma_orders_retask(wb, *world, i as int);
                    }
                }
            }
        } else {
            proof {
                assert(world.robots@ =~= old(world).robots@.update(
                    i as int,
                    triaged_robot(old(world).robots@[i as int], needs_recharge, old(world).stations@),
                ));
            }
        }
    } else {
        proof {
            assert(world.robots@ =~= old(world).robots@.update(
                i as int,
                triaged_robot(old(world).robots@[i as int], needs_recharge, old(world).stations@),
            ));
        }
    }
}

/// Sends every robot whose battery is low (`needs_recharge[i]` for robot `i`)
/// and that is not already heading to, waiting at or using a charger to the
/// station of least cost (distance plus twice its load, first such station
/// on ties). A robot that abandons an order returns that order to the
/// pending queue. Robots are handled in id order.
pub fn run_battery_triage(world: &mut World, needs_recharge: &Vec<bool>)
    requires
        old(world).wf(),
        needs_recharge@.len() == old(world).robots@.len(),
        loads_fit(old(world).stations@, old(world).grid),
    ensures
        final(world).wf(),
        (final(world).pending_orders@, final(world).active_orders@) == triage_orders(
            old(world).robots@,
            needs_recharge@,
            old(world).pending_orders@,
            old(world).active_orders@,
            old(world).robots@.len(),
        ),
        final(world).robots@.len() == old(world).robots@.len(),
        final(world).robots@ == triaged_robots(
            old(world).robots@,
            needs_recharge@,
            old(world).stations@,
        ),
        forall|i: int|
            0 <= i < old(world).robots@.len() && triage_selects(old(world).robots@[i], needs_recharge@[i])
                && old(world).stations@.len() > 0 ==> {
                let st = old(world).stations@;
                let pos = old(world).robots@[i].position;
                let r1 = #[trigger] final(world).robots@[i];
                &&& r1.state is RoutingToCharge
                &&& ({
                    let b = r1.state->RoutingToCharge_station_id.0 as int;
                    &&& 0 <= b < st.len()
                    &&& r1.destination == Some(st[b].position)
                    &&& !r1.is_carrying_payload
                    &&& forall|j: int|
                        0 <= j < st.len() ==> manhattan(st[b].position, pos) + 2 * station_load(st[b])
                            <= manhattan((#[trigger] st[j]).position, pos) + 2 * station_load(st[j])
                    &&& forall|j: int|
                        0 <= j < b ==> manhattan(st[b].position, pos) + 2 * station_load(st[b]) < manhattan(
                            (#[trigger] st[j]).position,
                            pos,
                        ) + 2 * station_load(st[j])
                })
            },
        old(world).fleet_consistent() ==> final(world).fleet_consistent(),
        old(world).orders_consistent() && old(world).stations@.len() > 0
            ==> final(world).orders_consistent(),
        final(world).order_id_multiset() == old(world).order_id_multiset(),
        final(world).grid == old(world).grid,
        final(world).stations == old(world).stations,
        final(world).completed_orders == old(world).completed_orders,
        final(world).dispatch_position == old(world).dispatch_position,
        final(world).next_order_id == old(world).next_order_id,
        final(world).tick == old(world).tick,
{
    let ghost robots0 = world.robots@;
    let ghost pending0 = world.pending_orders@;
    let ghost active0 = world.active_orders@;
    let ghost keep = old(world).orders_consistent() && old(world).stations@.len() > 0;
    let n = world.robots.len();
    let mut i: usize = 0;
    while i < n
        invariant
            world.wf(),
            n == robots0.len(),
            needs_recharge@.len() == n,
            world.robots@.len() == n,
            i <= n,
            loads_fit(world.stations@, world.grid),
            robots0 == old(world).robots@,
            pending0 == old(world).pending_orders@,
            active0 == old(world).active_orders@,
            (world.pending_orders@, world.active_orders@) == triage_orders(
                robots0,
                needs_recharge@,
                pending0,
                active0,
                i as nat,
            ),
            forall|j: int|
                0 <= j < i ==> #[trigger] world.robots@[j] == triaged_robot(
                    robots0[j],
                    needs_recharge@[j],
                    world.stations@,
                ),
            forall|j: int| i <= j < n ==> #[trigger] world.robots@[j] == robots0[j],
            world.grid == old(world).grid,
            world.stations == old(world).stations,
            world.completed_orders == old(world).completed_orders,
            world.dispatch_position == old(world).dispatch_position,
            world.next_order_id == old(world).next_order_id,
            world.tick == old(world).tick,
            world.order_id_multiset() == old(world).order_id_multiset(),
            keep == (old(world).orders_consistent() && old(world).stations@.len() > 0),
            keep ==> world.orders_consistent(),
        decreases n - i,
    {
        let ghost before = world.robots@;
        triage_robot(world, i, needs_recharge[i]);
        proof {
            assert forall|j: int| 0 <= j < i implies #[trigger] world.robots@[j] == triaged_robot(
                robots0[j],
                needs_recharge@[j],
                world.stations@,
            ) by {
                assert(world.robots@[j] == before[j]);
            }
        }
        i = i + 1;
    }
    proof {
        assert(world.robots@ =~= triaged_robots(robots0, needs_recharge@, world.stations@));
        assert forall|i: int|
            0 <= i < robots0.len() && triage_selects(robots0[i], needs_recharge@[i])
                && world.stations@.len() > 0 implies {
            let st = world.stations@;
            let pos = robots0[i].position;
            let r1 = #[trigger] world.robots@[i];
            &&& r1.state is RoutingToCharge
            &&& ({
                let b = r1.state->RoutingToCharge_station_id.0 as int;
                &&& 0 <= b < st.len()
                &&& r1.destination == Some(st[b].position)
                &&& !r1.is_carrying_payload
                &&& forall|j: int|
                    0 <= j < st.len() ==> manhattan(st[b].position, pos) + 2 * station_load(st[b])
                        <= manhattan((#[trigger] st[j]).position, pos) + 2 * station_load(st[j])
                &&& forall|j: int|
                    0 <= j < b ==> manhattan(st[b].position, pos) + 2 * station_load(st[b]) < manhattan(
                        (#[trigger] st[j]).position,
                        pos,
                    ) + 2 * station_load(st[j])
            })
        } by {
            lemma_best_station_least_cost(world.stations@, robots0[i].position);
            let b = best_station_index(world.stations@, robots0[i].position);
            assert(world.robots@[i] == triaged_robot(robots0[i], needs_recharge@[i], world.stations@));
            assert(b <= u32::MAX) by {
                assert(world.station_ok(b));
            }
        }
        if old(world).fleet_consistent() {
            assert forall|j: int| 0 <= j < robots0.len() implies (#[trigger] robots_view(world.robots@)[j]).state
                == robots_view(robots0)[j].state || (!at_station(robots_view(robots0)[j].state)
                && !at_station(robots_view(world.robots@)[j].state) && station_ref_ok(
                robots_view(world.robots@)[j].state,
                world.stations@.len() as int,
            )) by {
                assert(world.robot_ok(j));
            }
            lemma_fleet_frame(
                robots_view(robots0),
                stations_view(world.stations@),
                robots_view(world.robots@),
                stations_view(world.stations@),
            );
        }
    }
}

/// Some station is a first station of least cost whenever there is a station.
pub proof fn lemma_best_station_exists(stations: Seq<ChargingStation>, pos: Position)
    requires
        stations.len() > 0,
    ensures
        best_station_index(stations, pos) >= 0,
        is_best_station(stations, pos, best_station_index(stations, pos)),
    decreases stations.len(),
{
    let n = stations.len() - 1;
    if n == 0 {
        assert(is_best_station(stations, pos, 0));
        lemma_best_station_unique(stations, pos, 0);
    } else {
        let front = stations.drop_last();
        lemma_best_station_exists(front, pos);
        let b = best_station_index(front, pos);
        assert(forall|j: int| 0 <= j < n ==> stations[j] == front[j]);
        if station_cost(stations[n], pos) < station_cost(stations[b], pos) {
            assert(is_best_station(stations, pos, n as int)) by {
                assert forall|j: int| 0 <= j < n implies station_cost(stations[n as int], pos) < station_cost(
                    #[trigger] stations[j],
                    pos,
                ) by {
                    assert(station_cost(front[b], pos) <= station_cost(front[j], pos));
                }
            }
            lemma_best_station_unique(stations, pos, n as int);
        } else {
            assert(is_best_station(stations, pos, b)) by {
                assert forall|j: int| 0 <= j < stations.len() implies station_cost(stations[b], pos) <= station_cost(
                    #[trigger] stations[j],
                    pos,
                ) by {
                    if j < n {
                        assert(station_cost(front[b], pos) <= station_cost(front[j], pos));
                    }
                }
                assert forall|j: int| 0 <= j < b implies station_cost(stations[b], pos) < station_cost(
                    #[trigger] stations[j],
                    pos,
                ) by {
                    assert(station_cost(front[b], pos) < station_cost(front[j], pos));
                }
            }
            lemma_best_station_unique(stations, pos, b);
        }
    }
}

/// When there is a station, the triage's choice is a station of least cost:
/// Manhattan distance from the robot plus twice the station's load (robots
/// waiting plus the one charging), the first such station on ties.
pub proof fn lemma_best_station_least_cost(stations: Seq<ChargingStation>, pos: Position)
    requires
        stations.len() > 0,
    ensures
        ({
            let b = best_station_index(stations, pos);
            &&& 0 <= b < stations.len()
            &&& forall|j: int|
                0 <= j < stations.len() ==> manhattan(stations[b].position, pos) + 2 * station_load(
                    stations[b],
                ) <= manhattan((#[trigger] stations[j]).position, pos) + 2 * station_load(stations[j])
            &&& forall|j: int|
                0 <= j < b ==> manhattan(stations[b].position, pos) + 2 * station_load(stations[b])
                    < manhattan((#[trigger] stations[j]).position, pos) + 2 * station_load(stations[j])
        }),
{
    lemma_best_station_exists(stations, pos);
    let b = best_station_index(stations, pos);
    assert forall|j: int| 0 <= j < stations.len() implies manhattan(stations[b].position, pos)
        + 2 * station_load(stations[b]) <= manhattan((#[trigger] stations[j]).position, pos) + 2
        * station_load(stations[j]) by {
        assert(station_cost(stations[b], pos) <= station_cost(stations[j], pos));
    }
    assert forall|j: int| 0 <= j < b implies manhattan(stations[b].position, pos) + 2 * station_load(
        stations[b],
    ) < manhattan((#[trigger] stations[j]).position, pos) + 2 * station_load(stations[j]) by {
        assert(station_cost(stations[b], pos) < station_cost(stations[j], pos));
    }
}

/// Triage runs before assignment: when there is a station, a robot that the
/// triage sends to a charger is not handed an order in the same tick; it
/// leaves the scheduler routing to the charger.
pub proof fn lemma_triaged_robot_not_assigned(
    robots: Seq<Robot>,
    needs_recharge: Seq<bool>,
    stations: Seq<ChargingStation>,
    pending: Seq<Order>,
    active: Seq<Order>,
    i: int,
    r1: Robot,
)
    requires
        0 <= i < robots.len(),
        needs_recharge.len() == robots.len(),
        stations.len() > 0,
        triage_selects(robots[i], needs_recharge[i]),
        assigned(
            triaged_robots(robots, needs_recharge, stations),
            triage_orders(robots, needs_recharge, pending, active, robots.len()).0,
            triage_orders(robots, needs_recharge, pending, active, robots.len()).1,
            i,
            r1,
        ),
    ensures
        r1.state == (RobotState::RoutingToCharge {
            station_id: StationId(best_station_index(stations, robots[i].position) as u32),
        }),
{
    lemma_best_station_exists(stations, robots[i].position);
}

// ---------------------------------------------------------------------------
// Order assignment
// ---------------------------------------------------------------------------

/// `b` is the first pending order whose pickup is nearest to `pos`.
pub open spec fn is_best_order(pending: Seq<Order>, pos: Position, b: int) -> bool {
    &&& 0 <= b < pending.len()
    &&& forall|j: int|
        0 <= j < pending.len() ==> manhattan(pending[b].pickup_location, pos) <= manhattan(
            (#[trigger] pending[j]).pickup_location,
            pos,
        )
    &&& forall|j: int|
        0 <= j < b ==> manhattan(pending[b].pickup_location, pos) < manhattan(
            (#[trigger] pending[j]).pickup_location,
            pos,
        )
}

/// The pending index a robot at `pos` is given, or -1 when nothing is pending.
pub open spec fn best_order(pending: Seq<Order>, pos: Position) -> int {
    if exists|b: int| is_best_order(pending, pos, b) {
        choose|b: int| is_best_order(pending, pos, b)
    } else {
        -1
    }
}

/// Moves the first pending order with `id` to the active queue, owned by `robot`.
pub open spec fn move_to_active(pending: Seq<Order>, active: Seq<Order>, id: OrderId, robot: RobotId) -> (Seq<
    Order,
>, Seq<Order>) {
    let k = first_index(pending, id);
    if k >= 0 {
        (
            pending.remove(k),
            active.push(
                Order { status: OrderStatus::InProgress, assigned_to: Some(robot), ..pending[k] },
            ),
        )
    } else {
        (pending, active)
    }
}

/// The pending and active queues after the assignment has handled the first
/// `k` robots: each idle one takes the nearest order still pending.
pub open spec fn assignment_state(
    robots: Seq<Robot>,
    pending: Seq<Order>,
    active: Seq<Order>,
    k: nat,
) -> (Seq<Order>, Seq<Order>)
    decreases k,
{
    if k == 0 {
        (pending, active)
    } else {
        let (p, a) = assignment_state(robots, pending, active, (k - 1) as nat);
        let r = robots[k - 1];
        let b = best_order(p, r.position);
        if r.state == RobotState::Idle && b >= 0 {
            move_to_active(p, a, p[b].id, r.id)
        } else {
            (p, a)
        }
    }
}

/// Number of idle robots among the first `k`.
pub open spec fn idle_before(robots: Seq<Robot>, k: nat) -> nat
    decreases k,
{
    if k == 0 {
        0
    } else {
        idle_before(robots, (k - 1) as nat) + if robots[k - 1].state == RobotState::Idle {
            1nat
        } else {
            0nat
        }
    }
}

/// How many orders an assignment round hands out: one per idle robot, as
/// long as orders remain.
pub open spec fn assigned_count(robots: Seq<Robot>, pending: Seq<Order>) -> nat {
    let idle = idle_before(robots, robots.len());
    if idle <= pending.len() {
        idle
    } else {
        pending.len()
    }
}

/// What the assignment does to robot `i`.
pub open spec fn assigned(robots: Seq<Robot>, pending: Seq<Order>, active: Seq<Order>, i: int, r1: Robot) -> bool {
    let r0 = robots[i];
    let (p, a) = assignment_state(robots, pending, active, i as nat);
    let b = best_order(p, r0.position);
    if r0.state == RobotState::Idle && b >= 0 {
        r1 == Robot {
            state: RobotState::RoutingToPickup { order_id: p[b].id },
            destination: Some(p[b].pickup_location),
            ..r0
        }
    } else {
        r1 == r0
    }
}

proof fn lemma_best_order_unique(pending: Seq<Order>, pos: Position, b: int)
    requires
        is_best_order(pending, pos, b),
    ensures
        best_order(pending, pos) == b,
{
    let c = choose|c: int| is_best_order(pending, pos, c);
    assert(is_best_order(pending, pos, c));
}

/// Some order is a first nearest order whenever an order is pending.
proof fn lemma_best_order_exists(pending: Seq<Order>, pos: Position)
    requires
        pending.len() > 0,
    ensures
        best_order(pending, pos) >= 0,
        is_best_order(pending, pos, best_order(pending, pos)),
    decreases pending.len(),
{
    let n = pending.len() - 1;
    if n == 0 {
        assert(is_best_order(pending, pos, 0));
        lemma_best_order_unique(pending, pos, 0);
    } else {
        let front = pending.drop_last();
        lemma_best_order_exists(front, pos);
        let b = best_order(front, pos);
        assert(forall|j: int| 0 <= j < n ==> pending[j] == front[j]);
        if manhattan(pending[n].pickup_location, pos) < manhattan(pending[b].pickup_location, pos) {
            assert(is_best_order(pending, pos, n as int)) by {
                assert forall|j: int| 0 <= j < n implies manhattan(pending[n as int].pickup_location, pos)
                    < manhattan((#[trigger] pending[j]).pickup_location, pos) by {
                    assert(manhattan(front[b].pickup_location, pos) <= manhattan(front[j].pickup_location, pos));
                }
            }
            lemma_best_order_unique(pending, pos, n as int);
        } else {
            assert(is_best_order(pending, pos, b)) by {
                assert forall|j: int| 0 <= j < pending.len() implies manhattan(pending[b].pickup_location, pos)
                    <= manhattan((#[trigger] pending[j]).pickup_location, pos) by {
                    if j < n {
                        assert(manhattan(front[b].pickup_location, pos) <= manhattan(front[j].pickup_location, pos));
                    }
                }
                assert forall|j: int| 0 <= j < b implies manhattan(pending[b].pickup_location, pos)
                    < manhattan((#[trigger] pending[j]).pickup_location, pos) by {
                    assert(manhattan(front[b].pickup_location, pos) < manhattan(front[j].pickup_location, pos));
                }
            }
            lemma_best_order_unique(pending, pos, b);
        }
    }
}

/// A robot at `pos` is given an order exactly when one is pending, and the
/// order it is given has the pickup nearest to `pos` in Manhattan distance
/// (`|dx| + |dy|`), the first such order on ties.
pub proof fn lemma_best_order_nearest(pending: Seq<Order>, pos: Position)
    ensures
        pending.len() > 0 <==> best_order(pending, pos) >= 0,
        ({
            let b = best_order(pending, pos);
            b >= 0 ==> {
                &&& b < pending.len()
                &&& forall|j: int|
                    0 <= j < pending.len() ==> manhattan(pending[b].pickup_location, pos) <= manhattan(
                        (#[trigger] pending[j]).pickup_location,
                        pos,
                    )
                &&& forall|j: int|
                    0 <= j < b ==> manhattan(pending[b].pickup_location, pos) < manhattan(
                        (#[trigger] pending[j]).pickup_location,
                        pos,
                    )
            }
        }),
{
    if pending.len() > 0 {
        lemma_best_order_exists(pending, pos);
    } else {
        if exists|b: int| is_best_order(pending, pos, b) {
            let c = choose|b: int| is_best_order(pending, pos, b);
            assert(is_best_order(pending, pos, c));
        }
    }
}

/// The first pending order whose pickup is nearest to `pos`.
fn nearest_order(pending: &Vec<Order>, pos: Position, Ghost(grid): Ghost<Grid>) -> (r: Option<usize>)
    requires
        grid.in_bounds(pos),
        grid.width + grid.height <= usize::MAX,
        forall|j: int| 0 <= j < pending@.len() ==> grid.in_bounds(#[trigger] pending@[j].pickup_location),
    ensures
        match r {
            Some(b) => b as int == best_order(pending@, pos) && is_best_order(pending@, pos, b as int),
            None => pending@.len() == 0 && best_order(pending@, pos) == -1,
        },
{
    if pending.len() == 0 {
        return None;
    }
    let mut best: usize = 0;
    let mut best_dist: usize = 0;
    let mut i: usize = 0;
    while i < pending.len()
        invariant
            grid.in_bounds(pos),
            grid.width + grid.height <= usize::MAX,
            forall|j: int| 0 <= j < pending@.len() ==> grid.in_bounds(#[trigger] pending@[j].pickup_location),
            0 < pending@.len(),
            i <= pending@.len(),
            best < pending@.len(),
            i > 0 ==> best < i,
            i == 0 ==> best == 0,
            i > 0 ==> best_dist == manhattan(pending@[best as int].pickup_location, pos),
            forall|j: int|
                0 <= j < i ==> manhattan(pending@[best as int].pickup_location, pos) <= manhattan(
                    (#[trigger] pending@[j]).pickup_location,
                    pos,
                ),
            forall|j: int|
                0 <= j < best ==> manhattan(pending@[best as int].pickup_location, pos) < manhattan(
                    (#[trigger] pending@[j]).pickup_location,
                    pos,
                ),
        decreases pending@.len() - i,
    {
        proof {
            assert(grid.in_bounds(pending@[i as int].pickup_location));
        }
        let d = pending[i].pickup_location.manhattan_distance(&pos);
        if i == 0 || d < best_dist {
            best = i;
            best_dist = d;
        }
        i = i + 1;
    }
    proof {
        lemma_best_order_unique(pending@, pos, best as int);
    }
    Some(best)
}

/// Each idle robot leaves the assignment heading to the pickup nearest to it,
/// in Manhattan distance, among the orders still pending when its turn comes,
/// or unchanged when none is.
proof fn lemma_assigned_nearest(robots: Seq<Robot>, pending: Seq<Order>, active: Seq<Order>, robots1: Seq<Robot>)
    requires
        robots1.len() == robots.len(),
        forall|i: int| 0 <= i < robots.len() ==> assigned(robots, pending, active, i, #[trigger] robots1[i]),
    ensures
        forall|i: int|
            0 <= i < robots.len() && robots[i].state == RobotState::Idle ==> {
                let p = assignment_state(robots, pending, active, i as nat).0;
                let pos = robots[i].position;
                let r1 = #[trigger] robots1[i];
                if p.len() > 0 {
                    exists|b: int|
                        #![trigger p[b]]
                        0 <= b < p.len() && r1.state == (RobotState::RoutingToPickup {
                            order_id: p[b].id,
                        }) && r1.destination == Some(p[b].pickup_location) && (forall|j: int|
                            0 <= j < p.len() ==> manhattan(p[b].pickup_location, pos) <= manhattan(
                                (#[trigger] p[j]).pickup_location,
                                pos,
                            ))
                } else {
                    r1 == robots[i]
                }
            },
{
    assert forall|i: int| 0 <= i < robots.len() && robots[i].state == RobotState::Idle implies {
        let p = assignment_state(robots, pending, active, i as nat).0;
        let pos = robots[i].position;
        let r1 = #[trigger] robots1[i];
        if p.len() > 0 {
            exists|b: int|
                #![trigger p[b]]
                0 <= b < p.len() && r1.state == (RobotState::RoutingToPickup { order_id: p[b].id })
                    && r1.destination == Some(p[b].pickup_location) && (forall|j: int|
                    0 <= j < p.len() ==> manhattan(p[b].pickup_location, pos) <= manhattan(
                        (#[trigger] p[j]).pickup_location,
                        pos,
                    ))
        } else {
            r1 == robots[i]
        }
    } by {
        let p = assignment_state(robots, pending, active, i as nat).0;
        let pos = robots[i].position;
        assert(assigned(robots, pending, active, i, robots1[i]));
        lemma_best_order_nearest(p, pos);
        if p.len() > 0 {
            let b = best_order(p, pos);
            assert(0 <= b < p.len());
            assert(p[b] == p[b]);
        }
    }
}

/// Pairs each idle robot, in id order, with the nearest order still pending
/// (greedy nearest-neighbour heuristic, first such order on ties). An order
/// handed to one robot leaves the pending queue, so no order is assigned
/// twice, and orders are handed out while any remain: one per idle robot, up
/// to the number of pending orders.
pub fn run_order_assignment(world: &mut World)
    requires
        old(world).wf(),
        old(world).grid.width + old(world).grid.height <= usize::MAX,
    ensures
        final(world).wf(),
        (final(world).pending_orders@, final(world).active_orders@) == assignment_state(
            old(world).robots@,
            old(world).pending_orders@,
            old(world).active_orders@,
            old(world).robots@.len(),
        ),
        final(world).active_orders@.len() == old(world).active_orders@.len() + assigned_count(
            old(world).robots@,
            old(world).pending_orders@,
        ),
        final(world).pending_orders@.len() == old(world).pending_orders@.len() - assigned_count(
            old(world).robots@,
            old(world).pending_orders@,
        ),
        final(world).robots@.len() == old(world).robots@.len(),
        forall|i: int|
            0 <= i < old(world).robots@.len() ==> assigned(
                old(world).robots@,
                old(world).pending_orders@,
                old(world).active_orders@,
                i,
                #[trigger] final(world).robots@[i],
            ),
        forall|i: int|
            0 <= i < old(world).robots@.len() && old(world).robots@[i].state == RobotState::Idle
                ==> {
                let p = assignment_state(
                    old(world).robots@,
                    old(world).pending_orders@,
                    old(world).active_orders@,
                    i as nat,
                ).0;
                let pos = old(world).robots@[i].position;
                let r1 = #[trigger] final(world).robots@[i];
                if p.len() > 0 {
                    exists|b: int|
                        #![trigger p[b]]
                        0 <= b < p.len() && r1.state == (RobotState::RoutingToPickup {
                            order_id: p[b].id,
                        }) && r1.destination == Some(p[b].pickup_location) && (forall|j: int|
                            0 <= j < p.len() ==> manhattan(p[b].pickup_location, pos) <= manhattan(
                                (#[trigger] p[j]).pickup_location,
                                pos,
                            ))
                } else {
                    r1 == old(world).robots@[i]
                }
            },
        old(world).fleet_consistent() ==> final(world).fleet_consistent(),
        old(world).orders_consistent() ==> final(world).orders_consistent(),
        final(world).order_id_multiset() == old(world).order_id_multiset(),
        final(world).grid == old(world).grid,
        final(world).stations == old(world).stations,
        final(world).completed_orders == old(world).completed_orders,
        final(world).dispatch_position == old(world).dispatch_position,
        final(world).next_order_id == old(world).next_order_id,
        final(world).tick == old(world).tick,
{
    let ghost robots0 = world.robots@;
    let ghost pending0 = world.pending_orders@;
    let ghost active0 = world.active_orders@;
    let n = world.robots.len();
    let mut i: usize = 0;
    while i < n
        invariant
            world.wf(),
            world.grid.width + world.grid.height <= usize::MAX,
            n == robots0.len(),
            world.robots@.len() == n,
            i <= n,
            robots0 == old(world).robots@,
            pending0 == old(world).pending_orders@,
            active0 == old(world).active_orders@,
            (world.pending_orders@, world.active_orders@) == assignment_state(
                robots0,
                pending0,
                active0,
                i as nat,
            ),
            ({
                let idle = idle_before(robots0, i as nat);
                let m = if idle <= pending0.len() {
                    idle
                } else {
                    pending0.len()
                };
                &&& world.active_orders@.len() == active0.len() + m
                &&& world.pending_orders@.len() == pending0.len() - m
            }),
            forall|j: int|
                0 <= j < i ==> assigned(robots0, pending0, active0, j, #[trigger] world.robots@[j]),
            forall|j: int| i <= j < n ==> #[trigger] world.robots@[j] == robots0[j],
            world.grid == old(world).grid,
            world.stations == old(world).stations,
            world.completed_orders == old(world).completed_orders,
            world.dispatch_position == old(world).dispatch_position,
            world.next_order_id == old(world).next_order_id,
            world.tick == old(world).tick,
            world.order_id_multiset() == old(world).order_id_multiset(),
            old(world).orders_consistent() ==> world.orders_consistent(),
        decreases n - i,
    {
        let ghost wb = *world;
        if world.robots[i].is_idle() {
            let robot_pos = world.robots[i].position;
            let robot_id = world.robots[i].id;
            let carrying = world.robots[i].is_carrying_payload;
            proof {
                assert(world.robot_ok(i as int));
            }
            let best = nearest_order(&world.pending_orders, robot_pos, Ghost(world.grid));
            if let Some(order_idx) = best {
                let order_id = world.pending_orders[order_idx].id;
                let pickup_location = world.pending_orders[order_idx].pickup_location;
                proof {
                    if old(world).orders_consistent() {
                        assert(robot_task_ok(wb.robots@[i as int], wb.active_orders@));
                    }
                }
                let ghost before = world.robots@;
                // Send the robot to the pickup location.
                world.set_task(i, RobotState::RoutingToPickup { order_id }, Some(pickup_location), carrying);
                // Move the order from pending to active.
                let ghost pend_before = world.pending_orders@;
                let ghost w1 = *world;
                world.assign_order(order_id, robot_id);
                proof {
                    assert(world.robots@[i as int] == Robot {
                        state: RobotState::RoutingToPickup { order_id },
                        destination: Some(pickup_location),
                        ..robots0[i as int]
                    });
                    assert forall|j: int| 0 <= j < i implies assigned(robots0, pending0, active0, j, #[trigger] world.robots@[j]) by {
                        assert(world.robots@[j] == before[j]);
                    }
                    crate::world::lemma_first_index(pend_before, order_id);
                    let k = first_index(pend_before, order_id);
                    assert(k >= 0);
                    assert forall|j: int| 0 <= j < world.pending_orders@.len() implies world.grid.in_bounds(
                        (#[trigger] world.pending_orders@[j]).pickup_location,
                    ) by {
                        if j < k {
                            assert(world.pending_orders@[j] == pend_before[j]);
                        } else {
                            assert(world.pending_orders@[j] == pend_before[j + 1]);
                        }
                    }
                    assert forall|j: int| 0 <= j < world.active_orders@.len() implies world.grid.in_bounds(
                        (#[trigger] world.active_orders@[j]).pickup_location,
                    ) by {
                    }
                    assert forall|j: int| 0 <= j < world.robots@.len() implies #[trigger] world.robot_ok(j) by {
                        assert(w1.robot_ok(j));
                    }
                    assert forall|j: int| 0 <= j < world.stations@.len() implies #[trigger] world.station_ok(j) by {
                        assert(w1.station_ok(j));
                    }
                    if old(world).orders_consistent() {
                        lemma_orders_take(wb, *world, i as int, order_idx as int, world.robots@[i as int]);
                    }
                }
            }
        }
        i = i + 1;
    }
    proof {
        lemma_assigned_nearest(robots0, pending0, active0, world.robots@);
    }
    proof {
        if old(world).fleet_consistent() {
            assert forall|j: int| 0 <= j < robots0.len() implies (#[trigger] robots_view(world.robots@)[j]).state
                == robots_view(robots0)[j].state || (!at_station(robots_view(robots0)[j].state)
                && !at_station(robots_view(world.robots@)[j].state) && station_ref_ok(
                robots_view(world.robots@)[j].state,
                world.stations@.len() as int,
            )) by {
                assert(assigned(robots0, pending0, active0, j, world.robots@[j]));
            }
            lemma_fleet_frame(
                robots_view(robots0),
                stations_view(world.stations@),
                robots_view(world.robots@),
                stations_view(world.stations@),
            );
        }
    }
}

/// Runs the two scheduling decisions of a tick: first the battery triage,
/// then the order assignment.
///
/// Triage runs before assignment so that a newly-idle robot (just finished
/// an order) is caught by triage if its battery is low, rather than being
/// immediately assigned another task it can't complete.
pub fn run(world: &mut World, needs_recharge: &Vec<bool>)
    requires
        old(world).wf(),
        needs_recharge@.len() == old(world).robots@.len(),
        loads_fit(old(world).stations@, old(world).grid),
        old(world).grid.width + old(world).grid.height <= usize::MAX,
    ensures
        final(world).wf(),
        final(world).robots@.len() == old(world).robots@.len(),
        old(world).fleet_consistent() ==> final(world).fleet_consistent(),
        old(world).orders_consistent() && old(world).stations@.len() > 0
            ==> final(world).orders_consistent(),
        final(world).order_id_multiset() == old(world).order_id_multiset(),
        final(world).grid == old(world).grid,
        final(world).stations == old(world).stations,
        final(world).completed_orders == old(world).completed_orders,
        final(world).dispatch_position == old(world).dispatch_position,
        final(world).next_order_id == old(world).next_order_id,
        final(world).tick == old(world).tick,
        ({
            let mid = triaged_robots(old(world).robots@, needs_recharge@, old(world).stations@);
            let (p1, a1) = triage_orders(
                old(world).robots@,
                needs_recharge@,
                old(world).pending_orders@,
                old(world).active_orders@,
                old(world).robots@.len(),
            );
            let (p2, a2) = assignment_state(mid, p1, a1, mid.len());
            &&& forall|i: int|
                0 <= i < mid.len() ==> assigned(mid, p1, a1, i, #[trigger] final(world).robots@[i])
            &&& final(world).pending_orders@ == p2
            &&& final(world).active_orders@ == a2
        }),
{
    run_battery_triage(world, needs_recharge);
    run_order_assignment(world);
}

} // verus!
