use vstd::prelude::*;

use crate::components::robot::{robots_view, RobotState, RobotView};
use crate::components::station::{stations_view, StationView};
use crate::orders_law::{lemma_orders_retask, lemma_orders_unchanged};
use crate::world::{robot_task_ok, World};

verus! {

/// What one station does in a charging tick.
///
/// 1. If the robot in its slot is now full (`full[r]` for robot `r`), that
///    robot becomes idle and the slot is freed.
/// 2. If the slot is free, the first robot of the queue moves into it and
///    starts charging.
pub open spec fn charge_step(
    robots: Seq<RobotView>,
    stations: Seq<StationView>,
    s: int,
    full: Seq<bool>,
) -> (Seq<RobotView>, Seq<StationView>) {
    let st = stations[s];
    let done = st.charging_robot is Some && full[st.charging_robot->0.index()];
    let robots1 = if done {
        let r = st.charging_robot->0.index();
        robots.update(r, RobotView { state: RobotState::Idle, destination: None, ..robots[r] })
    } else {
        robots
    };
    let st1 = if done {
        StationView { charging_robot: None, ..st }
    } else {
        st
    };
    if st1.charging_robot is None && st1.queue.len() > 0 {
        let next = st1.queue[0];
        let n = next.0 as int;
        (
            robots1.update(
                n,
                RobotView {
                    state: RobotState::Charging { station_id: st.id },
                    destination: None,
                    planned_path: Seq::empty(),
                    ..robots1[n]
                },
            ),
            stations.update(
                s,
                StationView { charging_robot: Some(next), queue: st1.queue.drop_first(), ..st1 },
            ),
        )
    } else {
        (robots1, stations.update(s, st1))
    }
}

/// Robots and stations after the first `k` stations have run their charging step.
pub open spec fn after_charging(
    robots: Seq<RobotView>,
    stations: Seq<StationView>,
    full: Seq<bool>,
    k: nat,
) -> (Seq<RobotView>, Seq<StationView>)
    decreases k,
{
    if k == 0 {
        (robots, stations)
    } else {
        let (r, s) = after_charging(robots, stations, full, (k - 1) as nat);
        charge_step(r, s, k - 1, full)
    }
}

/// Runs the charging step of every station, in station order.
///
/// `robot_is_full[i]` says whether robot `i`'s battery has reached full
/// capacity after this tick's charge. A robot that is full leaves the station
/// and returns to Idle; a free slot pulls the next robot from the queue.
pub fn run(world: &mut World, robot_is_full: &Vec<bool>)
    requires
        old(world).wf(),
        robot_is_full@.len() == old(world).robots@.len(),
    ensures
        final(world).wf(),
        (robots_view(final(world).robots@), stations_view(final(world).stations@)) == after_charging(
            robots_view(old(world).robots@),
            stations_view(old(world).stations@),
            robot_is_full@,
            old(world).stations@.len(),
        ),
        old(world).fleet_consistent() ==> final(world).fleet_consistent(),
        old(world).fleet_consistent() && old(world).orders_consistent()
            ==> final(world).orders_consistent(),
        final(world).order_id_multiset() == old(world).order_id_multiset(),
        final(world).robots@.len() == old(world).robots@.len(),
        final(world).stations@.len() == old(world).stations@.len(),
        final(world).grid == old(world).grid,
        final(world).pending_orders == old(world).pending_orders,
        final(world).active_orders == old(world).active_orders,
        final(world).completed_orders == old(world).completed_orders,
        final(world).dispatch_position == old(world).dispatch_position,
        final(world).next_order_id == old(world).next_order_id,
        final(world).tick == old(world).tick,
{
    let ns = world.stations.len();
    let mut s: usize = 0;
    while s < ns
        invariant
            world.wf(),
            ns == world.stations@.len(),
            ns == old(world).stations@.len(),
            s <= ns,
            robot_is_full@.len() == world.robots@.len(),
            world.robots@.len() == old(world).robots@.len(),
            (robots_view(world.robots@), stations_view(world.stations@)) == after_charging(
                robots_view(old(world).robots@),
                stations_view(old(world).stations@),
                robot_is_full@,
                s as nat,
            ),
            world.grid == old(world).grid,
            world.pending_orders == old(world).pending_orders,
            world.active_orders == old(world).active_orders,
            world.completed_orders == old(world).completed_orders,
            world.dispatch_position == old(world).dispatch_position,
            world.next_order_id == old(world).next_order_id,
            world.tick == old(world).tick,
            old(world).fleet_consistent() ==> world.fleet_consistent(),
            old(world).fleet_consistent() && old(world).orders_consistent()
                ==> world.orders_consistent(),
        decreases ns - s,
    {
        let ghost keep = old(world).fleet_consistent() && old(world).orders_consistent();
        let ghost w0 = *world;
        let ghost rv0 = robots_view(world.robots@);
        let ghost sv0 = stations_view(world.stations@);
        proof {
            if old(world).fleet_consistent() {
                crate::consistency::lemma_charge_keeps_fleet(rv0, sv0, s as int, robot_is_full@);
            }
            assert(world.station_ok(s as int));
            assert(sv0[s as int] == world.stations@[s as int]@);
        }
        // Step 1: finish charging the robot in the slot if it is full.
        let maybe_charging_robot = world.stations[s].charging_robot;
        if let Some(robot_id) = maybe_charging_robot {
            let r = robot_id.0 as usize;
            if robot_is_full[r] {
                let carrying = world.robots[r].is_carrying_payload;
                proof {
                    if keep {
                        assert(rv0[r as int].state == world.robots@[r as int].state);
                        assert(robot_task_ok(world.robots@[r as int], world.active_orders@));
                    }
                }
                world.set_task(r, RobotState::Idle, None, carrying);
                world.finish_charging_at(s);
                proof {
                    if keep {
                        lemma_orders_retask(w0, *world, r as int);
                    }
                }
            }
        }
        let ghost w1 = *world;
        let ghost rv1 = robots_view(world.robots@);
        let ghost sv1 = stations_view(world.stations@);
        proof {
            let st = sv0[s as int];
            let done = st.charging_robot is Some && robot_is_full@[st.charging_robot->0.index()];
            if done {
                let r = st.charging_robot->0.index();
                assert(rv1 =~= rv0.update(r, RobotView { state: RobotState::Idle, destination: None, ..rv0[r] }));
                assert(sv1 =~= sv0.update(s as int, StationView { charging_robot: None, ..st }));
            } else {
                assert(rv1 =~= rv0);
                assert(sv1 =~= sv0.update(s as int, st));
            }
        }
        // Step 2: advance the queue if the slot is now free.
        let station_id = world.stations[s].id;
        let started = world.try_advance_at(s);
        if let Some(next_robot_id) = started {
            let n = next_robot_id.0 as usize;
            let carrying = world.robots[n].is_carrying_payload;
            proof {
                if keep {
                    // The robot at the front of the queue waits there.
                    assert(sv1[s as int].queue == sv0[s as int].queue);
                    assert(sv0[s as int].queue[0] == next_robot_id);
                    assert(rv0[n as int].state == (RobotState::WaitingToCharge {
                        station_id: sv0[s as int].id,
                    }));
                    assert(rv1[n as int].state == w1.robots@[n as int].state);
                    assert(w1.robots@[n as int].state is WaitingToCharge);
                    assert(robot_task_ok(w1.robots@[n as int], w1.active_orders@));
                }
            }
            world.set_task(n, RobotState::Charging { station_id }, None, carrying);
            world.set_route(n, Vec::new());
            proof {
                if keep {
                    lemma_orders_retask(w1, *world, n as int);
                }
            }
        } else {
            proof {
                if keep {
                    lemma_orders_unchanged(w1, *world);
                }
            }
        }
        proof {
            let st1 = sv1[s as int];
            if st1.charging_robot is None && st1.queue.len() > 0 {
                let next = st1.queue[0];
                assert(robots_view(world.robots@) =~= rv1.update(
                    next.0 as int,
                    RobotView {
                        state: RobotState::Charging { station_id: sv0[s as int].id },
                        destination: None,
                        planned_path: Seq::empty(),
                        ..rv1[next.0 as int]
                    },
                ));
                assert(stations_view(world.stations@) =~= sv0.update(
                    s as int,
                    StationView { charging_robot: Some(next), queue: st1.queue.drop_first(), ..st1 },
                ));
            } else {
                assert(robots_view(world.robots@) =~= rv1);
                assert(stations_view(world.stations@) =~= sv0.update(s as int, st1));
            }
        }
        s = s + 1;
    }
}

} // verus!
