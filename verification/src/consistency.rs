use vstd::prelude::*;

use crate::components::robot::{RobotId, RobotState, RobotView};
use crate::components::station::{StationId, StationView};
use crate::simulation::{arrival_step, ArrivalState};
use crate::systems::movement::ArrivalEvent;
use crate::systems::charging::charge_step;
use crate::world::grid::Position;
use crate::world::station_ref_ok;

verus! {

/// A robot state that ties the robot to a station's queue or slot.
pub open spec fn at_station(s: RobotState) -> bool {
    s is WaitingToCharge || s is Charging
}

/// Ids match slots and every reference names an existing robot or station.
pub open spec fn refs_ok(robots: Seq<RobotView>, stations: Seq<StationView>) -> bool {
    &&& forall|r: int| 0 <= r < robots.len() ==> (#[trigger] robots[r]).id.index() == r
    &&& forall|r: int|
        0 <= r < robots.len() ==> station_ref_ok((#[trigger] robots[r]).state, stations.len() as int)
    &&& forall|s: int| 0 <= s < stations.len() ==> (#[trigger] stations[s]).id.0 == s
    &&& forall|s: int|
        0 <= s < stations.len() && (#[trigger] stations[s]).charging_robot is Some
            ==> stations[s].charging_robot->0.index() < robots.len()
    &&& forall|s: int, k: int|
        0 <= s < stations.len() && 0 <= k < stations[s].queue.len() ==> 0 <= (
        #[trigger] stations[s].queue[k]).index() < robots.len()
}

/// Station bookkeeping agrees with robot states: a robot is in a station's
/// queue (once) exactly when it waits there, and holds a station's charging
/// slot exactly when it charges there.
pub open spec fn fleet_ok(robots: Seq<RobotView>, stations: Seq<StationView>) -> bool {
    &&& refs_ok(robots, stations)
    &&& forall|s: int, k: int|
        0 <= s < stations.len() && 0 <= k < stations[s].queue.len() ==> robots[(
        #[trigger] stations[s].queue[k]).index()].state == (RobotState::WaitingToCharge {
            station_id: stations[s].id,
        })
    &&& forall|s: int, k1: int, k2: int|
        0 <= s < stations.len() && 0 <= k1 < stations[s].queue.len() && 0 <= k2
            < stations[s].queue.len() && k1 != k2 ==> #[trigger] stations[s].queue[k1]
            != #[trigger] stations[s].queue[k2]
    &&& forall|r: int|
        0 <= r < robots.len() && (#[trigger] robots[r]).state is WaitingToCharge
            ==> stations[robots[r].state->WaitingToCharge_station_id.0 as int].queue.contains(
            robots[r].id,
        )
    &&& forall|s: int|
        0 <= s < stations.len() && (#[trigger] stations[s]).charging_robot is Some
            ==> robots[stations[s].charging_robot->0.index()].state == (RobotState::Charging {
            station_id: stations[s].id,
        })
    &&& forall|r: int|
        0 <= r < robots.len() && (#[trigger] robots[r]).state is Charging
            ==> stations[robots[r].state->Charging_station_id.0 as int].charging_robot == Some(
            robots[r].id,
        )
}

/// Changing robots that neither wait at nor use a station, into states that
/// neither wait at nor use one, keeps the station bookkeeping consistent.
pub proof fn lemma_fleet_frame(
    r1: Seq<RobotView>,
    s1: Seq<StationView>,
    r2: Seq<RobotView>,
    s2: Seq<StationView>,
)
    requires
        fleet_ok(r1, s1),
        s2 == s1,
        r2.len() == r1.len(),
        forall|i: int| 0 <= i < r1.len() ==> (#[trigger] r2[i]).id == r1[i].id,
        forall|i: int|
            0 <= i < r1.len() ==> (#[trigger] r2[i]).state == r1[i].state || (!at_station(r1[i].state)
                && !at_station(r2[i].state) && station_ref_ok(r2[i].state, s1.len() as int)),
    ensures
        fleet_ok(r2, s2),
{
    assert forall|r: int| 0 <= r < r2.len() implies station_ref_ok(
        (#[trigger] r2[r]).state,
        s2.len() as int,
    ) by {
        assert(station_ref_ok(r1[r].state, s1.len() as int));
    }
    assert forall|s: int, k: int|
        0 <= s < s2.len() && 0 <= k < s2[s].queue.len() implies r2[(
        #[trigger] s2[s].queue[k]).index()].state == (RobotState::WaitingToCharge {
            station_id: s2[s].id,
        }) by {
        let i = s1[s].queue[k].index();
        assert(r1[i].state == (RobotState::WaitingToCharge { station_id: s1[s].id }));
        assert(r2[i].state == r1[i].state || !at_station(r1[i].state));
    }
    assert forall|r: int|
        0 <= r < r2.len() && (#[trigger] r2[r]).state is WaitingToCharge implies s2[r2[r].state->WaitingToCharge_station_id.0 as int].queue.contains(
        r2[r].id,
    ) by {
        assert(r2[r].state == r1[r].state);
        assert(r1[r].state is WaitingToCharge);
    }
    assert forall|s: int|
        0 <= s < s2.len() && (#[trigger] s2[s]).charging_robot is Some implies r2[s2[s].charging_robot->0.index()].state
        == (RobotState::Charging { station_id: s2[s].id }) by {
        let i = s1[s].charging_robot->0.index();
        assert(r1[i].state == (RobotState::Charging { station_id: s1[s].id }));
        assert(r2[i].state == r1[i].state || !at_station(r1[i].state));
    }
    assert forall|r: int|
        0 <= r < r2.len() && (#[trigger] r2[r]).state is Charging implies s2[r2[r].state->Charging_station_id.0 as int].charging_robot
        == Some(r2[r].id) by {
        assert(r2[r].state == r1[r].state);
        assert(r1[r].state is Charging);
    }
}

/// Handling one arrival keeps the station bookkeeping consistent: a robot
/// joins a station's queue exactly when it physically arrives there and
/// starts waiting.
pub proof fn lemma_arrival_keeps_fleet(st: ArrivalState, e: ArrivalEvent, dispatch: Position, tick: u64)
    requires
        fleet_ok(st.robots, st.stations),
        0 <= e.robot_id.index() < st.robots.len(),
    ensures
        fleet_ok(arrival_step(st, e, dispatch, tick).robots, arrival_step(st, e, dispatch, tick).stations),
{
    let i = e.robot_id.index();
    let r = st.robots[i];
    let out = arrival_step(st, e, dispatch, tick);
    assert(station_ref_ok(r.state, st.stations.len() as int));
    assert(st.robots[i].id.index() == i);
    match r.state {
        RobotState::RoutingToCharge { station_id } => {
            let s = station_id.0 as int;
            let r1 = st.robots;
            let s1 = st.stations;
            let r2 = out.robots;
            let s2 = out.stations;
            assert(e.robot_id == r1[i].id);
            assert(s1[s].id == station_id);
            // The arriving robot was in no queue.
            assert forall|t: int, k: int| 0 <= t < s1.len() && 0 <= k < s1[t].queue.len() implies (
            #[trigger] s1[t].queue[k]).index() != i by {
                let j = s1[t].queue[k].index();
                assert(r1[j].state is WaitingToCharge);
            }
            assert forall|t: int, k: int|
                0 <= t < s2.len() && 0 <= k < s2[t].queue.len() implies 0 <= (
                #[trigger] s2[t].queue[k]).index() < r2.len() by {
                if t == s && k == s1[s].queue.len() {
                } else {
                    assert(s2[t].queue[k] == s1[t].queue[k]);
                }
            }
            assert forall|t: int, k: int|
                0 <= t < s2.len() && 0 <= k < s2[t].queue.len() implies r2[(
                #[trigger] s2[t].queue[k]).index()].state == (RobotState::WaitingToCharge {
                    station_id: s2[t].id,
                }) by {
                if t == s && k == s1[s].queue.len() {
                } else {
                    assert(s2[t].queue[k] == s1[t].queue[k]);
                }
            }
            assert forall|t: int, k1: int, k2: int|
                0 <= t < s2.len() && 0 <= k1 < s2[t].queue.len() && 0 <= k2 < s2[t].queue.len() && k1
                    != k2 implies #[trigger] s2[t].queue[k1] != #[trigger] s2[t].queue[k2] by {
                if t == s {
                    if k1 == s1[s].queue.len() {
                        assert(s2[t].queue[k2] == s1[t].queue[k2]);
                    } else if k2 == s1[s].queue.len() {
                        assert(s2[t].queue[k1] == s1[t].queue[k1]);
                    } else {
                        assert(s2[t].queue[k1] == s1[t].queue[k1]);
                        assert(s2[t].queue[k2] == s1[t].queue[k2]);
                    }
                }
            }
            assert forall|q: int|
                0 <= q < r2.len() && (#[trigger] r2[q]).state is WaitingToCharge implies s2[r2[q].state->WaitingToCharge_station_id.0 as int].queue.contains(
                r2[q].id,
            ) by {
                if q == i {
                    assert(s2[s].queue[s1[s].queue.len() as int] == r2[q].id);
                } else {
                    let t = r1[q].state->WaitingToCharge_station_id.0 as int;
                    assert(s1[t].queue.contains(r1[q].id));
                    let k = choose|k: int| 0 <= k < s1[t].queue.len() && s1[t].queue[k] == r1[q].id;
                    assert(s2[t].queue[k] == s1[t].queue[k]);
                }
            }
            assert forall|t: int|
                0 <= t < s2.len() && (#[trigger] s2[t]).charging_robot is Some implies r2[s2[t].charging_robot->0.index()].state
                == (RobotState::Charging { station_id: s2[t].id }) by {
                assert(s2[t].charging_robot == s1[t].charging_robot);
                assert(s1[t].charging_robot is Some);
            }
            assert forall|q: int|
                0 <= q < r2.len() && (#[trigger] r2[q]).state is Charging implies s2[r2[q].state->Charging_station_id.0 as int].charging_robot
                == Some(r2[q].id) by {
                assert(r1[q].state is Charging);
            }
            assert forall|t: int| 0 <= t < s2.len() implies (#[trigger] s2[t]).id.0 == t by {
                assert(s1[t].id.0 == t);
            }
            assert forall|t: int|
                0 <= t < s2.len() && (#[trigger] s2[t]).charging_robot is Some implies s2[t].charging_robot->0.index()
                < r2.len() by {
                assert(s1[t].charging_robot is Some);
            }
            assert forall|q: int| 0 <= q < r2.len() implies station_ref_ok(
                (#[trigger] r2[q]).state,
                s2.len() as int,
            ) by {
                assert(station_ref_ok(r1[q].state, s1.len() as int));
            }
            assert forall|q: int| 0 <= q < r2.len() implies (#[trigger] r2[q]).id.index() == q by {
                assert(r1[q].id.index() == q);
            }
        },
        RobotState::RoutingToPickup { .. } | RobotState::RoutingToDropoff { .. } => {
            lemma_fleet_frame(st.robots, st.stations, out.robots, out.stations);
        },
        _ => {},
    }
}

/// Freeing a station's slot and sending its robot to Idle keeps the
/// bookkeeping consistent.
proof fn lemma_finish_keeps_fleet(robots: Seq<RobotView>, stations: Seq<StationView>, s: int)
    requires
        fleet_ok(robots, stations),
        0 <= s < stations.len(),
        stations[s].charging_robot is Some,
    ensures
        ({
            let r = stations[s].charging_robot->0.index();
            fleet_ok(
                robots.update(r, RobotView { state: RobotState::Idle, destination: None, ..robots[r] }),
                stations.update(s, StationView { charging_robot: None, ..stations[s] }),
            )
        }),
{
    let r = stations[s].charging_robot->0.index();
    let r2 = robots.update(r, RobotView { state: RobotState::Idle, destination: None, ..robots[r] });
    let s2 = stations.update(s, StationView { charging_robot: None, ..stations[s] });
    assert(robots[r].state == (RobotState::Charging { station_id: stations[s].id }));
    assert forall|t: int, k: int| 0 <= t < stations.len() && 0 <= k < stations[t].queue.len() implies (
    #[trigger] stations[t].queue[k]).index() != r by {
        let j = stations[t].queue[k].index();
        assert(robots[j].state is WaitingToCharge);
    }
    assert forall|t: int| 0 <= t < stations.len() && t != s && (#[trigger] stations[t]).charging_robot
        is Some implies stations[t].charging_robot->0.index() != r by {
        let j = stations[t].charging_robot->0.index();
        assert(robots[j].state == (RobotState::Charging { station_id: stations[t].id }));
        assert(stations[t].id.0 == t);
        assert(stations[s].id.0 == s);
    }
    assert forall|q: int| 0 <= q < r2.len() implies (#[trigger] r2[q]).id.index() == q by {
        assert(robots[q].id.index() == q);
    }
    assert forall|q: int| 0 <= q < r2.len() implies station_ref_ok(
        (#[trigger] r2[q]).state,
        s2.len() as int,
    ) by {
        assert(station_ref_ok(robots[q].state, stations.len() as int));
    }
    assert forall|t: int| 0 <= t < s2.len() implies (#[trigger] s2[t]).id.0 == t by {
        assert(stations[t].id.0 == t);
    }
    assert forall|t: int|
        0 <= t < s2.len() && (#[trigger] s2[t]).charging_robot is Some implies s2[t].charging_robot->0.index()
        < r2.len() by {
        assert(stations[t].charging_robot is Some);
    }
    assert forall|t: int, k: int|
        0 <= t < s2.len() && 0 <= k < s2[t].queue.len() implies 0 <= (
        #[trigger] s2[t].queue[k]).index() < r2.len() by {
        assert(s2[t].queue[k] == stations[t].queue[k]);
    }
    assert forall|t: int, k: int|
        0 <= t < s2.len() && 0 <= k < s2[t].queue.len() implies r2[(
        #[trigger] s2[t].queue[k]).index()].state == (RobotState::WaitingToCharge {
            station_id: s2[t].id,
        }) by {
        assert(s2[t].queue[k] == stations[t].queue[k]);
    }
    assert forall|t: int, k1: int, k2: int|
        0 <= t < s2.len() && 0 <= k1 < s2[t].queue.len() && 0 <= k2 < s2[t].queue.len() && k1
            != k2 implies #[trigger] s2[t].queue[k1] != #[trigger] s2[t].queue[k2] by {
        assert(s2[t].queue == stations[t].queue);
    }
    assert forall|q: int|
        0 <= q < r2.len() && (#[trigger] r2[q]).state is WaitingToCharge implies s2[r2[q].state->WaitingToCharge_station_id.0 as int].queue.contains(
        r2[q].id,
    ) by {
        let t = robots[q].state->WaitingToCharge_station_id.0 as int;
        assert(stations[t].queue.contains(robots[q].id));
        assert(s2[t].queue == stations[t].queue);
    }
    assert forall|t: int|
        0 <= t < s2.len() && (#[trigger] s2[t]).charging_robot is Some implies r2[s2[t].charging_robot->0.index()].state
        == (RobotState::Charging { station_id: s2[t].id }) by {
        assert(t != s);
        assert(stations[t].charging_robot is Some);
    }
    assert forall|q: int|
        0 <= q < r2.len() && (#[trigger] r2[q]).state is Charging implies s2[r2[q].state->Charging_station_id.0 as int].charging_robot
        == Some(r2[q].id) by {
        assert(q != r);
        let t = robots[q].state->Charging_station_id.0 as int;
        assert(stations[t].charging_robot == Some(robots[q].id));
        if t == s {
            assert(robots[q].id.index() == q);
            assert(robots[r].id.index() == r);
        }
    }
}

/// Moving the first waiting robot of a free station into its slot keeps the
/// bookkeeping consistent.
proof fn lemma_advance_keeps_fleet(robots: Seq<RobotView>, stations: Seq<StationView>, s: int)
    requires
        fleet_ok(robots, stations),
        0 <= s < stations.len(),
        stations[s].charging_robot is None,
        stations[s].queue.len() > 0,
    ensures
        ({
            let st = stations[s];
            let n = st.queue[0].index();
            fleet_ok(
                robots.update(
                    n,
                    RobotView {
                        state: RobotState::Charging { station_id: st.id },
                        destination: None,
                        planned_path: Seq::empty(),
                        ..robots[n]
                    },
                ),
                stations.update(
                    s,
                    StationView { charging_robot: Some(st.queue[0]), queue: st.queue.drop_first(), ..st },
                ),
            )
        }),
{
    let st = stations[s];
    let next = st.queue[0];
    let n = next.index();
    let r2 = robots.update(
        n,
        RobotView {
            state: RobotState::Charging { station_id: st.id },
            destination: None,
            planned_path: Seq::empty(),
            ..robots[n]
        },
    );
    let s2 = stations.update(
        s,
        StationView { charging_robot: Some(next), queue: st.queue.drop_first(), ..st },
    );
    assert(robots[n].state == (RobotState::WaitingToCharge { station_id: st.id }));
    assert(st.id.0 == s);
    assert(robots[n].id.index() == n);
    assert(next == robots[n].id);
    // The robot at the head of the queue appears in no other queue position.
    assert forall|t: int, k: int| 0 <= t < s2.len() && 0 <= k < s2[t].queue.len() implies (
    #[trigger] s2[t].queue[k]).index() != n by {
        if t == s {
            assert(s2[t].queue[k] == st.queue[k + 1]);
            assert(st.queue[k + 1] != st.queue[0]);
        } else {
            assert(s2[t].queue[k] == stations[t].queue[k]);
            let j = stations[t].queue[k].index();
            assert(robots[j].state == (RobotState::WaitingToCharge { station_id: stations[t].id }));
            assert(stations[t].id.0 == t);
        }
    }
    assert forall|q: int| 0 <= q < r2.len() implies (#[trigger] r2[q]).id.index() == q by {
        assert(robots[q].id.index() == q);
    }
    assert forall|q: int| 0 <= q < r2.len() implies station_ref_ok(
        (#[trigger] r2[q]).state,
        s2.len() as int,
    ) by {
        assert(station_ref_ok(robots[q].state, stations.len() as int));
    }
    assert forall|t: int| 0 <= t < s2.len() implies (#[trigger] s2[t]).id.0 == t by {
        assert(stations[t].id.0 == t);
    }
    assert forall|t: int|
        0 <= t < s2.len() && (#[trigger] s2[t]).charging_robot is Some implies s2[t].charging_robot->0.index()
        < r2.len() by {
        if t != s {
            assert(stations[t].charging_robot is Some);
        }
    }
    assert forall|t: int, k: int|
        0 <= t < s2.len() && 0 <= k < s2[t].queue.len() implies 0 <= (
        #[trigger] s2[t].queue[k]).index() < r2.len() by {
        if t == s {
            assert(s2[t].queue[k] == st.queue[k + 1]);
        } else {
            assert(s2[t].queue[k] == stations[t].queue[k]);
        }
    }
    assert forall|t: int, k: int|
        0 <= t < s2.len() && 0 <= k < s2[t].queue.len() implies r2[(
        #[trigger] s2[t].queue[k]).index()].state == (RobotState::WaitingToCharge {
            station_id: s2[t].id,
        }) by {
        if t == s {
            assert(s2[t].queue[k] == st.queue[k + 1]);
        } else {
            assert(s2[t].queue[k] == stations[t].queue[k]);
        }
    }
    assert forall|t: int, k1: int, k2: int|
        0 <= t < s2.len() && 0 <= k1 < s2[t].queue.len() && 0 <= k2 < s2[t].queue.len() && k1
            != k2 implies #[trigger] s2[t].queue[k1] != #[trigger] s2[t].queue[k2] by {
        if t == s {
            assert(s2[t].queue[k1] == st.queue[k1 + 1]);
            assert(s2[t].queue[k2] == st.queue[k2 + 1]);
        } else {
            assert(s2[t].queue == stations[t].queue);
        }
    }
    assert forall|q: int|
        0 <= q < r2.len() && (#[trigger] r2[q]).state is WaitingToCharge implies s2[r2[q].state->WaitingToCharge_station_id.0 as int].queue.contains(
        r2[q].id,
    ) by {
        assert(q != n);
        let t = robots[q].state->WaitingToCharge_station_id.0 as int;
        assert(stations[t].queue.contains(robots[q].id));
        let k = choose|k: int| 0 <= k < stations[t].queue.len() && stations[t].queue[k] == robots[q].id;
        if t == s {
            assert(robots[q].id.index() == q);
            assert(k != 0);
            assert(s2[t].queue[k - 1] == stations[t].queue[k]);
        } else {
            assert(s2[t].queue == stations[t].queue);
        }
    }
    assert forall|t: int|
        0 <= t < s2.len() && (#[trigger] s2[t]).charging_robot is Some implies r2[s2[t].charging_robot->0.index()].state
        == (RobotState::Charging { station_id: s2[t].id }) by {
        if t != s {
            assert(stations[t].charging_robot is Some);
            let j = stations[t].charging_robot->0.index();
            assert(robots[j].state is Charging);
            assert(j != n);
        }
    }
    assert forall|q: int|
        0 <= q < r2.len() && (#[trigger] r2[q]).state is Charging implies s2[r2[q].state->Charging_station_id.0 as int].charging_robot
        == Some(r2[q].id) by {
        if q != n {
            let t = robots[q].state->Charging_station_id.0 as int;
            assert(stations[t].charging_robot == Some(robots[q].id));
            assert(t != s);
        }
    }
}

/// One station's charging step keeps the station bookkeeping consistent: a
/// robot only ever charges in the slot of the station whose queue it left.
pub proof fn lemma_charge_keeps_fleet(
    robots: Seq<RobotView>,
    stations: Seq<StationView>,
    s: int,
    full: Seq<bool>,
)
    requires
        fleet_ok(robots, stations),
        0 <= s < stations.len(),
        full.len() == robots.len(),
    ensures
        fleet_ok(charge_step(robots, stations, s, full).0, charge_step(robots, stations, s, full).1),
{
    let st = stations[s];
    let done = st.charging_robot is Some && full[st.charging_robot->0.index()];
    let robots1 = if done {
        let r = st.charging_robot->0.index();
        robots.update(r, RobotView { state: RobotState::Idle, destination: None, ..robots[r] })
    } else {
        robots
    };
    let st1 = if done {
        StationView { charging_robot: None, ..st }
    } else {
        st
    };
    let stations1 = stations.update(s, st1);
    if done {
        lemma_finish_keeps_fleet(robots, stations, s);
    } else {
        assert(stations1 =~= stations);
    }
    assert(fleet_ok(robots1, stations1));
    assert(stations1[s] == st1);
    if st1.charging_robot is None && st1.queue.len() > 0 {
        lemma_advance_keeps_fleet(robots1, stations1, s);
        assert(stations1[s].id == st.id);
        assert(stations1.update(
            s,
            StationView { charging_robot: Some(st1.queue[0]), queue: st1.queue.drop_first(), ..st1 },
        ) =~= stations.update(
            s,
            StationView { charging_robot: Some(st1.queue[0]), queue: st1.queue.drop_first(), ..st1 },
        ));
    }
}

} // verus!
