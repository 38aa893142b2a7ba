use vstd::prelude::*;

use crate::components::order::Order;
use crate::components::robot::{Robot, RobotState};
use crate::components::station::ChargingStation;
use crate::world::World;

verus! {

/// The whole-number indicators of one tick. Robot utilization is
/// `active_robot_count / robot_count` (0 when there are no robots).
#[derive(Debug, Clone, Copy, PartialEq, Eq)]
pub struct TickCounts {
    pub tick: u64,
    /// Total orders completed so far (cumulative)
    pub total_orders_completed: usize,
    /// Orders completed in the last 100 ticks (throughput window)
    pub throughput_last_100_ticks: usize,
    /// Robots routing to a pickup or to the dispatch zone
    pub active_robot_count: usize,
    /// Number of robots
    pub robot_count: usize,
    /// Length of the longest charging station queue this tick
    pub max_charging_queue_length: usize,
    /// Number of robots currently idle
    pub idle_robot_count: usize,
    /// Number of robots currently routing to a charger or waiting to charge
    pub robots_in_charge_cycle: usize,
    /// Number of pending orders not yet assigned
    pub pending_order_count: usize,
}

/// Completed within the last 100 ticks: at `tick` or at one of the 99 ticks before it.
pub open spec fn in_window(o: Order, tick: u64) -> bool {
    match o.completed_at_tick {
        Some(t) => t <= tick && tick - t < 100,
        None => false,
    }
}

pub open spec fn is_active(r: Robot) -> bool {
    r.state is RoutingToPickup || r.state is RoutingToDropoff
}

pub open spec fn recent_count(orders: Seq<Order>, tick: u64) -> nat {
    orders.filter(|o: Order| in_window(o, tick)).len()
}

pub open spec fn active_count(robots: Seq<Robot>) -> nat {
    robots.filter(|r: Robot| is_active(r)).len()
}

pub open spec fn idle_count(robots: Seq<Robot>) -> nat {
    robots.filter(|r: Robot| r.state == RobotState::Idle).len()
}

/// Robots routing to a charger or waiting to charge.
pub open spec fn charge_cycle_count(robots: Seq<Robot>) -> nat {
    robots.filter(|r: Robot| r.state is RoutingToCharge || r.state is WaitingToCharge).len()
}

/// Robots in a charging slot.
pub open spec fn charging_count(robots: Seq<Robot>) -> nat {
    robots.filter(|r: Robot| r.state is Charging).len()
}

/// Length of the longest queue among the stations, 0 when there is none.
pub open spec fn longest_queue(stations: Seq<ChargingStation>) -> nat
    decreases stations.len(),
{
    if stations.len() == 0 {
        0
    } else {
        let rest = longest_queue(stations.drop_last());
        let l = stations.last().queue@.len();
        if l > rest {
            l
        } else {
            rest
        }
    }
}

/// The longest queue is as long as every station's queue, and is the length
/// of some station's queue (0 when there is no station).
pub proof fn lemma_longest_queue(stations: Seq<ChargingStation>)
    ensures
        forall|k: int| 0 <= k < stations.len() ==> (#[trigger] stations[k]).queue@.len() <= longest_queue(stations),
        stations.len() == 0 ==> longest_queue(stations) == 0,
        stations.len() > 0 ==> exists|k: int|
            0 <= k < stations.len() && (#[trigger] stations[k]).queue@.len() == longest_queue(stations),
    decreases stations.len(),
{
    if stations.len() > 0 {
        let front = stations.drop_last();
        lemma_longest_queue(front);
        assert forall|k: int| 0 <= k < stations.len() implies (#[trigger] stations[k]).queue@.len()
            <= longest_queue(stations) by {
            if k < front.len() {
                assert(stations[k] == front[k]);
            }
        }
        if front.len() > 0 {
            let k = choose|k: int| 0 <= k < front.len() && (#[trigger] front[k]).queue@.len() == longest_queue(front);
            assert(stations[k] == front[k]);
        }
        assert(stations[stations.len() - 1] == stations.last());
    }
}

/// How each robot state is counted: adding a robot to the list adds one to
/// exactly the count its state belongs to: working an order (heading to a
/// pickup or to the dispatch zone), idle, in a charge cycle (heading to a
/// charger or waiting to charge), or charging.
pub proof fn lemma_counts_push(robots: Seq<Robot>, r: Robot)
    ensures
        active_count(robots.push(r)) == active_count(robots) + if r.state is RoutingToPickup
            || r.state is RoutingToDropoff {
            1int
        } else {
            0int
        },
        idle_count(robots.push(r)) == idle_count(robots) + if r.state is Idle {
            1int
        } else {
            0int
        },
        charge_cycle_count(robots.push(r)) == charge_cycle_count(robots) + if r.state is RoutingToCharge
            || r.state is WaitingToCharge {
            1int
        } else {
            0int
        },
        charging_count(robots.push(r)) == charging_count(robots) + if r.state is Charging {
            1int
        } else {
            0int
        },
{
    reveal(Seq::filter);
    assert(robots.push(r).drop_last() =~= robots);
    assert(robots.push(r).last() == r);
}

/// An order counts towards the throughput exactly when it was completed at
/// the current tick or at one of the 99 ticks before it.
pub proof fn lemma_recent_push(orders: Seq<Order>, o: Order, tick: u64)
    ensures
        recent_count(orders.push(o), tick) == recent_count(orders, tick) + if o.completed_at_tick
            is Some && o.completed_at_tick->0 <= tick && tick - o.completed_at_tick->0 < 100 {
            1int
        } else {
            0int
        },
{
    reveal(Seq::filter);
    assert(orders.push(o).drop_last() =~= orders);
    assert(orders.push(o).last() == o);
}

/// Collects the indicators of the current world state.
pub fn collect(world: &World) -> (m: TickCounts)
    ensures
        m.tick == world.tick,
        m.total_orders_completed == world.completed_orders@.len(),
        m.throughput_last_100_ticks == recent_count(world.completed_orders@, world.tick),
        m.active_robot_count == active_count(world.robots@),
        m.robot_count == world.robots@.len(),
        m.max_charging_queue_length == longest_queue(world.stations@),
        m.idle_robot_count == idle_count(world.robots@),
        m.robots_in_charge_cycle == charge_cycle_count(world.robots@),
        m.pending_order_count == world.pending_orders@.len(),
        m.throughput_last_100_ticks <= m.total_orders_completed,
        m.idle_robot_count + m.active_robot_count + m.robots_in_charge_cycle + charging_count(
            world.robots@,
        ) == m.robot_count,
        m.active_robot_count == world.robots@.filter(
            |r: Robot| r.state is RoutingToPickup || r.state is RoutingToDropoff,
        ).len(),
        m.idle_robot_count == world.robots@.filter(|r: Robot| r.state is Idle).len(),
        m.robots_in_charge_cycle == world.robots@.filter(
            |r: Robot| r.state is RoutingToCharge || r.state is WaitingToCharge,
        ).len(),
        m.throughput_last_100_ticks == world.completed_orders@.filter(
            |o: Order|
                o.completed_at_tick is Some && o.completed_at_tick->0 <= world.tick && world.tick
                    - o.completed_at_tick->0 < 100,
        ).len(),
        forall|k: int|
            0 <= k < world.stations@.len() ==> (#[trigger] world.stations@[k]).queue@.len()
                <= m.max_charging_queue_length,
        world.stations@.len() == 0 ==> m.max_charging_queue_length == 0,
        world.stations@.len() > 0 ==> exists|k: int|
            0 <= k < world.stations@.len() && (#[trigger] world.stations@[k]).queue@.len()
                == m.max_charging_queue_length,
{
    let tick = world.tick;
    let mut recent: usize = 0;
    let mut i: usize = 0;
    while i < world.completed_orders.len()
        invariant
            i <= world.completed_orders@.len(),
            tick == world.tick,
            recent == recent_count(world.completed_orders@.take(i as int), tick),
            recent <= i,
        decreases world.completed_orders@.len() - i,
    {
        let o = world.completed_orders[i];
        proof {
            reveal(Seq::filter);
            let t = world.completed_orders@.take(i + 1);
            assert(t.drop_last() =~= world.completed_orders@.take(i as int));
            assert(t.last() == o);
        }
        let hit = match o.completed_at_tick {
            Some(t) => t <= tick && tick - t < 100,
            None => false,
        };
        if hit {
            recent = recent + 1;
        }
        i = i + 1;
    }
    proof {
        assert(world.completed_orders@.take(world.completed_orders@.len() as int) =~= world.completed_orders@);
    }
    let mut active: usize = 0;
    let mut idle: usize = 0;
    let mut cycle: usize = 0;
    let ghost mut charging: nat = 0;
    let mut r: usize = 0;
    while r < world.robots.len()
        invariant
            r <= world.robots@.len(),
            active == active_count(world.robots@.take(r as int)),
            idle == idle_count(world.robots@.take(r as int)),
            cycle == charge_cycle_count(world.robots@.take(r as int)),
            charging == charging_count(world.robots@.take(r as int)),
            active + idle + cycle + charging == r,
        decreases world.robots@.len() - r,
    {
        let state = world.robots[r].state;
        proof {
            reveal(Seq::filter);
            let t = world.robots@.take(r + 1);
            assert(t.drop_last() =~= world.robots@.take(r as int));
            assert(t.last().state == state);
        }
        match state {
            RobotState::RoutingToPickup { .. } | RobotState::RoutingToDropoff { .. } => {
                active = active + 1;
            },
            _ => {},
        }
        if state == RobotState::Idle {
            idle = idle + 1;
        }
        match state {
            RobotState::RoutingToCharge { .. } | RobotState::WaitingToCharge { .. } => {
                cycle = cycle + 1;
            },
            RobotState::Charging { .. } => {
                proof {
                    charging = charging + 1;
                }
            },
            _ => {},
        }
        r = r + 1;
    }
    proof {
        assert(world.robots@.take(world.robots@.len() as int) =~= world.robots@);
    }
    let mut longest: usize = 0;
    let mut s: usize = 0;
    while s < world.stations.len()
        invariant
            s <= world.stations@.len(),
            longest == longest_queue(world.stations@.take(s as int)),
        decreases world.stations@.len() - s,
    {
        let l = world.stations[s].queue.len();
        proof {
            let t = world.stations@.take(s + 1);
            assert(t.drop_last() =~= world.stations@.take(s as int));
        }
        if l > longest {
            longest = l;
        }
        s = s + 1;
    }
    proof {
        assert(world.stations@.take(world.stations@.len() as int) =~= world.stations@);
    }
    proof {
        let rs = world.robots@;
        assert((|r: Robot| is_active(r)) =~= (|r: Robot| r.state is RoutingToPickup || r.state is RoutingToDropoff));
        assert((|r: Robot| r.state == RobotState::Idle) =~= (|r: Robot| r.state is Idle));
        assert((|r: Robot| r.state is RoutingToCharge || r.state is WaitingToCharge) =~= (|r: Robot| r.state is RoutingToCharge || r.state is WaitingToCharge));
        let t = world.tick;
        assert((|o: Order| in_window(o, t)) =~= (|o: Order|
            o.completed_at_tick is Some && o.completed_at_tick->0 <= t && t - o.completed_at_tick->0 < 100));
        lemma_longest_queue(world.stations@);
    }
    TickCounts {
        tick,
        total_orders_completed: world.completed_orders.len(),
        throughput_last_100_ticks: recent,
        active_robot_count: active,
        robot_count: world.robots.len(),
        max_charging_queue_length: longest,
        idle_robot_count: idle,
        robots_in_charge_cycle: cycle,
        pending_order_count: world.pending_orders.len(),
    }
}

} // verus!
