use shipsim::components::order::{OrderId, OrderStatus};
use shipsim::components::robot::{Robot, RobotId, RobotState};
use shipsim::components::station::{ChargingStation, StationId};
use shipsim::simulation::handle_arrivals;
use shipsim::systems::{charging, movement, pathfinding, scheduler};
use shipsim::world::grid::{Grid, Position};
use shipsim::world::World;

fn p(x: usize, y: usize) -> Position {
    Position::new(x, y)
}

fn task_order(state: RobotState) -> Option<OrderId> {
    match state {
        RobotState::RoutingToPickup { order_id } | RobotState::RoutingToDropoff { order_id } => {
            Some(order_id)
        }
        _ => None,
    }
}

/// Every order sits in one list only, each list holds orders in its own
/// status, active orders and robot tasks point at each other, and a robot
/// carries an item exactly when it heads to the dispatch zone.
fn assert_orders_consistent(world: &World) {
    let mut ids: Vec<u32> = Vec::new();
    for o in world.pending_orders.iter().chain(&world.active_orders).chain(&world.completed_orders) {
        assert!(!ids.contains(&o.id.0), "order {} is held twice", o.id.0);
        assert!(o.id.0 < world.next_order_id);
        ids.push(o.id.0);
    }
    for o in &world.pending_orders {
        assert_eq!(o.status, OrderStatus::Pending);
        assert_eq!(o.assigned_to, None);
    }
    for o in &world.active_orders {
        assert_eq!(o.status, OrderStatus::InProgress);
        let owner = o.assigned_to.expect("active order without owner");
        assert_eq!(task_order(world.robots[owner.0 as usize].state), Some(o.id));
    }
    for o in &world.completed_orders {
        assert_eq!(o.status, OrderStatus::Completed);
        let done = o.completed_at_tick.expect("completed order without tick");
        assert!(o.created_at_tick <= done && done <= world.tick);
    }
    for r in &world.robots {
        assert_eq!(
            r.is_carrying_payload,
            matches!(r.state, RobotState::RoutingToDropoff { .. })
        );
        if let Some(id) = task_order(r.state) {
            assert!(world
                .active_orders
                .iter()
                .any(|o| o.id == id && o.assigned_to == Some(r.id)));
        }
    }
}

/// A robot is in a station's queue exactly when it waits there, and in its
/// slot exactly when it charges there.
fn assert_fleet_consistent(world: &World) {
    for s in &world.stations {
        for r in &s.queue {
            assert_eq!(
                world.robots[r.0 as usize].state,
                RobotState::WaitingToCharge { station_id: s.id }
            );
        }
        if let Some(r) = s.charging_robot {
            assert_eq!(world.robots[r.0 as usize].state, RobotState::Charging { station_id: s.id });
        }
    }
    for r in &world.robots {
        match r.state {
            RobotState::WaitingToCharge { station_id } => {
                assert!(world.stations[station_id.0 as usize].queue.contains(&r.id))
            }
            RobotState::Charging { station_id } => {
                assert_eq!(world.stations[station_id.0 as usize].charging_robot, Some(r.id))
            }
            _ => {}
        }
    }
}

/// One tick of the discrete systems, in the simulation's order.
fn tick(world: &mut World, needs_recharge: Vec<bool>, full: Vec<bool>) {
    scheduler::run(world, &needs_recharge);
    pathfinding::run(world);
    let arrivals = movement::run(world);
    handle_arrivals(world, arrivals);
    charging::run(world, &full);
    world.advance_tick();
}

#[test]
fn an_order_travels_from_pending_to_completed_with_one_owner() {
    let robots = vec![Robot::new(RobotId(0), p(0, 0))];
    let mut world = World::new(Grid::new_empty(5, 1), robots, vec![], p(0, 0));
    world.inject_order(p(3, 0));
    assert_orders_consistent(&world);

    let mut seen_dropoff = false;
    for _ in 0..8 {
        tick(&mut world, vec![false], vec![false]);
        assert_orders_consistent(&world);
        if matches!(world.robots[0].state, RobotState::RoutingToDropoff { .. }) {
            seen_dropoff = true;
        }
    }

    assert!(seen_dropoff);
    assert!(world.pending_orders.is_empty());
    assert!(world.active_orders.is_empty());
    assert_eq!(world.completed_orders.len(), 1);
    assert_eq!(world.completed_orders[0].id, OrderId(0));
    // Three steps out to the shelf, three steps back to the dispatch zone.
    assert_eq!(world.completed_orders[0].completed_at_tick, Some(5));
    assert_eq!(world.robots[0].state, RobotState::Idle);
    assert_eq!(world.robots[0].position, p(0, 0));
}

#[test]
fn a_low_robot_drops_its_order_and_goes_through_a_charge_cycle() {
    let robots = vec![Robot::new(RobotId(0), p(0, 0))];
    let stations = vec![ChargingStation::new(StationId(0), p(4, 0))];
    let mut world = World::new(Grid::new_empty(5, 1), robots, stations, p(0, 0));
    world.inject_order(p(2, 0));

    // Tick 0: the robot takes the order and steps towards the shelf.
    tick(&mut world, vec![false], vec![false]);
    assert_eq!(world.robots[0].state, RobotState::RoutingToPickup { order_id: OrderId(0) });
    assert_orders_consistent(&world);
    assert_fleet_consistent(&world);

    // Tick 1: its battery is low; the order goes back and it heads to the station.
    tick(&mut world, vec![true], vec![false]);
    assert_eq!(world.robots[0].state, RobotState::RoutingToCharge { station_id: StationId(0) });
    assert_eq!(world.pending_orders.len(), 1);
    assert_eq!(world.pending_orders[0].status, OrderStatus::Pending);
    assert_orders_consistent(&world);
    assert_fleet_consistent(&world);

    // It reaches the station, waits, and is pulled into the free slot.
    let mut charged = false;
    for _ in 0..4 {
        tick(&mut world, vec![true], vec![false]);
        assert_orders_consistent(&world);
        assert_fleet_consistent(&world);
        if world.robots[0].state == (RobotState::Charging { station_id: StationId(0) }) {
            charged = true;
            break;
        }
    }
    assert!(charged);
    assert_eq!(world.stations[0].charging_robot, Some(RobotId(0)));

    // Once full it leaves the slot idle and takes the order again.
    tick(&mut world, vec![false], vec![true]);
    assert_eq!(world.robots[0].state, RobotState::Idle);
    assert_eq!(world.stations[0].charging_robot, None);
    assert_orders_consistent(&world);
    assert_fleet_consistent(&world);
    tick(&mut world, vec![false], vec![false]);
    assert_eq!(world.robots[0].state, RobotState::RoutingToPickup { order_id: OrderId(0) });
    assert_orders_consistent(&world);
    assert_fleet_consistent(&world);
}
