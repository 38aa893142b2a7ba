use shipsim::components::order::{Order, OrderId, OrderStatus};
use shipsim::components::robot::{Robot, RobotId, RobotState};
use shipsim::components::station::{ChargingStation, StationId};
use shipsim::systems::scheduler::{self, run_battery_triage, run_order_assignment};
use shipsim::world::grid::{Grid, Position};
use shipsim::world::World;

fn p(x: usize, y: usize) -> Position {
    Position::new(x, y)
}

fn two_station_world(robots: Vec<Robot>) -> World {
    let stations = vec![
        ChargingStation::new(StationId(0), p(2, 0)),
        ChargingStation::new(StationId(1), p(8, 0)),
    ];
    World::new(Grid::new_empty(10, 10), robots, stations, p(0, 9))
}

#[test]
fn triage_sends_low_robot_to_nearest_station_and_returns_its_order() {
    let mut r = Robot::new(RobotId(0), p(7, 5));
    r.state = RobotState::RoutingToPickup { order_id: OrderId(4) };
    r.destination = Some(p(1, 1));
    let mut world = two_station_world(vec![r]);
    let mut order = Order::new(OrderId(4), p(1, 1), 0);
    order.status = OrderStatus::InProgress;
    order.assigned_to = Some(RobotId(0));
    world.active_orders.push(order);

    run_battery_triage(&mut world, &vec![true]);

    let r = &world.robots[0];
    assert_eq!(r.state, RobotState::RoutingToCharge { station_id: StationId(1) });
    assert_eq!(r.destination, Some(p(8, 0)));
    assert!(!r.is_carrying_payload);
    assert!(world.active_orders.is_empty());
    assert_eq!(world.pending_orders.len(), 1);
    assert_eq!(world.pending_orders[0].id, OrderId(4));
    assert_eq!(world.pending_orders[0].status, OrderStatus::Pending);
    assert_eq!(world.pending_orders[0].assigned_to, None);
}

#[test]
fn triage_weighs_station_load() {
    let r = Robot::new(RobotId(0), p(7, 5));
    let mut world = two_station_world(vec![r]);
    // Distances: station 0 is 10 away, station 1 is 6 away with load 3 (cost 12).
    world.stations[1].enqueue(RobotId(0));
    world.stations[1].enqueue(RobotId(0));
    world.stations[1].enqueue(RobotId(0));
    run_battery_triage(&mut world, &vec![true]);
    assert_eq!(world.robots[0].state, RobotState::RoutingToCharge { station_id: StationId(0) });
    assert_eq!(world.robots[0].destination, Some(p(2, 0)));
}

#[test]
fn triage_breaks_ties_toward_the_first_station() {
    let r = Robot::new(RobotId(0), p(5, 5));
    let mut world = two_station_world(vec![r]);
    run_battery_triage(&mut world, &vec![true]);
    assert_eq!(world.robots[0].state, RobotState::RoutingToCharge { station_id: StationId(0) });
}

#[test]
fn triage_leaves_charging_cycle_and_healthy_robots_alone() {
    let mut waiting = Robot::new(RobotId(0), p(2, 0));
    waiting.state = RobotState::WaitingToCharge { station_id: StationId(0) };
    let healthy = Robot::new(RobotId(1), p(4, 4));
    let mut world = two_station_world(vec![waiting, healthy]);
    run_battery_triage(&mut world, &vec![true, false]);
    assert_eq!(world.robots[0].state, RobotState::WaitingToCharge { station_id: StationId(0) });
    assert_eq!(world.robots[1].state, RobotState::Idle);
}

#[test]
fn triage_without_stations_still_returns_the_order() {
    let mut r = Robot::new(RobotId(0), p(1, 1));
    r.state = RobotState::RoutingToPickup { order_id: OrderId(0) };
    let mut world = World::new(Grid::new_empty(3, 3), vec![r], vec![], p(0, 0));
    let mut order = Order::new(OrderId(0), p(2, 2), 0);
    order.status = OrderStatus::InProgress;
    order.assigned_to = Some(RobotId(0));
    world.active_orders.push(order);
    run_battery_triage(&mut world, &vec![true]);
    assert_eq!(world.robots[0].state, RobotState::RoutingToPickup { order_id: OrderId(0) });
    assert_eq!(world.pending_orders.len(), 1);
    assert!(world.active_orders.is_empty());
}

#[test]
fn assignment_gives_each_idle_robot_its_nearest_order() {
    let r0 = Robot::new(RobotId(0), p(0, 0));
    let r1 = Robot::new(RobotId(1), p(9, 9));
    let mut world = two_station_world(vec![r0, r1]);
    world.inject_order(p(8, 8));
    world.inject_order(p(1, 1));
    run_order_assignment(&mut world);
    assert_eq!(world.robots[0].state, RobotState::RoutingToPickup { order_id: OrderId(1) });
    assert_eq!(world.robots[0].destination, Some(p(1, 1)));
    assert_eq!(world.robots[1].state, RobotState::RoutingToPickup { order_id: OrderId(0) });
    assert_eq!(world.robots[1].destination, Some(p(8, 8)));
    assert!(world.pending_orders.is_empty());
    assert_eq!(world.active_orders.len(), 2);
    assert_eq!(world.active_orders[0].id, OrderId(1));
    assert_eq!(world.active_orders[0].assigned_to, Some(RobotId(0)));
    assert_eq!(world.active_orders[0].status, OrderStatus::InProgress);
    assert_eq!(world.active_orders[1].assigned_to, Some(RobotId(1)));
}

#[test]
fn assignment_takes_the_nearest_order_still_pending() {
    let r0 = Robot::new(RobotId(0), p(0, 0));
    let r1 = Robot::new(RobotId(1), p(9, 0));
    let mut world = two_station_world(vec![r0, r1]);
    world.inject_order(p(9, 1)); // A
    world.inject_order(p(1, 0)); // B
    world.inject_order(p(9, 0)); // C
    run_order_assignment(&mut world);
    // Robot 0 takes B; robot 1 takes C, the nearest order left.
    assert_eq!(world.robots[0].state, RobotState::RoutingToPickup { order_id: OrderId(1) });
    assert_eq!(world.robots[1].state, RobotState::RoutingToPickup { order_id: OrderId(2) });
    assert_eq!(world.pending_orders.len(), 1);
    assert_eq!(world.pending_orders[0].id, OrderId(0));
}

#[test]
fn two_idle_robots_and_two_orders_are_all_assigned() {
    let r0 = Robot::new(RobotId(0), p(0, 0));
    let r1 = Robot::new(RobotId(1), p(5, 0));
    let mut world = World::new(Grid::new_empty(6, 2), vec![r0, r1], vec![], p(0, 0));
    world.inject_order(p(0, 1));
    world.inject_order(p(5, 1));
    run_order_assignment(&mut world);
    assert_eq!(world.robots[0].state, RobotState::RoutingToPickup { order_id: OrderId(0) });
    assert_eq!(world.robots[1].state, RobotState::RoutingToPickup { order_id: OrderId(1) });
    assert!(world.pending_orders.is_empty());
    assert_eq!(world.active_orders.len(), 2);
}

#[test]
fn more_idle_robots_than_orders_leaves_the_rest_idle() {
    let robots = vec![
        Robot::new(RobotId(0), p(0, 0)),
        Robot::new(RobotId(1), p(3, 3)),
        Robot::new(RobotId(2), p(6, 6)),
    ];
    let mut world = two_station_world(robots);
    world.inject_order(p(6, 5));
    world.inject_order(p(0, 1));
    run_order_assignment(&mut world);
    assert_eq!(world.robots[0].state, RobotState::RoutingToPickup { order_id: OrderId(1) });
    assert_eq!(world.robots[1].state, RobotState::RoutingToPickup { order_id: OrderId(0) });
    assert_eq!(world.robots[2].state, RobotState::Idle);
    assert!(world.pending_orders.is_empty());
    assert_eq!(world.active_orders.len(), 2);
}

#[test]
fn assignment_ignores_busy_robots() {
    let mut busy = Robot::new(RobotId(0), p(0, 0));
    busy.state = RobotState::Charging { station_id: StationId(0) };
    let mut world = two_station_world(vec![busy]);
    world.inject_order(p(1, 1));
    run_order_assignment(&mut world);
    assert_eq!(world.robots[0].state, RobotState::Charging { station_id: StationId(0) });
    assert_eq!(world.pending_orders.len(), 1);
}

#[test]
fn low_battery_robot_is_not_given_an_order_in_the_same_tick() {
    let low = Robot::new(RobotId(0), p(1, 1));
    let ok = Robot::new(RobotId(1), p(5, 5));
    let mut world = two_station_world(vec![low, ok]);
    world.inject_order(p(1, 2));
    scheduler::run(&mut world, &vec![true, false]);
    assert_eq!(world.robots[0].state, RobotState::RoutingToCharge { station_id: StationId(0) });
    assert_eq!(world.robots[1].state, RobotState::RoutingToPickup { order_id: OrderId(0) });
}
