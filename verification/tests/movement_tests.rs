use shipsim::components::order::{Order, OrderId, OrderStatus};
use shipsim::components::robot::{Robot, RobotId, RobotState};
use shipsim::components::station::{ChargingStation, StationId};
use shipsim::simulation::handle_arrivals;
use shipsim::systems::movement::{self, ArrivalEvent};
use shipsim::world::grid::{Grid, Position};
use shipsim::world::World;

fn p(x: usize, y: usize) -> Position {
    Position::new(x, y)
}

#[test]
fn routing_robots_take_one_step_and_report_arrivals() {
    let mut a = Robot::new(RobotId(0), p(0, 0));
    a.state = RobotState::RoutingToPickup { order_id: OrderId(0) };
    a.planned_path = vec![p(1, 0), p(2, 0)];
    let mut b = Robot::new(RobotId(1), p(3, 3));
    b.state = RobotState::RoutingToDropoff { order_id: OrderId(1) };
    b.planned_path = vec![p(3, 2)];
    let mut c = Robot::new(RobotId(2), p(4, 4));
    c.state = RobotState::RoutingToCharge { station_id: StationId(0) };
    let mut idle = Robot::new(RobotId(3), p(1, 4));
    idle.planned_path = vec![p(1, 3)];
    let mut world = World::new(Grid::new_empty(5, 5), vec![a, b, c, idle], vec![], p(0, 0));

    let arrivals = movement::run(&mut world);

    assert_eq!(world.robots[0].position, p(1, 0));
    assert_eq!(world.robots[0].planned_path, vec![p(2, 0)]);
    assert_eq!(world.robots[1].position, p(3, 2));
    assert!(world.robots[1].planned_path.is_empty());
    assert_eq!(world.robots[2].position, p(4, 4));
    assert_eq!(world.robots[3].position, p(1, 4));
    assert_eq!(world.robots[3].planned_path, vec![p(1, 3)]);
    assert_eq!(
        arrivals,
        vec![
            ArrivalEvent { robot_id: RobotId(1), arrived_at: p(3, 2) },
            ArrivalEvent { robot_id: RobotId(2), arrived_at: p(4, 4) },
        ]
    );
}

#[test]
fn arrival_at_pickup_loads_item_and_heads_to_dispatch() {
    let mut r = Robot::new(RobotId(0), p(2, 2));
    r.state = RobotState::RoutingToPickup { order_id: OrderId(5) };
    let mut world = World::new(Grid::new_empty(4, 4), vec![r], vec![], p(0, 3));
    handle_arrivals(&mut world, vec![ArrivalEvent { robot_id: RobotId(0), arrived_at: p(2, 2) }]);
    assert!(world.robots[0].is_carrying_payload);
    assert_eq!(world.robots[0].state, RobotState::RoutingToDropoff { order_id: OrderId(5) });
    assert_eq!(world.robots[0].destination, Some(p(0, 3)));
}

#[test]
fn arrival_at_dispatch_completes_the_order() {
    let mut r = Robot::new(RobotId(0), p(0, 3));
    r.state = RobotState::RoutingToDropoff { order_id: OrderId(5) };
    r.is_carrying_payload = true;
    r.destination = Some(p(0, 3));
    let mut world = World::new(Grid::new_empty(4, 4), vec![r], vec![], p(0, 3));
    world.tick = 37;
    let mut order = Order::new(OrderId(5), p(2, 2), 10);
    order.status = OrderStatus::InProgress;
    order.assigned_to = Some(RobotId(0));
    world.active_orders.push(order);
    handle_arrivals(&mut world, vec![ArrivalEvent { robot_id: RobotId(0), arrived_at: p(0, 3) }]);
    assert_eq!(world.robots[0].state, RobotState::Idle);
    assert!(!world.robots[0].is_carrying_payload);
    assert!(world.robots[0].destination.is_none());
    assert!(world.active_orders.is_empty());
    assert_eq!(world.completed_orders.len(), 1);
    let done = world.completed_orders[0];
    assert_eq!(done.status, OrderStatus::Completed);
    assert_eq!(done.completed_at_tick, Some(37));
    assert_eq!(done.fulfillment_time(), Some(27));
}

#[test]
fn arrival_at_station_joins_its_queue() {
    let mut r = Robot::new(RobotId(0), p(1, 0));
    r.state = RobotState::RoutingToCharge { station_id: StationId(0) };
    r.destination = Some(p(1, 0));
    r.planned_path = vec![p(1, 0)];
    let stations = vec![ChargingStation::new(StationId(0), p(1, 0))];
    let mut world = World::new(Grid::new_empty(3, 3), vec![r], stations, p(0, 2));
    handle_arrivals(&mut world, vec![ArrivalEvent { robot_id: RobotId(0), arrived_at: p(1, 0) }]);
    assert_eq!(world.robots[0].state, RobotState::WaitingToCharge { station_id: StationId(0) });
    assert!(world.robots[0].destination.is_none());
    assert!(world.robots[0].planned_path.is_empty());
    assert_eq!(world.stations[0].queue.len(), 1);
    assert_eq!(world.stations[0].queue[0], RobotId(0));
}

#[test]
fn arrival_of_an_idle_robot_changes_nothing() {
    let r = Robot::new(RobotId(0), p(1, 1));
    let mut world = World::new(Grid::new_empty(3, 3), vec![r], vec![], p(0, 0));
    handle_arrivals(&mut world, vec![ArrivalEvent { robot_id: RobotId(0), arrived_at: p(1, 1) }]);
    assert_eq!(world.robots[0].state, RobotState::Idle);
    assert!(world.completed_orders.is_empty());
}
