use rand::rngs::StdRng;
use rand::SeedableRng;

use shipsim::components::order::{Order, OrderId, OrderStatus};
use shipsim::components::robot::{Robot, RobotId, RobotState};
use shipsim::components::station::{ChargingStation, StationId};
use shipsim::metrics::collect;
use shipsim::systems::order_generator;
use shipsim::world::grid::{Grid, Position, TileKind};
use shipsim::world::World;

fn p(x: usize, y: usize) -> Position {
    Position::new(x, y)
}

fn empty_world() -> World {
    World::new(Grid::new_empty(4, 4), vec![], vec![], p(0, 0))
}

#[test]
fn injected_orders_get_consecutive_ids_and_the_current_tick() {
    let mut world = empty_world();
    world.tick = 9;
    world.inject_order(p(1, 1));
    world.inject_order(p(2, 2));
    assert_eq!(world.next_order_id, 2);
    assert_eq!(world.pending_orders.len(), 2);
    assert_eq!(world.pending_orders[0], Order::new(OrderId(0), p(1, 1), 9));
    assert_eq!(world.pending_orders[1].id, OrderId(1));
    assert_eq!(world.pending_orders[1].status, OrderStatus::Pending);
}

#[test]
fn assign_then_complete_moves_an_order_through_the_lists() {
    let mut world = empty_world();
    world.inject_order(p(1, 1));
    world.inject_order(p(2, 2));
    world.assign_order(OrderId(1), RobotId(4));
    assert_eq!(world.pending_orders.len(), 1);
    assert_eq!(world.pending_orders[0].id, OrderId(0));
    assert_eq!(world.active_orders.len(), 1);
    assert_eq!(world.active_orders[0].status, OrderStatus::InProgress);
    assert_eq!(world.active_orders[0].assigned_to, Some(RobotId(4)));
    world.advance_tick();
    world.advance_tick();
    world.complete_order(OrderId(1));
    assert!(world.active_orders.is_empty());
    assert_eq!(world.completed_orders.len(), 1);
    assert_eq!(world.completed_orders[0].status, OrderStatus::Completed);
    assert_eq!(world.completed_orders[0].completed_at_tick, Some(2));
    assert_eq!(world.completed_orders[0].fulfillment_time(), Some(2));
}

#[test]
fn unknown_order_ids_change_nothing() {
    let mut world = empty_world();
    world.inject_order(p(1, 1));
    world.assign_order(OrderId(8), RobotId(0));
    world.complete_order(OrderId(0));
    assert_eq!(world.pending_orders.len(), 1);
    assert!(world.active_orders.is_empty());
    assert!(world.completed_orders.is_empty());
}

#[test]
fn advance_tick_counts_up() {
    let mut world = empty_world();
    world.advance_tick();
    world.advance_tick();
    world.advance_tick();
    assert_eq!(world.tick, 3);
}

#[test]
fn shelf_positions_lists_shelf_tiles() {
    let mut grid = Grid::new_empty(3, 3);
    grid.set(p(1, 2), TileKind::ShelfLocation);
    grid.set(p(0, 1), TileKind::ShelfLocation);
    let world = World::new(grid, vec![], vec![], p(0, 0));
    assert_eq!(world.shelf_positions(), vec![p(0, 1), p(1, 2)]);
}

#[test]
fn order_generator_targets_shelf_tiles_only() {
    let mut grid = Grid::new_empty(5, 5);
    grid.set(p(3, 3), TileKind::ShelfLocation);
    grid.set(p(1, 4), TileKind::ShelfLocation);
    let mut world = World::new(grid, vec![], vec![], p(0, 0));
    world.tick = 5;
    let mut rng = StdRng::seed_from_u64(11);
    order_generator::run(&mut world, 30, &mut rng);
    assert_eq!(world.pending_orders.len(), 30);
    assert_eq!(world.next_order_id, 30);
    for (k, o) in world.pending_orders.iter().enumerate() {
        assert_eq!(o.id, OrderId(k as u32));
        assert_eq!(o.created_at_tick, 5);
        assert!(o.pickup_location == p(3, 3) || o.pickup_location == p(1, 4));
    }
    // Both shelves get picked over thirty draws; a generator stuck on its
    // lower bound would always pick the first one.
    assert!(world.pending_orders.iter().any(|o| o.pickup_location == p(1, 4)));
}

#[test]
fn order_generator_without_shelves_injects_nothing() {
    let mut world = empty_world();
    let mut rng = StdRng::seed_from_u64(11);
    order_generator::run(&mut world, 4, &mut rng);
    assert!(world.pending_orders.is_empty());
    assert_eq!(world.next_order_id, 0);
}

#[test]
fn collect_counts_robots_orders_and_queues() {
    let mut idle = Robot::new(RobotId(0), p(0, 0));
    idle.state = RobotState::Idle;
    let mut picking = Robot::new(RobotId(1), p(1, 0));
    picking.state = RobotState::RoutingToPickup { order_id: OrderId(0) };
    let mut dropping = Robot::new(RobotId(2), p(2, 0));
    dropping.state = RobotState::RoutingToDropoff { order_id: OrderId(1) };
    let mut waiting = Robot::new(RobotId(3), p(3, 0));
    waiting.state = RobotState::WaitingToCharge { station_id: StationId(1) };
    let mut charging = Robot::new(RobotId(4), p(3, 0));
    charging.state = RobotState::Charging { station_id: StationId(1) };
    let s0 = ChargingStation::new(StationId(0), p(0, 3));
    let mut s1 = ChargingStation::new(StationId(1), p(3, 0));
    s1.charging_robot = Some(RobotId(4));
    s1.enqueue(RobotId(3));
    let mut world =
        World::new(Grid::new_empty(4, 4), vec![idle, picking, dropping, waiting, charging], vec![s0, s1], p(0, 0));
    world.tick = 150;
    for (id, done) in [(0u32, Some(40u64)), (1, Some(50)), (2, Some(120)), (3, None)] {
        let mut o = Order::new(OrderId(id), p(1, 1), 0);
        o.status = OrderStatus::Completed;
        o.completed_at_tick = done;
        world.completed_orders.push(o);
    }
    world.inject_order(p(2, 2));

    let m = collect(&world);
    assert_eq!(m.tick, 150);
    assert_eq!(m.total_orders_completed, 4);
    // Completed at 120 is within the last 100 ticks; 50 is exactly 100 ticks ago.
    assert_eq!(m.throughput_last_100_ticks, 1);
    assert_eq!(m.active_robot_count, 2);
    assert_eq!(m.robot_count, 5);
    assert_eq!(m.max_charging_queue_length, 1);
    assert_eq!(m.idle_robot_count, 1);
    // The waiting robot counts; the one in the slot does not.
    assert_eq!(m.robots_in_charge_cycle, 1);
    assert_eq!(m.pending_order_count, 1);
    // Every robot is idle, on an order, heading to or waiting at a charger, or charging.
    let charging = 1;
    assert_eq!(
        m.idle_robot_count + m.active_robot_count + m.robots_in_charge_cycle + charging,
        m.robot_count
    );
}

#[test]
fn throughput_window_starts_at_zero_early_in_the_run() {
    let mut world = empty_world();
    world.tick = 30;
    let mut o = Order::new(OrderId(0), p(1, 1), 0);
    o.completed_at_tick = Some(0);
    world.completed_orders.push(o);
    assert_eq!(collect(&world).throughput_last_100_ticks, 1);
}

#[test]
fn throughput_window_covers_exactly_the_last_100_ticks() {
    let mut world = empty_world();
    world.tick = 100;
    for (id, done) in [(0u32, 0u64), (1, 1), (2, 100)] {
        let mut o = Order::new(OrderId(id), p(1, 1), 0);
        o.completed_at_tick = Some(done);
        world.completed_orders.push(o);
    }
    assert_eq!(collect(&world).throughput_last_100_ticks, 2);
}
