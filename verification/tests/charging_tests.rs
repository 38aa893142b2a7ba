use shipsim::components::robot::{Robot, RobotId, RobotState};
use shipsim::components::station::{ChargingStation, StationId};
use shipsim::systems::charging;
use shipsim::world::grid::{Grid, Position};
use shipsim::world::World;

fn p(x: usize, y: usize) -> Position {
    Position::new(x, y)
}

fn station_with(charging: Option<u32>, queue: &[u32]) -> ChargingStation {
    let mut s = ChargingStation::new(StationId(0), p(1, 0));
    s.charging_robot = charging.map(RobotId);
    for &r in queue {
        s.enqueue(RobotId(r));
    }
    s
}

#[test]
fn full_robot_leaves_and_next_robot_starts_charging() {
    let mut a = Robot::new(RobotId(0), p(1, 0));
    a.state = RobotState::Charging { station_id: StationId(0) };
    let mut b = Robot::new(RobotId(1), p(1, 0));
    b.state = RobotState::WaitingToCharge { station_id: StationId(0) };
    b.planned_path = vec![p(1, 0)];
    let stations = vec![station_with(Some(0), &[1])];
    let mut world = World::new(Grid::new_empty(3, 3), vec![a, b], stations, p(0, 2));

    charging::run(&mut world, &vec![true, false]);

    assert_eq!(world.robots[0].state, RobotState::Idle);
    assert!(world.robots[0].destination.is_none());
    assert_eq!(world.robots[1].state, RobotState::Charging { station_id: StationId(0) });
    assert!(world.robots[1].planned_path.is_empty());
    assert_eq!(world.stations[0].charging_robot, Some(RobotId(1)));
    assert!(world.stations[0].queue.is_empty());
}

#[test]
fn robot_that_is_not_full_keeps_charging() {
    let mut a = Robot::new(RobotId(0), p(1, 0));
    a.state = RobotState::Charging { station_id: StationId(0) };
    let mut b = Robot::new(RobotId(1), p(1, 0));
    b.state = RobotState::WaitingToCharge { station_id: StationId(0) };
    let stations = vec![station_with(Some(0), &[1])];
    let mut world = World::new(Grid::new_empty(3, 3), vec![a, b], stations, p(0, 2));

    charging::run(&mut world, &vec![false, false]);

    assert_eq!(world.robots[0].state, RobotState::Charging { station_id: StationId(0) });
    assert_eq!(world.robots[1].state, RobotState::WaitingToCharge { station_id: StationId(0) });
    assert_eq!(world.stations[0].charging_robot, Some(RobotId(0)));
    assert_eq!(world.stations[0].queue.len(), 1);
}

#[test]
fn free_slot_pulls_the_first_waiting_robot() {
    let mut a = Robot::new(RobotId(0), p(1, 0));
    a.state = RobotState::WaitingToCharge { station_id: StationId(0) };
    let mut b = Robot::new(RobotId(1), p(1, 0));
    b.state = RobotState::WaitingToCharge { station_id: StationId(0) };
    let stations = vec![station_with(None, &[1, 0])];
    let mut world = World::new(Grid::new_empty(3, 3), vec![a, b], stations, p(0, 2));

    charging::run(&mut world, &vec![false, false]);

    assert_eq!(world.stations[0].charging_robot, Some(RobotId(1)));
    assert_eq!(world.robots[1].state, RobotState::Charging { station_id: StationId(0) });
    assert_eq!(world.robots[0].state, RobotState::WaitingToCharge { station_id: StationId(0) });
    assert_eq!(world.stations[0].queue.len(), 1);
    assert_eq!(world.stations[0].queue[0], RobotId(0));
}

#[test]
fn empty_station_stays_free() {
    let r = Robot::new(RobotId(0), p(0, 0));
    let stations = vec![station_with(None, &[])];
    let mut world = World::new(Grid::new_empty(3, 3), vec![r], stations, p(0, 2));
    charging::run(&mut world, &vec![true]);
    assert!(world.stations[0].is_free());
    assert_eq!(world.robots[0].state, RobotState::Idle);
}
