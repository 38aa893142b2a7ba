use shipsim::components::robot::RobotId;
use shipsim::components::station::{ChargingStation, StationId};
use shipsim::world::grid::Position;

#[test]
fn new_station_is_free_and_empty() {
    let s = ChargingStation::new(StationId(3), Position::new(4, 0));
    assert_eq!(s.id, StationId(3));
    assert_eq!(s.position, Position::new(4, 0));
    assert!(s.is_free());
    assert_eq!(s.total_load(), 0);
    assert!(s.queue.is_empty());
}

#[test]
fn queue_is_first_in_first_out() {
    let mut s = ChargingStation::new(StationId(0), Position::new(0, 0));
    s.enqueue(RobotId(7));
    s.enqueue(RobotId(2));
    s.enqueue(RobotId(9));
    assert_eq!(s.total_load(), 3);
    assert_eq!(s.try_advance_queue(), Some(RobotId(7)));
    assert_eq!(s.charging_robot, Some(RobotId(7)));
    assert!(!s.is_free());
    assert_eq!(s.total_load(), 3);
    // Occupied slot: nothing moves.
    assert_eq!(s.try_advance_queue(), None);
    assert_eq!(s.queue.len(), 2);
    s.finish_charging();
    assert!(s.is_free());
    assert_eq!(s.total_load(), 2);
    assert_eq!(s.try_advance_queue(), Some(RobotId(2)));
    s.finish_charging();
    assert_eq!(s.try_advance_queue(), Some(RobotId(9)));
    s.finish_charging();
    assert_eq!(s.try_advance_queue(), None);
    assert_eq!(s.total_load(), 0);
}
