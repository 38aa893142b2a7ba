use rand::rngs::StdRng;
use rand::SeedableRng;

use shipsim::components::robot::{RobotId, RobotState};
use shipsim::components::station::StationId;
use shipsim::config::WorldConfig;
use shipsim::setup::{build_world, distribute_evenly, place_if_floor, place_randomly};
use shipsim::world::grid::{Grid, Position, TileKind};

fn default_world_config() -> WorldConfig {
    WorldConfig {
        width: 20,
        height: 20,
        num_robots: 5,
        num_charging_stations: 2,
        num_shelf_locations: 20,
        num_obstacles: 15,
        dispatch_x: 0,
        dispatch_y: 0,
    }
}

#[test]
fn distribute_evenly_spaces_by_width_over_count_plus_one() {
    assert_eq!(distribute_evenly(2, 20, 0), vec![Position::new(6, 0), Position::new(12, 0)]);
    assert_eq!(
        distribute_evenly(3, 10, 4),
        vec![Position::new(2, 4), Position::new(4, 4), Position::new(6, 4)]
    );
}

#[test]
fn distribute_evenly_with_zero_count_is_empty() {
    assert!(distribute_evenly(0, 10, 0).is_empty());
}

#[test]
fn distribute_evenly_on_a_narrow_row_stacks_at_column_zero() {
    assert_eq!(distribute_evenly(3, 2, 0), vec![Position::new(0, 0); 3]);
}

#[test]
fn place_if_floor_only_claims_floor() {
    let mut g = Grid::new_empty(2, 2);
    assert!(place_if_floor(&mut g, Position::new(1, 1), TileKind::Wall));
    assert_eq!(g.get(Position::new(1, 1)), TileKind::Wall);
    assert!(!place_if_floor(&mut g, Position::new(1, 1), TileKind::ShelfLocation));
    assert_eq!(g.get(Position::new(1, 1)), TileKind::Wall);
}

#[test]
fn place_randomly_scatters_at_most_count_tiles_off_row_zero() {
    let mut g = Grid::new_empty(10, 10);
    let mut rng = StdRng::seed_from_u64(7);
    place_randomly(&mut g, TileKind::Wall, 12, &mut rng);
    let walls = g.positions_of_kind(TileKind::Wall);
    assert!(walls.len() <= 12);
    // A generator that always handed back its lower bound would place one wall only.
    assert!(walls.len() > 1);
    assert!(walls.iter().all(|w| w.y >= 1));
}

#[test]
fn place_randomly_on_a_full_grid_stops_after_its_attempts() {
    let mut g = Grid::new_empty(2, 2);
    for y in 0..2 {
        for x in 0..2 {
            g.set(Position::new(x, y), TileKind::Wall);
        }
    }
    let mut rng = StdRng::seed_from_u64(1);
    place_randomly(&mut g, TileKind::ShelfLocation, 3, &mut rng);
    assert!(g.positions_of_kind(TileKind::ShelfLocation).is_empty());
}

#[test]
fn build_world_lays_out_dispatch_stations_and_robots() {
    let wc = default_world_config();
    let mut rng = StdRng::seed_from_u64(42);
    let world = build_world(&wc, &mut rng);
    assert_eq!(world.grid.width, 20);
    assert_eq!(world.grid.height, 20);
    assert_eq!(world.dispatch_position, Position::new(0, 0));
    assert_eq!(world.grid.get(Position::new(0, 0)), TileKind::DispatchZone);
    assert_eq!(world.stations.len(), 2);
    assert_eq!(world.stations[0].id, StationId(0));
    assert_eq!(world.stations[0].position, Position::new(6, 0));
    assert_eq!(world.stations[1].position, Position::new(12, 0));
    assert_eq!(world.grid.get(Position::new(6, 0)), TileKind::ChargingStation);
    assert_eq!(world.grid.get(Position::new(12, 0)), TileKind::ChargingStation);
    assert_eq!(world.robots.len(), 5);
    for (i, r) in world.robots.iter().enumerate() {
        assert_eq!(r.id, RobotId(i as u32));
        assert_eq!(r.position, Position::new(i, 0));
        assert_eq!(r.state, RobotState::Idle);
        assert!(r.destination.is_none());
    }
    let walls = world.grid.positions_of_kind(TileKind::Wall);
    let shelves = world.grid.positions_of_kind(TileKind::ShelfLocation);
    assert!(walls.len() <= 15 && walls.len() > 1);
    assert!(shelves.len() <= 20 && shelves.len() > 1);
    assert!(walls.iter().chain(shelves.iter()).all(|p| p.y >= 1));
    assert!(world.pending_orders.is_empty());
    assert_eq!(world.tick, 0);
    assert_eq!(world.next_order_id, 0);
}

#[test]
fn build_world_clamps_robots_to_the_last_column() {
    let wc = WorldConfig {
        width: 4,
        height: 3,
        num_robots: 6,
        num_charging_stations: 1,
        num_shelf_locations: 0,
        num_obstacles: 0,
        dispatch_x: 1,
        dispatch_y: 2,
    };
    let mut rng = StdRng::seed_from_u64(3);
    let world = build_world(&wc, &mut rng);
    let xs: Vec<usize> = world.robots.iter().map(|r| r.position.x).collect();
    assert_eq!(xs, vec![1, 2, 3, 3, 3, 3]);
    assert!(world.robots.iter().all(|r| r.position.y == 2));
    assert_eq!(world.stations[0].position, Position::new(2, 0));
}

#[test]
fn a_station_spot_on_the_dispatch_zone_keeps_the_dispatch_tile() {
    let wc = WorldConfig {
        width: 20,
        height: 5,
        num_robots: 1,
        num_charging_stations: 2,
        num_shelf_locations: 0,
        num_obstacles: 0,
        dispatch_x: 6,
        dispatch_y: 0,
    };
    let mut rng = StdRng::seed_from_u64(1);
    let world = build_world(&wc, &mut rng);
    assert_eq!(world.grid.get(Position::new(6, 0)), TileKind::DispatchZone);
    assert_eq!(world.grid.get(Position::new(12, 0)), TileKind::ChargingStation);
    assert_eq!(world.stations.len(), 2);
    assert_eq!(world.stations[0].position, Position::new(6, 0));
}

#[test]
fn shelves_on_an_open_floor_always_land() {
    let wc = WorldConfig {
        width: 5,
        height: 3,
        num_robots: 0,
        num_charging_stations: 0,
        num_shelf_locations: 1,
        num_obstacles: 0,
        dispatch_x: 0,
        dispatch_y: 0,
    };
    for seed in 0..20 {
        let mut rng = StdRng::seed_from_u64(seed);
        let world = build_world(&wc, &mut rng);
        assert_eq!(world.grid.positions_of_kind(TileKind::ShelfLocation).len(), 1);
    }
}
