use shipsim::components::order::OrderId;
use shipsim::components::robot::{Robot, RobotId, RobotState};
use shipsim::systems::pathfinding::{self, find_path};
use shipsim::world::grid::{Grid, Position, TileKind};
use shipsim::world::World;

fn p(x: usize, y: usize) -> Position {
    Position::new(x, y)
}

#[test]
fn start_equal_to_goal_gives_empty_path() {
    let g = Grid::new_empty(3, 3);
    assert_eq!(find_path(&g, &vec![], p(1, 1), p(1, 1)), Some(vec![]));
}

#[test]
fn straight_corridor_path_excludes_start_and_ends_at_goal() {
    let g = Grid::new_empty(5, 1);
    assert_eq!(find_path(&g, &vec![], p(0, 0), p(4, 0)), Some(vec![p(1, 0), p(2, 0), p(3, 0), p(4, 0)]));
}

#[test]
fn path_goes_around_walls() {
    let mut g = Grid::new_empty(3, 3);
    g.set(p(1, 0), TileKind::Wall);
    g.set(p(1, 1), TileKind::Wall);
    assert_eq!(
        find_path(&g, &vec![], p(0, 0), p(2, 0)),
        Some(vec![p(0, 1), p(0, 2), p(1, 2), p(2, 2), p(2, 1), p(2, 0)])
    );
}

#[test]
fn walled_off_goal_has_no_path() {
    let mut g = Grid::new_empty(3, 3);
    g.set(p(1, 0), TileKind::Wall);
    g.set(p(1, 1), TileKind::Wall);
    g.set(p(1, 2), TileKind::Wall);
    assert_eq!(find_path(&g, &vec![], p(0, 0), p(2, 0)), None);
}

#[test]
fn wall_goal_is_unreachable() {
    let mut g = Grid::new_empty(3, 1);
    g.set(p(2, 0), TileKind::Wall);
    assert_eq!(find_path(&g, &vec![], p(0, 0), p(2, 0)), None);
}

#[test]
fn goal_outside_the_grid_is_unreachable() {
    let g = Grid::new_empty(3, 3);
    assert_eq!(find_path(&g, &vec![], p(0, 0), p(7, 1)), None);
}

#[test]
fn occupied_tiles_are_avoided_when_a_detour_exists() {
    let g = Grid::new_empty(3, 2);
    assert_eq!(
        find_path(&g, &vec![p(1, 0)], p(0, 0), p(2, 0)),
        Some(vec![p(0, 1), p(1, 1), p(2, 1), p(2, 0)])
    );
}

#[test]
fn occupied_tiles_are_crossed_as_a_last_resort() {
    let g = Grid::new_empty(3, 1);
    assert_eq!(find_path(&g, &vec![p(1, 0)], p(0, 0), p(2, 0)), Some(vec![p(1, 0), p(2, 0)]));
}

#[test]
fn diagonal_goal_path_has_manhattan_length() {
    let g = Grid::new_empty(4, 4);
    let path = find_path(&g, &vec![], p(0, 0), p(3, 2)).unwrap();
    assert_eq!(path.len(), 5);
    assert_eq!(*path.last().unwrap(), p(3, 2));
    let mut prev = p(0, 0);
    for step in path {
        assert_eq!(prev.manhattan_distance(&step), 1);
        prev = step;
    }
}

fn routing_robot(id: u32, pos: Position, dest: Position) -> Robot {
    let mut r = Robot::new(RobotId(id), pos);
    r.state = RobotState::RoutingToPickup { order_id: OrderId(0) };
    r.destination = Some(dest);
    r
}

#[test]
fn run_replans_routing_robots_around_other_robots() {
    let grid = Grid::new_empty(3, 2);
    let mover = routing_robot(0, p(0, 0), p(2, 0));
    let blocker = Robot::new(RobotId(1), p(1, 0));
    let mut world = World::new(grid, vec![mover, blocker], vec![], p(0, 1));
    pathfinding::run(&mut world);
    assert_eq!(world.robots[0].planned_path, vec![p(0, 1), p(1, 1), p(2, 1), p(2, 0)]);
    // The idle robot is not replanned.
    assert!(world.robots[1].planned_path.is_empty());
    assert_eq!(world.robots[0].position, p(0, 0));
}

#[test]
fn run_keeps_old_route_when_destination_is_unreachable() {
    let mut grid = Grid::new_empty(3, 1);
    grid.set(p(1, 0), TileKind::Wall);
    let mut r = routing_robot(0, p(0, 0), p(2, 0));
    r.planned_path = vec![p(0, 0)];
    let mut world = World::new(grid, vec![r], vec![], p(0, 0));
    pathfinding::run(&mut world);
    assert_eq!(world.robots[0].planned_path, vec![p(0, 0)]);
}

#[test]
fn run_uses_the_route_the_search_returns_when_routes_tie() {
    // On an open 4x4 grid many routes from (0,0) to (3,3) cost the same.
    let mover = routing_robot(0, p(0, 0), p(3, 3));
    let other = Robot::new(RobotId(1), p(2, 1));
    let mut world = World::new(Grid::new_empty(4, 4), vec![mover, other], vec![], p(0, 0));
    let expected = find_path(&world.grid, &vec![p(2, 1)], p(0, 0), p(3, 3)).unwrap();
    pathfinding::run(&mut world);
    assert_eq!(world.robots[0].planned_path, expected);
    assert_eq!(expected.len(), 6);
}
