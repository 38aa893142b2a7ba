use shipsim::world::grid::{Grid, Position, TileKind};

#[test]
fn new_empty_grid_is_all_floor() {
    let g = Grid::new_empty(4, 3);
    assert_eq!(g.width, 4);
    assert_eq!(g.height, 3);
    assert_eq!(g.tiles.len(), 12);
    for y in 0..3 {
        for x in 0..4 {
            assert_eq!(g.get(Position::new(x, y)), TileKind::Floor);
        }
    }
}

#[test]
fn set_then_get_returns_the_written_kind() {
    let mut g = Grid::new_empty(5, 5);
    g.set(Position::new(2, 3), TileKind::Wall);
    assert_eq!(g.get(Position::new(2, 3)), TileKind::Wall);
    assert_eq!(g.tiles[3 * 5 + 2], TileKind::Wall);
    assert_eq!(g.get(Position::new(3, 2)), TileKind::Floor);
}

#[test]
fn only_walls_are_impassable() {
    let mut g = Grid::new_empty(3, 1);
    g.set(Position::new(0, 0), TileKind::Wall);
    g.set(Position::new(1, 0), TileKind::ShelfLocation);
    g.set(Position::new(2, 0), TileKind::ChargingStation);
    assert!(!g.is_passable(Position::new(0, 0)));
    assert!(g.is_passable(Position::new(1, 0)));
    assert!(g.is_passable(Position::new(2, 0)));
}

#[test]
fn positions_of_kind_lists_row_major() {
    let mut g = Grid::new_empty(3, 3);
    g.set(Position::new(2, 0), TileKind::ShelfLocation);
    g.set(Position::new(0, 2), TileKind::ShelfLocation);
    g.set(Position::new(1, 1), TileKind::ShelfLocation);
    let shelves = g.positions_of_kind(TileKind::ShelfLocation);
    assert_eq!(shelves, vec![Position::new(2, 0), Position::new(1, 1), Position::new(0, 2)]);
    assert!(g.positions_of_kind(TileKind::Wall).is_empty());
    assert_eq!(g.positions_of_kind(TileKind::Floor).len(), 6);
}

#[test]
fn manhattan_distance_sums_axis_differences() {
    let a = Position::new(1, 7);
    let b = Position::new(4, 2);
    assert_eq!(a.manhattan_distance(&b), 8);
    assert_eq!(b.manhattan_distance(&a), 8);
    assert_eq!(a.manhattan_distance(&a), 0);
}

#[test]
fn neighbors_in_the_middle_are_west_east_north_south() {
    let p = Position::new(2, 2);
    assert_eq!(
        p.neighbors(5, 5),
        vec![Position::new(1, 2), Position::new(3, 2), Position::new(2, 1), Position::new(2, 3)]
    );
}

#[test]
fn neighbors_at_corners_stay_on_the_grid() {
    assert_eq!(Position::new(0, 0).neighbors(3, 2), vec![Position::new(1, 0), Position::new(0, 1)]);
    assert_eq!(Position::new(2, 1).neighbors(3, 2), vec![Position::new(1, 1), Position::new(2, 0)]);
    assert!(Position::new(0, 0).neighbors(1, 1).is_empty());
}
