use pistons::coord::Coord;
use pistons::tile::{Direction, Tile};

#[test]
fn flip_swaps_opposites() {
    assert_eq!(Direction::Up.flip(), Direction::Down);
    assert_eq!(Direction::Down.flip(), Direction::Up);
    assert_eq!(Direction::Right.flip(), Direction::Left);
    assert_eq!(Direction::Left.flip(), Direction::Right);
}

#[test]
fn flip_twice_is_identity() {
    for d in [Direction::Up, Direction::Right, Direction::Down, Direction::Left] {
        assert_eq!(d.flip().flip(), d);
    }
}

#[test]
fn from_direction_scales_unit_displacements() {
    assert_eq!(Coord::from_direction(1, Direction::Up), Coord::new(0, -1));
    assert_eq!(Coord::from_direction(1, Direction::Right), Coord::new(1, 0));
    assert_eq!(Coord::from_direction(1, Direction::Down), Coord::new(0, 1));
    assert_eq!(Coord::from_direction(1, Direction::Left), Coord::new(-1, 0));
    assert_eq!(Coord::from_direction(3, Direction::Up), Coord::new(0, -3));
    assert_eq!(Coord::from_direction(2, Direction::Left), Coord::new(-2, 0));
}

#[test]
fn add_direction_displaces() {
    let c = Coord::new(4, 7);
    assert_eq!(c.add_direction(1, Direction::Right), Coord::new(5, 7));
    assert_eq!(c.add_direction(2, Direction::Down), Coord::new(4, 9));
    assert_eq!(c.add_direction(5, Direction::Up), Coord::new(4, 2));
    assert_eq!(c.add_direction(4, Direction::Left), Coord::new(0, 7));
}

#[test]
fn shares_axis_on_rows_and_columns() {
    assert!(Coord::new(2, 3).shares_axis(Coord::new(2, 9)));
    assert!(Coord::new(2, 3).shares_axis(Coord::new(7, 3)));
    assert!(Coord::new(2, 3).shares_axis(Coord::new(2, 3)));
    assert!(!Coord::new(2, 3).shares_axis(Coord::new(4, 5)));
}

#[test]
fn tile_predicates() {
    assert!(Tile::Empty.is_empty());
    assert!(!Tile::Stone.is_empty());
    assert!(!Tile::Bedrock.is_empty());
    assert!(!Tile::Piston(Direction::Up).is_empty());
    assert!(Tile::Empty.is_movable());
    assert!(Tile::Stone.is_movable());
    assert!(Tile::Bedrock.is_movable());
    assert!(Tile::Piston(Direction::Left).is_movable());
    assert!(!Tile::PistonBase(Direction::Up).is_movable());
    assert!(!Tile::PistonArm(Direction::Down).is_movable());
}
