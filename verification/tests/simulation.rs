use pistons::coord::Coord;
use pistons::grid::Grid;
use pistons::tile::{Direction, Tile};

fn at(x: i32, y: i32) -> Coord {
    Coord::new(x, y)
}

/// Collects the whole grid so tests can compare before/after states.
fn snapshot(g: &Grid) -> Vec<Tile> {
    let mut v = Vec::new();
    let mut y: i32 = 0;
    while (y as usize) < g.height() {
        let mut x: i32 = 0;
        while (x as usize) < g.width() {
            v.push(g.get(at(x, y)));
            x += 1;
        }
        y += 1;
    }
    v
}

#[test]
fn new_grid_is_all_empty() {
    let g = Grid::new(4, 3);
    assert_eq!(g.width(), 4);
    assert_eq!(g.height(), 3);
    for t in snapshot(&g) {
        assert_eq!(t, Tile::Empty);
    }
    assert!(g.invariant_holds());
}

#[test]
fn contains_matches_bounds() {
    let g = Grid::new(10, 10);
    assert!(g.contains(at(0, 0)));
    assert!(g.contains(at(9, 9)));
    assert!(g.contains(at(9, 0)));
    assert!(g.contains(at(0, 9)));
    assert!(!g.contains(at(10, 0)));
    assert!(!g.contains(at(0, 10)));
    assert!(!g.contains(at(-1, 0)));
    assert!(!g.contains(at(0, -1)));
    assert!(!g.contains(at(10, 10)));
}

#[test]
fn set_then_get_roundtrip() {
    let mut g = Grid::new(5, 5);
    g.set(at(3, 2), Tile::Stone);
    g.set(at(0, 4), Tile::Piston(Direction::Left));
    assert_eq!(g.get(at(3, 2)), Tile::Stone);
    assert_eq!(g.get(at(0, 4)), Tile::Piston(Direction::Left));
    assert_eq!(g.get(at(2, 3)), Tile::Empty);
}

#[test]
fn find_push_end_returns_first_empty() {
    let mut g = Grid::new(10, 10);
    g.set(at(5, 3), Tile::Piston(Direction::Right));
    g.set(at(6, 3), Tile::Stone);
    g.set(at(7, 3), Tile::Stone);
    g.set(at(8, 3), Tile::Stone);
    assert_eq!(
        g.find_push_end(at(5, 3), Direction::Right),
        Some(at(9, 3))
    );
    assert_eq!(g.find_push_end(at(0, 0), Direction::Right), Some(at(1, 0)));
}

#[test]
fn find_push_end_blocked_by_bedrock_or_edge() {
    let mut g = Grid::new(5, 5);
    g.set(at(1, 1), Tile::Piston(Direction::Right));
    g.set(at(2, 1), Tile::Bedrock);
    assert_eq!(g.find_push_end(at(1, 1), Direction::Right), None);
    // A full line of stones up to the edge leaves no empty slot.
    g.set(at(1, 2), Tile::Stone);
    g.set(at(2, 2), Tile::Stone);
    g.set(at(3, 2), Tile::Stone);
    g.set(at(4, 2), Tile::Stone);
    assert_eq!(g.find_push_end(at(0, 2), Direction::Right), None);
    // Scanning from the last column exits the grid at once.
    assert_eq!(g.find_push_end(at(4, 3), Direction::Right), None);
    // An extended piston's parts block the scan too.
    g.set(at(1, 4), Tile::PistonArm(Direction::Down));
    assert_eq!(g.find_push_end(at(0, 4), Direction::Right), None);
}

#[test]
fn push_moves_run_and_extends() {
    let mut g = Grid::new(10, 10);
    g.set(at(5, 3), Tile::Piston(Direction::Right));
    g.set(at(6, 3), Tile::Stone);
    g.set(at(7, 3), Tile::Stone);
    g.set(at(8, 3), Tile::Stone);
    g.tick();
    assert_eq!(g.get(at(5, 3)), Tile::PistonBase(Direction::Right));
    assert_eq!(g.get(at(6, 3)), Tile::PistonArm(Direction::Right));
    assert_eq!(g.get(at(7, 3)), Tile::Stone);
    assert_eq!(g.get(at(8, 3)), Tile::Stone);
    assert_eq!(g.get(at(9, 3)), Tile::Stone);
    assert_eq!(g.get(at(4, 3)), Tile::Empty);
    assert_eq!(g.get(at(5, 2)), Tile::Empty);
    assert!(g.invariant_holds());
}

#[test]
fn push_into_adjacent_empty_cell() {
    let mut g = Grid::new(3, 1);
    g.set(at(0, 0), Tile::Piston(Direction::Right));
    g.tick();
    assert_eq!(g.get(at(0, 0)), Tile::PistonBase(Direction::Right));
    assert_eq!(g.get(at(1, 0)), Tile::PistonArm(Direction::Right));
    assert_eq!(g.get(at(2, 0)), Tile::Empty);
}

#[test]
fn blocked_piston_changes_nothing() {
    let mut g = Grid::new(5, 5);
    g.set(at(1, 1), Tile::Piston(Direction::Right));
    g.set(at(2, 1), Tile::Bedrock);
    let before = snapshot(&g);
    g.tick();
    assert_eq!(snapshot(&g), before);
}

#[test]
fn piston_at_edge_changes_nothing() {
    let mut g = Grid::new(5, 5);
    g.set(at(4, 2), Tile::Piston(Direction::Right));
    g.set(at(0, 3), Tile::Piston(Direction::Left));
    g.set(at(1, 0), Tile::Piston(Direction::Up));
    g.set(at(2, 4), Tile::Piston(Direction::Down));
    let before = snapshot(&g);
    g.tick();
    assert_eq!(snapshot(&g), before);
}

#[test]
fn full_row_of_stones_blocks_push() {
    let mut g = Grid::new(4, 1);
    g.set(at(0, 0), Tile::Piston(Direction::Right));
    g.set(at(1, 0), Tile::Stone);
    g.set(at(2, 0), Tile::Stone);
    g.set(at(3, 0), Tile::Stone);
    let before = snapshot(&g);
    g.tick();
    assert_eq!(snapshot(&g), before);
}

#[test]
fn retraction_pulls_trailing_stone() {
    let mut g = Grid::new(10, 10);
    g.set(at(2, 4), Tile::PistonBase(Direction::Down));
    g.set(at(2, 5), Tile::PistonArm(Direction::Down));
    g.set(at(2, 6), Tile::Stone);
    assert!(g.invariant_holds());
    g.tick();
    assert_eq!(g.get(at(2, 4)), Tile::Piston(Direction::Down));
    assert_eq!(g.get(at(2, 5)), Tile::Stone);
    assert_eq!(g.get(at(2, 6)), Tile::Empty);
    assert!(g.invariant_holds());
}

#[test]
fn retraction_without_target_bedrock() {
    let mut g = Grid::new(10, 10);
    g.set(at(2, 4), Tile::PistonBase(Direction::Down));
    g.set(at(2, 5), Tile::PistonArm(Direction::Down));
    g.set(at(2, 6), Tile::Bedrock);
    g.tick();
    assert_eq!(g.get(at(2, 4)), Tile::Piston(Direction::Down));
    assert_eq!(g.get(at(2, 5)), Tile::Empty);
    assert_eq!(g.get(at(2, 6)), Tile::Bedrock);
}

#[test]
fn retraction_without_target_out_of_range() {
    let mut g = Grid::new(3, 6);
    g.set(at(2, 4), Tile::PistonBase(Direction::Down));
    g.set(at(2, 5), Tile::PistonArm(Direction::Down));
    g.tick();
    assert_eq!(g.get(at(2, 4)), Tile::Piston(Direction::Down));
    assert_eq!(g.get(at(2, 5)), Tile::Empty);
}

#[test]
fn retraction_pulling_empty_is_a_noop_pull() {
    let mut g = Grid::new(10, 10);
    g.set(at(2, 4), Tile::PistonBase(Direction::Down));
    g.set(at(2, 5), Tile::PistonArm(Direction::Down));
    g.tick();
    assert_eq!(g.get(at(2, 4)), Tile::Piston(Direction::Down));
    assert_eq!(g.get(at(2, 5)), Tile::Empty);
    assert_eq!(g.get(at(2, 6)), Tile::Empty);
}

#[test]
fn inert_grid_is_unchanged() {
    let mut g = Grid::new(6, 4);
    g.set(at(0, 0), Tile::Stone);
    g.set(at(5, 3), Tile::Bedrock);
    g.set(at(3, 2), Tile::Stone);
    g.set(at(1, 1), Tile::Bedrock);
    let before = snapshot(&g);
    g.tick();
    assert_eq!(snapshot(&g), before);
    g.tick();
    assert_eq!(snapshot(&g), before);
}

#[test]
fn extension_then_sticky_retraction_oscillates() {
    let mut g = Grid::new(10, 10);
    g.set(at(5, 3), Tile::Piston(Direction::Right));
    g.set(at(6, 3), Tile::Stone);
    g.set(at(7, 3), Tile::Stone);
    g.set(at(8, 3), Tile::Stone);
    g.tick();
    // Second tick: the base retracts and drags one stone back.
    g.tick();
    assert_eq!(g.get(at(5, 3)), Tile::Piston(Direction::Right));
    assert_eq!(g.get(at(6, 3)), Tile::Stone);
    assert_eq!(g.get(at(7, 3)), Tile::Empty);
    assert_eq!(g.get(at(8, 3)), Tile::Stone);
    assert_eq!(g.get(at(9, 3)), Tile::Stone);
    // Third tick: the piston fires again into the freed slot.
    g.tick();
    assert_eq!(g.get(at(5, 3)), Tile::PistonBase(Direction::Right));
    assert_eq!(g.get(at(6, 3)), Tile::PistonArm(Direction::Right));
    assert_eq!(g.get(at(7, 3)), Tile::Stone);
    assert_eq!(g.get(at(8, 3)), Tile::Stone);
    assert_eq!(g.get(at(9, 3)), Tile::Stone);
}

#[test]
fn pushed_piston_fires_later_in_same_pass() {
    // A piston pushes another piston into a later cell of the pass; the
    // pushed piston then fires within the same tick. The single-pass
    // row-major order makes this chain reaction intentional.
    let mut g = Grid::new(5, 5);
    g.set(at(1, 1), Tile::Piston(Direction::Right));
    g.set(at(2, 1), Tile::Piston(Direction::Up));
    g.tick();
    assert_eq!(g.get(at(1, 1)), Tile::PistonBase(Direction::Right));
    assert_eq!(g.get(at(2, 1)), Tile::PistonArm(Direction::Right));
    assert_eq!(g.get(at(3, 1)), Tile::PistonBase(Direction::Up));
    assert_eq!(g.get(at(3, 0)), Tile::PistonArm(Direction::Up));
    assert!(g.invariant_holds());
}

#[test]
fn pairing_invariant_survives_many_ticks() {
    // A busy scene: one piston pushing a line of
    // stones, one facing down onto a stone, and a bedrock block nearby.
    let mut g = Grid::new(10, 10);
    g.set(at(5, 3), Tile::Piston(Direction::Right));
    g.set(at(6, 3), Tile::Stone);
    g.set(at(7, 3), Tile::Stone);
    g.set(at(8, 3), Tile::Stone);
    g.set(at(2, 4), Tile::Piston(Direction::Down));
    g.set(at(2, 5), Tile::Stone);
    g.set(at(3, 5), Tile::Bedrock);
    assert!(g.invariant_holds());
    for _ in 0..12 {
        g.tick();
        assert!(g.invariant_holds());
    }
}

#[test]
fn invariant_holds_detects_missing_arm() {
    let mut g = Grid::new(4, 4);
    g.set(at(1, 1), Tile::PistonBase(Direction::Right));
    assert!(!g.invariant_holds());
    g.set(at(2, 1), Tile::PistonArm(Direction::Right));
    assert!(g.invariant_holds());
    // An arm with the wrong direction is no pairing either.
    g.set(at(2, 1), Tile::PistonArm(Direction::Left));
    assert!(!g.invariant_holds());
    // A base whose arm cell lies outside the grid is unpaired.
    let mut h = Grid::new(4, 4);
    h.set(at(3, 2), Tile::PistonBase(Direction::Right));
    assert!(!h.invariant_holds());
}
