use lux::grid::GRID_SIZE;
use lux::types::{Direction, GridPos};

#[test]
fn offsets_point_the_documented_way() {
    assert_eq!(Direction::Right.to_offset(), (0, 1));
    assert_eq!(Direction::Left.to_offset(), (0, -1));
    assert_eq!(Direction::Down.to_offset(), (1, 0));
    assert_eq!(Direction::Up.to_offset(), (-1, 0));
}

#[test]
fn step_moves_one_cell() {
    let p = GridPos::new(3, 4);
    assert_eq!(p.row, 3);
    assert_eq!(p.col, 4);
    assert_eq!(p.step(Direction::Right), GridPos::new(3, 5));
    assert_eq!(p.step(Direction::Left), GridPos::new(3, 3));
    assert_eq!(p.step(Direction::Down), GridPos::new(4, 4));
    assert_eq!(p.step(Direction::Up), GridPos::new(2, 4));
}

#[test]
fn step_then_step_back_returns() {
    let p = GridPos::new(-7, 12);
    assert_eq!(p.step(Direction::Right).step(Direction::Left), p);
    assert_eq!(p.step(Direction::Down).step(Direction::Up), p);
}

#[test]
fn in_bounds_edges() {
    assert!(GridPos::new(0, 0).in_bounds(GRID_SIZE));
    assert!(GridPos::new(7, 7).in_bounds(GRID_SIZE));
    assert!(!GridPos::new(8, 0).in_bounds(GRID_SIZE));
    assert!(!GridPos::new(0, 8).in_bounds(GRID_SIZE));
    assert!(!GridPos::new(-1, 3).in_bounds(GRID_SIZE));
    assert!(!GridPos::new(3, -1).in_bounds(GRID_SIZE));
    assert!(!GridPos::new(0, 0).in_bounds(0));
}
