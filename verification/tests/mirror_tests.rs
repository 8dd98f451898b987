use lux::mirror::{Mirror, MirrorOrientation, MirrorShade};
use lux::types::Direction;

#[test]
fn test_rotate_cycle() {
    let start = MirrorOrientation::ForwardSlash;
    let r1 = start.rotate();
    assert_eq!(r1, MirrorOrientation::Vertical);
    let r2 = r1.rotate();
    assert_eq!(r2, MirrorOrientation::BackSlash);
    let r3 = r2.rotate();
    assert_eq!(r3, MirrorOrientation::Horizontal);
    let r4 = r3.rotate();
    assert_eq!(r4, MirrorOrientation::ForwardSlash);
}

#[test]
fn test_forward_slash_reflections() {
    let m = MirrorOrientation::ForwardSlash;
    assert_eq!(m.reflect(Direction::Right), Some(Direction::Up));
    assert_eq!(m.reflect(Direction::Left), Some(Direction::Down));
    assert_eq!(m.reflect(Direction::Down), Some(Direction::Left));
    assert_eq!(m.reflect(Direction::Up), Some(Direction::Right));
}

#[test]
fn test_back_slash_reflections() {
    let m = MirrorOrientation::BackSlash;
    assert_eq!(m.reflect(Direction::Right), Some(Direction::Down));
    assert_eq!(m.reflect(Direction::Left), Some(Direction::Up));
    assert_eq!(m.reflect(Direction::Down), Some(Direction::Right));
    assert_eq!(m.reflect(Direction::Up), Some(Direction::Left));
}

#[test]
fn test_horizontal_pass_through() {
    let m = MirrorOrientation::Horizontal;
    assert_eq!(m.reflect(Direction::Right), None);
    assert_eq!(m.reflect(Direction::Left), None);
    assert_eq!(m.reflect(Direction::Down), Some(Direction::Up));
    assert_eq!(m.reflect(Direction::Up), Some(Direction::Down));
}

#[test]
fn test_vertical_pass_through() {
    let m = MirrorOrientation::Vertical;
    assert_eq!(m.reflect(Direction::Right), Some(Direction::Left));
    assert_eq!(m.reflect(Direction::Left), Some(Direction::Right));
    assert_eq!(m.reflect(Direction::Down), None);
    assert_eq!(m.reflect(Direction::Up), None);
}

fn opposite(d: Direction) -> Direction {
    match d {
        Direction::Right => Direction::Left,
        Direction::Left => Direction::Right,
        Direction::Up => Direction::Down,
        Direction::Down => Direction::Up,
    }
}

const ALL_ORIENTATIONS: [MirrorOrientation; 4] = [
    MirrorOrientation::ForwardSlash,
    MirrorOrientation::BackSlash,
    MirrorOrientation::Horizontal,
    MirrorOrientation::Vertical,
];

const ALL_DIRECTIONS: [Direction; 4] =
    [Direction::Right, Direction::Left, Direction::Up, Direction::Down];

#[test]
fn four_rotations_restore_every_orientation() {
    for m in ALL_ORIENTATIONS {
        assert_ne!(m.rotate(), m);
        assert_ne!(m.rotate().rotate(), m);
        assert_ne!(m.rotate().rotate().rotate(), m);
        assert_eq!(m.rotate().rotate().rotate().rotate(), m);
    }
}

#[test]
fn reflections_are_reversible() {
    for m in ALL_ORIENTATIONS {
        for d in ALL_DIRECTIONS {
            match m.reflect(d) {
                Some(e) => assert_eq!(m.reflect(opposite(e)), Some(opposite(d))),
                None => assert_eq!(m.reflect(opposite(d)), None),
            }
        }
    }
}

#[test]
fn click_rotates_only_the_rotatable_mirror_on_the_clicked_cell() {
    let free = Mirror { row: 2, col: 3, fixed: false };
    let fixed = Mirror { row: 2, col: 3, fixed: true };
    assert_eq!(
        free.on_click(MirrorOrientation::ForwardSlash, 2, 3),
        Some(MirrorOrientation::Vertical)
    );
    assert_eq!(
        free.on_click(MirrorOrientation::Horizontal, 2, 3),
        Some(MirrorOrientation::ForwardSlash)
    );
    assert_eq!(free.on_click(MirrorOrientation::ForwardSlash, 3, 2), None);
    assert_eq!(free.on_click(MirrorOrientation::ForwardSlash, 2, 4), None);
    assert_eq!(fixed.on_click(MirrorOrientation::ForwardSlash, 2, 3), None);
}

#[test]
fn shade_follows_fixed_and_hover() {
    let free = Mirror { row: 1, col: 5, fixed: false };
    let fixed = Mirror { row: 1, col: 5, fixed: true };
    assert_eq!(free.shade(Some((1, 5))), MirrorShade::Hovered);
    assert_eq!(free.shade(Some((5, 1))), MirrorShade::Rotatable);
    assert_eq!(free.shade(None), MirrorShade::Rotatable);
    assert_eq!(fixed.shade(Some((1, 5))), MirrorShade::Fixed);
    assert_eq!(fixed.shade(None), MirrorShade::Fixed);
}
