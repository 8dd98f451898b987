use lux::beam::{trace_beam, trace_can_start, update_beam, BeamSegment};
use lux::level::{LevelData, MirrorData, SourceData, TargetData};
use lux::mirror::MirrorOrientation;
use lux::types::{Direction, GridPos};

fn seg(r0: i32, c0: i32, r1: i32, c1: i32) -> BeamSegment {
    BeamSegment { start: GridPos::new(r0, c0), end: GridPos::new(r1, c1) }
}

#[test]
fn test_simple_beam_no_mirrors() {
    let result = trace_beam(0, 0, Direction::Right, 0, 7, &[]);
    assert!(result.reached_target);
}

#[test]
fn test_beam_with_reflection() {
    // Beam goes right, hits a / mirror at (0,3), should go up — exits grid
    let mirrors = vec![(0, 3, MirrorOrientation::ForwardSlash)];
    let result = trace_beam(0, 0, Direction::Right, 0, 7, &mirrors);
    assert!(!result.reached_target);
}

#[test]
fn test_beam_reaches_target_via_mirrors() {
    // Beam goes right from (0,0), hits \ at (0,2) → goes down,
    // hits / at (3,2) → goes left, target at (3,0)
    let mirrors = vec![
        (0, 2, MirrorOrientation::BackSlash),
        (3, 2, MirrorOrientation::ForwardSlash),
    ];
    let result = trace_beam(0, 0, Direction::Right, 3, 0, &mirrors);
    assert!(result.reached_target);
}

#[test]
fn test_beam_pass_through() {
    // Beam goes right, horizontal mirror at (0,2) — should pass through
    let mirrors = vec![(0, 2, MirrorOrientation::Horizontal)];
    let result = trace_beam(0, 0, Direction::Right, 0, 7, &mirrors);
    assert!(result.reached_target);
}

#[test]
fn test_beam_exits_grid() {
    let result = trace_beam(0, 0, Direction::Up, 7, 7, &[]);
    assert!(!result.reached_target);
}

#[test]
fn straight_beam_is_one_segment() {
    let result = trace_beam(0, 0, Direction::Right, 0, 7, &[]);
    assert_eq!(result.segments, vec![seg(0, 0, 0, 7)]);
}

#[test]
fn beam_leaving_the_grid_ends_in_its_last_cell() {
    let result = trace_beam(0, 0, Direction::Up, 7, 7, &[]);
    assert_eq!(result.segments, vec![seg(0, 0, 0, 0)]);
    let result = trace_beam(2, 1, Direction::Down, 0, 0, &[]);
    assert!(!result.reached_target);
    assert_eq!(result.segments, vec![seg(2, 1, 7, 1)]);
}

#[test]
fn reflected_beam_breaks_into_segments_at_mirrors() {
    let mirrors = vec![
        (0, 2, MirrorOrientation::BackSlash),
        (3, 2, MirrorOrientation::ForwardSlash),
    ];
    let result = trace_beam(0, 0, Direction::Right, 3, 0, &mirrors);
    assert_eq!(result.segments, vec![seg(0, 0, 0, 2), seg(0, 2, 3, 2), seg(3, 2, 3, 0)]);

    let mirrors = vec![(0, 3, MirrorOrientation::ForwardSlash)];
    let result = trace_beam(0, 0, Direction::Right, 0, 7, &mirrors);
    assert_eq!(result.segments, vec![seg(0, 0, 0, 3), seg(0, 3, 0, 3)]);
}

#[test]
fn straight_mirror_sends_beam_back() {
    let mirrors = vec![(0, 4, MirrorOrientation::Vertical)];
    let result = trace_beam(0, 1, Direction::Right, 0, 7, &mirrors);
    assert!(!result.reached_target);
    assert_eq!(result.segments, vec![seg(0, 1, 0, 4), seg(0, 4, 0, 0)]);
}

#[test]
fn first_listed_mirror_on_a_cell_counts() {
    let mirrors = vec![
        (0, 3, MirrorOrientation::BackSlash),
        (0, 3, MirrorOrientation::ForwardSlash),
    ];
    let result = trace_beam(0, 0, Direction::Right, 7, 3, &mirrors);
    assert!(result.reached_target);
    assert_eq!(result.segments, vec![seg(0, 0, 0, 3), seg(0, 3, 7, 3)]);
}

#[test]
fn source_on_target_is_reached_at_once() {
    let mirrors = vec![(4, 4, MirrorOrientation::ForwardSlash)];
    let result = trace_beam(4, 4, Direction::Left, 4, 4, &mirrors);
    assert!(result.reached_target);
    assert_eq!(result.segments, vec![seg(4, 4, 4, 4)]);
}

#[test]
fn looping_beam_stops_when_it_repeats() {
    let mirrors = vec![
        (1, 3, MirrorOrientation::BackSlash),
        (4, 3, MirrorOrientation::ForwardSlash),
        (4, 1, MirrorOrientation::BackSlash),
        (1, 1, MirrorOrientation::ForwardSlash),
    ];
    let result = trace_beam(1, 2, Direction::Right, 7, 7, &mirrors);
    assert!(!result.reached_target);
    assert_eq!(
        result.segments,
        vec![seg(1, 2, 1, 3), seg(1, 3, 4, 3), seg(4, 3, 4, 1), seg(4, 1, 1, 1)]
    );
}

#[test]
fn source_off_the_grid_enters_it() {
    let result = trace_beam(-1, 5, Direction::Down, 6, 5, &[]);
    assert!(result.reached_target);
    assert_eq!(result.segments, vec![seg(-1, 5, 6, 5)]);
}

#[test]
fn start_check_rejects_only_overflowing_first_moves() {
    assert!(trace_can_start(0, 0, Direction::Right, 0, 7, &[]));
    assert!(!trace_can_start(i32::MAX, 0, Direction::Down, 0, 0, &[]));
    assert!(trace_can_start(i32::MAX, 0, Direction::Up, 0, 0, &[]));
    assert!(trace_can_start(i32::MAX, 0, Direction::Down, i32::MAX, 0, &[]));
    assert!(!trace_can_start(0, i32::MIN, Direction::Left, 0, 0, &[]));
    // A mirror on the source turns the first move.
    let mirrors = vec![(i32::MAX, 0, MirrorOrientation::BackSlash)];
    assert!(trace_can_start(i32::MAX, 0, Direction::Down, 0, 0, &mirrors));
    assert!(!trace_can_start(i32::MAX, 0, Direction::Right, 0, 0, &mirrors));
}

fn sample_level() -> LevelData {
    LevelData {
        name: "Sample".to_string(),
        source: SourceData { row: 0, col: 0, direction: Direction::Right },
        target: TargetData { row: 3, col: 0 },
        mirrors: vec![
            MirrorData { row: 0, col: 2, orientation: MirrorOrientation::BackSlash, fixed: true },
            MirrorData { row: 3, col: 2, orientation: MirrorOrientation::Horizontal, fixed: false },
        ],
    }
}

#[test]
fn update_changes_solved_flag_only_when_outcome_differs() {
    let level = sample_level();
    let unsolved = vec![
        (0, 2, MirrorOrientation::BackSlash),
        (3, 2, MirrorOrientation::Horizontal),
    ];
    let solved = vec![
        (0, 2, MirrorOrientation::BackSlash),
        (3, 2, MirrorOrientation::ForwardSlash),
    ];
    let u = update_beam(&level, &unsolved, false);
    assert!(!u.trace.reached_target);
    assert_eq!(u.solved_change, None);
    let u = update_beam(&level, &unsolved, true);
    assert_eq!(u.solved_change, Some(false));
    let u = update_beam(&level, &solved, false);
    assert!(u.trace.reached_target);
    assert_eq!(u.solved_change, Some(true));
    assert_eq!(u.trace.segments, vec![seg(0, 0, 0, 2), seg(0, 2, 3, 2), seg(3, 2, 3, 0)]);
    let u = update_beam(&level, &solved, true);
    assert_eq!(u.solved_change, None);
}

fn assert_one_straight_path(source: GridPos, segments: &[BeamSegment]) {
    if let Some(first) = segments.first() {
        assert_eq!(first.start, source);
    }
    for pair in segments.windows(2) {
        assert_eq!(pair[1].start, pair[0].end);
    }
    for s in segments {
        assert!(s.start.row == s.end.row || s.start.col == s.end.col);
        for p in [s.start, s.end] {
            assert!(p == source || p.in_bounds(lux::grid::GRID_SIZE));
        }
    }
}

#[test]
fn segments_form_one_straight_path() {
    let mirrors = vec![
        (1, 3, MirrorOrientation::BackSlash),
        (4, 3, MirrorOrientation::ForwardSlash),
        (4, 1, MirrorOrientation::BackSlash),
        (1, 1, MirrorOrientation::ForwardSlash),
        (6, 6, MirrorOrientation::Vertical),
        (6, 2, MirrorOrientation::Horizontal),
    ];
    let cases = [
        (1, 2, Direction::Right, 7, 7),
        (6, 0, Direction::Right, 0, 0),
        (-1, 6, Direction::Down, 7, 6),
        (0, 2, Direction::Down, 7, 2),
        (4, 4, Direction::Left, 1, 1),
    ];
    for (sr, sc, d, tr, tc) in cases {
        let result = trace_beam(sr, sc, d, tr, tc, &mirrors);
        assert_one_straight_path(GridPos::new(sr, sc), &result.segments);
        if result.reached_target {
            assert_eq!(result.segments.last().unwrap().end, GridPos::new(tr, tc));
        }
    }
}

#[test]
fn mirror_order_does_not_change_the_beam() {
    let mirrors = vec![
        (1, 3, MirrorOrientation::BackSlash),
        (4, 3, MirrorOrientation::ForwardSlash),
        (4, 1, MirrorOrientation::BackSlash),
        (6, 6, MirrorOrientation::Vertical),
    ];
    let mut reordered = mirrors.clone();
    reordered.reverse();
    let mut rotated = mirrors.clone();
    rotated.rotate_left(2);
    for (sr, sc, d, tr, tc) in [
        (1, 0, Direction::Right, 4, 0),
        (6, 0, Direction::Right, 0, 0),
        (0, 3, Direction::Down, 7, 1),
    ] {
        let a = trace_beam(sr, sc, d, tr, tc, &mirrors);
        for other in [&reordered, &rotated] {
            let b = trace_beam(sr, sc, d, tr, tc, other);
            assert_eq!(a.reached_target, b.reached_target);
            assert_eq!(a.segments, b.segments);
        }
    }
    let a = trace_beam(1, 0, Direction::Right, 2, 1, &mirrors);
    assert!(a.reached_target);
    assert_eq!(
        a.segments,
        vec![seg(1, 0, 1, 3), seg(1, 3, 4, 3), seg(4, 3, 4, 1), seg(4, 1, 2, 1)]
    );
}

#[test]
fn beam_without_mirrors_is_a_single_piece() {
    for (sr, sc, d, tr, tc) in [
        (0, 0, Direction::Right, 5, 5),
        (3, 3, Direction::Up, 0, 3),
        (7, 7, Direction::Left, 1, 1),
        (-1, 2, Direction::Up, 0, 0),
    ] {
        let result = trace_beam(sr, sc, d, tr, tc, &[]);
        assert_eq!(result.segments.len(), 1);
    }
}
