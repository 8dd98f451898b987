use vstd::prelude::*;

use std::collections::HashSet;

use crate::grid::GRID_SIZE;
use crate::level::LevelData;
use crate::mirror::{reflected, MirrorOrientation};
use crate::types::{
    can_step, dir_dc, dir_dr, lemma_in_bounds_can_step, lemma_offset_is_unit, pos_in_bounds,
    pos_step, Direction, GridPos,
};

verus! {

/// A beam is followed for at most this many cells.
pub const MAX_STEPS: usize = 200;

/// A straight piece of the beam, from the centre of cell `start` to the centre of cell `end`.
#[derive(Debug, Clone, Copy, PartialEq, Eq, Structural)]
pub struct BeamSegment {
    pub start: GridPos,
    pub end: GridPos,
}

/// Result of beam tracing.
#[derive(Debug, Clone)]
pub struct BeamTraceResult {
    pub segments: Vec<BeamSegment>,
    pub reached_target: bool,
}

/// The orientation of the first mirror at or after index `i` of `ms` that stands on cell `p`.
pub open spec fn first_mirror_from(
    ms: Seq<(i32, i32, MirrorOrientation)>,
    p: GridPos,
    i: int,
) -> Option<MirrorOrientation>
    decreases ms.len() - i,
{
    if i < 0 || i >= ms.len() {
        None
    } else if ms[i].0 == p.row && ms[i].1 == p.col {
        Some(ms[i].2)
    } else {
        first_mirror_from(ms, p, i + 1)
    }
}

/// The orientation of the mirror that stands on `p` (the first one listed, where several do).
pub open spec fn mirror_at(ms: Seq<(i32, i32, MirrorOrientation)>, p: GridPos) -> Option<
    MirrorOrientation,
> {
    first_mirror_from(ms, p, 0)
}

/// The new direction of a beam travelling in `d` through cell `p`, where a mirror there reflects it.
pub open spec fn turned(ms: Seq<(i32, i32, MirrorOrientation)>, p: GridPos, d: Direction) -> Option<
    Direction,
> {
    match mirror_at(ms, p) {
        Some(o) => reflected(o, d),
        None => None,
    }
}

/// The direction a beam travelling in `d` leaves cell `p` with.
pub open spec fn heading(ms: Seq<(i32, i32, MirrorOrientation)>, p: GridPos, d: Direction) -> Direction {
    match turned(ms, p, d) {
        Some(e) => e,
        None => d,
    }
}

/// Following the beam from cell `pos`, travelling in `dir`, with the current piece of the
/// beam begun at `start`, the states `visited` already passed, the pieces `segs` already
/// drawn and at most `fuel` further cells to enter: the pieces drawn in the end, and whether
/// the beam reached `target`.
///
/// In each cell: a state seen before (a loop) ends the beam; the target ends it, reached;
/// a mirror that reflects the beam closes the current piece there and turns the beam;
/// a beam about to leave the grid closes its piece in this cell and ends.
pub open spec fn trace_from(
    target: GridPos,
    ms: Seq<(i32, i32, MirrorOrientation)>,
    pos: GridPos,
    dir: Direction,
    start: GridPos,
    visited: Set<(GridPos, Direction)>,
    segs: Seq<BeamSegment>,
    fuel: nat,
) -> (Seq<BeamSegment>, bool)
    decreases fuel,
{
    if fuel == 0 || visited.contains((pos, dir)) {
        (segs, false)
    } else if pos == target {
        (segs.push(BeamSegment { start, end: pos }), true)
    } else {
        let segs1 = if turned(ms, pos, dir) is Some {
            segs.push(BeamSegment { start, end: pos })
        } else {
            segs
        };
        let start1 = if turned(ms, pos, dir) is Some {
            pos
        } else {
            start
        };
        let dir1 = heading(ms, pos, dir);
        let next = pos_step(pos, dir1);
        if !pos_in_bounds(next, GRID_SIZE as int) {
            (segs1.push(BeamSegment { start: start1, end: pos }), false)
        } else {
            trace_from(
                target,
                ms,
                next,
                dir1,
                start1,
                visited.insert((pos, dir)),
                segs1,
                (fuel - 1) as nat,
            )
        }
    }
}

/// The pieces of a beam shone from `source` in direction `dir` past the mirrors `ms`,
/// and whether it reaches `target`.
pub open spec fn beam_trace(
    source: GridPos,
    dir: Direction,
    target: GridPos,
    ms: Seq<(i32, i32, MirrorOrientation)>,
) -> (Seq<BeamSegment>, bool) {
    trace_from(target, ms, source, dir, source, Set::empty(), Seq::empty(), MAX_STEPS as nat)
}

/// The first move of the beam stays within the range of `i32` (it has no move to make
/// where it starts on the target).
pub open spec fn beam_can_start(
    source: GridPos,
    dir: Direction,
    target: GridPos,
    ms: Seq<(i32, i32, MirrorOrientation)>,
) -> bool {
    source == target || can_step(source, heading(ms, source, dir))
}

/// The number by which a beam state is recorded as seen.
pub open spec fn dir_num(d: Direction) -> int {
    match d {
        Direction::Right => 0,
        Direction::Left => 1,
        Direction::Up => 2,
        Direction::Down => 3,
    }
}

/// A number that tells beam states apart: distinct states get distinct numbers.
pub open spec fn state_key(p: GridPos, d: Direction) -> int {
    p.row * 0x100_0000_0000 + p.col * 8 + dir_num(d)
}

proof fn lemma_state_key_injective(p1: GridPos, d1: Direction, p2: GridPos, d2: Direction)
    requires
        state_key(p1, d1) == state_key(p2, d2),
    ensures
        p1 == p2,
        d1 == d2,
{
    let a1 = p1.col * 8 + dir_num(d1);
    let a2 = p2.col * 8 + dir_num(d2);
    assert((p1.row - p2.row) * 0x100_0000_0000 == a2 - a1);
    assert(p1.row == p2.row) by (nonlinear_arith)
        requires
            (p1.row - p2.row) * 0x100_0000_0000 == a2 - a1,
            -0x8_0000_0000 <= a2 - a1 <= 0x8_0000_0000,
    ;
    assert(p1.col == p2.col) by (nonlinear_arith)
        requires
            p1.col * 8 + dir_num(d1) == p2.col * 8 + dir_num(d2),
            0 <= dir_num(d1) < 4,
            0 <= dir_num(d2) < 4,
    ;
}

fn state_key_of(p: GridPos, d: Direction) -> (k: i128)
    ensures
        k == state_key(p, d),
{
    let n: i128 = match d {
        Direction::Right => 0,
        Direction::Left => 1,
        Direction::Up => 2,
        Direction::Down => 3,
    };
    (p.row as i128) * 0x100_0000_0000 + (p.col as i128) * 8 + n
}

/// The orientation of the first mirror of `mirrors` that stands on cell `p`.
fn find_mirror(mirrors: &[(i32, i32, MirrorOrientation)], p: GridPos) -> (r: Option<
    MirrorOrientation,
>)
    ensures
        r == mirror_at(mirrors@, p),
{
    let mut i: usize = 0;
    while i < mirrors.len()
        invariant
            0 <= i <= mirrors@.len(),
            mirror_at(mirrors@, p) == first_mirror_from(mirrors@, p, i as int),
        decreases mirrors@.len() - i,
    {
        let (r, c, o) = mirrors[i];
        if r == p.row && c == p.col {
            return Some(o);
        }
        i = i + 1;
    }
    None
}

/// The new direction of a beam travelling in `dir` through cell `p`, where a mirror there reflects it.
fn turn_at(mirrors: &[(i32, i32, MirrorOrientation)], p: GridPos, dir: Direction) -> (r: Option<
    Direction,
>)
    ensures
        r == turned(mirrors@, p, dir),
{
    match find_mirror(mirrors, p) {
        Some(o) => o.reflect(dir),
        None => None,
    }
}

/// Traces the beam through the grid, returning segments and whether it hit the target.
pub fn trace_beam(
    source_row: i32,
    source_col: i32,
    source_dir: Direction,
    target_row: i32,
    target_col: i32,
    mirrors: &[(i32, i32, MirrorOrientation)],
) -> (res: BeamTraceResult)
    requires
        beam_can_start(
            GridPos { row: source_row, col: source_col },
            source_dir,
            GridPos { row: target_row, col: target_col },
            mirrors@,
        ),
    ensures
        (res.segments@, res.reached_target) == beam_trace(
            GridPos { row: source_row, col: source_col },
            source_dir,
            GridPos { row: target_row, col: target_col },
            mirrors@,
        ),
{
    broadcast use vstd::std_specs::hash::group_hash_axioms;

    let source = GridPos::new(source_row, source_col);
    let target = GridPos::new(target_row, target_col);
    let ghost expected = beam_trace(source, source_dir, target, mirrors@);

    let mut segments: Vec<BeamSegment> = Vec::new();
    let mut pos = source;
    let mut dir = source_dir;
    let mut visited: HashSet<i128> = HashSet::new();
    let ghost mut seen: Set<(GridPos, Direction)> = Set::empty();
    let mut segment_start = source;
    let mut steps: usize = 0;

    while steps < MAX_STEPS
        invariant
            steps <= MAX_STEPS,
            expected == beam_trace(source, source_dir, target, mirrors@),
            expected == trace_from(
                target,
                mirrors@,
                pos,
                dir,
                segment_start,
                seen,
                segments@,
                (MAX_STEPS - steps) as nat,
            ),
            forall|p: GridPos, d: Direction| #[trigger]
                visited@.contains(state_key(p, d) as i128) == seen.contains((p, d)),
            steps > 0 ==> pos_in_bounds(pos, GRID_SIZE as int),
            steps == 0 ==> pos == source && dir == source_dir,
            beam_can_start(source, source_dir, target, mirrors@),
            source.row == source_row && source.col == source_col,
            target.row == target_row && target.col == target_col,
        decreases MAX_STEPS - steps,
    {
        let key = state_key_of(pos, dir);
        assert(key == state_key(pos, dir) as i128);
        if !visited.insert(key) {
            assert(seen.contains((pos, dir)));
            return BeamTraceResult { segments, reached_target: false };
        }
        proof {
            seen = seen.insert((pos, dir));
            assert forall|p: GridPos, d: Direction| #[trigger]
                visited@.contains(state_key(p, d) as i128) == seen.contains((p, d)) by {
                if state_key(p, d) == state_key(pos, dir) {
                    lemma_state_key_injective(p, d, pos, dir);
                }
            }
        }

        if pos.row == target.row && pos.col == target.col {
            segments.push(BeamSegment { start: segment_start, end: pos });
            return BeamTraceResult { segments, reached_target: true };
        }

        // A mirror that reflects the beam closes the current piece here.
        if let Some(new_dir) = turn_at(mirrors, pos, dir) {
            segments.push(BeamSegment { start: segment_start, end: pos });
            segment_start = pos;
            dir = new_dir;
        }

        proof {
            if steps > 0 {
                lemma_in_bounds_can_step(pos, GRID_SIZE as int, dir);
            }
        }
        let next = pos.step(dir);
        if !next.in_bounds(GRID_SIZE) {
            // The beam leaves the grid: its piece ends in this cell.
            segments.push(BeamSegment { start: segment_start, end: pos });
            return BeamTraceResult { segments, reached_target: false };
        }
        pos = next;
        steps = steps + 1;
    }

    BeamTraceResult { segments, reached_target: false }
}

/// Whether `trace_beam` can follow a beam with these arguments: false exactly where its
/// first move, out of a source that is not the target, would leave the range of `i32`.
pub fn trace_can_start(
    source_row: i32,
    source_col: i32,
    source_dir: Direction,
    target_row: i32,
    target_col: i32,
    mirrors: &[(i32, i32, MirrorOrientation)],
) -> (r: bool)
    ensures
        r == beam_can_start(
            GridPos { row: source_row, col: source_col },
            source_dir,
            GridPos { row: target_row, col: target_col },
            mirrors@,
        ),
{
    if source_row == target_row && source_col == target_col {
        return true;
    }
    let source = GridPos::new(source_row, source_col);
    let d = match turn_at(mirrors, source, source_dir) {
        Some(e) => e,
        None => source_dir,
    };
    let (dr, dc) = d.to_offset();
    let row_fits = if dr > 0 {
        source_row < i32::MAX
    } else if dr < 0 {
        source_row > i32::MIN
    } else {
        true
    };
    let col_fits = if dc > 0 {
        source_col < i32::MAX
    } else if dc < 0 {
        source_col > i32::MIN
    } else {
        true
    };
    proof {
        lemma_offset_is_unit(d);
    }
    row_fits && col_fits
}

/// What one refresh of the beam yields: the beam, and the new value of the level's
/// solved flag where it has to change (`None`: leave it untouched).
#[derive(Debug, Clone)]
pub struct BeamUpdate {
    pub trace: BeamTraceResult,
    pub solved_change: Option<bool>,
}

/// Recomputes the beam of `level` for the mirrors as they now stand, and decides the
/// level's solved flag, now `solved`: it changes only where it differs from the outcome.
pub fn update_beam(
    level: &LevelData,
    mirrors: &[(i32, i32, MirrorOrientation)],
    solved: bool,
) -> (r: BeamUpdate)
    requires
        beam_can_start(
            GridPos { row: level.source.row, col: level.source.col },
            level.source.direction,
            GridPos { row: level.target.row, col: level.target.col },
            mirrors@,
        ),
    ensures
        (r.trace.segments@, r.trace.reached_target) == beam_trace(
            GridPos { row: level.source.row, col: level.source.col },
            level.source.direction,
            GridPos { row: level.target.row, col: level.target.col },
            mirrors@,
        ),
        r.solved_change == (if solved != r.trace.reached_target {
            Some(r.trace.reached_target)
        } else {
            None
        }),
        (match r.solved_change {
            Some(b) => b,
            None => solved,
        }) == r.trace.reached_target,
{
    let trace = trace_beam(
        level.source.row,
        level.source.col,
        level.source.direction,
        level.target.row,
        level.target.col,
        mirrors,
    );
    let solved_change = if solved != trace.reached_target {
        Some(trace.reached_target)
    } else {
        None
    };
    BeamUpdate { trace, solved_change }
}

/// A piece of beam runs along one row or along one column.
pub open spec fn straight(s: BeamSegment) -> bool {
    s.start.row == s.end.row || s.start.col == s.end.col
}

/// `p` is a cell of the grid, or the cell the beam started from.
pub open spec fn on_grid_or_source(p: GridPos, source: GridPos) -> bool {
    p == source || pos_in_bounds(p, GRID_SIZE as int)
}

/// The pieces form one unbroken path: the first starts at `source`, each next one starts
/// where the one before ended, each runs straight, and all their ends lie on the grid
/// (but for the source, which may lie off it).
pub open spec fn chained_from(source: GridPos, segs: Seq<BeamSegment>) -> bool {
    &&& segs.len() > 0 ==> segs[0].start == source
    &&& forall|i: int| 0 < i < segs.len() ==> #[trigger] segs[i].start == segs[i - 1].end
    &&& forall|i: int| 0 <= i < segs.len() ==> straight(#[trigger] segs[i])
    &&& forall|i: int|
        0 <= i < segs.len() ==> on_grid_or_source(#[trigger] segs[i].start, source)
            && on_grid_or_source(segs[i].end, source)
}

/// `pos` lies on the line from `start` in direction `dir`.
spec fn on_line(start: GridPos, pos: GridPos, dir: Direction) -> bool {
    &&& dir_dr(dir) == 0 ==> pos.row == start.row
    &&& dir_dc(dir) == 0 ==> pos.col == start.col
}

proof fn lemma_push_chained(source: GridPos, segs: Seq<BeamSegment>, s: BeamSegment)
    requires
        chained_from(source, segs),
        segs.len() == 0 ==> s.start == source,
        segs.len() > 0 ==> s.start == segs.last().end,
        straight(s),
        on_grid_or_source(s.start, source),
        on_grid_or_source(s.end, source),
    ensures
        chained_from(source, segs.push(s)),
{
    let t = segs.push(s);
    assert forall|i: int| 0 < i < t.len() implies #[trigger] t[i].start == t[i - 1].end by {
        if i == segs.len() {
            assert(t[i - 1] == segs.last());
        } else {
            assert(t[i] == segs[i] && t[i - 1] == segs[i - 1]);
        }
    }
    assert forall|i: int| 0 <= i < t.len() implies straight(#[trigger] t[i]) by {
        if i < segs.len() {
            assert(t[i] == segs[i]);
        }
    }
    assert forall|i: int| 0 <= i < t.len() implies on_grid_or_source(#[trigger] t[i].start, source)
        && on_grid_or_source(t[i].end, source) by {
        if i < segs.len() {
            assert(t[i] == segs[i]);
        }
    }
}

proof fn lemma_trace_from_shape(
    source: GridPos,
    target: GridPos,
    ms: Seq<(i32, i32, MirrorOrientation)>,
    pos: GridPos,
    dir: Direction,
    start: GridPos,
    visited: Set<(GridPos, Direction)>,
    segs: Seq<BeamSegment>,
    fuel: nat,
)
    requires
        chained_from(source, segs),
        segs.len() == 0 ==> start == source,
        segs.len() > 0 ==> segs.last().end == start,
        on_grid_or_source(start, source),
        on_grid_or_source(pos, source),
        on_line(start, pos, dir),
    ensures
        ({
            let r = trace_from(target, ms, pos, dir, start, visited, segs, fuel);
            &&& chained_from(source, r.0)
            &&& segs.len() <= r.0.len()
            &&& r.1 ==> r.0.len() > 0 && r.0.last().end == target
        }),
    decreases fuel,
{
    lemma_offset_is_unit(dir);
    if fuel == 0 || visited.contains((pos, dir)) {
    } else if pos == target {
        lemma_push_chained(source, segs, BeamSegment { start, end: pos });
    } else {
        let t = turned(ms, pos, dir);
        let segs1 = if t is Some {
            segs.push(BeamSegment { start, end: pos })
        } else {
            segs
        };
        let start1 = if t is Some {
            pos
        } else {
            start
        };
        let dir1 = heading(ms, pos, dir);
        let next = pos_step(pos, dir1);
        if t is Some {
            lemma_push_chained(source, segs, BeamSegment { start, end: pos });
        }
        lemma_offset_is_unit(dir1);
        assert(on_line(start1, pos, dir1));
        if !pos_in_bounds(next, GRID_SIZE as int) {
            lemma_push_chained(source, segs1, BeamSegment { start: start1, end: pos });
        } else {
            assert(on_line(start1, next, dir1));
            lemma_trace_from_shape(
                source,
                target,
                ms,
                next,
                dir1,
                start1,
                visited.insert((pos, dir)),
                segs1,
                (fuel - 1) as nat,
            );
        }
    }
}

/// The beam is one unbroken path of straight pieces from its source across the grid, and
/// where it reaches the target, its last piece ends on the target.
pub proof fn lemma_beam_shape(
    source: GridPos,
    dir: Direction,
    target: GridPos,
    ms: Seq<(i32, i32, MirrorOrientation)>,
)
    ensures
        chained_from(source, beam_trace(source, dir, target, ms).0),
        beam_trace(source, dir, target, ms).1 ==> beam_trace(source, dir, target, ms).0.len() > 0
            && beam_trace(source, dir, target, ms).0.last().end == target,
{
    lemma_trace_from_shape(
        source,
        target,
        ms,
        source,
        dir,
        source,
        Set::empty(),
        Seq::empty(),
        MAX_STEPS as nat,
    );
}

/// A beam that starts on the target reaches it at once, as a single piece of no length.
pub proof fn lemma_source_on_target(
    source: GridPos,
    dir: Direction,
    ms: Seq<(i32, i32, MirrorOrientation)>,
)
    ensures
        beam_trace(source, dir, source, ms) == (seq![BeamSegment { start: source, end: source }], true),
{
    assert(Seq::<BeamSegment>::empty().push(BeamSegment { start: source, end: source })
        =~= seq![BeamSegment { start: source, end: source }]);
}

/// No two entries of `ms` stand on the same cell.
pub open spec fn distinct_cells(ms: Seq<(i32, i32, MirrorOrientation)>) -> bool {
    forall|i: int, j: int|
        0 <= i < ms.len() && 0 <= j < ms.len() && i != j ==> !(#[trigger] ms[i].0 == #[trigger] ms[j].0
            && ms[i].1 == ms[j].1)
}

proof fn lemma_first_mirror_from(ms: Seq<(i32, i32, MirrorOrientation)>, p: GridPos, i: int)
    requires
        0 <= i,
    ensures
        first_mirror_from(ms, p, i) matches Some(o) ==> exists|k: int|
            i <= k < ms.len() && #[trigger] ms[k] == (p.row, p.col, o),
        first_mirror_from(ms, p, i) is None ==> forall|k: int|
            i <= k < ms.len() ==> !(#[trigger] ms[k].0 == p.row && ms[k].1 == p.col),
    decreases ms.len() - i,
{
    if i < ms.len() && !(ms[i].0 == p.row && ms[i].1 == p.col) {
        lemma_first_mirror_from(ms, p, i + 1);
    }
}

proof fn lemma_same_mirrors_same_cells(
    ms1: Seq<(i32, i32, MirrorOrientation)>,
    ms2: Seq<(i32, i32, MirrorOrientation)>,
    p: GridPos,
)
    requires
        distinct_cells(ms1),
        forall|e: (i32, i32, MirrorOrientation)| ms1.contains(e) <==> ms2.contains(e),
    ensures
        mirror_at(ms1, p) == mirror_at(ms2, p),
{
    lemma_first_mirror_from(ms1, p, 0);
    lemma_first_mirror_from(ms2, p, 0);
    match mirror_at(ms2, p) {
        Some(o2) => {
            let k2 = choose|k: int| 0 <= k < ms2.len() && #[trigger] ms2[k] == (p.row, p.col, o2);
            assert(ms2.contains(ms2[k2]));
            let k1 = choose|k: int| 0 <= k < ms1.len() && ms1[k] == ms2[k2];
            match mirror_at(ms1, p) {
                Some(o1) => {
                    let j1 = choose|k: int| 0 <= k < ms1.len() && #[trigger] ms1[k] == (p.row, p.col, o1);
                    assert(ms1[j1].0 == ms1[k1].0);
                }
                None => {
                    assert(ms1[k1].0 == p.row);
                }
            }
        }
        None => {
            if let Some(o1) = mirror_at(ms1, p) {
                let j1 = choose|k: int| 0 <= k < ms1.len() && #[trigger] ms1[k] == (p.row, p.col, o1);
                assert(ms1.contains(ms1[j1]));
                let j2 = choose|k: int| 0 <= k < ms2.len() && ms2[k] == ms1[j1];
                assert(ms2[j2].0 == p.row);
            }
        }
    }
}

proof fn lemma_trace_from_mirror_at(
    target: GridPos,
    ms1: Seq<(i32, i32, MirrorOrientation)>,
    ms2: Seq<(i32, i32, MirrorOrientation)>,
    pos: GridPos,
    dir: Direction,
    start: GridPos,
    visited: Set<(GridPos, Direction)>,
    segs: Seq<BeamSegment>,
    fuel: nat,
)
    requires
        forall|p: GridPos| #[trigger] mirror_at(ms1, p) == mirror_at(ms2, p),
    ensures
        trace_from(target, ms1, pos, dir, start, visited, segs, fuel) == trace_from(
            target,
            ms2,
            pos,
            dir,
            start,
            visited,
            segs,
            fuel,
        ),
    decreases fuel,
{
    assert(mirror_at(ms1, pos) == mirror_at(ms2, pos));
    if fuel > 0 {
        let dir1 = heading(ms1, pos, dir);
        let start1 = if turned(ms1, pos, dir) is Some { pos } else { start };
        let segs1 = if turned(ms1, pos, dir) is Some {
            segs.push(BeamSegment { start, end: pos })
        } else {
            segs
        };
        lemma_trace_from_mirror_at(
            target,
            ms1,
            ms2,
            pos_step(pos, dir1),
            dir1,
            start1,
            visited.insert((pos, dir)),
            segs1,
            (fuel - 1) as nat,
        );
    }
}

/// The beam sees the mirror list only through which mirror stands on each cell:
/// two lists that put the same mirror (or none) on every cell give the same beam.
pub proof fn lemma_trace_depends_on_cells(
    source: GridPos,
    dir: Direction,
    target: GridPos,
    ms1: Seq<(i32, i32, MirrorOrientation)>,
    ms2: Seq<(i32, i32, MirrorOrientation)>,
)
    requires
        forall|p: GridPos| #[trigger] mirror_at(ms1, p) == mirror_at(ms2, p),
    ensures
        beam_trace(source, dir, target, ms1) == beam_trace(source, dir, target, ms2),
        beam_can_start(source, dir, target, ms1) == beam_can_start(source, dir, target, ms2),
{
    assert(mirror_at(ms1, source) == mirror_at(ms2, source));
    lemma_trace_from_mirror_at(
        target,
        ms1,
        ms2,
        source,
        dir,
        source,
        Set::empty(),
        Seq::empty(),
        MAX_STEPS as nat,
    );
}

/// The order in which mirrors are listed does not matter where no two share a cell:
/// listing the same mirrors in another order gives the same pieces and the same outcome.
pub proof fn lemma_mirror_order_irrelevant(
    source: GridPos,
    dir: Direction,
    target: GridPos,
    ms1: Seq<(i32, i32, MirrorOrientation)>,
    ms2: Seq<(i32, i32, MirrorOrientation)>,
)
    requires
        distinct_cells(ms1),
        ms1.to_multiset() == ms2.to_multiset(),
    ensures
        beam_trace(source, dir, target, ms1) == beam_trace(source, dir, target, ms2),
        beam_can_start(source, dir, target, ms1) == beam_can_start(source, dir, target, ms2),
{
    ms1.to_multiset_ensures();
    ms2.to_multiset_ensures();
    assert forall|e: (i32, i32, MirrorOrientation)| ms1.contains(e) <==> ms2.contains(e) by {
        assert(ms1.contains(e) <==> ms1.to_multiset().count(e) > 0);
        assert(ms2.contains(e) <==> ms2.to_multiset().count(e) > 0);
    }
    assert forall|p: GridPos| #[trigger] mirror_at(ms1, p) == mirror_at(ms2, p) by {
        lemma_same_mirrors_same_cells(ms1, ms2, p);
    }
    lemma_trace_depends_on_cells(source, dir, target, ms1, ms2);
}

proof fn lemma_trace_from_length(
    target: GridPos,
    ms: Seq<(i32, i32, MirrorOrientation)>,
    pos: GridPos,
    dir: Direction,
    start: GridPos,
    visited: Set<(GridPos, Direction)>,
    segs: Seq<BeamSegment>,
    fuel: nat,
)
    ensures
        segs.len() <= trace_from(target, ms, pos, dir, start, visited, segs, fuel).0.len() <= segs.len()
            + fuel + 1,
    decreases fuel,
{
    if fuel > 0 {
        let dir1 = heading(ms, pos, dir);
        let start1 = if turned(ms, pos, dir) is Some { pos } else { start };
        let segs1 = if turned(ms, pos, dir) is Some {
            segs.push(BeamSegment { start, end: pos })
        } else {
            segs
        };
        lemma_trace_from_length(
            target,
            ms,
            pos_step(pos, dir1),
            dir1,
            start1,
            visited.insert((pos, dir)),
            segs1,
            (fuel - 1) as nat,
        );
    }
}

/// How far `pos` has moved from `source` along direction `d`.
spec fn progress(source: GridPos, pos: GridPos, d: Direction) -> int {
    match d {
        Direction::Right => pos.col - source.col,
        Direction::Left => source.col - pos.col,
        Direction::Down => pos.row - source.row,
        Direction::Up => source.row - pos.row,
    }
}

/// Whether the beam, straight so far, has not drawn a piece yet: it keeps its first
/// direction, lies on its line, has entered the grid after its first move, and has
/// spent one unit of fuel per cell moved.
spec fn straight_so_far(
    source: GridPos,
    pos: GridPos,
    dir: Direction,
    visited: Set<(GridPos, Direction)>,
    fuel: nat,
) -> bool {
    &&& on_line(source, pos, dir)
    &&& 0 <= progress(source, pos, dir)
    &&& fuel + progress(source, pos, dir) == MAX_STEPS
    &&& progress(source, pos, dir) > 0 ==> pos_in_bounds(pos_step(source, dir), GRID_SIZE as int)
        && pos_in_bounds(pos, GRID_SIZE as int)
    &&& forall|s: (GridPos, Direction)|
        #[trigger] visited.contains(s) ==> s.1 == dir && progress(s.0, pos, dir) > 0
}

proof fn lemma_trace_from_first_piece(
    source: GridPos,
    target: GridPos,
    ms: Seq<(i32, i32, MirrorOrientation)>,
    pos: GridPos,
    dir: Direction,
    visited: Set<(GridPos, Direction)>,
    fuel: nat,
)
    requires
        straight_so_far(source, pos, dir, visited, fuel),
        beam_can_start(source, dir, target, ms),
    ensures
        ({
            let r = trace_from(target, ms, pos, dir, source, visited, Seq::empty(), fuel);
            &&& r.0.len() >= 1
            &&& (forall|p: GridPos, d: Direction| #[trigger] turned(ms, p, d) is None) ==> r.0.len()
                == 1
        }),
    decreases fuel,
{
    let segs = Seq::<BeamSegment>::empty();
    assert(fuel > 0);
    if visited.contains((pos, dir)) {
        assert(progress(pos, pos, dir) > 0);
    }
    if pos == target {
    } else if turned(ms, pos, dir) is Some {
        let dir1 = heading(ms, pos, dir);
        let next = pos_step(pos, dir1);
        let segs1 = segs.push(BeamSegment { start: source, end: pos });
        if pos_in_bounds(next, GRID_SIZE as int) {
            lemma_trace_from_length(
                target,
                ms,
                next,
                dir1,
                pos,
                visited.insert((pos, dir)),
                segs1,
                (fuel - 1) as nat,
            );
        }
    } else {
        let next = pos_step(pos, dir);
        if progress(source, pos, dir) > 0 {
            lemma_in_bounds_can_step(pos, GRID_SIZE as int, dir);
        }
        assert(can_step(pos, dir));
        if pos_in_bounds(next, GRID_SIZE as int) {
            let v1 = visited.insert((pos, dir));
            assert forall|s: (GridPos, Direction)| #[trigger] v1.contains(s) implies s.1 == dir
                && progress(s.0, next, dir) > 0 by {
                if s != (pos, dir) {
                    assert(visited.contains(s));
                }
            }
            lemma_trace_from_first_piece(source, target, ms, next, dir, v1, (fuel - 1) as nat);
        }
    }
}

/// The beam always draws at least one piece and at most `MAX_STEPS + 1`; without
/// mirrors it draws exactly one.
pub proof fn lemma_piece_count(
    source: GridPos,
    dir: Direction,
    target: GridPos,
    ms: Seq<(i32, i32, MirrorOrientation)>,
)
    requires
        beam_can_start(source, dir, target, ms),
    ensures
        1 <= beam_trace(source, dir, target, ms).0.len() <= MAX_STEPS + 1,
        ms.len() == 0 ==> beam_trace(source, dir, target, ms).0.len() == 1,
{
    lemma_trace_from_length(
        target,
        ms,
        source,
        dir,
        source,
        Set::empty(),
        Seq::empty(),
        MAX_STEPS as nat,
    );
    lemma_trace_from_first_piece(source, target, ms, source, dir, Set::empty(), MAX_STEPS as nat);
    if ms.len() == 0 {
        assert forall|p: GridPos, d: Direction| #[trigger] turned(ms, p, d) is None by {
            assert(first_mirror_from(ms, p, 0) is None);
        }
    }
}

/// Where the beam stands and which way it travels after `k` moves, ignoring where it
/// would have stopped: each move turns the beam at a reflecting mirror, then steps on.
pub open spec fn beam_state(
    source: GridPos,
    dir: Direction,
    ms: Seq<(i32, i32, MirrorOrientation)>,
    k: nat,
) -> (GridPos, Direction)
    decreases k,
{
    if k == 0 {
        (source, dir)
    } else {
        let prev = beam_state(source, dir, ms, (k - 1) as nat);
        let d = heading(ms, prev.0, prev.1);
        (pos_step(prev.0, d), d)
    }
}

/// After `k` moves the beam is not on the target, and its next move lands on the grid.
pub open spec fn moves_on(
    source: GridPos,
    dir: Direction,
    target: GridPos,
    ms: Seq<(i32, i32, MirrorOrientation)>,
    k: nat,
) -> bool {
    &&& beam_state(source, dir, ms, k).0 != target
    &&& pos_in_bounds(beam_state(source, dir, ms, k + 1).0, GRID_SIZE as int)
}

/// The beam stands on the target after `n < MAX_STEPS` moves, each earlier move having
/// landed on the grid away from the target, without ever repeating a cell and direction.
pub open spec fn reaches_within(
    source: GridPos,
    dir: Direction,
    target: GridPos,
    ms: Seq<(i32, i32, MirrorOrientation)>,
    n: nat,
) -> bool {
    &&& n < MAX_STEPS
    &&& beam_state(source, dir, ms, n).0 == target
    &&& forall|k: nat| k < n ==> #[trigger] moves_on(source, dir, target, ms, k)
    &&& forall|i: nat, j: nat|
        i < j <= n ==> #[trigger] beam_state(source, dir, ms, i) != #[trigger] beam_state(
            source,
            dir,
            ms,
            j,
        )
}

proof fn lemma_reach_from(
    source: GridPos,
    dir: Direction,
    target: GridPos,
    ms: Seq<(i32, i32, MirrorOrientation)>,
    m: nat,
    start: GridPos,
    visited: Set<(GridPos, Direction)>,
    segs: Seq<BeamSegment>,
)
    requires
        m <= MAX_STEPS,
        forall|s: (GridPos, Direction)|
            #[trigger] visited.contains(s) <==> exists|k: nat|
                k < m && #[trigger] beam_state(source, dir, ms, k) == s,
        forall|k: nat| k < m ==> #[trigger] moves_on(source, dir, target, ms, k),
        forall|i: nat, j: nat|
            i < j < m ==> #[trigger] beam_state(source, dir, ms, i) != #[trigger] beam_state(
                source,
                dir,
                ms,
                j,
            ),
    ensures
        trace_from(
            target,
            ms,
            beam_state(source, dir, ms, m).0,
            beam_state(source, dir, ms, m).1,
            start,
            visited,
            segs,
            (MAX_STEPS - m) as nat,
        ).1 <==> exists|n: nat| m <= n && #[trigger] reaches_within(source, dir, target, ms, n),
    decreases MAX_STEPS - m,
{
    let st = beam_state(source, dir, ms, m);
    let pos = st.0;
    let d = st.1;
    if m == MAX_STEPS {
        if exists|n: nat| m <= n && #[trigger] reaches_within(source, dir, target, ms, n) {
            let n = choose|n: nat| m <= n && #[trigger] reaches_within(source, dir, target, ms, n);
            assert(n < MAX_STEPS);
        }
    } else if visited.contains(st) {
        let k = choose|k: nat| k < m && #[trigger] beam_state(source, dir, ms, k) == st;
        if exists|n: nat| m <= n && #[trigger] reaches_within(source, dir, target, ms, n) {
            let n = choose|n: nat| m <= n && #[trigger] reaches_within(source, dir, target, ms, n);
            assert(beam_state(source, dir, ms, k) != beam_state(source, dir, ms, m));
        }
    } else if pos == target {
        assert forall|i: nat, j: nat| i < j <= m implies #[trigger] beam_state(source, dir, ms, i)
            != #[trigger] beam_state(source, dir, ms, j) by {
            if j == m {
                if beam_state(source, dir, ms, i) == st {
                    assert(visited.contains(beam_state(source, dir, ms, i)));
                }
            }
        }
        assert(reaches_within(source, dir, target, ms, m));
    } else {
        let next_state = beam_state(source, dir, ms, m + 1);
        assert(next_state == (pos_step(pos, heading(ms, pos, d)), heading(ms, pos, d)));
        let next = next_state.0;
        if !pos_in_bounds(next, GRID_SIZE as int) {
            if exists|n: nat| m <= n && #[trigger] reaches_within(source, dir, target, ms, n) {
                let n = choose|n: nat| m <= n && #[trigger] reaches_within(source, dir, target, ms, n);
                if n > m {
                    assert(moves_on(source, dir, target, ms, m));
                }
            }
        } else {
            let start1 = if turned(ms, pos, d) is Some { pos } else { start };
            let segs1 = if turned(ms, pos, d) is Some {
                segs.push(BeamSegment { start, end: pos })
            } else {
                segs
            };
            let v1 = visited.insert(st);
            assert(moves_on(source, dir, target, ms, m));
            assert forall|s: (GridPos, Direction)| #[trigger] v1.contains(s) <==> exists|k: nat|
                k < m + 1 && #[trigger] beam_state(source, dir, ms, k) == s by {
                if s == st {
                    assert(beam_state(source, dir, ms, m) == s);
                }
                if exists|k: nat| k < m + 1 && #[trigger] beam_state(source, dir, ms, k) == s {
                    let k = choose|k: nat| k < m + 1 && #[trigger] beam_state(source, dir, ms, k) == s;
                    if k < m {
                        assert(visited.contains(s));
                    }
                }
            }
            assert forall|i: nat, j: nat| i < j < m + 1 implies #[trigger] beam_state(
                source,
                dir,
                ms,
                i,
            ) != #[trigger] beam_state(source, dir, ms, j) by {
                if j == m {
                    if beam_state(source, dir, ms, i) == st {
                        assert(visited.contains(beam_state(source, dir, ms, i)));
                    }
                }
            }
            lemma_reach_from(source, dir, target, ms, m + 1, start1, v1, segs1);
            if exists|n: nat| m <= n && #[trigger] reaches_within(source, dir, target, ms, n) {
                let n = choose|n: nat| m <= n && #[trigger] reaches_within(source, dir, target, ms, n);
                assert(n != m);
                assert(m + 1 <= n);
            }
        }
    }
}

/// The beam reaches the target exactly when, followed move by move, it stands on the
/// target within `MAX_STEPS` moves, every earlier move landing on the grid away from the
/// target and no cell being entered twice in the same direction.
pub proof fn lemma_reaches_target_iff(
    source: GridPos,
    dir: Direction,
    target: GridPos,
    ms: Seq<(i32, i32, MirrorOrientation)>,
)
    ensures
        beam_trace(source, dir, target, ms).1 <==> exists|n: nat| #[trigger]
            reaches_within(source, dir, target, ms, n),
{
    lemma_reach_from(source, dir, target, ms, 0, source, Set::empty(), Seq::empty());
}

/// The mirror that counts on a cell is the first one listed there: `mirror_at` gives the
/// orientation of an entry on `p` with no entry on `p` before it, and `None` exactly where
/// no entry stands on `p`.
pub proof fn lemma_mirror_at_first_listed(ms: Seq<(i32, i32, MirrorOrientation)>, p: GridPos)
    ensures
        mirror_at(ms, p) matches Some(o) ==> exists|i: int|
            0 <= i < ms.len() && #[trigger] ms[i] == (p.row, p.col, o) && forall|j: int|
                0 <= j < i ==> !(#[trigger] ms[j].0 == p.row && ms[j].1 == p.col),
        mirror_at(ms, p) is None <==> forall|i: int|
            0 <= i < ms.len() ==> !(#[trigger] ms[i].0 == p.row && ms[i].1 == p.col),
{
    lemma_first_mirror_from_first(ms, p, 0);
}

proof fn lemma_first_mirror_from_first(ms: Seq<(i32, i32, MirrorOrientation)>, p: GridPos, i: int)
    requires
        0 <= i,
    ensures
        first_mirror_from(ms, p, i) matches Some(o) ==> exists|k: int|
            i <= k < ms.len() && #[trigger] ms[k] == (p.row, p.col, o) && forall|j: int|
                i <= j < k ==> !(#[trigger] ms[j].0 == p.row && ms[j].1 == p.col),
        first_mirror_from(ms, p, i) is None <==> forall|k: int|
            i <= k < ms.len() ==> !(#[trigger] ms[k].0 == p.row && ms[k].1 == p.col),
    decreases ms.len() - i,
{
    if i < ms.len() {
        if ms[i].0 == p.row && ms[i].1 == p.col {
            assert(ms[i] == (p.row, p.col, ms[i].2));
        } else {
            lemma_first_mirror_from_first(ms, p, i + 1);
            if let Some(o) = first_mirror_from(ms, p, i) {
                let k = choose|k: int|
                    i + 1 <= k < ms.len() && #[trigger] ms[k] == (p.row, p.col, o) && forall|j: int|
                        i + 1 <= j < k ==> !(#[trigger] ms[j].0 == p.row && ms[j].1 == p.col);
                assert(forall|j: int|
                    i <= j < k ==> !(#[trigger] ms[j].0 == p.row && ms[j].1 == p.col));
            }
        }
    }
}

/// Each move of the beam obeys the mirrors: from the cell it stands on, the beam leaves in
/// the direction that the first mirror listed there reflects it to, keeps its direction where
/// that mirror lets it pass or no mirror stands there, and steps one cell that way.
pub proof fn lemma_beam_moves(
    source: GridPos,
    dir: Direction,
    ms: Seq<(i32, i32, MirrorOrientation)>,
    k: nat,
)
    ensures
        ({
            let s = beam_state(source, dir, ms, k);
            let h = match mirror_at(ms, s.0) {
                Some(o) => match reflected(o, s.1) {
                    Some(e) => e,
                    None => s.1,
                },
                None => s.1,
            };
            beam_state(source, dir, ms, k + 1) == (pos_step(s.0, h), h)
        }),
        beam_state(source, dir, ms, 0) == (source, dir),
{
}

/// Whether the first mirror listed on the cell of state `s` reflects a beam in that state.
pub open spec fn reflects_at(ms: Seq<(i32, i32, MirrorOrientation)>, s: (GridPos, Direction)) -> bool {
    match mirror_at(ms, s.0) {
        Some(o) => reflected(o, s.1) is Some,
        None => false,
    }
}

/// The state after `k` moves differs from every earlier one.
pub open spec fn fresh(
    source: GridPos,
    dir: Direction,
    ms: Seq<(i32, i32, MirrorOrientation)>,
    k: nat,
) -> bool {
    forall|j: nat| j < k ==> #[trigger] beam_state(source, dir, ms, j) != beam_state(source, dir, ms, k)
}

/// The beam has made its first `m` moves without stopping: each one out of a new state,
/// away from the target, onto the grid.
pub open spec fn running(
    source: GridPos,
    dir: Direction,
    target: GridPos,
    ms: Seq<(i32, i32, MirrorOrientation)>,
    m: nat,
) -> bool {
    forall|k: nat|
        #![trigger moves_on(source, dir, target, ms, k)]
        k < m ==> moves_on(source, dir, target, ms, k) && fresh(source, dir, ms, k)
}

/// The beam, having run `m` moves, stops in state `m`: it is out of moves, repeats a state,
/// stands on the target, or would step off the grid.
pub open spec fn stops_at(
    source: GridPos,
    dir: Direction,
    target: GridPos,
    ms: Seq<(i32, i32, MirrorOrientation)>,
    m: nat,
) -> bool {
    &&& m <= MAX_STEPS
    &&& running(source, dir, target, ms, m)
    &&& m == MAX_STEPS || !fresh(source, dir, ms, m) || beam_state(source, dir, ms, m).0 == target
        || !pos_in_bounds(beam_state(source, dir, ms, m + 1).0, GRID_SIZE as int)
}

/// The cells, in order, where the beam is reflected during its first `m` moves.
pub open spec fn reflection_cells(
    source: GridPos,
    dir: Direction,
    ms: Seq<(i32, i32, MirrorOrientation)>,
    m: nat,
) -> Seq<GridPos>
    decreases m,
{
    if m == 0 {
        Seq::empty()
    } else {
        let prev = reflection_cells(source, dir, ms, (m - 1) as nat);
        let s = beam_state(source, dir, ms, (m - 1) as nat);
        if reflects_at(ms, s) {
            prev.push(s.0)
        } else {
            prev
        }
    }
}

/// The ends of the pieces the beam closes in the state `m` where it stops: none where it is
/// out of moves or repeats a state; the target where it stands there; where it would leave
/// the grid, its cell, twice if a mirror there reflects it first.
pub open spec fn final_cells(
    source: GridPos,
    dir: Direction,
    target: GridPos,
    ms: Seq<(i32, i32, MirrorOrientation)>,
    m: nat,
) -> Seq<GridPos> {
    let s = beam_state(source, dir, ms, m);
    if m == MAX_STEPS || !fresh(source, dir, ms, m) {
        Seq::empty()
    } else if s.0 == target {
        seq![s.0]
    } else if reflects_at(ms, s) {
        seq![s.0, s.0]
    } else {
        seq![s.0]
    }
}

/// The pieces run end to end from `source`.
pub open spec fn linked(source: GridPos, segs: Seq<BeamSegment>) -> bool {
    forall|i: int|
        0 <= i < segs.len() ==> #[trigger] segs[i].start == (if i == 0 {
            source
        } else {
            segs[i - 1].end
        })
}

proof fn lemma_pieces_from(
    source: GridPos,
    dir: Direction,
    target: GridPos,
    ms: Seq<(i32, i32, MirrorOrientation)>,
    m: nat,
    start: GridPos,
    visited: Set<(GridPos, Direction)>,
    segs: Seq<BeamSegment>,
)
    requires
        m <= MAX_STEPS,
        running(source, dir, target, ms, m),
        forall|s: (GridPos, Direction)|
            #[trigger] visited.contains(s) <==> exists|k: nat|
                k < m && #[trigger] beam_state(source, dir, ms, k) == s,
        segs.map_values(|g: BeamSegment| g.end) == reflection_cells(source, dir, ms, m),
        linked(source, segs),
        start == (if segs.len() == 0 {
            source
        } else {
            segs.last().end
        }),
    ensures
        ({
            let r = trace_from(
                target,
                ms,
                beam_state(source, dir, ms, m).0,
                beam_state(source, dir, ms, m).1,
                start,
                visited,
                segs,
                (MAX_STEPS - m) as nat,
            );
            exists|n: nat|
                m <= n && #[trigger] stops_at(source, dir, target, ms, n) && r.0.map_values(
                    |g: BeamSegment| g.end,
                ) == reflection_cells(source, dir, ms, n) + final_cells(
                    source,
                    dir,
                    target,
                    ms,
                    n,
                ) && linked(source, r.0) && r.1 == (n < MAX_STEPS && fresh(source, dir, ms, n)
                    && beam_state(source, dir, ms, n).0 == target)
        }),
    decreases MAX_STEPS - m,
{
    let st = beam_state(source, dir, ms, m);
    let pos = st.0;
    let d = st.1;
    let ends = segs.map_values(|g: BeamSegment| g.end);
    let r = trace_from(target, ms, pos, d, start, visited, segs, (MAX_STEPS - m) as nat);
    if m == MAX_STEPS {
        assert(ends + final_cells(source, dir, target, ms, m) =~= ends);
        assert(stops_at(source, dir, target, ms, m));
    } else if visited.contains(st) {
        let k = choose|k: nat| k < m && #[trigger] beam_state(source, dir, ms, k) == st;
        assert(!fresh(source, dir, ms, m));
        assert(ends + final_cells(source, dir, target, ms, m) =~= ends);
        assert(stops_at(source, dir, target, ms, m));
    } else {
        assert(fresh(source, dir, ms, m)) by {
            assert forall|j: nat| j < m implies #[trigger] beam_state(source, dir, ms, j) != st by {
                if beam_state(source, dir, ms, j) == st {
                    assert(visited.contains(st));
                }
            }
        }
        let piece = BeamSegment { start, end: pos };
        if pos == target {
            let t = segs.push(piece);
            assert(t.map_values(|g: BeamSegment| g.end) =~= ends + final_cells(
                source,
                dir,
                target,
                ms,
                m,
            ));
            assert(linked(source, t)) by {
                assert forall|i: int| 0 <= i < t.len() implies #[trigger] t[i].start == (if i
                    == 0 {
                    source
                } else {
                    t[i - 1].end
                }) by {
                    if i < segs.len() {
                        assert(t[i] == segs[i]);
                    }
                }
            }
            assert(stops_at(source, dir, target, ms, m));
        } else {
            let refl = reflects_at(ms, st);
            assert(turned(ms, pos, d) is Some <==> refl);
            let segs1 = if refl {
                segs.push(piece)
            } else {
                segs
            };
            let start1 = if refl {
                pos
            } else {
                start
            };
            let next_state = beam_state(source, dir, ms, m + 1);
            assert(next_state == (pos_step(pos, heading(ms, pos, d)), heading(ms, pos, d)));
            assert(segs1.map_values(|g: BeamSegment| g.end) =~= reflection_cells(
                source,
                dir,
                ms,
                m + 1,
            ));
            assert(linked(source, segs1)) by {
                assert forall|i: int| 0 <= i < segs1.len() implies #[trigger] segs1[i].start == (
                if i == 0 {
                    source
                } else {
                    segs1[i - 1].end
                }) by {
                    if i < segs.len() {
                        assert(segs1[i] == segs[i]);
                    }
                }
            }
            if !pos_in_bounds(next_state.0, GRID_SIZE as int) {
                let t = segs1.push(BeamSegment { start: start1, end: pos });
                assert(t.map_values(|g: BeamSegment| g.end) =~= ends + final_cells(
                    source,
                    dir,
                    target,
                    ms,
                    m,
                ));
                assert(linked(source, t)) by {
                    assert forall|i: int| 0 <= i < t.len() implies #[trigger] t[i].start == (if i
                        == 0 {
                        source
                    } else {
                        t[i - 1].end
                    }) by {
                        if i < segs1.len() {
                            assert(t[i] == segs1[i]);
                        }
                    }
                }
                assert(stops_at(source, dir, target, ms, m));
            } else {
                let v1 = visited.insert(st);
                assert(moves_on(source, dir, target, ms, m));
                assert(running(source, dir, target, ms, m + 1)) by {
                    assert forall|k: nat| k < m + 1 implies #[trigger] moves_on(
                        source,
                        dir,
                        target,
                        ms,
                        k,
                    ) && fresh(source, dir, ms, k) by {
                        if k < m {
                            assert(running(source, dir, target, ms, m));
                            assert(moves_on(source, dir, target, ms, k));
                            assert(fresh(source, dir, ms, k));
                        }
                    }
                }
                assert forall|s: (GridPos, Direction)| #[trigger] v1.contains(s) <==> exists|k: nat|
                    k < m + 1 && #[trigger] beam_state(source, dir, ms, k) == s by {
                    if s == st {
                        assert(beam_state(source, dir, ms, m) == s);
                    }
                    if exists|k: nat| k < m + 1 && #[trigger] beam_state(source, dir, ms, k) == s {
                        let k = choose|k: nat|
                            k < m + 1 && #[trigger] beam_state(source, dir, ms, k) == s;
                        if k < m {
                            assert(visited.contains(s));
                        }
                    }
                }
                lemma_pieces_from(source, dir, target, ms, m + 1, start1, v1, segs1);
            }
        }
    }
}

/// Where the beam breaks into pieces: followed move by move, it stops in exactly one state
/// `n`, and its pieces run end to end from the source, ending in turn at each cell where a
/// mirror reflected it before state `n`, then at the cells it closes in state `n`; it reaches
/// the target exactly when it stops there.
pub proof fn lemma_beam_pieces(
    source: GridPos,
    dir: Direction,
    target: GridPos,
    ms: Seq<(i32, i32, MirrorOrientation)>,
)
    ensures
        ({
            let r = beam_trace(source, dir, target, ms);
            &&& exists|n: nat|
                #[trigger] stops_at(source, dir, target, ms, n) && r.0.map_values(
                    |g: BeamSegment| g.end,
                ) == reflection_cells(source, dir, ms, n) + final_cells(
                    source,
                    dir,
                    target,
                    ms,
                    n,
                ) && r.1 == (n < MAX_STEPS && fresh(source, dir, ms, n) && beam_state(
                    source,
                    dir,
                    ms,
                    n,
                ).0 == target)
            &&& linked(source, r.0)
        }),
        forall|n1: nat, n2: nat|
            #[trigger] stops_at(source, dir, target, ms, n1) && #[trigger] stops_at(
                source,
                dir,
                target,
                ms,
                n2,
            ) ==> n1 == n2,
{
    assert(Seq::<BeamSegment>::empty().map_values(|g: BeamSegment| g.end) =~= reflection_cells(
        source,
        dir,
        ms,
        0,
    ));
    lemma_pieces_from(source, dir, target, ms, 0, source, Set::empty(), Seq::empty());
    assert forall|n1: nat, n2: nat|
        #[trigger] stops_at(source, dir, target, ms, n1) && #[trigger] stops_at(
            source,
            dir,
            target,
            ms,
            n2,
        ) implies n1 == n2 by {
        if n1 < n2 {
            assert(moves_on(source, dir, target, ms, n1) && fresh(source, dir, ms, n1));
        } else if n2 < n1 {
            assert(moves_on(source, dir, target, ms, n2) && fresh(source, dir, ms, n2));
        }
    }
}

} // verus!
