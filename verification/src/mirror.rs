use vstd::prelude::*;

use crate::types::{dir_dc, dir_dr, opposite, Direction};

verus! {

/// How a mirror stands in its cell: `/`, `\`, `-` or `|`.
#[derive(Debug, Clone, Copy, PartialEq, Eq, Hash, Structural)]
pub enum MirrorOrientation {
    ForwardSlash,
    BackSlash,
    Horizontal,
    Vertical,
}

/// The orientation that follows `m` in the click cycle / → | → \ → - → /.
pub open spec fn rotated(m: MirrorOrientation) -> MirrorOrientation {
    match m {
        MirrorOrientation::ForwardSlash => MirrorOrientation::Vertical,
        MirrorOrientation::Vertical => MirrorOrientation::BackSlash,
        MirrorOrientation::BackSlash => MirrorOrientation::Horizontal,
        MirrorOrientation::Horizontal => MirrorOrientation::ForwardSlash,
    }
}

/// The direction a beam travelling in `d` leaves a mirror `m` with,
/// or `None` where the beam runs along the mirror and passes through.
pub open spec fn reflected(m: MirrorOrientation, d: Direction) -> Option<Direction> {
    match (m, d) {
        (MirrorOrientation::ForwardSlash, Direction::Right) => Some(Direction::Up),
        (MirrorOrientation::ForwardSlash, Direction::Left) => Some(Direction::Down),
        (MirrorOrientation::ForwardSlash, Direction::Down) => Some(Direction::Left),
        (MirrorOrientation::ForwardSlash, Direction::Up) => Some(Direction::Right),
        (MirrorOrientation::BackSlash, Direction::Right) => Some(Direction::Down),
        (MirrorOrientation::BackSlash, Direction::Left) => Some(Direction::Up),
        (MirrorOrientation::BackSlash, Direction::Down) => Some(Direction::Right),
        (MirrorOrientation::BackSlash, Direction::Up) => Some(Direction::Left),
        (MirrorOrientation::Horizontal, Direction::Down) => Some(Direction::Up),
        (MirrorOrientation::Horizontal, Direction::Up) => Some(Direction::Down),
        (MirrorOrientation::Horizontal, Direction::Right) => None,
        (MirrorOrientation::Horizontal, Direction::Left) => None,
        (MirrorOrientation::Vertical, Direction::Right) => Some(Direction::Left),
        (MirrorOrientation::Vertical, Direction::Left) => Some(Direction::Right),
        (MirrorOrientation::Vertical, Direction::Down) => None,
        (MirrorOrientation::Vertical, Direction::Up) => None,
    }
}

impl MirrorOrientation {
    /// Cycle: / → | → \ → - → /
    pub fn rotate(self) -> (r: Self)
        ensures
            r == rotated(self),
    {
        match self {
            Self::ForwardSlash => Self::Vertical,
            Self::Vertical => Self::BackSlash,
            Self::BackSlash => Self::Horizontal,
            Self::Horizontal => Self::ForwardSlash,
        }
    }

    /// Returns the new beam direction after hitting this mirror,
    /// or None if the beam passes through.
    pub fn reflect(self, incoming: Direction) -> (r: Option<Direction>)
        ensures
            r == reflected(self, incoming),
    {
        match (self, incoming) {
            (Self::ForwardSlash, Direction::Right) => Some(Direction::Up),
            (Self::ForwardSlash, Direction::Left) => Some(Direction::Down),
            (Self::ForwardSlash, Direction::Down) => Some(Direction::Left),
            (Self::ForwardSlash, Direction::Up) => Some(Direction::Right),
            (Self::BackSlash, Direction::Right) => Some(Direction::Down),
            (Self::BackSlash, Direction::Left) => Some(Direction::Up),
            (Self::BackSlash, Direction::Down) => Some(Direction::Right),
            (Self::BackSlash, Direction::Up) => Some(Direction::Left),
            (Self::Horizontal, Direction::Down) => Some(Direction::Up),
            (Self::Horizontal, Direction::Up) => Some(Direction::Down),
            (Self::Horizontal, Direction::Right) => None,
            (Self::Horizontal, Direction::Left) => None,
            (Self::Vertical, Direction::Right) => Some(Direction::Left),
            (Self::Vertical, Direction::Left) => Some(Direction::Right),
            (Self::Vertical, Direction::Down) => None,
            (Self::Vertical, Direction::Up) => None,
        }
    }
}

/// The orientation after `k` clicks on a mirror standing as `m`.
pub open spec fn rotated_times(m: MirrorOrientation, k: nat) -> MirrorOrientation
    decreases k,
{
    if k == 0 {
        m
    } else {
        rotated(rotated_times(m, (k - 1) as nat))
    }
}

/// Four clicks bring a mirror back to where it started, and no fewer do:
/// any orientation `n` is reached from `m` within three clicks.
pub proof fn lemma_rotate_cycle(m: MirrorOrientation, n: MirrorOrientation)
    ensures
        rotated_times(m, 4) == m,
        forall|k: nat| 0 < k < 4 ==> #[trigger] rotated_times(m, k) != m,
        exists|k: nat| k < 4 && #[trigger] rotated_times(m, k) == n,
{
    reveal_with_fuel(rotated_times, 5);
    assert(rotated_times(m, 1) == rotated(m));
    assert(rotated_times(m, 2) == rotated(rotated(m)));
    assert(rotated_times(m, 3) == rotated(rotated(rotated(m))));
    if n == m {
        assert(rotated_times(m, 0) == n);
    } else if n == rotated(m) {
        assert(rotated_times(m, 1) == n);
    } else if n == rotated(rotated(m)) {
        assert(rotated_times(m, 2) == n);
    } else {
        assert(rotated_times(m, 3) == n);
    }
}

/// The law of reflection on the grid: `/` swaps the two axes and negates them, `\` swaps
/// them, `-` negates the row and `|` the column; a beam running along `-` or `|` passes
/// through, and any other beam is reflected.
pub proof fn lemma_reflect_geometry(m: MirrorOrientation, d: Direction)
    ensures
        reflected(m, d) is None <==> (m == MirrorOrientation::Horizontal && dir_dr(d) == 0)
            || (m == MirrorOrientation::Vertical && dir_dc(d) == 0),
        reflected(m, d) matches Some(e) ==> match m {
            MirrorOrientation::ForwardSlash => dir_dr(e) == -dir_dc(d) && dir_dc(e) == -dir_dr(d),
            MirrorOrientation::BackSlash => dir_dr(e) == dir_dc(d) && dir_dc(e) == dir_dr(d),
            MirrorOrientation::Horizontal => dir_dr(e) == -dir_dr(d) && dir_dc(e) == dir_dc(d),
            MirrorOrientation::Vertical => dir_dr(e) == dir_dr(d) && dir_dc(e) == -dir_dc(d),
        },
{
}

/// Light paths are reversible: a beam sent back along the way a mirror sent it
/// leaves the mirror the way the first beam came in.
pub proof fn lemma_reflect_reversible(m: MirrorOrientation, d: Direction)
    ensures
        reflected(m, d) matches Some(e) ==> reflected(m, opposite(e)) == Some(opposite(d)),
        reflected(m, d) is None ==> reflected(m, opposite(d)) is None,
{
}

/// A mirror placed on the grid; a fixed one cannot be rotated by the player.
#[derive(Debug, Clone, Copy, PartialEq, Eq, Structural)]
pub struct Mirror {
    pub row: i32,
    pub col: i32,
    pub fixed: bool,
}

/// How a mirror is drawn: fixed ones muted, rotatable ones highlighted while hovered.
#[derive(Debug, Clone, Copy, PartialEq, Eq, Structural)]
pub enum MirrorShade {
    Fixed,
    Hovered,
    Rotatable,
}

impl Mirror {
    /// The orientation this mirror takes when the player clicks cell (`row`, `col`)
    /// while it stands as `orientation`: `Some` of the next orientation in the cycle
    /// where the click hits this mirror and it is rotatable, `None` where it stays as it is.
    pub fn on_click(&self, orientation: MirrorOrientation, row: i32, col: i32) -> (r: Option<
        MirrorOrientation,
    >)
        ensures
            r == (if self.row == row && self.col == col && !self.fixed {
                Some(rotated(orientation))
            } else {
                None
            }),
    {
        if self.row == row && self.col == col && !self.fixed {
            Some(orientation.rotate())
        } else {
            None
        }
    }

    /// The shade of this mirror while the cursor is over `hovered` (`None`: off the grid).
    pub fn shade(&self, hovered: Option<(i32, i32)>) -> (r: MirrorShade)
        ensures
            r == (if self.fixed {
                MirrorShade::Fixed
            } else if hovered == Some((self.row, self.col)) {
                MirrorShade::Hovered
            } else {
                MirrorShade::Rotatable
            }),
    {
        let is_hovered = match hovered {
            Some((r, c)) => r == self.row && c == self.col,
            None => false,
        };
        if self.fixed {
            MirrorShade::Fixed
        } else if is_hovered {
            MirrorShade::Hovered
        } else {
            MirrorShade::Rotatable
        }
    }
}

} // verus!
