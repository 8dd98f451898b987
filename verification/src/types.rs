use vstd::prelude::*;

verus! {

/// One of the four directions a beam can travel on the grid.
#[derive(Debug, Clone, Copy, PartialEq, Eq, Hash, Structural)]
pub enum Direction {
    Right,
    Left,
    Up,
    Down,
}

/// Row delta of one step in `d`; rows grow downward.
pub open spec fn dir_dr(d: Direction) -> int {
    match d {
        Direction::Right => 0,
        Direction::Left => 0,
        Direction::Down => 1,
        Direction::Up => -1,
    }
}

/// Column delta of one step in `d`; columns grow rightward.
pub open spec fn dir_dc(d: Direction) -> int {
    match d {
        Direction::Right => 1,
        Direction::Left => -1,
        Direction::Down => 0,
        Direction::Up => 0,
    }
}

/// The direction pointing the other way.
pub open spec fn opposite(d: Direction) -> Direction {
    match d {
        Direction::Right => Direction::Left,
        Direction::Left => Direction::Right,
        Direction::Down => Direction::Up,
        Direction::Up => Direction::Down,
    }
}

impl Direction {
    /// Returns (row_delta, col_delta) for stepping in this direction.
    /// Row increases downward, col increases rightward.
    pub fn to_offset(self) -> (r: (i32, i32))
        ensures
            r.0 == dir_dr(self),
            r.1 == dir_dc(self),
    {
        match self {
            Direction::Right => (0, 1),
            Direction::Left => (0, -1),
            Direction::Down => (1, 0),
            Direction::Up => (-1, 0),
        }
    }
}

/// A cell of the grid, addressed by row (downward) and column (rightward).
#[derive(Debug, Clone, Copy, PartialEq, Eq, Hash, Structural)]
pub struct GridPos {
    pub row: i32,
    pub col: i32,
}

/// Whether one step from `p` in direction `d` stays within the range of `i32`.
pub open spec fn can_step(p: GridPos, d: Direction) -> bool {
    &&& i32::MIN <= p.row + dir_dr(d) <= i32::MAX
    &&& i32::MIN <= p.col + dir_dc(d) <= i32::MAX
}

/// The cell one step from `p` in direction `d` (meaningful where `can_step(p, d)`).
pub open spec fn pos_step(p: GridPos, d: Direction) -> GridPos {
    GridPos { row: (p.row + dir_dr(d)) as i32, col: (p.col + dir_dc(d)) as i32 }
}

/// Whether `p` lies on a `size` by `size` grid whose corner cell is (0, 0).
pub open spec fn pos_in_bounds(p: GridPos, size: int) -> bool {
    0 <= p.row < size && 0 <= p.col < size
}

impl GridPos {
    pub fn new(row: i32, col: i32) -> (r: Self)
        ensures
            r.row == row,
            r.col == col,
    {
        Self { row, col }
    }

    /// The neighbouring cell in direction `dir`.
    pub fn step(self, dir: Direction) -> (r: Self)
        requires
            can_step(self, dir),
        ensures
            r.row == self.row + dir_dr(dir),
            r.col == self.col + dir_dc(dir),
            r == pos_step(self, dir),
    {
        let (dr, dc) = dir.to_offset();
        Self { row: self.row + dr, col: self.col + dc }
    }

    /// Whether this cell lies on a `size` by `size` grid.
    pub fn in_bounds(self, size: i32) -> (r: bool)
        ensures
            r == pos_in_bounds(self, size as int),
    {
        self.row >= 0 && self.row < size && self.col >= 0 && self.col < size
    }
}

/// A step moves exactly one cell along exactly one axis.
pub proof fn lemma_offset_is_unit(d: Direction)
    ensures
        (dir_dr(d) == 0) != (dir_dc(d) == 0),
        -1 <= dir_dr(d) <= 1,
        -1 <= dir_dc(d) <= 1,
        dir_dr(opposite(d)) == -dir_dr(d),
        dir_dc(opposite(d)) == -dir_dc(d),
        opposite(opposite(d)) == d,
{
    match d {
        Direction::Right => {},
        Direction::Left => {},
        Direction::Up => {},
        Direction::Down => {},
    }
}

/// Stepping from a cell and then stepping back the other way returns to that cell.
pub proof fn lemma_step_back(p: GridPos, d: Direction)
    requires
        can_step(p, d),
    ensures
        can_step(pos_step(p, d), opposite(d)),
        pos_step(pos_step(p, d), opposite(d)) == p,
{
}

/// From a cell of a grid that fits in `i32`, a step never leaves the range of `i32`.
pub proof fn lemma_in_bounds_can_step(p: GridPos, size: int, d: Direction)
    requires
        pos_in_bounds(p, size),
        size <= i32::MAX,
    ensures
        can_step(p, d),
{
}

} // verus!
