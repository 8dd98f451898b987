use vstd::prelude::*;

verus! {

/// The grid is `GRID_SIZE` cells wide and `GRID_SIZE` cells high.
pub const GRID_SIZE: i32 = 8;

} // verus!
