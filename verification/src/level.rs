use vstd::prelude::*;

use crate::mirror::MirrorOrientation;
use crate::types::Direction;

verus! {

/// A mirror of a level as it stands when the level starts.
#[derive(Debug, Clone, Copy, PartialEq, Eq, Structural)]
pub struct MirrorData {
    pub row: i32,
    pub col: i32,
    pub orientation: MirrorOrientation,
    pub fixed: bool,
}

/// The cell the beam starts from and the direction it starts in.
#[derive(Debug, Clone, Copy, PartialEq, Eq, Structural)]
pub struct SourceData {
    pub row: i32,
    pub col: i32,
    pub direction: Direction,
}

/// The cell the beam has to reach.
#[derive(Debug, Clone, Copy, PartialEq, Eq, Structural)]
pub struct TargetData {
    pub row: i32,
    pub col: i32,
}

/// One puzzle: its name, source, target and mirrors.
#[derive(Debug, Clone)]
pub struct LevelData {
    pub name: String,
    pub source: SourceData,
    pub target: TargetData,
    pub mirrors: Vec<MirrorData>,
}

} // verus!
