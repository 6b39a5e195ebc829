use vstd::prelude::*;

verus! {

/// Ground truth of one grid coordinate.
#[derive(Debug, Clone, Copy, PartialEq, Eq, Structural)]
pub enum Cell {
    Mine,
    /// Number of mines among the neighbours, from 1 to 8.
    Clue(u8),
    Empty,
}

/// What the player sees of one grid coordinate.
#[derive(Debug, Clone, Copy, PartialEq, Eq, Structural)]
pub enum VisibleCell {
    /// Revealed for good, carrying the cell it revealed.
    Uncovered(Cell),
    Covered,
    Flagged,
}

} // verus!
