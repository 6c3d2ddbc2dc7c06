use vstd::prelude::*;

verus! {

/// The ways in which building, filling or generating a puzzle can fail.
#[derive(Debug, Clone, Copy, PartialEq, Eq, Structural)]
pub enum SudokuError {
    /// A block width or block height of zero was given.
    InvalidDimensions,
    /// A digit outside `1..=size` was given for a cell.
    InvalidNumber,
    /// A column or row outside the grid was addressed.
    OutOfBounds,
    /// No completely filled grid can be reached under the constraint.
    UnsatisfiableConstraint,
}

pub type SudokuResult<V> = Result<V, SudokuError>;

} // verus!
