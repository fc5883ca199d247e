//! The failures that the board and the solver report.

use vstd::prelude::*;

verus! {

/// Why an operation on a board, or a search, did not produce its result.
#[derive(Debug, Clone, Copy, Hash, PartialEq, Eq, Structural)]
pub enum BoardError {
    /// A vehicle name is not one or two capital letters in the accepted range.
    InvalidId,
    /// A coordinate, or a slide, leaves the grid.
    OutOfBounds,
    /// The vehicle that an operation speaks of is not on the board.
    MissingVehicle,
    /// No vehicle on the board can slide.
    NoMoves,
    /// The search ended without reaching a winning position.
    NoSolutionFound,
    /// A board definition, or the name that gives its size, cannot be read.
    MalformedInput,
}

impl BoardError {
    /// A short description of the failure, for messages.
    pub fn describe(&self) -> (text: &'static str)
        ensures
            text@ == match *self {
                BoardError::InvalidId => "invalid vehicle id"@,
                BoardError::OutOfBounds => "coordinate out of bounds"@,
                BoardError::MissingVehicle => "vehicle not on the board"@,
                BoardError::NoMoves => "no vehicle can move"@,
                BoardError::NoSolutionFound => "no solution found"@,
                BoardError::MalformedInput => "malformed board definition"@,
            },
    {
        match self {
            BoardError::InvalidId => "invalid vehicle id",
            BoardError::OutOfBounds => "coordinate out of bounds",
            BoardError::MissingVehicle => "vehicle not on the board",
            BoardError::NoMoves => "no vehicle can move",
            BoardError::NoSolutionFound => "no solution found",
            BoardError::MalformedInput => "malformed board definition",
        }
    }
}

} // verus!
