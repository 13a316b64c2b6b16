//! The errors that the pipeline reports.

use vstd::prelude::*;
use vstd::std_specs::convert::FromSpecImpl;

verus! {

/// A source character offset.
pub type Position = usize;

/// Why a token sequence is not a program.
#[derive(Debug, Clone, Copy, PartialEq, Eq, Structural)]
pub enum InvalidProgramError {
    /// A loop was opened and the program ended before it was closed. The
    /// position is always 0, wherever the unmatched bracket stands.
    ExcessiveOpeningBrackets(Position),
    /// A loop was closed at the given position while no loop was open.
    UnexpectedClosingBracket(Position),
}

/// Why an evaluation stopped before the program ended.
#[derive(Debug, Clone, Copy, PartialEq, Eq, Structural)]
pub enum BFEvalError {
    /// The source is not a program.
    InvalidProgramError(InvalidProgramError),
    /// The input stream ended while the program waited for a byte.
    EndOfInput,
    /// The pointer left the tape: a cell was accessed at the given pointer
    /// position, which is not below the tape's length.
    OutOfRangeAccess(usize),
    /// A move would have taken the pointer below zero or above the largest
    /// index that the machine can represent.
    PointerOverflow,
    /// The step budget of a bounded run was used up before the program ended.
    StepLimit,
}

impl FromSpecImpl<InvalidProgramError> for BFEvalError {
    open spec fn obeys_from_spec() -> bool {
        true
    }

    open spec fn from_spec(err: InvalidProgramError) -> BFEvalError {
        BFEvalError::InvalidProgramError(err)
    }
}

impl From<InvalidProgramError> for BFEvalError {
    /// An invalid program, as a reason for an evaluation to stop.
    fn from(err: InvalidProgramError) -> (error: BFEvalError) {
        BFEvalError::InvalidProgramError(err)
    }
}

} // verus!
