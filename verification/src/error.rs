//! The failures that grid construction, painting and replay report.

use vstd::prelude::*;
use vstd::string::StringExecFns;

verus! {

/// Why the engine turned an input down. Every failure leaves the state it
/// was raised on untouched.
#[derive(Clone, Copy, Debug, PartialEq, Eq, Structural)]
pub enum GridError {
    /// The supplied rows are not `n` rows of `n` cells.
    InvalidDimension,
    /// A cell or a move names a colour above the grid's colour count.
    InvalidColor,
    /// A coordinate lies outside the grid.
    OutOfBounds,
    /// A move or a prefix was asked for past the end of the move list.
    ReplayExhausted,
}

/// The failure in words.
pub open spec fn grid_error_text(e: GridError) -> Seq<char> {
    match e {
        GridError::InvalidDimension => "invalid dimension"@,
        GridError::InvalidColor => "invalid color"@,
        GridError::OutOfBounds => "out of bounds"@,
        GridError::ReplayExhausted => "replay exhausted"@,
    }
}

impl GridError {
    /// The failure in words.
    pub fn message(&self) -> (text: String)
        ensures
            text@ == grid_error_text(*self),
    {
        match self {
            GridError::InvalidDimension => String::from_str("invalid dimension"),
            GridError::InvalidColor => String::from_str("invalid color"),
            GridError::OutOfBounds => String::from_str("out of bounds"),
            GridError::ReplayExhausted => String::from_str("replay exhausted"),
        }
    }
}

} // verus!
