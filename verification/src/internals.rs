//! Internal utility types shared across the toolkit.

use vstd::prelude::*;

verus! {

/// Error conditions reported by the toolkit.
///
/// `ReadError` is reserved for collaborator readers that fail while
/// producing input; `ValueError` reports malformed input to a constructor,
/// such as asking for an empirical distribution over zero observations.
#[derive(Clone, Copy, Debug, PartialEq, Eq, Structural)]
pub enum InternalError {
    /// A collaborator reader failed to produce input.
    ReadError,
    /// Malformed input was handed to a constructor.
    ValueError,
}

impl InternalError {
    /// A human-readable description of the error.
    pub fn message(&self) -> (r: &'static str)
        ensures
            match self {
                InternalError::ReadError => r@ == "Unexpected Read Error"@,
                InternalError::ValueError => r@ == "Invalid string!"@,
            },
    {
        match self {
            InternalError::ReadError => "Unexpected Read Error",
            InternalError::ValueError => "Invalid string!",
        }
    }
}

} // verus!
