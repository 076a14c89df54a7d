//! Failures reported by the rating engine.

use vstd::prelude::*;
use vstd::string::StringExecFns;

verus! {

/// Why the store refused a write.
#[derive(Debug, Clone, Copy, PartialEq, Eq, Structural)]
pub enum Fault {
    /// A row that the write refers to does not exist.
    NotFound,
    /// The write would break a uniqueness rule, or remove a row that others refer to.
    Conflict,
    /// A value produced by the write does not fit the stored integer type.
    OutOfRange,
}

/// The ways in which an operation on the store can fail.
#[derive(Debug, Clone, Copy, PartialEq, Eq, Structural)]
pub enum DbError {
    /// Nothing is left to compare: an expected end state, not a malfunction.
    NoEligiblePair,
    /// The store could not complete a write; the store is as it was before.
    PersistenceFailure(Fault),
    /// A score that is neither a loss, a draw nor a win.
    InvalidScore,
}

impl DbError {
    /// The text shown to a user for this error.
    pub open spec fn message_text(self) -> Seq<char> {
        match self {
            DbError::NoEligiblePair => "nothing left to compare"@,
            DbError::PersistenceFailure(Fault::NotFound) => "write failed: no such row"@,
            DbError::PersistenceFailure(Fault::Conflict) => "write failed: constraint violated"@,
            DbError::PersistenceFailure(Fault::OutOfRange) => "write failed: value out of range"@,
            DbError::InvalidScore => "score must be a loss, a draw or a win"@,
        }
    }

    /// Renders the error for display.
    pub fn message(&self) -> (text: String)
        ensures
            text@ == self.message_text(),
    {
        match self {
            DbError::NoEligiblePair => String::from_str("nothing left to compare"),
            DbError::PersistenceFailure(Fault::NotFound) => String::from_str(
                "write failed: no such row",
            ),
            DbError::PersistenceFailure(Fault::Conflict) => String::from_str(
                "write failed: constraint violated",
            ),
            DbError::PersistenceFailure(Fault::OutOfRange) => String::from_str(
                "write failed: value out of range",
            ),
            DbError::InvalidScore => String::from_str("score must be a loss, a draw or a win"),
        }
    }

    /// Whether this error is the normal end of matchmaking rather than a storage failure.
    pub fn is_exhaustion(&self) -> (yes: bool)
        ensures
            yes == (*self == DbError::NoEligiblePair),
    {
        match self {
            DbError::NoEligiblePair => true,
            _ => false,
        }
    }
}

} // verus!
