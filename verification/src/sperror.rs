//! The errors that the state store reports.

use vstd::prelude::*;

verus! {

/// Why the store refused a request. Every refusal leaves the store unchanged.
#[derive(Debug, Clone, Copy, PartialEq, Eq, Structural)]
pub enum SPError {
    /// No variable of the state has the requested path.
    ResolutionError,
    /// The handle was resolved against another layout of the state than the
    /// current one.
    StaleHandle,
    /// The cell already holds a proposed next value.
    OverwritePendingNext,
    /// The cell already holds a delayed change.
    OverwriteDelay,
    /// There is no delayed change to cancel or to complete.
    CancelOnUnknown,
}

pub type SPResult<T> = Result<T, SPError>;

impl SPError {
    /// The text that `message` gives for each error.
    pub open spec fn message_text(self) -> Seq<char> {
        match self {
            SPError::ResolutionError => "the path is not part of the state"@,
            SPError::StaleHandle => "the state path is wrong"@,
            SPError::OverwritePendingNext => "the state already has a next value"@,
            SPError::OverwriteDelay => "the state already has a delayed value"@,
            SPError::CancelOnUnknown => "there is no delayed value to resolve"@,
        }
    }

    /// A human-readable description of the error.
    pub fn message(&self) -> (text: String)
        ensures
            text@ == self.message_text(),
    {
        match self {
            SPError::ResolutionError => "the path is not part of the state".to_owned(),
            SPError::StaleHandle => "the state path is wrong".to_owned(),
            SPError::OverwritePendingNext => "the state already has a next value".to_owned(),
            SPError::OverwriteDelay => "the state already has a delayed value".to_owned(),
            SPError::CancelOnUnknown => "there is no delayed value to resolve".to_owned(),
        }
    }
}

} // verus!
