//! Typed errors, so callers can tell an I/O failure from a parse failure,
//! a missing record, bad input, or an engine state violation.

use vstd::prelude::*;

verus! {

/// What went wrong. Parse failures are fatal for the data involved and are
/// never partially recovered; a missing record or plan is `NotFound`;
/// `State` marks an operation that the current data does not admit.
#[derive(Clone, Debug, PartialEq)]
pub enum Error {
    /// A file system failure other than "not found" (raised by callers that
    /// do the actual I/O around this library).
    Io(String),
    /// Malformed persisted text: a snapshot or counter that does not parse.
    Parse(String),
    /// The identifier or plan does not exist.
    NotFound(String),
    /// Input rejected by policy, such as a zero amount.
    InvalidInput(String),
    /// The operation is not allowed in the current state, such as extending
    /// a completed plan.
    State(String),
    /// Anything else.
    Other(String),
}

impl Error {
    /// The human-readable detail carried by this error.
    pub fn detail(&self) -> (r: &str)
        ensures
            match self {
                Error::Io(s) => r@ == s@,
                Error::Parse(s) => r@ == s@,
                Error::NotFound(s) => r@ == s@,
                Error::InvalidInput(s) => r@ == s@,
                Error::State(s) => r@ == s@,
                Error::Other(s) => r@ == s@,
            },
    {
        match self {
            Error::Io(s) => s.as_str(),
            Error::Parse(s) => s.as_str(),
            Error::NotFound(s) => s.as_str(),
            Error::InvalidInput(s) => s.as_str(),
            Error::State(s) => s.as_str(),
            Error::Other(s) => s.as_str(),
        }
    }
}

} // verus!
