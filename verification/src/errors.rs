//! The error kinds the library reports.

use vstd::prelude::*;

verus! {

/// What can go wrong in the library.
///
/// `InvalidAddress` is recovered locally by batch callers (the line is
/// skipped); `Unavailable` means the backing store could not be opened or
/// initialised; `QueryFailure` means a statement failed against an opened
/// store; `NotImplemented` marks the reserved remove operation.
#[derive(Clone, Copy, Debug, PartialEq, Eq, Structural)]
pub enum ScopeError {
    InvalidAddress,
    Unavailable,
    QueryFailure,
    NotImplemented,
}

impl ScopeError {
    /// A short diagnostic text for the error.
    pub fn message(&self) -> (m: &'static str)
        ensures
            *self == ScopeError::InvalidAddress ==> m@ == "failed to parse IP address"@,
            *self == ScopeError::Unavailable ==> m@ == "could not open the scope store"@,
            *self == ScopeError::QueryFailure ==> m@ == "a scope store operation failed"@,
            *self == ScopeError::NotImplemented ==> m@ == "not yet implemented"@,
    {
        match self {
            ScopeError::InvalidAddress => "failed to parse IP address",
            ScopeError::Unavailable => "could not open the scope store",
            ScopeError::QueryFailure => "a scope store operation failed",
            ScopeError::NotImplemented => "not yet implemented",
        }
    }
}

} // verus!
