use vstd::prelude::*;

verus! {

/// Why a transaction did not commit.
#[derive(Debug, PartialEq, Eq)]
pub enum OccError {
    /// The transaction read a key that a transaction committed since its
    /// start (or validating beside it) has written.
    ValidationFailed,
    /// The transaction's own logic gave up, with its reason.
    UserAbort(String),
}

} // verus!
