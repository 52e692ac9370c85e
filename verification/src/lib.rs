//! An optimistic concurrency control engine after Kung and Robinson:
//! transactions read from a shared sharded store, buffer their writes
//! locally, and are validated against the transactions that committed
//! since they started before their writes are applied.
use vstd::prelude::*;

pub mod engine;
pub mod error;
pub mod storage;
pub mod transaction;

pub use engine::parallel::ParallelEngine;
pub use engine::serial::SerialEngine;
pub use engine::OccEngine;
pub use error::OccError;
pub use transaction::Transaction;

verus! {

/// `K::clone` hands back a value identical to its input.
pub open spec fn clone_is_identity<K: Clone>() -> bool {
    forall|a: K, b: K| #[trigger] call_ensures(K::clone, (&a,), b) ==> a == b
}

/// What the library needs of a key type to reason about the hash maps and
/// hash sets that hold keys: the key model of vstd's hash-table
/// specifications (deterministic hashing, `==` is identity) and a clone
/// that gives back an identical key. vstd establishes the first for the
/// primitive integer types, `bool` and boxes of them; for other key types,
/// `String` and `&str` among them, no verified caller can establish it,
/// so the contracts that require it say nothing to such callers (the code
/// runs the same for every key type).
pub open spec fn key_model<K: Clone>() -> bool {
    &&& vstd::std_specs::hash::obeys_key_model::<K>()
    &&& clone_is_identity::<K>()
}

} // verus!
