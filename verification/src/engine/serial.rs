use std::hash::Hash;
use vstd::prelude::*;
use vstd::rwlock::RwLock;

use super::batch::{is_split_of, modified_keys, put_keys, split_writes};
use super::history::{bump, CommitHistory};
use super::{batch_applied, commit_outcome, OccEngine};
use crate::error::OccError;
use crate::key_model;
use crate::storage::Storage;
use crate::transaction::{EngineRef, LocalChange, Transaction, TxCleanup};

verus! {

/// The lock invariant of the commit history.
pub open spec fn history_wf<K>() -> spec_fn(CommitHistory<K>) -> bool {
    |h: CommitHistory<K>| h.wf()
}

/// An engine that validates and writes one transaction at a time, under a
/// single lock on its commit history.
#[verifier::reject_recursive_types(K)]
#[verifier::reject_recursive_types(V)]
pub struct SerialEngine<K, V> {
    storage: Storage<K, V>,
    state: RwLock<CommitHistory<K>, spec_fn(CommitHistory<K>) -> bool>,
}

impl<K, V> SerialEngine<K, V> {
    #[verifier::type_invariant]
    spec fn lock_holds_history(self) -> bool {
        self.state.pred() == history_wf::<K>()
    }

    /// The number of shards of the engine's store.
    pub closed spec fn shard_count(&self) -> nat {
        self.storage.shard_count()
    }

    /// An engine with an empty store and an empty history.
    pub fn new() -> (e: Self)
        ensures
            e.shard_count() == crate::storage::NUM_SHARDS,
    {
        Self { storage: Storage::new(), state: RwLock::new(CommitHistory::new(), Ghost(history_wf::<K>())) }
    }
}

impl<K, V> Default for SerialEngine<K, V> {
    fn default() -> (e: Self)
        ensures
            e.shard_count() == crate::storage::NUM_SHARDS,
    {
        Self::new()
    }
}

impl<K: Eq + Hash + Clone, V: Clone> SerialEngine<K, V> {
    /// Releases the snapshot of a transaction that started at `start_tn`
    /// and prunes the history up to the oldest snapshot still in use.
    pub(crate) fn unregister_snapshot(&self, start_tn: u64) {
        proof {
            use_type_invariant(self);
        }
        let (mut state, handle) = self.state.acquire_write();
        state.unregister_snapshot(start_tn);
        handle.release_write(state);
    }

    /// How many committed transactions the history holds now.
    pub fn history_len(&self) -> usize {
        proof {
            use_type_invariant(self);
        }
        let handle = self.state.acquire_read();
        let n = handle.borrow().history.len();
        handle.release_read();
        n
    }

    /// Commits `tx` against the history `state`, which the caller holds
    /// locked: it fails if a transaction committed since `tx` started wrote
    /// a key that `tx` read; a transaction without writes then succeeds
    /// with nothing to record; any other is applied to `storage` and
    /// recorded under the next commit number with the keys it wrote.
    pub fn commit_locked<'a>(
        state: &mut CommitHistory<K>,
        storage: &Storage<K, V>,
        tx: &mut Transaction<'a, K, V>,
    ) -> (r: Result<(), OccError>)
        requires
            old(state).wf(),
            key_model::<K>(),
        ensures
            final(state).wf(),
            commit_outcome(*old(tx), *final(tx), r),
            r is Err <==> old(state).committed_conflict(old(tx).start_number(), u64::MAX, old(tx).reads()),
            r is Err || old(tx).writes().is_empty() ==> {
                &&& final(state).history@ == old(state).history@
                &&& final(state).global_tn == old(state).global_tn
            },
            r is Ok && !old(tx).writes().is_empty() ==> {
                &&& final(state).global_tn == bump(old(state).global_tn)
                &&& final(state).history@.len() == old(state).history@.len() + 1
                &&& final(state).history@.drop_last() == old(state).history@
                &&& final(state).history@.last().tx_id == final(state).global_tn
                &&& final(state).history@.last().keys_modified@ == old(tx).writes().dom()
            },
            final(state).active_snapshots@ == old(state).active_snapshots@,
            r is Ok && !old(tx).writes().is_empty() ==> batch_applied(storage, old(tx).writes()),
    {
        if state.has_conflict(tx.start_tn(), u64::MAX, tx.read_set()) {
            return Err(OccError::ValidationFailed);
        }
        if tx.write_set().is_empty() {
            proof {
                assert(tx.writes() =~= Map::<K, LocalChange<V>>::empty());
            }
            return Ok(());
        }
        let write_set = tx.take_writes();
        let (puts, deletes) = split_writes(&write_set);
        let keys = modified_keys(&puts, &deletes);
        proof {
            assert(keys@ =~= write_set@.dom()) by {
                assert forall|k: K| keys@.contains(k) implies write_set@.contains_key(k) by {
                    if put_keys(puts@).contains(k) {
                        let j = choose|j: int| 0 <= j < puts@.len() && (#[trigger] puts@[j]).0 == k;
                        assert(write_set@.contains_key(puts@[j].0));
                    } else {
                        let j = choose|j: int| 0 <= j < deletes@.len() && deletes@[j] == k;
                        assert(write_set@.contains_key(deletes@[j]));
                    }
                }
                assert forall|k: K| write_set@.contains_key(k) implies keys@.contains(k) by {
                    match write_set@[k] {
                        LocalChange::Put(_) => {},
                        LocalChange::Deleted => {},
                    }
                }
            }
        }
        let ghost gp = puts;
        let ghost gd = deletes;
        storage.apply_batch(puts, deletes);
        assert(call_ensures(Storage::<K, V>::apply_batch, (storage, gp, gd), ()));
        state.record_commit(keys);
        Ok(())
    }
}

impl<'a, K: Eq + Hash + Clone + 'a, V: Clone + 'a> OccEngine<'a, K, V> for SerialEngine<K, V> {
    closed spec fn engine_store(&self) -> &Storage<K, V> {
        &self.storage
    }

    fn begin(&'a self) -> (tx: Transaction<'a, K, V>) {
        proof {
            use_type_invariant(self);
        }
        let (mut state, handle) = self.state.acquire_write();
        let start_tn = state.register_snapshot();
        handle.release_write(state);
        let cleanup = TxCleanup::new(EngineRef::Serial(self), start_tn);
        assert(self.engine_store() == &self.storage);
        Transaction::new_with_cleanup(start_tn, &self.storage, cleanup)
    }

    /// Fails exactly when `commit_locked` finds a conflict in the history
    /// held under the lock; a transaction that read nothing never fails.
    fn commit(&self, tx: &mut Transaction<'a, K, V>) -> (r: Result<(), OccError>)
        ensures
            old(tx).reads().is_empty() ==> r is Ok,
    {
        proof {
            use_type_invariant(self);
        }
        let (mut state, handle) = self.state.acquire_write();
        let r = Self::commit_locked(&mut state, &self.storage, tx);
        handle.release_write(state);
        r
    }
}

} // verus!
