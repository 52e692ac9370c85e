pub mod batch;
pub mod history;
pub mod parallel;
pub mod serial;

use std::hash::Hash;
use vstd::prelude::*;

use crate::error::OccError;
use crate::key_model;
use crate::storage::Storage;
use crate::transaction::{LocalChange, Transaction};
use batch::{is_split_of, put_keys};

verus! {

/// What a commit leaves of a transaction: after a success its writes have
/// gone to the store and none are left buffered; after a failure, which is
/// always a failed validation, the transaction is as it was. Its snapshot
/// and read set are kept either way.
pub open spec fn commit_outcome<'a, K, V>(
    before: Transaction<'a, K, V>,
    after: Transaction<'a, K, V>,
    r: Result<(), OccError>,
) -> bool {
    &&& after.reads() == before.reads()
    &&& after.start_number() == before.start_number()
    &&& after.store() == before.store()
    &&& after.releases() == before.releases()
    &&& match r {
        Ok(()) => after.writes() == Map::<K, LocalChange<V>>::empty(),
        Err(e) => e == OccError::ValidationFailed && after.writes() == before.writes(),
    }
}

/// The buffered writes `w` went to `store` as one batch: their puts and
/// deletes, taken apart as `is_split_of` says, were handed together to one
/// call of `apply_batch`.
pub open spec fn batch_applied<K: Eq + Hash + Clone, V: Clone>(store: &Storage<K, V>, w: Map<K, LocalChange<V>>) -> bool {
    exists|puts: Vec<(K, V)>, deletes: Vec<K>|
        is_split_of(w, puts@, deletes@) && #[trigger] call_ensures(Storage::<K, V>::apply_batch, (store, puts, deletes), ())
}

/// An optimistic concurrency control engine: transactions run against a
/// snapshot number, buffer their writes, and are validated at commit.
pub trait OccEngine<'a, K, V> where K: Eq + Hash + Clone + 'a, V: Clone + 'a {
    /// The store that the engine's transactions read and its commits write.
    spec fn engine_store(&self) -> &Storage<K, V>;

    /// Starts a transaction at the current commit number.
    fn begin(&'a self) -> (tx: Transaction<'a, K, V>)
        ensures
            tx.start_number() >= 1,
            tx.releases() == Some(tx.start_number()),
            tx.store() == self.engine_store(),
            tx.reads() == Set::<K>::empty(),
            tx.writes() == Map::<K, LocalChange<V>>::empty(),
    ;

    /// Validates `tx` and, if no conflicting transaction committed since it
    /// started, applies its writes to the store.
    fn commit(&self, tx: &mut Transaction<'a, K, V>) -> (r: Result<(), OccError>)
        requires
            key_model::<K>(),
        ensures
            commit_outcome(*old(tx), *final(tx), r),
            old(tx).reads().is_empty() && old(tx).writes().is_empty() ==> r is Ok,
            r is Ok && !old(tx).writes().is_empty() ==> batch_applied(self.engine_store(), old(tx).writes()),
    ;

    /// Runs `f` in a fresh transaction and commits it. An error from `f`
    /// aborts the transaction and is handed back as it is; otherwise the
    /// commit decides, and `f`'s result comes back on success.
    fn transaction<F, R>(&'a self, f: F) -> (r: Result<R, OccError>)
        where F: FnOnce(&mut Transaction<'a, K, V>) -> Result<R, OccError>
        requires
            key_model::<K>(),
            forall|tx: &mut Transaction<'a, K, V>| f.requires((tx,)),
        ensures
            r matches Ok(v) ==> exists|tx: &mut Transaction<'a, K, V>| f.ensures((tx,), Ok(v)),
            r == Err::<R, OccError>(OccError::ValidationFailed) ==> (exists|tx: &mut Transaction<'a, K, V>| f.ensures((tx,), r))
                || exists|committed: &mut Transaction<'a, K, V>, outcome: Result<(), OccError>|
                outcome is Err && call_ensures(Self::commit, (self, committed), outcome),
            r matches Ok(v) ==> exists|ran: &mut Transaction<'a, K, V>, committed: &mut Transaction<'a, K, V>, outcome: Result<(), OccError>|
                f.ensures((ran,), Ok(v)) && *committed == *final(ran) && outcome is Ok
                    && call_ensures(Self::commit, (self, committed), outcome),
            r matches Err(e) && e != OccError::ValidationFailed ==> exists|tx: &mut Transaction<'a, K, V>| f.ensures((tx,), r),
            (forall|t: &mut Transaction<'a, K, V>, o: Result<R, OccError>| f.ensures((t,), o) ==> o is Err) ==> r is Err
                && exists|tx: &mut Transaction<'a, K, V>| f.ensures((tx,), r),
    {
        let mut tx = self.begin();
        let result = f(&mut tx);
        match result {
            Ok(value) => {
                let committed = self.commit(&mut tx);
                tx.finish();
                match committed {
                    Ok(()) => Ok(value),
                    Err(e) => Err(e),
                }
            },
            Err(e) => {
                tx.finish();
                Err(e)
            },
        }
    }
}

/// A key that some put of `puts` writes has a last put in `puts`.
proof fn lemma_last_put<K, V>(puts: Seq<(K, V)>, k: K, i: int)
    requires
        0 <= i < puts.len(),
        puts[i].0 == k,
    ensures
        exists|l: int|
            0 <= l < puts.len() && puts[l].0 == k && forall|j: int| l < j < puts.len() ==> (#[trigger] puts[j]).0 != k,
    decreases puts.len() - i,
{
    if exists|j: int| i < j < puts.len() && (#[trigger] puts[j]).0 == k {
        let j = choose|j: int| i < j < puts.len() && (#[trigger] puts[j]).0 == k;
        lemma_last_put(puts, k, j);
    } else {
        assert(forall|j: int| i < j < puts.len() ==> (#[trigger] puts[j]).0 != k);
    }
}

/// A commit that succeeds reaches the engine's store: every key the
/// transaction deleted is absent from a map put back into the key's shard
/// (the one that `get_shard_index` gave for it), and every key it wrote maps,
/// in a map put back into the key's shard, to a clone of the value it wrote.
pub proof fn law_commit_reaches_store<'a, K: Eq + Hash + Clone + 'a, V: Clone + 'a, E: OccEngine<'a, K, V>>(
    engine: &E,
    tx: Transaction<'a, K, V>,
    r: Result<(), OccError>,
)
    requires
        key_model::<K>(),
        exists|committing: &mut Transaction<'a, K, V>|
            *committing == tx && #[trigger] call_ensures(E::commit, (engine, committing), r),
        r is Ok,
    ensures
        forall|k: K|
            tx.writes().contains_key(k) && #[trigger] tx.writes()[k] is Deleted ==> engine.engine_store().put_back_without(k),
        forall|k: K|
            tx.writes().contains_key(k) && #[trigger] tx.writes()[k] is Put ==> exists|w: V|
                cloned(tx.writes()[k]->Put_0, w) && engine.engine_store().put_back_with(k, w),
{
    let committing = choose|committing: &mut Transaction<'a, K, V>|
        *committing == tx && #[trigger] call_ensures(E::commit, (engine, committing), r);
    let store = engine.engine_store();
    let w = tx.writes();
    if !w.is_empty() {
        assert(batch_applied(store, w));
        let (puts, deletes) = choose|puts: Vec<(K, V)>, deletes: Vec<K>|
            is_split_of(w, puts@, deletes@) && #[trigger] call_ensures(Storage::<K, V>::apply_batch, (store, puts, deletes), ());
        crate::storage::law_batch_reaches_store(store, puts, deletes);
        assert forall|k: K| w.contains_key(k) && #[trigger] w[k] is Deleted implies store.put_back_without(k) by {
            assert(deletes@.contains(k));
            let d = choose|d: int| 0 <= d < deletes@.len() && deletes@[d] == k;
            assert(store.put_back_without(deletes@[d]));
        }
        assert forall|k: K| w.contains_key(k) && #[trigger] w[k] is Put implies exists|v: V|
            cloned(w[k]->Put_0, v) && store.put_back_with(k, v) by {
            assert(put_keys(puts@).contains(k));
            let i0 = choose|i0: int| 0 <= i0 < puts@.len() && (#[trigger] puts@[i0]).0 == k;
            lemma_last_put(puts@, k, i0);
            let i = choose|i: int|
                0 <= i < puts@.len() && puts@[i].0 == k && forall|j: int| i < j < puts@.len() ==> (#[trigger] puts@[j]).0 != k;
            assert(!deletes@.contains(k)) by {
                if deletes@.contains(k) {
                    let d = choose|d: int| 0 <= d < deletes@.len() && deletes@[d] == k;
                    assert(w.contains_key(deletes@[d]));
                }
            }
            assert(w.contains_key(puts@[i].0));
            assert(store.put_back_with(puts@[i].0, puts@[i].1));
        }
    } else {
        assert forall|k: K| w.contains_key(k) implies false by {
            assert(w.dom().contains(k));
        }
    }
}

} // verus!
