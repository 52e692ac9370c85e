use std::collections::{HashMap, HashSet};
use std::hash::Hash;
use vstd::prelude::*;

use crate::engine::parallel::ParallelEngine;
use crate::engine::serial::SerialEngine;
use crate::key_model;
use crate::storage::Storage;

verus! {

broadcast use vstd::std_specs::hash::group_hash_axioms;

/// A change a transaction has made to a key and not yet committed.
#[derive(Clone, Debug, PartialEq, Eq)]
pub enum LocalChange<V> {
    Put(V),
    Deleted,
}

/// What a transaction sees of `key` in its own uncommitted writes:
/// `Some(Some(v))` for a value it wrote, `Some(None)` for a key it deleted,
/// and `None` when it has not touched the key, so that reads go to the store.
pub open spec fn local_read<K, V>(writes: Map<K, LocalChange<V>>, key: K) -> Option<Option<V>> {
    if writes.contains_key(key) {
        match writes[key] {
            LocalChange::Put(v) => Some(Some(v)),
            LocalChange::Deleted => Some(None),
        }
    } else {
        None
    }
}

/// The buffered writes after a write (or a create) of `value` to `key`:
/// the value replaces whatever change the key had, a delete included; a
/// create does not ask for the key to be absent.
pub open spec fn buffered_write<K, V>(writes: Map<K, LocalChange<V>>, key: K, value: V) -> Map<K, LocalChange<V>> {
    writes.insert(key, LocalChange::Put(value))
}

/// Read-your-own-writes: after a transaction writes `value` to `key`, its
/// reads of `key` see `value`.
pub proof fn law_read_own_write<K, V>(writes: Map<K, LocalChange<V>>, key: K, value: V)
    ensures
        local_read(writes.insert(key, LocalChange::Put(value)), key) == Some(Some(value)),
{
}

/// After a transaction deletes `key`, its reads of `key` see nothing, even
/// if the store holds a value.
pub proof fn law_read_own_delete<K, V>(writes: Map<K, LocalChange<V>>, key: K)
    ensures
        local_read(writes.insert(key, LocalChange::<V>::Deleted), key) == Some(None::<V>),
{
}

/// A write or delete of one key leaves what the transaction reads of every
/// other key as it was.
pub proof fn law_other_keys_unaffected<K, V>(writes: Map<K, LocalChange<V>>, key: K, change: LocalChange<V>, other: K)
    requires
        other != key,
    ensures
        local_read(writes.insert(key, change), other) == local_read(writes, other),
{
}

/// The engine a transaction was started on.
#[verifier::reject_recursive_types(K)]
#[verifier::reject_recursive_types(V)]
pub enum EngineRef<'a, K, V> {
    Serial(&'a SerialEngine<K, V>),
    Parallel(&'a ParallelEngine<K, V>),
}

/// What has to happen when a transaction ends: its snapshot is released
/// from the engine that registered it.
#[verifier::reject_recursive_types(K)]
#[verifier::reject_recursive_types(V)]
pub struct TxCleanup<'a, K, V> {
    engine: EngineRef<'a, K, V>,
    start_tn: u64,
}

impl<'a, K, V> TxCleanup<'a, K, V> {
    /// Cleanup that releases the snapshot `start_tn` of `engine`.
    pub fn new(engine: EngineRef<'a, K, V>, start_tn: u64) -> (c: Self)
        ensures
            c.snapshot() == start_tn,
            c.engine() == engine,
    {
        TxCleanup { engine, start_tn }
    }

    /// The engine whose snapshot this cleanup releases.
    pub closed spec fn engine(&self) -> EngineRef<'a, K, V> {
        self.engine
    }

    /// The snapshot this cleanup releases.
    pub closed spec fn snapshot(&self) -> u64 {
        self.start_tn
    }
}

impl<'a, K: Eq + Hash + Clone, V: Clone> TxCleanup<'a, K, V> {
    /// Releases the snapshot.
    pub fn run(self) {
        match self.engine {
            EngineRef::Serial(e) => e.unregister_snapshot(self.start_tn),
            EngineRef::Parallel(e) => e.unregister_snapshot(self.start_tn),
        }
    }
}

/// A transaction: the snapshot it started from, the keys it has read, and
/// the writes it has buffered but not committed.
#[verifier::reject_recursive_types(K)]
#[verifier::reject_recursive_types(V)]
pub struct Transaction<'a, K, V> {
    start_tn: u64,
    read_set: HashSet<K>,
    write_set: HashMap<K, LocalChange<V>>,
    storage: &'a Storage<K, V>,
    cleanup: Option<TxCleanup<'a, K, V>>,
}

impl<'a, K, V> Transaction<'a, K, V> {
    /// The commit number the transaction started from.
    pub closed spec fn start_number(&self) -> u64 {
        self.start_tn
    }

    /// The keys the transaction has read.
    pub closed spec fn reads(&self) -> Set<K> {
        self.read_set@
    }

    /// The transaction's uncommitted writes.
    pub closed spec fn writes(&self) -> Map<K, LocalChange<V>> {
        self.write_set@
    }

    /// The store the transaction reads from.
    pub closed spec fn store(&self) -> &'a Storage<K, V> {
        self.storage
    }

    /// The snapshot that ending the transaction releases, if any.
    pub closed spec fn releases(&self) -> Option<u64> {
        match self.cleanup {
            Some(c) => Some(c.snapshot()),
            None => None,
        }
    }

    /// A transaction that starts at `start_tn`, reads from `storage`, and
    /// runs `cleanup` when it ends.
    pub(crate) fn new_with_cleanup(start_tn: u64, storage: &'a Storage<K, V>, cleanup: TxCleanup<'a, K, V>) -> (tx: Self)
        ensures
            tx.start_number() == start_tn,
            tx.reads() == Set::<K>::empty(),
            tx.writes() == Map::<K, LocalChange<V>>::empty(),
            tx.store() == storage,
            tx.releases() == Some(cleanup.snapshot()),
    {
        Self { start_tn, read_set: HashSet::new(), write_set: HashMap::new(), storage, cleanup: Some(cleanup) }
    }

    /// The commit number the transaction started from.
    pub(crate) fn start_tn(&self) -> (n: u64)
        ensures
            n == self.start_number(),
    {
        self.start_tn
    }

    /// The keys the transaction has read.
    pub(crate) fn read_set(&self) -> (s: &HashSet<K>)
        ensures
            s@ == self.reads(),
    {
        &self.read_set
    }

    /// The transaction's uncommitted writes.
    pub(crate) fn write_set(&self) -> (w: &HashMap<K, LocalChange<V>>)
        ensures
            w@ == self.writes(),
    {
        &self.write_set
    }

    /// Hands the uncommitted writes over and leaves none behind.
    pub(crate) fn take_writes(&mut self) -> (w: HashMap<K, LocalChange<V>>)
        ensures
            w@ == old(self).writes(),
            final(self).writes() == Map::<K, LocalChange<V>>::empty(),
            final(self).reads() == old(self).reads(),
            final(self).start_number() == old(self).start_number(),
            final(self).store() == old(self).store(),
            final(self).releases() == old(self).releases(),
    {
        let mut w = HashMap::new();
        std::mem::swap(&mut w, &mut self.write_set);
        w
    }
}

impl<'a, K: Eq + Hash + Clone, V: Clone> Transaction<'a, K, V> {
    /// Buffers a write of `value` to `key`.
    pub fn write(&mut self, key: K, value: V)
        requires
            key_model::<K>(),
        ensures
            final(self).writes() == buffered_write(old(self).writes(), key, value),
            final(self).reads() == old(self).reads(),
            final(self).start_number() == old(self).start_number(),
            final(self).store() == old(self).store(),
            final(self).releases() == old(self).releases(),
    {
        self.write_set.insert(key, LocalChange::Put(value));
    }

    /// Buffers the creation of `key` with `value`: the same as a write.
    pub fn create(&mut self, key: K, value: V)
        requires
            key_model::<K>(),
        ensures
            final(self).writes() == buffered_write(old(self).writes(), key, value),
            final(self).reads() == old(self).reads(),
            final(self).start_number() == old(self).start_number(),
            final(self).store() == old(self).store(),
            final(self).releases() == old(self).releases(),
    {
        self.write(key, value);
    }

    /// Buffers the deletion of `key`.
    pub fn delete(&mut self, key: K)
        requires
            key_model::<K>(),
        ensures
            final(self).writes() == old(self).writes().insert(key, LocalChange::Deleted),
            final(self).reads() == old(self).reads(),
            final(self).start_number() == old(self).start_number(),
            final(self).store() == old(self).store(),
            final(self).releases() == old(self).releases(),
    {
        self.write_set.insert(key, LocalChange::Deleted);
    }

    /// Reads `key`: the transaction's own uncommitted write if it has one
    /// (a clone of the value written, or nothing after a delete), else what
    /// the store holds now. The key joins the read set either way, so that
    /// validation checks it.
    pub fn read(&mut self, key: &K) -> (r: Option<V>)
        requires
            key_model::<K>(),
        ensures
            final(self).reads() == old(self).reads().insert(*key),
            final(self).writes() == old(self).writes(),
            final(self).start_number() == old(self).start_number(),
            final(self).store() == old(self).store(),
            final(self).releases() == old(self).releases(),
            local_read(old(self).writes(), *key) is None ==> call_ensures(Storage::<K, V>::get, (old(self).store(), key), r),
            local_read(old(self).writes(), *key) is None ==> old(self).store().read_from_shard(*key, r),
            local_read(old(self).writes(), *key) matches Some(local) ==> match local {
                Some(v) => r is Some && cloned(v, r->0),
                None => r is None,
            },
    {
        self.read_set.insert(key.clone());
        match self.write_set.get(key) {
            Some(change) => {
                return match change {
                    LocalChange::Put(val) => Some(val.clone()),
                    LocalChange::Deleted => None,
                };
            },
            None => {},
        }
        self.storage.get(key)
    }

    /// Ends the transaction: its snapshot (`releases()`) is released, and
    /// history that no live transaction needs any more is pruned. Dropping a
    /// transaction does not do this: a transaction that is never finished
    /// keeps its snapshot registered, and the history newer than that
    /// snapshot is then never pruned.
    pub fn finish(self) {
        match self.cleanup {
            Some(c) => c.run(),
            None => {},
        }
    }
}

/// A read of a key that the transaction has neither written nor deleted
/// returns what one of the store's shards held for the key under its read
/// lock: a clone of the value if the shard's map had the key, `None` if not,
/// whatever the transaction read before.
pub proof fn law_read_falls_through_to_store<'a, K: Eq + Hash + Clone, V: Clone>(
    tx: Transaction<'a, K, V>,
    key: &K,
    r: Option<V>,
)
    requires
        key_model::<K>(),
        exists|reading: &mut Transaction<'a, K, V>|
            *reading == tx && #[trigger] call_ensures(Transaction::<'a, K, V>::read, (reading, key), r),
        local_read(tx.writes(), *key) is None,
    ensures
        tx.store().read_from_shard(*key, r),
{
    let reading = choose|reading: &mut Transaction<'a, K, V>|
        *reading == tx && #[trigger] call_ensures(Transaction::<'a, K, V>::read, (reading, key), r);
}

} // verus!
