use std::collections::hash_map::DefaultHasher;
use std::collections::HashMap;
use std::hash::{Hash, Hasher};
use vstd::prelude::*;
use vstd::rwlock::{ReadHandle, RwLock, WriteHandle};
use vstd::std_specs::hash::DefaultHasherAdditionalSpecFns;

use crate::key_model;

verus! {

broadcast use vstd::std_specs::hash::group_hash_axioms;

/// Number of independently locked buckets of the store.
pub const NUM_SHARDS: usize = 64;

/// The lock invariant of a shard: any map is a valid shard.
pub open spec fn any_shard<K, V>() -> spec_fn(HashMap<K, V>) -> bool {
    |m: HashMap<K, V>| true
}

/// The map that results from inserting `puts` into `m` one after the other.
pub open spec fn apply_puts<K, V>(m: Map<K, V>, puts: Seq<(K, V)>) -> Map<K, V>
    decreases puts.len(),
{
    if puts.len() == 0 {
        m
    } else {
        apply_puts(m, puts.drop_last()).insert(puts.last().0, puts.last().1)
    }
}

/// The map that a shard holds after a batch: the puts in order, then the deletes.
pub open spec fn apply_writes<K, V>(m: Map<K, V>, puts: Seq<(K, V)>, deletes: Seq<K>) -> Map<K, V> {
    apply_puts(m, puts).remove_keys(deletes.to_set())
}

/// The items of `s` whose entry in `assign` is `b`, in their order.
pub open spec fn select<T>(s: Seq<T>, assign: Seq<usize>, b: usize) -> Seq<T>
    decreases s.len(),
{
    if s.len() == 0 {
        Seq::empty()
    } else if assign[s.len() - 1] == b {
        select(s.drop_last(), assign, b).push(s.last())
    } else {
        select(s.drop_last(), assign, b)
    }
}

/// The last put of a key in a batch decides its value, unless the batch
/// also deletes it: after `apply_puts`, a key put at position `i` and not
/// put again later holds the value put there.
pub proof fn law_last_put_wins<K, V>(m: Map<K, V>, puts: Seq<(K, V)>, i: int)
    requires
        0 <= i < puts.len(),
        forall|j: int| i < j < puts.len() ==> (#[trigger] puts[j]).0 != puts[i].0,
    ensures
        apply_puts(m, puts).contains_key(puts[i].0),
        apply_puts(m, puts)[puts[i].0] == puts[i].1,
    decreases puts.len(),
{
    if i < puts.len() - 1 {
        law_last_put_wins(m, puts.drop_last(), i);
    }
}

/// After a batch is applied to a shard, a key the batch deletes is gone,
/// a key it puts and does not delete holds its last value, and a key it
/// does not touch holds what it held before.
pub proof fn law_batch_effect<K, V>(m: Map<K, V>, puts: Seq<(K, V)>, deletes: Seq<K>, key: K)
    ensures
        deletes.contains(key) ==> !apply_writes(m, puts, deletes).contains_key(key),
        !deletes.contains(key) && (forall|j: int| 0 <= j < puts.len() ==> (#[trigger] puts[j]).0 != key) ==> {
            &&& apply_writes(m, puts, deletes).contains_key(key) == m.contains_key(key)
            &&& m.contains_key(key) ==> apply_writes(m, puts, deletes)[key] == m[key]
        },
        forall|i: int|
            0 <= i < puts.len() && puts[i].0 == key && !deletes.contains(key) && (forall|j: int|
                i < j < puts.len() ==> (#[trigger] puts[j]).0 != key) ==> {
                &&& #[trigger] apply_writes(m, puts, deletes).contains_key(puts[i].0)
                &&& apply_writes(m, puts, deletes)[puts[i].0] == puts[i].1
            },
{
    assert forall|i: int|
        0 <= i < puts.len() && puts[i].0 == key && !deletes.contains(key) && (forall|j: int|
            i < j < puts.len() ==> (#[trigger] puts[j]).0 != key) implies {
            &&& #[trigger] apply_writes(m, puts, deletes).contains_key(puts[i].0)
            &&& apply_writes(m, puts, deletes)[puts[i].0] == puts[i].1
        } by {
        law_last_put_wins(m, puts, i);
    }
    if !deletes.contains(key) && (forall|j: int| 0 <= j < puts.len() ==> (#[trigger] puts[j]).0 != key) {
        lemma_untouched(m, puts, key);
    }
}

/// Putting a sequence of pairs into a map overrides the map with what the
/// puts alone build from nothing.
pub proof fn lemma_puts_override<K, V>(m: Map<K, V>, puts: Seq<(K, V)>)
    ensures
        apply_puts(m, puts) == m.union_prefer_right(apply_puts(Map::empty(), puts)),
    decreases puts.len(),
{
    if puts.len() > 0 {
        lemma_puts_override(m, puts.drop_last());
        assert(apply_puts(m, puts) =~= m.union_prefer_right(apply_puts(Map::empty(), puts)));
    }
}

/// Applying the same batch to a shard twice leaves it as applying it once.
pub proof fn law_batch_idempotent<K, V>(m: Map<K, V>, puts: Seq<(K, V)>, deletes: Seq<K>)
    ensures
        apply_writes(apply_writes(m, puts, deletes), puts, deletes) == apply_writes(m, puts, deletes),
{
    let once = apply_writes(m, puts, deletes);
    lemma_puts_override(m, puts);
    lemma_puts_override(once, puts);
    assert(apply_writes(once, puts, deletes) =~= once);
}

/// An item sent to bucket `b` is among the items that `select` keeps for `b`.
proof fn lemma_select_contains<T>(s: Seq<T>, a: Seq<usize>, b: usize, i: int)
    requires
        0 <= i < s.len(),
        a[i] == b,
    ensures
        select(s, a, b).contains(s[i]),
    decreases s.len(),
{
    let sel = select(s, a, b);
    let rest = select(s.drop_last(), a, b);
    if i == s.len() - 1 {
        assert(sel == rest.push(s.last()));
        assert(sel[sel.len() - 1] == s[i]);
    } else {
        lemma_select_contains(s.drop_last(), a, b, i);
        let j = choose|j: int| 0 <= j < rest.len() && rest[j] == s.drop_last()[i];
        if a[s.len() - 1] == b {
            assert(sel == rest.push(s.last()));
            assert(sel[j] == s[i]);
        } else {
            assert(sel == rest);
            assert(sel[j] == s[i]);
        }
    }
}

/// A put that is the last one of its key in `s`, sent to bucket `b`, is also
/// the last one of its key among the puts that `select` keeps for `b`.
proof fn lemma_select_last_put<K, V>(s: Seq<(K, V)>, a: Seq<usize>, b: usize, i: int)
    requires
        0 <= i < s.len(),
        a[i] == b,
        forall|j: int| i < j < s.len() ==> (#[trigger] s[j]).0 != s[i].0,
    ensures
        exists|j: int|
            0 <= j < select(s, a, b).len() && select(s, a, b)[j] == s[i] && forall|j2: int|
                j < j2 < select(s, a, b).len() ==> (#[trigger] select(s, a, b)[j2]).0 != s[i].0,
    decreases s.len(),
{
    let sel = select(s, a, b);
    let rest = select(s.drop_last(), a, b);
    if i == s.len() - 1 {
        assert(sel == rest.push(s.last()));
        assert(sel[sel.len() - 1] == s[i]);
    } else {
        assert forall|j: int| i < j < s.drop_last().len() implies (#[trigger] s.drop_last()[j]).0 != s.drop_last()[i].0 by {
            assert(s.drop_last()[j] == s[j]);
        }
        lemma_select_last_put(s.drop_last(), a, b, i);
        let j = choose|j: int|
            0 <= j < rest.len() && rest[j] == s.drop_last()[i] && forall|j2: int|
                j < j2 < rest.len() ==> (#[trigger] rest[j2]).0 != s.drop_last()[i].0;
        if a[s.len() - 1] == b {
            assert(sel == rest.push(s.last()));
            assert(s[s.len() - 1].0 != s[i].0);
            assert forall|j2: int| j < j2 < sel.len() implies (#[trigger] sel[j2]).0 != s[i].0 by {
                if j2 < rest.len() {
                    assert(sel[j2] == rest[j2]);
                }
            }
            assert(sel[j] == s[i]);
        } else {
            assert(sel == rest);
            assert(sel[j] == s[i]);
        }
    }
}

/// Every item that `select` keeps is an item of `s`.
proof fn lemma_select_subset<T>(s: Seq<T>, a: Seq<usize>, b: usize)
    ensures
        forall|j: int| 0 <= j < select(s, a, b).len() ==> s.contains(#[trigger] select(s, a, b)[j]),
    decreases s.len(),
{
    if s.len() > 0 {
        lemma_select_subset(s.drop_last(), a, b);
        let rest = select(s.drop_last(), a, b);
        let sel = select(s, a, b);
        assert forall|j: int| 0 <= j < sel.len() implies s.contains(#[trigger] sel[j]) by {
            if j < rest.len() {
                assert(sel[j] == rest[j]);
                assert(s.drop_last().contains(rest[j]));
                let k = choose|k: int| 0 <= k < s.drop_last().len() && s.drop_last()[k] == rest[j];
                assert(s[k] == sel[j]);
            } else {
                assert(sel[j] == s.last());
                assert(s[s.len() - 1] == sel[j]);
            }
        }
    }
}

/// What a batch does to the store: each key the batch deletes is absent from
/// a map that the batch put back into the key's shard (the one that
/// `get_shard_index` gave for it), and each key it puts for the last time,
/// and does not delete, holds the value put in a map that the batch put back
/// into the key's shard.
pub proof fn law_batch_reaches_store<K: Eq + Hash + Clone, V: Clone>(storage: &Storage<K, V>, puts: Vec<(K, V)>, deletes: Vec<K>)
    requires
        key_model::<K>(),
        call_ensures(Storage::<K, V>::apply_batch, (storage, puts, deletes), ()),
    ensures
        forall|i: int| 0 <= i < deletes@.len() ==> storage.put_back_without(#[trigger] deletes@[i]),
        forall|i: int|
            0 <= i < puts@.len() && !deletes@.contains(#[trigger] puts@[i].0) && (forall|j: int|
                i < j < puts@.len() ==> (#[trigger] puts@[j]).0 != puts@[i].0) ==> storage.put_back_with(puts@[i].0, puts@[i].1),
{
    assert(storage.batch_written(puts@, deletes@));
    let (pa, da) = choose|pa: Seq<usize>, da: Seq<usize>|
        {
            &&& shard_assignment(puts@.len(), deletes@.len(), pa, da)
            &&& Storage::<K, V>::indexed_by_key(puts@, deletes@, pa, da)
            &&& forall|s: usize|
                s < NUM_SHARDS && (select(puts@, pa, s).len() > 0 || select(deletes@, da, s).len() > 0)
                    ==> #[trigger] storage.shard_written(s as int, select(puts@, pa, s), select(deletes@, da, s))
        };
    assert forall|i: int| 0 <= i < deletes@.len() implies storage.put_back_without(#[trigger] deletes@[i]) by {
        let b = da[i];
        lemma_select_contains(deletes@, da, b, i);
        let sp = select(puts@, pa, b);
        let sd = select(deletes@, da, b);
        assert(storage.shard_written(b as int, sp, sd));
        let (taken, put_back) = choose|taken: (HashMap<K, V>, WriteHandle<HashMap<K, V>, spec_fn(HashMap<K, V>) -> bool>), put_back: HashMap<K, V>|
            {
                &&& call_ensures(RwLock::<HashMap<K, V>, spec_fn(HashMap<K, V>) -> bool>::acquire_write, (&storage.shard_lock(b as int),), taken)
                &&& call_ensures(WriteHandle::<HashMap<K, V>, spec_fn(HashMap<K, V>) -> bool>::release_write, (taken.1, put_back), ())
                &&& put_back@ == apply_writes(taken.0@, sp, sd)
            };
        assert(sd.to_set().contains(deletes@[i]));
        assert(storage.put_back_into(b as int, put_back));
    }
    assert forall|i: int|
        0 <= i < puts@.len() && !deletes@.contains(#[trigger] puts@[i].0) && (forall|j: int|
            i < j < puts@.len() ==> (#[trigger] puts@[j]).0 != puts@[i].0) implies storage.put_back_with(puts@[i].0, puts@[i].1) by {
        let b = pa[i];
        let key = puts@[i].0;
        lemma_select_last_put(puts@, pa, b, i);
        let sp = select(puts@, pa, b);
        let sd = select(deletes@, da, b);
        let j = choose|j: int|
            0 <= j < sp.len() && sp[j] == puts@[i] && forall|j2: int| j < j2 < sp.len() ==> (#[trigger] sp[j2]).0 != puts@[i].0;
        lemma_select_subset(deletes@, da, b);
        assert(!sd.contains(key)) by {
            if sd.contains(key) {
                let k = choose|k: int| 0 <= k < sd.len() && sd[k] == key;
                assert(deletes@.contains(sd[k]));
            }
        }
        assert(storage.shard_written(b as int, sp, sd));
        let (taken, put_back) = choose|taken: (HashMap<K, V>, WriteHandle<HashMap<K, V>, spec_fn(HashMap<K, V>) -> bool>), put_back: HashMap<K, V>|
            {
                &&& call_ensures(RwLock::<HashMap<K, V>, spec_fn(HashMap<K, V>) -> bool>::acquire_write, (&storage.shard_lock(b as int),), taken)
                &&& call_ensures(WriteHandle::<HashMap<K, V>, spec_fn(HashMap<K, V>) -> bool>::release_write, (taken.1, put_back), ())
                &&& put_back@ == apply_writes(taken.0@, sp, sd)
            };
        law_last_put_wins(taken.0@, sp, j);
        assert(!sd.to_set().contains(key));
        assert(storage.put_back_into(b as int, put_back));
    }
}

/// A key that no put of the batch writes keeps its entry through the puts.
proof fn lemma_untouched<K, V>(m: Map<K, V>, puts: Seq<(K, V)>, key: K)
    requires
        forall|j: int| 0 <= j < puts.len() ==> (#[trigger] puts[j]).0 != key,
    ensures
        apply_puts(m, puts).contains_key(key) == m.contains_key(key),
        m.contains_key(key) ==> apply_puts(m, puts)[key] == m[key],
    decreases puts.len(),
{
    if puts.len() > 0 {
        lemma_untouched(m, puts.drop_last(), key);
        assert(puts.last().0 != key);
    }
}

/// The shard of a key after its `Hash` implementation has fed the byte
/// strings `written` to a fresh `DefaultHasher`: the hasher's digest,
/// taken as a `usize`, modulo `NUM_SHARDS`.
pub open spec fn shard_of_digest(written: Seq<Seq<u8>>) -> usize {
    ((DefaultHasher::spec_finish(written) as usize) % NUM_SHARDS) as usize
}

/// `pa` and `da` send each put and each delete of a batch to a shard.
pub open spec fn shard_assignment(puts_len: nat, deletes_len: nat, pa: Seq<usize>, da: Seq<usize>) -> bool {
    &&& pa.len() == puts_len
    &&& da.len() == deletes_len
    &&& forall|i: int| 0 <= i < pa.len() ==> #[trigger] pa[i] < NUM_SHARDS
    &&& forall|i: int| 0 <= i < da.len() ==> #[trigger] da[i] < NUM_SHARDS
}

/// A key-value store split into `NUM_SHARDS` hash maps, each behind its own
/// reader-writer lock, so that writes to different shards do not block each
/// other.
#[verifier::reject_recursive_types(K)]
#[verifier::reject_recursive_types(V)]
pub struct Storage<K, V> {
    shards: Vec<RwLock<HashMap<K, V>, spec_fn(HashMap<K, V>) -> bool>>,
}

impl<K, V> Storage<K, V> {
    #[verifier::type_invariant]
    spec fn well_formed(self) -> bool {
        &&& self.shards.len() == NUM_SHARDS
        &&& forall|i: int|
            0 <= i < self.shards.len() ==> #[trigger] self.shards[i].pred() == any_shard::<K, V>()
    }

    /// The number of shards the store is split into.
    pub closed spec fn shard_count(self) -> nat {
        self.shards@.len()
    }

    /// The lock of shard `s`.
    pub closed spec fn shard_lock(self, s: int) -> RwLock<HashMap<K, V>, spec_fn(HashMap<K, V>) -> bool> {
        self.shards@[s]
    }

    /// `put_back` was put back into shard `s` by a holder of its write lock.
    pub open spec fn put_back_into(&self, s: int, put_back: HashMap<K, V>) -> bool {
        exists|handle: WriteHandle<'_, HashMap<K, V>, spec_fn(HashMap<K, V>) -> bool>|
            handle.rwlock() == self.shard_lock(s) && call_ensures(
                WriteHandle::<HashMap<K, V>, spec_fn(HashMap<K, V>) -> bool>::release_write,
                (handle, put_back),
                (),
            )
    }

    /// A store of `NUM_SHARDS` empty shards.
    pub fn new() -> (s: Self)
        ensures
            s.shard_count() == NUM_SHARDS,
    {
        let mut shards: Vec<RwLock<HashMap<K, V>, spec_fn(HashMap<K, V>) -> bool>> =
            Vec::with_capacity(NUM_SHARDS);
        for i in 0..NUM_SHARDS
            invariant
                shards.len() == i,
                forall|j: int| 0 <= j < shards.len() ==> #[trigger] shards[j].pred() == any_shard::<K, V>(),
        {
            shards.push(RwLock::new(HashMap::new(), Ghost(any_shard::<K, V>())));
        }
        Self { shards }
    }
}


impl<K: Eq + Hash + Clone, V: Clone> Storage<K, V> {
    /// Under one hold of shard `s`'s write lock, the map put back is the map
    /// taken out with these puts inserted in order and then these deletes
    /// removed; the puts and deletes, all of them and in this order, were
    /// handed to a call of `apply_shard_writes`.
    pub open spec fn shard_written(&self, s: int, puts: Seq<(K, V)>, deletes: Seq<K>) -> bool {
        &&& exists|taken: (HashMap<K, V>, WriteHandle<'_, HashMap<K, V>, spec_fn(HashMap<K, V>) -> bool>), put_back: HashMap<K, V>|
            #![trigger call_ensures(RwLock::<HashMap<K, V>, spec_fn(HashMap<K, V>) -> bool>::acquire_write, (&self.shard_lock(s),), taken), call_ensures(WriteHandle::<HashMap<K, V>, spec_fn(HashMap<K, V>) -> bool>::release_write, (taken.1, put_back), ())]
            {
                &&& call_ensures(RwLock::<HashMap<K, V>, spec_fn(HashMap<K, V>) -> bool>::acquire_write, (&self.shard_lock(s),), taken)
                &&& call_ensures(
                    WriteHandle::<HashMap<K, V>, spec_fn(HashMap<K, V>) -> bool>::release_write,
                    (taken.1, put_back),
                    (),
                )
                &&& put_back@ == apply_writes(taken.0@, puts, deletes)
            }
        &&& exists|m: &mut HashMap<K, V>, p: Vec<(K, V)>, d: Vec<K>|
            p@ == puts && d@ == deletes && #[trigger] call_ensures(apply_shard_writes::<K, V>, (m, p, d), ())
    }

    /// `r` is what a holder of the read lock of the shard that
    /// `get_shard_index` gave for `key` found for `key` in the map the shard
    /// held: a clone of the key's value if the map had one, `None` if not.
    pub open spec fn read_from_shard(&self, key: K, r: Option<V>) -> bool {
        exists|s: usize, handle: ReadHandle<'_, HashMap<K, V>, spec_fn(HashMap<K, V>) -> bool>|
            {
                &&& call_ensures(Self::get_shard_index, (&key,), s)
                &&& #[trigger] call_ensures(
                    RwLock::<HashMap<K, V>, spec_fn(HashMap<K, V>) -> bool>::acquire_read,
                    (&self.shard_lock(s as int),),
                    handle,
                )
                &&& (r is Some <==> handle.view()@.contains_key(key))
                &&& (r matches Some(v) ==> cloned(handle.view()@[key], v))
            }
    }

    /// Each put and each delete of the batch went to the shard that
    /// `get_shard_index` gave for its key, and every shard that got any of
    /// them had its map, under one hold of its write lock, changed by exactly
    /// its part of the batch, in the batch's order.
    pub open spec fn batch_written(&self, puts: Seq<(K, V)>, deletes: Seq<K>) -> bool {
        exists|pa: Seq<usize>, da: Seq<usize>|
            {
                &&& shard_assignment(puts.len(), deletes.len(), pa, da)
                &&& Self::indexed_by_key(puts, deletes, pa, da)
                &&& forall|s: usize|
                    s < NUM_SHARDS && (select(puts, pa, s).len() > 0 || select(deletes, da, s).len() > 0)
                        ==> #[trigger] self.shard_written(s as int, select(puts, pa, s), select(deletes, da, s))
            }
    }

    /// Some map that a holder of the write lock of the shard that
    /// `get_shard_index` gave for `key` put back lacks `key`.
    pub open spec fn put_back_without(&self, key: K) -> bool {
        exists|s: usize, put_back: HashMap<K, V>|
            call_ensures(Self::get_shard_index, (&key,), s) && #[trigger] self.put_back_into(s as int, put_back)
                && !put_back@.contains_key(key)
    }

    /// Some map that a holder of the write lock of the shard that
    /// `get_shard_index` gave for `key` put back maps `key` to `value`.
    pub open spec fn put_back_with(&self, key: K, value: V) -> bool {
        exists|s: usize, put_back: HashMap<K, V>|
            call_ensures(Self::get_shard_index, (&key,), s) && #[trigger] self.put_back_into(s as int, put_back)
                && put_back@.contains_key(key) && put_back@[key] == value
    }

    /// `pa` and `da` give each put and each delete of a batch the shard index
    /// that a call of `get_shard_index` returned for its key.
    pub open spec fn indexed_by_key(puts: Seq<(K, V)>, deletes: Seq<K>, pa: Seq<usize>, da: Seq<usize>) -> bool {
        &&& forall|i: int| 0 <= i < puts.len() ==> #[trigger] call_ensures(Self::get_shard_index, (&puts[i].0,), pa[i])
        &&& forall|i: int| 0 <= i < deletes.len() ==> #[trigger] call_ensures(Self::get_shard_index, (&deletes[i],), da[i])
    }

    /// The shard that holds `key`: the key's `DefaultHasher` hash modulo
    /// `NUM_SHARDS`. The byte strings that the key's `Hash` implementation
    /// feeds to the fresh hasher cannot be named for a generic key type, so
    /// the index is stated for the writes that were made.
    pub fn get_shard_index(key: &K) -> (idx: usize)
        ensures
            idx < NUM_SHARDS,
            exists|written: Seq<Seq<u8>>| idx == shard_of_digest(written),
    {
        let mut hasher = DefaultHasher::new();
        hash_into(key, &mut hasher);
        let idx = (hasher.finish() as usize) % NUM_SHARDS;
        proof {
            assert(idx == shard_of_digest(hasher@));
        }
        idx
    }

    /// Reads `key` under a read lock on its shard only. What comes back is
    /// what that shard held at that moment, which other threads may change at
    /// any time.
    pub fn get(&self, key: &K) -> (r: Option<V>)
        requires
            key_model::<K>(),
        ensures
            self.read_from_shard(*key, r),
            exists|m: &HashMap<K, V>| call_ensures(shard_lookup::<K, V>, (m, key), r),
    {
        proof {
            use_type_invariant(self);
        }
        let idx = Self::get_shard_index(key);
        let handle = self.shards[idx].acquire_read();
        let r = shard_lookup(handle.borrow(), key);
        proof {
            assert(self.shard_lock(idx as int) == self.shards@[idx as int]);
        }
        handle.release_read();
        r
    }

    /// Applies a batch of puts and deletes. The batch is split by shard, and
    /// the shards are then visited in ascending order, each under its own
    /// write lock, so that two batches never wait on each other in a cycle.
    /// Under one hold of its write lock, each shard that gets part of the
    /// batch has its map replaced by `apply_writes` of that map with its
    /// part (`batch_written`); since other threads may write to the shards
    /// before and after, nothing is stated of the store as a whole.
    pub fn apply_batch(&self, puts: Vec<(K, V)>, deletes: Vec<K>)
        requires
            key_model::<K>(),
        ensures
            self.batch_written(puts@, deletes@),
    {
        proof {
            use_type_invariant(self);
        }
        let ghost ps = puts@;
        let ghost ds = deletes@;
        let buckets = Self::group_by_shard(puts, deletes);
        let ghost bs = buckets@;
        let ghost (pa, da) = choose|pa: Seq<usize>, da: Seq<usize>|
            {
                &&& pa.len() == ps.len()
                &&& da.len() == ds.len()
                &&& forall|i: int| 0 <= i < pa.len() ==> #[trigger] pa[i] < NUM_SHARDS
                &&& forall|i: int| 0 <= i < da.len() ==> #[trigger] da[i] < NUM_SHARDS
                &&& Self::indexed_by_key(ps, ds, pa, da)
                &&& forall|s: usize|
                    s < NUM_SHARDS ==> {
                        &&& (#[trigger] bs[s as int]).0@ == select(ps, pa, s)
                        &&& bs[s as int].1@ == select(ds, da, s)
                    }
            };
        let mut i: usize = 0;
        for bucket in it: buckets.into_iter()
            invariant
                key_model::<K>(),
                it.seq() == bs,
                bs.len() == NUM_SHARDS,
                i == it.index(),
                self.shards.len() == NUM_SHARDS,
                forall|j: int|
                    0 <= j < self.shards.len() ==> #[trigger] self.shards[j].pred() == any_shard::<K, V>(),
                forall|s: usize|
                    s < i && ((#[trigger] bs[s as int]).0@.len() > 0 || bs[s as int].1@.len() > 0)
                        ==> self.shard_written(s as int, bs[s as int].0@, bs[s as int].1@),
        {
            let (shard_puts, shard_deletes) = bucket;
            let ghost gp = shard_puts;
            let ghost gd = shard_deletes;
            let has_puts = !shard_puts.is_empty();
            let has_deletes = !shard_deletes.is_empty();
            if has_puts || has_deletes {
                let (mut shard, handle) = self.shards[i].acquire_write();
                apply_shard_writes(&mut shard, shard_puts, shard_deletes);
                handle.release_write(shard);
                assert(self.shard_lock(i as int) == self.shards@[i as int]);
                assert(self.shard_written(i as int, gp@, gd@));
            }
            proof {
                assert(bs[i as int] == (gp, gd));
            }
            i = i + 1;
        }
        proof {
            assert forall|s: usize|
                s < NUM_SHARDS && (select(ps, pa, s).len() > 0 || select(ds, da, s).len() > 0)
                    implies #[trigger] self.shard_written(s as int, select(ps, pa, s), select(ds, da, s)) by {
                assert(bs[s as int].0@ == select(ps, pa, s));
            }
            assert(shard_assignment(ps.len(), ds.len(), pa, da));
        }
    }

    /// Splits a batch into one batch per shard: every put and every delete
    /// lands in exactly one shard, in the order of the batch.
    fn group_by_shard(puts: Vec<(K, V)>, deletes: Vec<K>) -> (b: Vec<(Vec<(K, V)>, Vec<K>)>)
        ensures
            b.len() == NUM_SHARDS,
            exists|pa: Seq<usize>, da: Seq<usize>|
                {
                    &&& pa.len() == puts@.len()
                    &&& da.len() == deletes@.len()
                    &&& forall|i: int| 0 <= i < pa.len() ==> #[trigger] pa[i] < NUM_SHARDS
                    &&& forall|i: int| 0 <= i < da.len() ==> #[trigger] da[i] < NUM_SHARDS
                    &&& Self::indexed_by_key(puts@, deletes@, pa, da)
                    &&& forall|s: usize|
                        s < NUM_SHARDS ==> {
                            &&& (#[trigger] b@[s as int]).0@ == select(puts@, pa, s)
                            &&& b@[s as int].1@ == select(deletes@, da, s)
                        }
                },
    {
        let ghost ps = puts@;
        let ghost ds = deletes@;
        let mut b: Vec<(Vec<(K, V)>, Vec<K>)> = Vec::with_capacity(NUM_SHARDS);
        for i in 0..NUM_SHARDS
            invariant
                b.len() == i,
                forall|j: int| 0 <= j < b.len() ==> (#[trigger] b@[j]).0@.len() == 0 && b@[j].1@.len() == 0,
        {
            b.push((Vec::new(), Vec::new()));
        }
        let ghost mut pa: Seq<usize> = Seq::empty();
        for kv in it: puts.into_iter()
            invariant
                it.seq() == ps,
                pa.len() == it.index(),
                b.len() == NUM_SHARDS,
                forall|i: int| 0 <= i < pa.len() ==> #[trigger] pa[i] < NUM_SHARDS,
                forall|i: int| 0 <= i < pa.len() ==> #[trigger] call_ensures(Self::get_shard_index, (&ps[i].0,), pa[i]),
                forall|s: usize|
                    s < NUM_SHARDS ==> {
                        &&& (#[trigger] b@[s as int]).0@ == select(ps.take(it.index() as int), pa, s)
                        &&& b@[s as int].1@.len() == 0
                    },
        {
            let idx = Self::get_shard_index(&kv.0);
            let ghost i = it.index();
            let ghost old_b = b@;
            let ghost kv0 = kv;
            b[idx].0.push(kv);
            proof {
                let pa_old = pa;
                pa = pa.push(idx);
                let t1 = ps.take(i + 1);
                assert(t1.drop_last() == ps.take(i as int));
                assert(t1.last() == kv0);
                assert forall|s: usize| s < NUM_SHARDS implies {
                    &&& (#[trigger] b@[s as int]).0@ == select(t1, pa, s)
                    &&& b@[s as int].1@.len() == 0
                } by {
                    lemma_select_prefix(ps.take(i as int), pa_old, pa, s);
                    if s == idx {
                        assert(b@[s as int].0@ == old_b[s as int].0@.push(kv0));
                    } else {
                        assert(b@[s as int] == old_b[s as int]);
                    }
                }
            }
        }
        proof {
            assert(ps.take(ps.len() as int) == ps);
        }
        let ghost mut da: Seq<usize> = Seq::empty();
        for k in it: deletes.into_iter()
            invariant
                it.seq() == ds,
                da.len() == it.index(),
                pa.len() == ps.len(),
                b.len() == NUM_SHARDS,
                forall|i: int| 0 <= i < pa.len() ==> #[trigger] pa[i] < NUM_SHARDS,
                forall|i: int| 0 <= i < da.len() ==> #[trigger] da[i] < NUM_SHARDS,
                forall|i: int| 0 <= i < pa.len() ==> #[trigger] call_ensures(Self::get_shard_index, (&ps[i].0,), pa[i]),
                forall|i: int| 0 <= i < da.len() ==> #[trigger] call_ensures(Self::get_shard_index, (&ds[i],), da[i]),
                forall|s: usize|
                    s < NUM_SHARDS ==> {
                        &&& (#[trigger] b@[s as int]).0@ == select(ps, pa, s)
                        &&& b@[s as int].1@ == select(ds.take(it.index() as int), da, s)
                    },
        {
            let idx = Self::get_shard_index(&k);
            let ghost i = it.index();
            let ghost old_b = b@;
            let ghost k0 = k;
            b[idx].1.push(k);
            proof {
                let da_old = da;
                da = da.push(idx);
                let t1 = ds.take(i + 1);
                assert(t1.drop_last() == ds.take(i as int));
                assert(t1.last() == k0);
                assert forall|s: usize| s < NUM_SHARDS implies {
                    &&& (#[trigger] b@[s as int]).0@ == select(ps, pa, s)
                    &&& b@[s as int].1@ == select(t1, da, s)
                } by {
                    lemma_select_prefix(ds.take(i as int), da_old, da, s);
                    if s == idx {
                        assert(b@[s as int].1@ == old_b[s as int].1@.push(k0));
                        assert(b@[s as int].0@ == old_b[s as int].0@);
                    } else {
                        assert(b@[s as int] == old_b[s as int]);
                    }
                }
            }
        }
        proof {
            assert(ds.take(ds.len() as int) == ds);
            assert(Self::indexed_by_key(ps, ds, pa, da));
        }
        b
    }
}

/// `select` reads only the entries of `assign` below the length of `s`.
proof fn lemma_select_prefix<T>(s: Seq<T>, a1: Seq<usize>, a2: Seq<usize>, b: usize)
    requires
        forall|i: int| 0 <= i < s.len() ==> a1[i] == a2[i],
    ensures
        select(s, a1, b) == select(s, a2, b),
    decreases s.len(),
{
    if s.len() > 0 {
        lemma_select_prefix(s.drop_last(), a1, a2, b);
    }
}

/// Feeds `key` to `state` through the key type's `std::hash::Hash::hash`.
/// Nothing is stated of the bytes that reach the hasher: they are whatever
/// `K`'s implementation writes, and no contract over a generic key type can
/// name them. Deterministic hashing is therefore not stated either.
#[verifier::external_body]
fn hash_into<K: Hash>(key: &K, state: &mut DefaultHasher) {
    key.hash(state)
}

/// The value that `m` holds for `key`, cloned.
pub fn shard_lookup<K: Eq + Hash + Clone, V: Clone>(m: &HashMap<K, V>, key: &K) -> (r: Option<V>)
    requires
        key_model::<K>(),
    ensures
        r is Some <==> m@.contains_key(*key),
        r matches Some(v) ==> cloned(m@[*key], v),
{
    match m.get(key) {
        Some(v) => Some(v.clone()),
        None => None,
    }
}

/// Inserts the puts in order, then removes the deleted keys.
pub fn apply_shard_writes<K: Eq + Hash + Clone, V>(
    m: &mut HashMap<K, V>,
    puts: Vec<(K, V)>,
    deletes: Vec<K>,
)
    requires
        key_model::<K>(),
    ensures
        final(m)@ == apply_writes(old(m)@, puts@, deletes@),
{
    let ghost m0 = m@;
    let ghost ps = puts@;
    let ghost ds = deletes@;
    for kv in it: puts.into_iter()
        invariant
            key_model::<K>(),
            it.seq() == ps,
            m@ == apply_puts(m0, ps.take(it.index() as int)),
    {
        let (k, v) = kv;
        proof {
            assert(ps.take(it.index() + 1).drop_last() == ps.take(it.index() as int));
        }
        m.insert(k, v);
    }
    proof {
        assert(ps.take(ps.len() as int) == ps);
    }
    let ghost m1 = m@;
    for k in it: deletes.into_iter()
        invariant
            key_model::<K>(),
            it.seq() == ds,
            m@ == m1.remove_keys(ds.take(it.index() as int).to_set()),
    {
        let ghost before = m@;
        m.remove(&k);
        proof {
            let i = it.index();
            assert(ds.take(i + 1).to_set() == ds.take(i as int).to_set().insert(k)) by {
                assert(ds.take(i + 1) == ds.take(i as int).push(k));
                ds.take(i as int).lemma_push_to_set_commute(k);
            }
            assert(m@ == m1.remove_keys(ds.take(i + 1).to_set()));
        }
    }
    proof {
        assert(ds.take(ds.len() as int) == ds);
    }
}

} // verus!
