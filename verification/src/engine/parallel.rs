use std::collections::{BTreeMap, HashSet};
use std::hash::Hash;
use vstd::prelude::*;
use vstd::rwlock::RwLock;
use vstd::std_specs::iter::IteratorSpec;

use super::batch::{copy_key_set, split_writes, write_keys};
use super::history::{bump, sets_meet, CommitHistory, CommittedTx};
use super::{commit_outcome, OccEngine};
use crate::error::OccError;
use crate::key_model;
use crate::storage::Storage;
use crate::transaction::{EngineRef, LocalChange, Transaction, TxCleanup};

verus! {

broadcast use vstd::std_specs::hash::group_hash_axioms, vstd::std_specs::btree::group_btree_axioms, vstd::laws_cmp::group_laws_cmp;

/// The key sets held by a sequence of sets.
pub open spec fn set_views<K>(v: Seq<HashSet<K>>) -> Set<Set<K>> {
    Set::new(|s: Set<K>| exists|j: int| 0 <= j < v.len() && (#[trigger] v[j])@ == s)
}

/// The write sets of the transactions that are validating.
pub open spec fn validating_sets<K>(av: Map<u64, HashSet<K>>) -> Set<Set<K>> {
    Set::new(|s: Set<K>| exists|id: u64| #[trigger] av.contains_key(id) && av[id]@ == s)
}

/// Some validating transaction writes a key that is read or written here.
pub open spec fn active_conflict_spec<K>(active: Set<Set<K>>, read_set: Set<K>, write_keys: Set<K>) -> bool {
    exists|s: Set<K>| #[trigger] active.contains(s) && sets_meet(s, read_set + write_keys)
}

/// Two transactions that validate at the same time and touch a common key
/// do not both commit: once the first has entered validation with write
/// set `first_writes`, the second, which enters after it and reads or
/// writes one of those keys, finds a conflict among the write sets it was
/// handed.
pub proof fn law_concurrent_validators_conflict<K>(
    first_id: u64,
    first_writes: HashSet<K>,
    during: Map<u64, HashSet<K>>,
    finish_active: Seq<HashSet<K>>,
    read_set: Set<K>,
    write_keys: Set<K>,
)
    requires
        during.contains_key(first_id),
        during[first_id] == first_writes,
        set_views(finish_active) == validating_sets(during),
        sets_meet(first_writes@, read_set + write_keys),
    ensures
        active_conflict_spec(set_views(finish_active), read_set, write_keys),
{
    assert(validating_sets(during).contains(first_writes@));
}

/// The state that the parallel engine keeps under its lock: the commit
/// history, and the write sets of the transactions now between the start
/// of their validation and the end of their write phase.
pub struct ParallelEngineState<K> {
    pub commits: CommitHistory<K>,
    pub active_validating: BTreeMap<u64, HashSet<K>>,
    pub next_tx_id: u64,
}

/// The lock invariant of the parallel engine's state.
pub open spec fn state_wf<K>() -> spec_fn(ParallelEngineState<K>) -> bool {
    |s: ParallelEngineState<K>| s.commits.wf()
}

impl<K: Eq + Hash + Clone> ParallelEngineState<K> {
    /// Enters the validation phase with the write set `write_keys`: takes
    /// the next validation id, and returns it with the last commit number
    /// (validation looks at commits up to it) and copies of the write sets of
    /// the transactions already validating (validation checks against them).
    pub fn enter_validation(&mut self, write_keys: HashSet<K>) -> (r: (u64, u64, Vec<HashSet<K>>))
        requires
            old(self).commits.wf(),
            key_model::<K>(),
        ensures
            final(self).commits == old(self).commits,
            r.0 == old(self).next_tx_id,
            final(self).next_tx_id == bump(old(self).next_tx_id),
            r.1 == old(self).commits.global_tn,
            set_views(r.2@) == validating_sets(old(self).active_validating@),
            final(self).active_validating@ == old(self).active_validating@.insert(r.0, write_keys),
    {
        let active_id = self.next_tx_id;
        self.next_tx_id = if self.next_tx_id < u64::MAX { self.next_tx_id + 1 } else { self.next_tx_id };
        let finish_tn = self.commits.global_tn;
        let mut finish_active: Vec<HashSet<K>> = Vec::new();
        let ghost av = self.active_validating@;
        let ghost vs = self.active_validating.values().remaining();
        proof {
            assert(vs.unref().to_set() == av.values());
            assert forall|s: Set<K>| #[trigger] validating_sets(av).contains(s) implies exists|j: int|
                0 <= j < vs.len() && (*vs[j])@ == s by {
                let id = choose|id: u64| #[trigger] av.contains_key(id) && av[id]@ == s;
                assert(av.values().contains(av[id]));
                assert(vs.unref().to_set().contains(av[id]));
                let j = choose|j: int| 0 <= j < vs.len() && vs.unref()[j] == av[id];
                assert((*vs[j])@ == s);
            }
            assert forall|j: int| 0 <= j < vs.len() implies #[trigger] validating_sets(av).contains((*vs[j])@) by {
                assert(vs.unref()[j] == *vs[j]);
                assert(vs.unref().to_set().contains(*vs[j]));
                assert(av.values().contains(*vs[j]));
                let id = choose|id: u64| #[trigger] av.contains_key(id) && av[id] == *vs[j];
                assert(av.contains_key(id) && av[id]@ == (*vs[j])@);
            }
        }
        for set in it: self.active_validating.values()
            invariant
                key_model::<K>(),
                it.seq() == vs,
                forall|s: Set<K>| #[trigger] validating_sets(av).contains(s) ==> exists|j: int| 0 <= j < vs.len() && (*vs[j])@ == s,
                forall|j: int| 0 <= j < vs.len() ==> #[trigger] validating_sets(av).contains((*vs[j])@),
                finish_active@.len() == it.index(),
                forall|j: int| 0 <= j < it.index() ==> (#[trigger] finish_active@[j])@ == (*vs[j])@,
        {
            let copy = copy_key_set(set);
            finish_active.push(copy);
        }
        proof {
            assert(finish_active@.len() == vs.len());
            assert forall|s: Set<K>| #[trigger] set_views(finish_active@).contains(s) <==> validating_sets(av).contains(s) by {
                if set_views(finish_active@).contains(s) {
                    let j = choose|j: int| 0 <= j < finish_active@.len() && (#[trigger] finish_active@[j])@ == s;
                    assert(validating_sets(av).contains((*vs[j])@));
                }
                if validating_sets(av).contains(s) {
                    let j = choose|j: int| 0 <= j < vs.len() && (*vs[j])@ == s;
                    assert(finish_active@[j]@ == s);
                }
            }
            assert(set_views(finish_active@) =~= validating_sets(av));
        }
        self.active_validating.insert(active_id, write_keys);
        (active_id, finish_tn, finish_active)
    }

    /// Leaves the validation phase: the write set of validation `active_id`
    /// no longer counts against other transactions.
    pub fn leave_validation(&mut self, active_id: u64)
        ensures
            final(self).commits == old(self).commits,
            final(self).next_tx_id == old(self).next_tx_id,
            final(self).active_validating@ == old(self).active_validating@.remove(active_id),
    {
        self.active_validating.remove(&active_id);
    }

    /// Concludes the commit of validation `active_id`, whose validation
    /// answered `valid`, of a transaction that writes `keys` (whose writes the
    /// caller has applied to the store when it is valid and writes): its write
    /// set leaves the validating registry on every outcome; a refused
    /// transaction gets `ValidationFailed` and nothing is recorded; a valid
    /// one succeeds, and when it wrote something its commit is recorded under
    /// the next commit number.
    pub fn conclude(&mut self, active_id: u64, valid: bool, keys: HashSet<K>) -> (r: Result<(), OccError>)
        requires
            old(self).commits.wf(),
        ensures
            final(self).commits.wf(),
            final(self).next_tx_id == old(self).next_tx_id,
            final(self).active_validating@ == old(self).active_validating@.remove(active_id),
            final(self).commits.active_snapshots@ == old(self).commits.active_snapshots@,
            r is Err <==> !valid,
            r matches Err(e) ==> e == OccError::ValidationFailed,
            !valid || keys@.is_empty() ==> {
                &&& final(self).commits.history@ == old(self).commits.history@
                &&& final(self).commits.global_tn == old(self).commits.global_tn
            },
            valid && !keys@.is_empty() ==> {
                &&& final(self).commits.global_tn == bump(old(self).commits.global_tn)
                &&& final(self).commits.history@ == old(self).commits.history@.push(
                    CommittedTx { tx_id: bump(old(self).commits.global_tn), keys_modified: keys },
                )
            },
    {
        self.leave_validation(active_id);
        if !valid {
            return Err(OccError::ValidationFailed);
        }
        if !keys.is_empty() {
            self.commits.record_commit(keys);
        }
        Ok(())
    }
}

/// Whether the parallel engine lets a transaction through: no transaction
/// committed after `start_tn` and no later than `finish_tn` wrote a key it
/// read, and no transaction that was validating beside it (`active`) wrote a
/// key it read or writes.
pub open spec fn parallel_valid<K>(
    history: CommitHistory<K>,
    start_tn: u64,
    finish_tn: u64,
    active: Set<Set<K>>,
    read_set: Set<K>,
    write_keys: Set<K>,
) -> bool {
    !(history.committed_conflict(start_tn, finish_tn, read_set) || active_conflict_spec(active, read_set, write_keys))
}

/// Once every earlier commit has concluded (each leaves the validating
/// registry on every outcome, see `conclude`), a transaction that started
/// after them and validates alone is let through, whatever it reads and
/// writes.
pub proof fn law_fresh_lone_transaction_valid<K>(
    history: CommitHistory<K>,
    finish_tn: u64,
    read_set: Set<K>,
    write_keys: Set<K>,
)
    requires
        history.wf(),
    ensures
        parallel_valid(history, history.global_tn, finish_tn, Set::empty(), read_set, write_keys),
{
    super::history::law_earlier_commits_never_conflict(history, finish_tn, read_set);
}

/// With no transaction validating beside it, the parallel engine decides as
/// the serial one does: validating up to the last commit is validating
/// against the whole history, whose commit numbers never pass it.
pub proof fn law_lone_validation_matches_serial<K>(
    history: CommitHistory<K>,
    start_tn: u64,
    read_set: Set<K>,
    write_keys: Set<K>,
)
    requires
        history.wf(),
    ensures
        parallel_valid(history, start_tn, history.global_tn, Set::empty(), read_set, write_keys)
            == !history.committed_conflict(start_tn, u64::MAX, read_set),
{
    if history.committed_conflict(start_tn, u64::MAX, read_set) {
        let i = choose|i: int|
            0 <= i < history.history@.len() && start_tn < #[trigger] history.history@[i].tx_id <= u64::MAX
                && sets_meet(history.history@[i].keys_modified@, read_set);
        assert(history.history@[i].tx_id <= history.global_tn);
    }
}

/// The validation decision of the parallel engine: a transaction that
/// started at `start_tn`, read `read_set` and writes `write_keys` is valid
/// unless a transaction committed after its start and no later than
/// `finish_tn` wrote a key it read, or a transaction that was validating
/// when it entered validation (`finish_active`) wrote a key it read or
/// writes. Commits are checked first, newest first.
pub fn validate<K: Eq + Hash + Clone>(
    history: &CommitHistory<K>,
    start_tn: u64,
    finish_tn: u64,
    finish_active: &Vec<HashSet<K>>,
    read_set: &HashSet<K>,
    write_keys: &HashSet<K>,
) -> (valid: bool)
    requires
        history.wf(),
        key_model::<K>(),
    ensures
        valid == parallel_valid(*history, start_tn, finish_tn, set_views(finish_active@), read_set@, write_keys@),
{
    if history.has_conflict(start_tn, finish_tn, read_set) {
        return false;
    }
    !active_conflict(finish_active, read_set, write_keys)
}

/// Whether a transaction that read `read_set` and writes `write_keys`
/// conflicts with a transaction that was validating when it entered
/// validation: one of those wrote a key that this one read or writes.
pub fn active_conflict<K: Eq + Hash + Clone>(
    finish_active: &Vec<HashSet<K>>,
    read_set: &HashSet<K>,
    write_keys: &HashSet<K>,
) -> (r: bool)
    requires
        key_model::<K>(),
    ensures
        r == active_conflict_spec(set_views(finish_active@), read_set@, write_keys@),
{
    let mut i: usize = 0;
    while i < finish_active.len()
        invariant
            key_model::<K>(),
            i <= finish_active@.len(),
            forall|j: int| 0 <= j < i ==> !sets_meet((#[trigger] finish_active@[j])@, read_set@ + write_keys@),
        decreases finish_active@.len() - i,
    {
        let active_write_set = &finish_active[i];
        for k in it: active_write_set.iter()
            invariant
                key_model::<K>(),
                i < finish_active@.len(),
                *active_write_set == finish_active@[i as int],
                it.seq().unref().to_set() == active_write_set@,
                forall|j: int| 0 <= j < it.index() ==> !(read_set@ + write_keys@).contains(*it.seq()[j]),
                forall|x: K| active_write_set@.contains(x) ==> exists|j: int| 0 <= j < it.seq().len() && *it.seq()[j] == x,
        {
            if read_set.contains(k) || write_keys.contains(k) {
                proof {
                    assert(it.seq().unref().to_set().contains(*k));
                    assert(sets_meet(finish_active@[i as int]@, read_set@ + write_keys@));
                    assert(set_views(finish_active@).contains(finish_active@[i as int]@));
                }
                return true;
            }
        }
        proof {
            assert(!sets_meet(finish_active@[i as int]@, read_set@ + write_keys@));
        }
        i = i + 1;
    }
    proof {
        assert forall|s: Set<K>| #[trigger] set_views(finish_active@).contains(s) implies !sets_meet(s, read_set@ + write_keys@) by {
            let j = choose|j: int| 0 <= j < finish_active@.len() && (#[trigger] finish_active@[j])@ == s;
        }
    }
    false
}

/// An engine in which transactions validate in parallel: validation
/// against committed transactions runs under a shared lock, and the
/// write sets of transactions that are validating at the same time are
/// checked against each other.
#[verifier::reject_recursive_types(K)]
#[verifier::reject_recursive_types(V)]
pub struct ParallelEngine<K, V> {
    storage: Storage<K, V>,
    state: RwLock<ParallelEngineState<K>, spec_fn(ParallelEngineState<K>) -> bool>,
}

impl<K, V> ParallelEngine<K, V> {
    #[verifier::type_invariant]
    spec fn lock_holds_state(self) -> bool {
        self.state.pred() == state_wf::<K>()
    }

    /// The number of shards of the engine's store.
    pub closed spec fn shard_count(&self) -> nat {
        self.storage.shard_count()
    }

    /// An engine with an empty store, an empty history and no transaction
    /// validating; the first validation id is 1.
    pub fn new() -> (e: Self)
        ensures
            e.shard_count() == crate::storage::NUM_SHARDS,
    {
        Self {
            storage: Storage::new(),
            state: RwLock::new(
                ParallelEngineState {
                    commits: CommitHistory::new(),
                    active_validating: BTreeMap::new(),
                    next_tx_id: 1,
                },
                Ghost(state_wf::<K>()),
            ),
        }
    }
}

impl<K: Eq + Hash + Clone, V: Clone> ParallelEngine<K, V> {
    /// Releases the snapshot of a transaction that started at `start_tn`
    /// and prunes the history up to the oldest snapshot still in use.
    pub(crate) fn unregister_snapshot(&self, start_tn: u64) {
        proof {
            use_type_invariant(self);
        }
        let (mut state, handle) = self.state.acquire_write();
        state.commits.unregister_snapshot(start_tn);
        handle.release_write(state);
    }

    /// Runs `conclude` under the write lock and hands its result back.
    fn conclude_locked(&self, active_id: u64, valid: bool, keys: HashSet<K>) -> (r: Result<(), OccError>)
        ensures
            r is Err <==> !valid,
            r matches Err(e) ==> e == OccError::ValidationFailed,
    {
        proof {
            use_type_invariant(self);
        }
        let (mut state, handle) = self.state.acquire_write();
        let r = state.conclude(active_id, valid, keys);
        handle.release_write(state);
        r
    }
}

impl<'a, K: Eq + Hash + Clone + 'a, V: Clone + 'a> OccEngine<'a, K, V> for ParallelEngine<K, V> {
    closed spec fn engine_store(&self) -> &Storage<K, V> {
        &self.storage
    }

    fn begin(&'a self) -> (tx: Transaction<'a, K, V>) {
        proof {
            use_type_invariant(self);
        }
        let (mut state, handle) = self.state.acquire_write();
        let start_tn = state.commits.register_snapshot();
        handle.release_write(state);
        let cleanup = TxCleanup::new(EngineRef::Parallel(self), start_tn);
        assert(self.engine_store() == &self.storage);
        Transaction::new_with_cleanup(start_tn, &self.storage, cleanup)
    }

    fn commit(&self, tx: &mut Transaction<'a, K, V>) -> (r: Result<(), OccError>) {
        proof {
            use_type_invariant(self);
        }
        let write_keys = write_keys(tx.write_set());

        // Enter validation: fix the last commit to validate against and the
        // write sets of the transactions validating now.
        let (mut state, handle) = self.state.acquire_write();
        let (active_id, finish_tn, finish_active) = state.enter_validation(copy_key_set(&write_keys));
        handle.release_write(state);

        // Validate against the transactions committed since the start and
        // those that were validating.
        let read_handle = self.state.acquire_read();
        let valid = validate(
            &read_handle.borrow().commits,
            tx.start_tn(),
            finish_tn,
            &finish_active,
            tx.read_set(),
            &write_keys,
        );
        read_handle.release_read();

        // Apply the writes of a valid transaction, then conclude under the
        // lock: leave the registry and record the commit.
        if valid && !write_keys.is_empty() {
            let write_set = tx.take_writes();
            let (puts, deletes) = split_writes(&write_set);
            let ghost gp = puts;
            let ghost gd = deletes;
            self.storage.apply_batch(puts, deletes);
            assert(call_ensures(Storage::<K, V>::apply_batch, (&self.storage, gp, gd), ()));
        }
        proof {
            if valid && write_keys@.is_empty() {
                assert(tx.writes().dom() =~= Set::<K>::empty());
                assert(tx.writes() =~= Map::<K, LocalChange<V>>::empty());
            }
        }
        self.conclude_locked(active_id, valid, write_keys)
    }
}

} // verus!
