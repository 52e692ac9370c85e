use std::collections::{BTreeMap, HashSet};
use std::hash::Hash;
use vstd::prelude::*;
use vstd::std_specs::iter::IteratorSpec;
use vstd::std_specs::cmp::OrdSpec;

use crate::key_model;

verus! {

broadcast use vstd::std_specs::hash::group_hash_axioms, vstd::std_specs::btree::group_btree_axioms, vstd::laws_cmp::group_laws_cmp;

/// A committed transaction as validation sees it: its commit number and the
/// keys it wrote.
pub struct CommittedTx<K> {
    pub tx_id: u64,
    pub keys_modified: HashSet<K>,
}

/// Two sets of keys have a key in common.
pub open spec fn sets_meet<K>(a: Set<K>, b: Set<K>) -> bool {
    exists|k: K| a.contains(k) && b.contains(k)
}

/// Saturating successor of a counter.
pub open spec fn bump(n: u64) -> u64 {
    if n < u64::MAX {
        (n + 1) as u64
    } else {
        n
    }
}

/// The snapshot registry after one more transaction starts at `start_tn`.
pub open spec fn snapshot_acquired(active: Map<u64, usize>, start_tn: u64) -> Map<u64, usize> {
    if active.contains_key(start_tn) {
        let c = active[start_tn];
        active.insert(start_tn, if c < usize::MAX { (c + 1) as usize } else { c })
    } else {
        active.insert(start_tn, 1)
    }
}

/// The snapshot registry after one transaction that started at `start_tn` ends.
pub open spec fn snapshot_released(active: Map<u64, usize>, start_tn: u64) -> Map<u64, usize> {
    if active.contains_key(start_tn) {
        if active[start_tn] == 1 {
            active.remove(start_tn)
        } else {
            active.insert(start_tn, (active[start_tn] - 1) as usize)
        }
    } else {
        active
    }
}

/// `h` is the oldest snapshot still in use.
pub open spec fn is_oldest_snapshot(active: Map<u64, usize>, h: u64) -> bool {
    active.contains_key(h) && forall|k: u64| #[trigger] active.contains_key(k) ==> h <= k
}

/// The oldest snapshot in use, or `global_tn` when none is: every committed
/// transaction at or below it is invisible to every live transaction.
pub open spec fn horizon(active: Map<u64, usize>, global_tn: u64) -> u64 {
    if active.dom().is_empty() {
        global_tn
    } else {
        choose|h: u64| is_oldest_snapshot(active, h)
    }
}

/// Entry `e` outlives a pruning at horizon `h`.
pub open spec fn newer_than<K>(h: u64) -> spec_fn(CommittedTx<K>) -> bool {
    |e: CommittedTx<K>| e.tx_id > h
}

/// The history of committed transactions and the snapshots that live
/// transactions have started from, both kept under one lock by an engine.
pub struct CommitHistory<K> {
    /// Committed transactions, oldest first.
    pub history: Vec<CommittedTx<K>>,
    /// Start numbers of live transactions, with how many started there.
    pub active_snapshots: BTreeMap<u64, usize>,
    /// Number of the last commit; a transaction starting now starts here.
    pub global_tn: u64,
}

impl<K> CommitHistory<K> {
    /// Commit numbers never decrease along the history and never pass
    /// `global_tn`; every registered snapshot is in use and not in the future.
    pub open spec fn wf(self) -> bool {
        &&& 1 <= self.global_tn
        &&& forall|i: int, j: int|
            0 <= i <= j < self.history@.len() ==> #[trigger] self.history@[i].tx_id <= #[trigger] self.history@[j].tx_id
        &&& forall|i: int| 0 <= i < self.history@.len() ==> #[trigger] self.history@[i].tx_id <= self.global_tn
        &&& forall|s: u64|
            #[trigger] self.active_snapshots@.contains_key(s) ==> self.active_snapshots@[s] >= 1 && s <= self.global_tn
    }

    /// Some transaction committed after `start_tn` and no later than
    /// `finish_tn` wrote a key of `read_set`.
    pub open spec fn committed_conflict(self, start_tn: u64, finish_tn: u64, read_set: Set<K>) -> bool {
        exists|i: int|
            0 <= i < self.history@.len() && start_tn < #[trigger] self.history@[i].tx_id <= finish_tn
                && sets_meet(self.history@[i].keys_modified@, read_set)
    }

    /// An empty history whose first snapshot is number 1.
    pub fn new() -> (h: Self)
        ensures
            h.wf(),
            h.history@.len() == 0,
            h.active_snapshots@ == Map::<u64, usize>::empty(),
            h.global_tn == 1,
    {
        CommitHistory { history: Vec::new(), active_snapshots: BTreeMap::new(), global_tn: 1 }
    }
}

impl<K: Eq + Hash + Clone> CommitHistory<K> {
    /// Registers a transaction starting now and returns its start number,
    /// the number of the last commit.
    pub fn register_snapshot(&mut self) -> (start_tn: u64)
        requires
            old(self).wf(),
        ensures
            final(self).wf(),
            start_tn == old(self).global_tn,
            final(self).active_snapshots@ == snapshot_acquired(old(self).active_snapshots@, start_tn),
            final(self).history@ == old(self).history@,
            final(self).global_tn == old(self).global_tn,
    {
        let start_tn = self.global_tn;
        let count: usize = match self.active_snapshots.get(&start_tn) {
            Some(c) => if *c < usize::MAX { *c + 1 } else { *c },
            None => 1,
        };
        self.active_snapshots.insert(start_tn, count);
        start_tn
    }

    /// The oldest registered snapshot, or `global_tn` when there is none.
    fn oldest_snapshot(&self) -> (h: u64)
        ensures
            h == horizon(self.active_snapshots@, self.global_tn),
            forall|s: u64| #[trigger] self.active_snapshots@.contains_key(s) ==> h <= s,
    {
        let ghost ks = self.active_snapshots.keys().remaining();
        let mut first: Option<u64> = None;
        for k in it: self.active_snapshots.keys()
            invariant_except_break
                first is None,
                it.index() == 0,
            invariant
                it.seq() == ks,
            ensures
                ks.len() == 0 ==> first is None,
                ks.len() > 0 ==> first == Some(*ks[0]),
        {
            first = Some(*k);
            break;
        }
        proof {
            assert(ks.unref().to_set() == self.active_snapshots@.dom());
        }
        match first {
            Some(h) => {
                proof {
                    assert(ks.unref().contains(h)) by {
                        assert(ks.unref()[0] == h);
                    }
                    assert forall|j: u64| #[trigger] self.active_snapshots@.contains_key(j) implies h <= j by {
                        assert(ks.unref().to_set().contains(j));
                        let n = choose|n: int| 0 <= n < ks.len() && ks.unref()[n] == j;
                        if n > 0 {
                            assert(vstd::std_specs::btree::increasing_seq(ks));
                            lemma_increasing_first_least(ks, n);
                        }
                    }
                    assert(is_oldest_snapshot(self.active_snapshots@, h));
                    assert(!self.active_snapshots@.dom().is_empty());
                    let c = choose|c: u64| is_oldest_snapshot(self.active_snapshots@, c);
                    assert(c <= h && h <= c);
                }
                h
            },
            None => {
                proof {
                    assert(self.active_snapshots@.dom() =~= ks.unref().to_set());
                }
                self.global_tn
            },
        }
    }

    /// Unregisters a transaction that started at `start_tn`, then drops the
    /// history entries that no live transaction can still conflict with:
    /// those at or below the oldest snapshot still in use (or below the last
    /// commit when none is).
    pub fn unregister_snapshot(&mut self, start_tn: u64)
        requires
            old(self).wf(),
        ensures
            final(self).wf(),
            final(self).active_snapshots@ == snapshot_released(old(self).active_snapshots@, start_tn),
            final(self).global_tn == old(self).global_tn,
            final(self).history@ == old(self).history@.filter(
                newer_than::<K>(horizon(final(self).active_snapshots@, old(self).global_tn)),
            ),
    {
        let found: Option<usize> = match self.active_snapshots.get(&start_tn) {
            Some(c) => Some(*c),
            None => None,
        };
        if let Some(c) = found {
            let left = c - 1;
            if left == 0 {
                self.active_snapshots.remove(&start_tn);
            } else {
                self.active_snapshots.insert(start_tn, left);
            }
        }
        proof {
            assert(self.active_snapshots@ =~= snapshot_released(old(self).active_snapshots@, start_tn));
        }
        let min_active_tn = self.oldest_snapshot();
        let ghost keep = newer_than::<K>(min_active_tn);
        let mut old_history: Vec<CommittedTx<K>> = Vec::new();
        std::mem::swap(&mut old_history, &mut self.history);
        let ghost hs = old_history@;
        for committed in it: old_history.into_iter()
            invariant
                it.seq() == hs,
                self.history@ == hs.take(it.index() as int).filter(keep),
                keep == newer_than::<K>(min_active_tn),
                self.active_snapshots@ == snapshot_released(old(self).active_snapshots@, start_tn),
                self.global_tn == old(self).global_tn,
        {
            let ghost i = it.index();
            let ghost e = committed;
            if committed.tx_id > min_active_tn {
                self.history.push(committed);
            }
            proof {
                assert(hs.take(i + 1).drop_last() == hs.take(i as int));
                assert(hs.take(i + 1).last() == e);
                assert(keep(e) == (e.tx_id > min_active_tn));
                reveal(Seq::filter);
            }
        }
        proof {
            assert(hs.take(hs.len() as int) == hs);
            lemma_filter_sorted(hs, keep);
        }
    }

    /// Whether a transaction that started at `start_tn` and read `read_set`
    /// conflicts with a transaction committed after it started and no later
    /// than `finish_tn`. The history is scanned newest first, and the scan
    /// stops at the first entry at or below `start_tn`.
    pub fn has_conflict(&self, start_tn: u64, finish_tn: u64, read_set: &HashSet<K>) -> (r: bool)
        requires
            self.wf(),
            key_model::<K>(),
        ensures
            r == self.committed_conflict(start_tn, finish_tn, read_set@),
    {
        let mut i: usize = self.history.len();
        while i > 0
            invariant
                i <= self.history@.len(),
                self.wf(),
                key_model::<K>(),
                forall|j: int|
                    i <= j < self.history@.len() ==> !(start_tn < #[trigger] self.history@[j].tx_id <= finish_tn
                        && sets_meet(self.history@[j].keys_modified@, read_set@)),
            decreases i,
        {
            i = i - 1;
            let committed = &self.history[i];
            if committed.tx_id <= start_tn {
                proof {
                    assert forall|j: int| 0 <= j < self.history@.len() implies !(start_tn < #[trigger] self.history@[j].tx_id <= finish_tn
                        && sets_meet(self.history@[j].keys_modified@, read_set@)) by {
                        if j <= i {
                            assert(self.history@[j].tx_id <= self.history@[i as int].tx_id);
                        }
                    }
                }
                return false;
            }
            if committed.tx_id <= finish_tn {
                if sets_intersect(&committed.keys_modified, read_set) {
                    return true;
                }
            }
        }
        false
    }

    /// Records a commit of the keys `keys_modified` under the next commit
    /// number, which becomes the last commit. The number saturates at
    /// `u64::MAX`.
    pub fn record_commit(&mut self, keys_modified: HashSet<K>) -> (commit_tn: u64)
        requires
            old(self).wf(),
        ensures
            final(self).wf(),
            commit_tn == bump(old(self).global_tn),
            final(self).global_tn == commit_tn,
            final(self).history@ == old(self).history@.push(CommittedTx { tx_id: commit_tn, keys_modified }),
            final(self).active_snapshots@ == old(self).active_snapshots@,
    {
        let commit_tn = if self.global_tn < u64::MAX { self.global_tn + 1 } else { self.global_tn };
        self.global_tn = commit_tn;
        self.history.push(CommittedTx { tx_id: commit_tn, keys_modified });
        commit_tn
    }
}

/// Filtering a history keeps it ordered by commit number, and keeps only
/// entries of the history.
proof fn lemma_filter_sorted<K>(s: Seq<CommittedTx<K>>, p: spec_fn(CommittedTx<K>) -> bool)
    requires
        forall|i: int, j: int| 0 <= i <= j < s.len() ==> #[trigger] s[i].tx_id <= #[trigger] s[j].tx_id,
    ensures
        forall|i: int, j: int|
            0 <= i <= j < s.filter(p).len() ==> #[trigger] s.filter(p)[i].tx_id <= #[trigger] s.filter(p)[j].tx_id,
        forall|i: int|
            0 <= i < s.filter(p).len() ==> exists|j: int| 0 <= j < s.len() && #[trigger] s.filter(p)[i] == s[j],
    decreases s.len(),
{
    reveal(Seq::filter);
    if s.len() > 0 {
        let rest = s.drop_last();
        lemma_filter_sorted(rest, p);
        let rf = rest.filter(p);
        let f = s.filter(p);
        assert forall|i: int| 0 <= i < rf.len() implies exists|j: int| 0 <= j < s.len() - 1 && #[trigger] rf[i] == s[j] by {
            let j = choose|j: int| 0 <= j < rest.len() && rf[i] == rest[j];
            assert(rest[j] == s[j]);
        }
        if p(s.last()) {
            assert(f == rf.push(s.last()));
            assert forall|i: int| 0 <= i < f.len() implies exists|j: int| 0 <= j < s.len() && #[trigger] f[i] == s[j] by {
                if i < rf.len() {
                    let j = choose|j: int| 0 <= j < s.len() - 1 && rf[i] == s[j];
                    assert(f[i] == s[j]);
                } else {
                    assert(f[i] == s[s.len() - 1]);
                }
            }
            assert forall|a: int, b: int| 0 <= a <= b < f.len() implies #[trigger] f[a].tx_id <= #[trigger] f[b].tx_id by {
                if b < rf.len() {
                    assert(f[a] == rf[a] && f[b] == rf[b]);
                } else if a < rf.len() {
                    let j = choose|j: int| 0 <= j < s.len() - 1 && rf[a] == s[j];
                    assert(f[a] == s[j]);
                    assert(f[b] == s[s.len() - 1]);
                }
            }
        } else {
            assert(f == rf);
        }
    }
}

/// A finite non-empty set of numbers has a least element.
proof fn lemma_least_exists(s: Set<u64>)
    requires
        s.finite(),
        !s.is_empty(),
    ensures
        exists|h: u64| s.contains(h) && forall|k: u64| #[trigger] s.contains(k) ==> h <= k,
    decreases s.len(),
{
    let x = s.choose();
    let r = s.remove(x);
    if r.is_empty() {
        assert forall|k: u64| #[trigger] s.contains(k) implies x <= k by {
            if k != x {
                assert(r.contains(k));
            }
        }
    } else {
        lemma_least_exists(r);
        let m = choose|h: u64| r.contains(h) && forall|k: u64| #[trigger] r.contains(k) ==> h <= k;
        if x < m {
            assert forall|k: u64| #[trigger] s.contains(k) implies x <= k by {
                if k != x {
                    assert(r.contains(k));
                }
            }
        } else {
            assert forall|k: u64| #[trigger] s.contains(k) implies m <= k by {
                if k != x {
                    assert(r.contains(k));
                }
            }
        }
    }
}

/// The horizon of a registry of live snapshots is at or below each of them.
pub proof fn lemma_horizon_below_live(active: Map<u64, usize>, global_tn: u64, s: u64)
    requires
        active.dom().finite(),
        active.contains_key(s),
    ensures
        horizon(active, global_tn) <= s,
{
    lemma_least_exists(active.dom());
    let m = choose|h: u64| active.dom().contains(h) && forall|k: u64| #[trigger] active.dom().contains(k) ==> h <= k;
    assert(is_oldest_snapshot(active, m));
    let h = choose|h: u64| is_oldest_snapshot(active, h);
    assert(is_oldest_snapshot(active, h));
}

/// Starting a transaction and ending it leaves the registry of live
/// snapshots as it was (short of a count at `usize::MAX`).
pub proof fn law_release_undoes_acquire(active: Map<u64, usize>, start_tn: u64)
    requires
        forall|s: u64| #[trigger] active.contains_key(s) ==> active[s] >= 1,
        active.contains_key(start_tn) ==> active[start_tn] < usize::MAX,
    ensures
        snapshot_released(snapshot_acquired(active, start_tn), start_tn) == active,
{
    assert(snapshot_released(snapshot_acquired(active, start_tn), start_tn) =~= active);
}

/// Pruning the history when a transaction ends never changes the outcome
/// of validation for a transaction that is still live: the entries dropped
/// are at or below its start, so they never counted against it.
pub proof fn law_pruning_keeps_live_conflicts<K>(
    before: CommitHistory<K>,
    after: CommitHistory<K>,
    ended_tn: u64,
    live_tn: u64,
    finish_tn: u64,
    read_set: Set<K>,
)
    requires
        after.active_snapshots@ == snapshot_released(before.active_snapshots@, ended_tn),
        after.history@ == before.history@.filter(
            newer_than::<K>(horizon(after.active_snapshots@, before.global_tn)),
        ),
        after.active_snapshots@.contains_key(live_tn),
    ensures
        after.committed_conflict(live_tn, finish_tn, read_set) == before.committed_conflict(
            live_tn,
            finish_tn,
            read_set,
        ),
{
    let h = horizon(after.active_snapshots@, before.global_tn);
    let p = newer_than::<K>(h);
    lemma_horizon_below_live(after.active_snapshots@, before.global_tn, live_tn);
    let hs = before.history@;
    let f = hs.filter(p);
    if before.committed_conflict(live_tn, finish_tn, read_set) {
        let i = choose|i: int|
            0 <= i < hs.len() && live_tn < #[trigger] hs[i].tx_id <= finish_tn && sets_meet(hs[i].keys_modified@, read_set);
        hs.lemma_filter_contains(p, i);
        let j = choose|j: int| 0 <= j < f.len() && f[j] == hs[i];
        assert(after.history@[j] == hs[i]);
    }
    if after.committed_conflict(live_tn, finish_tn, read_set) {
        let j = choose|j: int|
            0 <= j < f.len() && live_tn < #[trigger] f[j].tx_id <= finish_tn && sets_meet(f[j].keys_modified@, read_set);
        assert(f.contains(f[j]));
        hs.lemma_filter_contains_rev(p, f[j]);
        let i = choose|i: int| 0 <= i < hs.len() && hs[i] == f[j];
        assert(hs[i].tx_id == f[j].tx_id);
    }
}

/// A transaction that starts now is never refused because of a commit
/// that came before it: every recorded commit is at or below the current
/// commit number.
pub proof fn law_earlier_commits_never_conflict<K>(h: CommitHistory<K>, finish_tn: u64, read_set: Set<K>)
    requires
        h.wf(),
    ensures
        !h.committed_conflict(h.global_tn, finish_tn, read_set),
{
}

/// The validation rule itself: once a transaction has committed writes to
/// `keys`, every transaction that started before it (at a snapshot not past
/// the commit number before it) and read one of those keys is refused.
pub proof fn law_commit_refuses_stale_readers<K>(
    before: CommitHistory<K>,
    after: CommitHistory<K>,
    keys: Set<K>,
    start_tn: u64,
    read_set: Set<K>,
)
    requires
        before.wf(),
        before.global_tn < u64::MAX,
        after.history@.len() == before.history@.len() + 1,
        after.history@.last().tx_id == bump(before.global_tn),
        after.history@.last().keys_modified@ == keys,
        start_tn <= before.global_tn,
        sets_meet(keys, read_set),
    ensures
        after.committed_conflict(start_tn, u64::MAX, read_set),
{
    let i = after.history@.len() - 1;
    assert(start_tn < after.history@[i].tx_id);
}

/// Whether `a` and `b` share a key: each key of `a` is looked up in `b`.
pub fn sets_intersect<K: Eq + Hash + Clone>(a: &HashSet<K>, b: &HashSet<K>) -> (r: bool)
    requires
        key_model::<K>(),
    ensures
        r == sets_meet(a@, b@),
{
    for k in it: a.iter()
        invariant
            key_model::<K>(),
            it.seq().unref().to_set() == a@,
            forall|i: int| 0 <= i < it.index() ==> !b@.contains(*it.seq()[i]),
            forall|k: K| a@.contains(k) ==> exists|i: int| 0 <= i < it.seq().len() && *it.seq()[i] == k,
    {
        if b.contains(k) {
            proof {
                assert(it.seq().unref().to_set().contains(*k));
            }
            return true;
        }
    }
    false
}

/// In a strictly increasing sequence of keys the first is below every other.
proof fn lemma_increasing_first_least(ks: Seq<&u64>, n: int)
    requires
        vstd::std_specs::btree::increasing_seq(ks),
        0 < n < ks.len(),
    ensures
        *ks[0] < *ks[n],
{
    assert(vstd::laws_cmp::obeys_cmp::<u64>());
    assert(vstd::laws_cmp::obeys_cmp::<&u64>());
    let a: &u64 = ks[0];
    let b: &u64 = ks[n];
    assert(OrdSpec::cmp_spec(&a, &b) is Less);
}

} // verus!
