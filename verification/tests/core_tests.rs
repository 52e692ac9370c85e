use std::collections::{HashMap, HashSet};

use occ::engine::batch::{copy_key_set, modified_keys, split_writes, write_keys};
use occ::engine::history::{sets_intersect, CommitHistory};
use occ::engine::parallel::{active_conflict, validate, ParallelEngineState};
use occ::engine::serial::SerialEngine as Serial;
use occ::storage::{apply_shard_writes, shard_lookup, Storage};
use occ::transaction::LocalChange;
use occ::{OccEngine, OccError, ParallelEngine, SerialEngine};

fn set_of(keys: &[u64]) -> HashSet<u64> {
    keys.iter().copied().collect()
}

#[test]
fn storage_batch_puts_then_deletes() {
    let storage: Storage<u64, u64> = Storage::new();
    let puts: Vec<(u64, u64)> = (0..200).map(|k| (k, k * 10)).collect();
    storage.apply_batch(puts, vec![]);
    for k in 0..200 {
        assert_eq!(storage.get(&k), Some(k * 10));
    }
    assert_eq!(storage.get(&500), None);

    // a key put and deleted in one batch is gone; other keys are untouched
    storage.apply_batch(vec![(7, 70), (8, 81)], vec![7, 9]);
    assert_eq!(storage.get(&7), None);
    assert_eq!(storage.get(&8), Some(81));
    assert_eq!(storage.get(&9), None);
    assert_eq!(storage.get(&10), Some(100));
}

#[test]
fn storage_last_put_wins() {
    let storage: Storage<String, i32> = Storage::new();
    storage.apply_batch(vec![("a".to_string(), 1), ("a".to_string(), 2)], vec![]);
    assert_eq!(storage.get(&"a".to_string()), Some(2));
}

#[test]
fn shard_writes_and_lookup() {
    let mut m: HashMap<u64, u64> = HashMap::new();
    m.insert(1, 1);
    m.insert(2, 2);
    apply_shard_writes(&mut m, vec![(3, 30), (1, 10)], vec![2]);
    assert_eq!(shard_lookup(&m, &1), Some(10));
    assert_eq!(shard_lookup(&m, &2), None);
    assert_eq!(shard_lookup(&m, &3), Some(30));
    assert_eq!(m.len(), 2);
}

#[test]
fn write_set_split() {
    let mut w: HashMap<u64, LocalChange<u64>> = HashMap::new();
    w.insert(1, LocalChange::Put(10));
    w.insert(2, LocalChange::Deleted);
    w.insert(3, LocalChange::Put(30));
    let (mut puts, deletes) = split_writes(&w);
    puts.sort();
    assert_eq!(puts, vec![(1, 10), (3, 30)]);
    assert_eq!(deletes, vec![2]);
    assert_eq!(modified_keys(&puts, &deletes), set_of(&[1, 2, 3]));
    assert_eq!(write_keys(&w), set_of(&[1, 2, 3]));
    assert_eq!(copy_key_set(&set_of(&[4, 5])), set_of(&[4, 5]));
}

#[test]
fn key_sets_meet() {
    assert!(sets_intersect(&set_of(&[1, 2]), &set_of(&[2, 3])));
    assert!(!sets_intersect(&set_of(&[1, 2]), &set_of(&[3, 4])));
    assert!(!sets_intersect(&set_of(&[]), &set_of(&[3, 4])));
}

#[test]
fn history_validation_window() {
    let mut h: CommitHistory<u64> = CommitHistory::new();
    assert_eq!(h.global_tn, 1);
    let start = h.register_snapshot();
    assert_eq!(start, 1);
    assert_eq!(h.record_commit(set_of(&[5])), 2);
    assert_eq!(h.record_commit(set_of(&[6])), 3);
    // a transaction that started at 1 and read 5 conflicts with commit 2
    assert!(h.has_conflict(1, u64::MAX, &set_of(&[5])));
    // ... but not if validation stops before commit 2
    assert!(!h.has_conflict(1, 1, &set_of(&[5])));
    // a transaction that started after commit 2 does not conflict with it
    assert!(!h.has_conflict(2, u64::MAX, &set_of(&[5])));
    assert!(h.has_conflict(2, u64::MAX, &set_of(&[6])));
    // a transaction that starts now conflicts with nothing
    assert!(!h.has_conflict(h.global_tn, u64::MAX, &set_of(&[5, 6])));
}

#[test]
fn history_pruning_keeps_what_live_snapshots_need() {
    let mut h: CommitHistory<u64> = CommitHistory::new();
    let old_start = h.register_snapshot(); // 1
    h.record_commit(set_of(&[1])); // 2
    let live_start = h.register_snapshot(); // 2
    h.record_commit(set_of(&[2])); // 3
    assert_eq!(h.history.len(), 2);
    assert!(h.has_conflict(live_start, u64::MAX, &set_of(&[2])));
    h.unregister_snapshot(old_start);
    // entries at or below the oldest live snapshot (2) are gone
    assert_eq!(h.history.len(), 1);
    assert_eq!(h.history[0].tx_id, 3);
    // the live transaction's validation is unchanged
    assert!(h.has_conflict(live_start, u64::MAX, &set_of(&[2])));
    assert!(!h.has_conflict(live_start, u64::MAX, &set_of(&[1])));
    h.unregister_snapshot(live_start);
    assert_eq!(h.history.len(), 0);
    assert!(h.active_snapshots.is_empty());
}

#[test]
fn snapshot_counts() {
    let mut h: CommitHistory<u64> = CommitHistory::new();
    let a = h.register_snapshot();
    let b = h.register_snapshot();
    assert_eq!(a, b);
    assert_eq!(h.active_snapshots.get(&a), Some(&2));
    h.unregister_snapshot(a);
    assert_eq!(h.active_snapshots.get(&a), Some(&1));
    h.unregister_snapshot(b);
    assert_eq!(h.active_snapshots.get(&a), None);
    // releasing a snapshot that is not registered changes nothing
    h.unregister_snapshot(42);
    assert!(h.active_snapshots.is_empty());
}

#[test]
fn parallel_validation_registry() {
    let mut st: ParallelEngineState<u64> = ParallelEngineState {
        commits: CommitHistory::new(),
        active_validating: Default::default(),
        next_tx_id: 1,
    };
    let (id1, finish1, active1) = st.enter_validation(set_of(&[1]));
    assert_eq!((id1, finish1, active1.len()), (1, 1, 0));
    let (id2, _, active2) = st.enter_validation(set_of(&[2]));
    assert_eq!(id2, 2);
    assert_eq!(active2, vec![set_of(&[1])]);
    // a write or a read of key 1 conflicts with validation 1
    assert!(active_conflict(&active2, &set_of(&[]), &set_of(&[1])));
    assert!(active_conflict(&active2, &set_of(&[1]), &set_of(&[])));
    assert!(!active_conflict(&active2, &set_of(&[3]), &set_of(&[2])));
    st.leave_validation(id1);
    st.leave_validation(id2);
    assert!(st.active_validating.is_empty());
    assert_eq!(st.next_tx_id, 3);
}

#[test]
fn transaction_returns_closure_result() {
    let engine: SerialEngine<u64, u64> = SerialEngine::default();
    assert_eq!(engine.transaction(|_tx| Ok(7)), Ok(7));
    let aborted: Result<(), OccError> = engine.transaction(|tx| {
        tx.create(1, 1);
        Err(OccError::UserAbort("no".to_string()))
    });
    assert_eq!(aborted, Err(OccError::UserAbort("no".to_string())));
    assert_eq!(engine.transaction(|tx| Ok(tx.read(&1))), Ok(None));
}

#[test]
fn create_is_a_write() {
    let engine: ParallelEngine<u64, u64> = ParallelEngine::new();
    engine
        .transaction(|tx| {
            tx.create(5, 50);
            assert_eq!(tx.read(&5), Some(50));
            Ok(())
        })
        .unwrap();
    assert_eq!(engine.transaction(|tx| Ok(tx.read(&5))), Ok(Some(50)));
}

#[test]
fn parallel_stale_reader_is_refused() {
    let engine: ParallelEngine<u64, u64> = ParallelEngine::new();
    let mut t1 = engine.begin();
    let mut t2 = engine.begin();
    assert_eq!(t2.read(&1), None);
    t1.write(1, 10);
    assert_eq!(engine.commit(&mut t1), Ok(()));
    t2.write(2, 20);
    assert_eq!(engine.commit(&mut t2), Err(OccError::ValidationFailed));
    // the refused transaction keeps its writes
    assert_eq!(t2.read(&2), Some(20));
    t1.finish();
    t2.finish();
    assert_eq!(engine.transaction(|tx| Ok((tx.read(&1), tx.read(&2)))), Ok((Some(10), None)));
}

#[test]
fn parallel_blind_writes_both_commit_in_turn() {
    let engine: ParallelEngine<u64, u64> = ParallelEngine::new();
    let mut t1 = engine.begin();
    let mut t2 = engine.begin();
    t1.write(1, 10);
    t2.write(1, 20);
    assert_eq!(engine.commit(&mut t1), Ok(()));
    assert_eq!(engine.commit(&mut t2), Ok(()));
    assert_eq!(engine.transaction(|tx| Ok(tx.read(&1))), Ok(Some(20)));
}

#[test]
fn serial_history_grows_only_with_writes() {
    let engine: Serial<u64, u64> = Serial::new();
    let keep = engine.begin();
    engine.transaction(|tx| Ok(tx.read(&1))).unwrap();
    assert_eq!(engine.history_len(), 0);
    engine.transaction(|tx| {
        tx.delete(1);
        Ok(())
    })
    .unwrap();
    assert_eq!(engine.history_len(), 1);
    keep.finish();
    assert_eq!(engine.history_len(), 0);
}

#[test]
fn parallel_validation_decision() {
    let mut h: CommitHistory<u64> = CommitHistory::new();
    h.record_commit(set_of(&[1])); // 2
    let none: Vec<HashSet<u64>> = vec![];
    let active = vec![set_of(&[9])];
    // committed conflict after the start
    assert!(!validate(&h, 1, 2, &none, &set_of(&[1]), &set_of(&[])));
    // the commit is past the validation window
    assert!(validate(&h, 1, 1, &none, &set_of(&[1]), &set_of(&[])));
    // active conflicts by read and by write
    assert!(!validate(&h, 2, 2, &active, &set_of(&[9]), &set_of(&[])));
    assert!(!validate(&h, 2, 2, &active, &set_of(&[]), &set_of(&[9])));
    assert!(validate(&h, 2, 2, &active, &set_of(&[1]), &set_of(&[2])));
}

#[test]
fn parallel_conclude_cleans_registry() {
    let mut st: ParallelEngineState<u64> = ParallelEngineState {
        commits: CommitHistory::new(),
        active_validating: Default::default(),
        next_tx_id: 1,
    };
    let (id1, _, _) = st.enter_validation(set_of(&[1]));
    let (id2, _, _) = st.enter_validation(set_of(&[2]));
    // a refused transaction leaves the registry and records nothing
    assert_eq!(st.conclude(id1, false, set_of(&[1])), Err(OccError::ValidationFailed));
    assert_eq!(st.commits.global_tn, 1);
    assert_eq!(st.active_validating.len(), 1);
    // a valid one that wrote is recorded under the next number
    assert_eq!(st.conclude(id2, true, set_of(&[2])), Ok(()));
    assert_eq!(st.commits.global_tn, 2);
    assert_eq!(st.commits.history.len(), 1);
    assert_eq!(st.commits.history[0].tx_id, 2);
    assert!(st.active_validating.is_empty());
    // a valid read-only one records nothing
    let (id3, _, _) = st.enter_validation(set_of(&[]));
    assert_eq!(st.conclude(id3, true, set_of(&[])), Ok(()));
    assert_eq!(st.commits.global_tn, 2);
}

#[test]
fn empty_transactions_commit() {
    let p: ParallelEngine<u64, u64> = ParallelEngine::new();
    let mut t = p.begin();
    assert_eq!(p.commit(&mut t), Ok(()));
    t.finish();
    let s: SerialEngine<u64, u64> = SerialEngine::new();
    let mut t = s.begin();
    t.write(3, 3);
    assert_eq!(s.commit(&mut t), Ok(()));
    t.finish();
}
