use std::sync::Arc;

use occ::{OccEngine, OccError, ParallelEngine};

#[test]
fn test_failed_validation_cleans_up_active_validating() {
    let engine = Arc::new(ParallelEngine::new());

    // Seed data
    engine
        .transaction(|tx| {
            tx.write("K1", 100);
            Ok(())
        })
        .unwrap();

    // 1. T1 reads K1
    let mut t1 = engine.begin();
    let _ = t1.read(&"K1");

    // 2. T2 modifies K1 and commits successfully
    engine
        .transaction(|tx2| {
            tx2.write("K1", 200);
            Ok(())
        })
        .unwrap();

    // 3. T1 attempts commit and FAILS validation (T2 modified K1)
    assert_eq!(engine.commit(&mut t1), Err(OccError::ValidationFailed));

    // 4. A new transaction T3 should NOT see T1 stuck in active_validating
    let result = engine.transaction(|tx3| {
        tx3.write("K1", 300); // Write to same key
        Ok(())
    });

    assert!(
        result.is_ok(),
        "T3 failed because aborted T1 was not cleaned up from active_validating!"
    );
}

#[test]
fn parallel_tests_test_single_transaction_commit() {
    let engine = ParallelEngine::new();

    // 1. Write some data
    let write_result = engine.transaction(|tx| {
        tx.write("KeyA", 100);
        tx.write("KeyB", 200);
        Ok(true)
    });
    assert_eq!(write_result, Ok(true));

    // 2. Read it back
    let val1 = engine.transaction(|tx| Ok(tx.read(&"KeyA"))).unwrap();
    let val2 = engine.transaction(|tx| Ok(tx.read(&"KeyB"))).unwrap();

    assert_eq!(val1, Some(100));
    assert_eq!(val2, Some(200));
}

#[test]
fn parallel_tests_test_sequential_read_modify_write_persistence() {
    let engine = ParallelEngine::new();

    // Tx1: Seed initial value
    engine
        .transaction(|tx| {
            tx.write("X", 10);
            Ok(())
        })
        .unwrap();

    // Tx2: Read value, modify it, and verify local uncommitted read
    engine
        .transaction(|tx| {
            let x = tx.read(&"X").expect("Key X should exist from Tx1");
            tx.write("X", x + 10);

            // Verify read-your-own-writes inside the active transaction
            assert_eq!(tx.read(&"X"), Some(20));
            Ok(())
        })
        .unwrap();

    // Tx3: Verify persistent storage after Tx2 committed!
    engine
        .transaction(|tx| {
            assert_eq!(
                tx.read(&"X"),
                Some(20),
                "Value should persist in storage after commit"
            );
            Ok(())
        })
        .unwrap();
}

#[test]
fn test_local_delete_uncommitted_read() {
    let engine = ParallelEngine::<String, String>::new();

    // Seed initial key
    engine
        .transaction(|tx| {
            tx.write("K1".to_string(), "V1".to_string());
            Ok(())
        })
        .unwrap();

    // Perform local delete
    engine
        .transaction(|tx| {
            // 1. Initial read sees "V1"
            assert_eq!(tx.read(&"K1".to_string()), Some("V1".to_string()));

            // 2. Delete the key
            tx.delete("K1".to_string());

            // 3. Local read immediately after delete should return None
            assert_eq!(tx.read(&"K1".to_string()), None);

            Ok(())
        })
        .unwrap();

    // Verify key was permanently removed from global storage after commit
    engine
        .transaction(|tx| {
            assert_eq!(tx.read(&"K1".to_string()), None);
            Ok(())
        })
        .unwrap();
}

#[test]
fn test_delete_then_write_same_transaction() {
    let engine = ParallelEngine::<String, String>::new();

    engine
        .transaction(|tx| {
            tx.write("K1".to_string(), "OLD_VAL".to_string());
            Ok(())
        })
        .unwrap();

    engine
        .transaction(|tx| {
            tx.delete("K1".to_string());
            assert_eq!(tx.read(&"K1".to_string()), None);

            // Re-insert new value
            tx.write("K1".to_string(), "NEW_VAL".to_string());
            assert_eq!(tx.read(&"K1".to_string()), Some("NEW_VAL".to_string()));

            Ok(())
        })
        .unwrap();

    // Verify committed state
    engine
        .transaction(|tx| {
            assert_eq!(tx.read(&"K1".to_string()), Some("NEW_VAL".to_string()));
            Ok(())
        })
        .unwrap();
}

#[test]
fn test_delete_causes_validation_conflict() {
    let engine = Arc::new(ParallelEngine::<String, String>::new());

    // Seed initial data
    engine
        .transaction(|tx| {
            tx.write("K1".to_string(), "V1".to_string());
            Ok(())
        })
        .unwrap();

    // 1. T1 starts and reads K1
    let mut t1 = engine.begin();
    assert_eq!(t1.read(&"K1".to_string()), Some("V1".to_string()));

    // 2. T2 deletes K1 and commits successfully
    engine
        .transaction(|tx2| {
            tx2.delete("K1".to_string());
            Ok(())
        })
        .unwrap();

    // 3. T1 attempts to commit -> MUST FAIL because T2 deleted K1 (modified T1's read set)
    assert_eq!(engine.commit(&mut t1), Err(OccError::ValidationFailed));
}

#[test]
fn test_delete_non_existent_key() {
    let engine = ParallelEngine::<String, String>::new();

    let res = engine.transaction(|tx| {
        tx.delete("PHANTOM_KEY".to_string());
        Ok(())
    });

    assert!(res.is_ok());

    engine
        .transaction(|tx| {
            assert_eq!(tx.read(&"PHANTOM_KEY".to_string()), None);
            Ok(())
        })
        .unwrap();
}
