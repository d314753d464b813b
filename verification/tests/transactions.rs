//! Transactions.

use flowdb::jsondb::value::{decode_doc, extract_field};
use flowdb::jsondb::{JsonDB, JsonValue, KeyArg, TransactionMode};
use flowdb::Config;

/// A database with nothing in it.
fn test_db() -> JsonDB {
    JsonDB::open(Config::default()).unwrap()
}

fn setup_users(db: &mut JsonDB) {
    db.create_object_store("users", "id").unwrap();
    db.create_index("users", "by_email", &["email"], true, false)
        .unwrap();
    db.create_index("users", "by_age", &["age"], false, false)
        .unwrap();
}

/// The value of a JSON text.
fn j(text: &str) -> JsonValue {
    decode_doc(text.as_bytes()).unwrap()
}

/// A field of a document; null where it is not there.
fn at(doc: &JsonValue, field: &str) -> JsonValue {
    extract_field(doc, field).unwrap_or(JsonValue::Null)
}

fn val<K: KeyArg>(k: K) -> JsonValue {
    k.into_value()
}

#[test]
fn test_transaction_commit() {
    let mut db = test_db();
    db.create_object_store("users", "id").unwrap();

    let mut tx = db
        .transaction(&["users"], TransactionMode::ReadWrite)
        .unwrap();
    tx.put(&db, "users", j(r#"{"id": "u1", "name": "Alice"}"#))
        .unwrap();
    tx.put(&db, "users", j(r#"{"id": "u2", "name": "Bob"}"#)).unwrap();
    tx.commit(&mut db).unwrap();

    assert_eq!(db.count("users").unwrap(), 2);
}

#[test]
fn test_transaction_abort() {
    let mut db = test_db();
    db.create_object_store("users", "id").unwrap();

    let mut tx = db
        .transaction(&["users"], TransactionMode::ReadWrite)
        .unwrap();
    tx.put(&db, "users", j(r#"{"id": "u1", "name": "Alice"}"#))
        .unwrap();
    tx.abort(); // drop without commit

    assert_eq!(db.count("users").unwrap(), 0);
}

#[test]
fn test_transaction_read_your_writes() {
    let mut db = test_db();
    db.create_object_store("users", "id").unwrap();

    db.put("users", j(r#"{"id": "u1", "name": "Alice"}"#))
        .unwrap();

    let mut tx = db
        .transaction(&["users"], TransactionMode::ReadWrite)
        .unwrap();
    // Should see committed data.
    let doc = tx.get(&db, "users", &j(r#""u1""#)).unwrap().unwrap();
    assert_eq!(at(&doc, "name"), val("Alice"));

    // Buffered write should be visible.
    tx.put(&db, "users", j(r#"{"id": "u2", "name": "Bob"}"#)).unwrap();
    let doc2 = tx.get(&db, "users", &j(r#""u2""#)).unwrap().unwrap();
    assert_eq!(at(&doc2, "name"), val("Bob"));

    tx.commit(&mut db).unwrap();
}

#[test]
fn test_transaction_index_read_your_writes() {
    let mut db = test_db();
    setup_users(&mut db);

    db.put("users", j(r#"{"id": "u1", "email": "alice@b.com"}"#))
        .unwrap();

    let mut tx = db
        .transaction(&["users"], TransactionMode::ReadWrite)
        .unwrap();
    tx.put(&db, "users", j(r#"{"id": "u2", "email": "bob@c.com"}"#))
        .unwrap();

    // The index in the engine doesn't yet know about u2, but the
    // transaction's get_by_index should find it via the write buffer.
    let docs = tx
        .get_by_index(&db, "users", "by_email", &j(r#""bob@c.com""#))
        .unwrap();
    assert_eq!(docs.len(), 1);
    assert_eq!(at(&docs[0], "id"), val("u2"));

    tx.commit(&mut db).unwrap();
}

#[test]
fn test_transaction_atomicity() {
    let mut db = test_db();
    db.create_object_store("users", "id").unwrap();
    db.create_index("users", "by_email", &["email"], true, false)
        .unwrap();

    // This will fail because u1 already exists.
    db.put("users", j(r#"{"id": "u1", "email": "a@b.com"}"#))
        .unwrap();

    // Single batch with a unique violation.
    let mut tx = db
        .transaction(&["users"], TransactionMode::ReadWrite)
        .unwrap();
    tx.put(&db, "users", j(r#"{"id": "u2", "email": "b@c.com"}"#))
        .unwrap();
    tx.put(&db, "users", j(r#"{"id": "u3", "email": "a@b.com"}"#))
        .unwrap(); // violation

    let err = tx.commit(&mut db);
    assert!(err.is_err(), "expected unique violation on commit");

    // The entire batch should be rolled back.
    assert_eq!(db.count("users").unwrap(), 1);
    assert!(db.get("users", &j(r#""u2""#)).unwrap().is_none());
}

#[test]
fn test_transaction_readonly_rejects_writes() {
    let mut db = test_db();
    db.create_object_store("users", "id").unwrap();

    let mut tx = db
        .transaction(&["users"], TransactionMode::ReadOnly)
        .unwrap();
    let err = tx
        .put(&db, "users", j(r#"{"id": "u1", "name": "Alice"}"#))
        .unwrap_err();
    assert!(
        err.message().contains("read-only"),
        "expected read-only error: {}",
        err.message()
    );
}

#[test]
fn test_transaction_missing_store() {
    let db = test_db();
    let err = db
        .transaction(&["nonexistent"], TransactionMode::ReadWrite)
        .unwrap_err();
    assert!(err.message().contains("not found"));
}

#[test]
fn test_transaction_delete_in_buffer() {
    let mut db = test_db();
    db.create_object_store("users", "id").unwrap();
    db.put("users", j(r#"{"id": "u1", "name": "Alice"}"#))
        .unwrap();

    let mut tx = db
        .transaction(&["users"], TransactionMode::ReadWrite)
        .unwrap();
    let doc = tx.get(&db, "users", &j(r#""u1""#)).unwrap().unwrap();
    assert_eq!(at(&doc, "name"), val("Alice"));

    tx.delete(&db, "users", &j(r#""u1""#)).unwrap();
    assert!(tx.get(&db, "users", &j(r#""u1""#)).unwrap().is_none());
    tx.commit(&mut db).unwrap();

    assert!(db.get("users", &j(r#""u1""#)).unwrap().is_none());
}

#[test]
fn test_transaction_put_auto() {
    let mut db = test_db();
    db.create_object_store("events", "id").unwrap();
    let mut def = db.get_store("events").unwrap();
    def.auto_increment = true;
    db.store_definition(def).unwrap();

    let mut tx = db
        .transaction(&["events"], TransactionMode::ReadWrite)
        .unwrap();
    let key1 = tx.put_auto(&db, "events", j(r#"{"type": "click"}"#)).unwrap();
    assert_eq!(key1, j(r#"1"#));
    let key2 = tx.put_auto(&db, "events", j(r#"{"type": "scroll"}"#)).unwrap();
    assert_eq!(key2, j(r#"2"#));
    tx.commit(&mut db).unwrap();

    assert_eq!(db.count("events").unwrap(), 2);
}

#[test]
fn test_transaction_put_auto_non_auto() {
    let mut db = test_db();
    db.create_object_store("users", "id").unwrap();
    let mut tx = db
        .transaction(&["users"], TransactionMode::ReadWrite)
        .unwrap();
    let err = tx.put_auto(&db, "users", j(r#"{"name": "x"}"#)).unwrap_err();
    assert!(err.message().contains("not auto-increment"));
}

#[test]
fn test_transaction_scan_buffered_puts() {
    let mut db = test_db();
    db.create_object_store("users", "id").unwrap();
    db.put("users", j(r#"{"id": "u1", "name": "Alice"}"#))
        .unwrap();

    let mut tx = db
        .transaction(&["users"], TransactionMode::ReadWrite)
        .unwrap();
    tx.put(&db, "users", j(r#"{"id": "u2", "name": "Bob"}"#)).unwrap();

    // Scan should see both committed and buffered docs.
    let docs = tx.scan(&db, "users").unwrap();
    assert_eq!(docs.len(), 2);
    tx.commit(&mut db).unwrap();
}

#[test]
fn test_transaction_scan_with_buffered_delete() {
    let mut db = test_db();
    db.create_object_store("users", "id").unwrap();
    db.put("users", j(r#"{"id": "u1", "name": "Alice"}"#))
        .unwrap();
    db.put("users", j(r#"{"id": "u2", "name": "Bob"}"#)).unwrap();

    let mut tx = db
        .transaction(&["users"], TransactionMode::ReadWrite)
        .unwrap();
    tx.delete(&db, "users", &j(r#""u1""#)).unwrap();

    let docs = tx.scan(&db, "users").unwrap();
    assert_eq!(docs.len(), 1);
    assert_eq!(at(&docs[0], "name"), val("Bob"));
    tx.commit(&mut db).unwrap();
}

#[test]
fn test_transaction_range_by_index() {
    let mut db = test_db();
    setup_users(&mut db);
    db.put("users", j(r#"{"id": "u1", "age": 30}"#)).unwrap();

    let mut tx = db
        .transaction(&["users"], TransactionMode::ReadWrite)
        .unwrap();
    tx.put(&db, "users", j(r#"{"id": "u2", "age": 25}"#)).unwrap();

    let docs = tx
        .range_by_index(&db, "users", "by_age", &j(r#"20"#), &j(r#"35"#))
        .unwrap();
    // Should see both u1 (committed) and u2 (buffered)
    assert_eq!(docs.len(), 2);
    tx.commit(&mut db).unwrap();
}

#[test]
fn test_transaction_get_by_index_buffered_update() {
    let mut db = test_db();
    setup_users(&mut db);
    db.put("users", j(r#"{"id": "u1", "email": "old@b.com"}"#))
        .unwrap();

    let mut tx = db
        .transaction(&["users"], TransactionMode::ReadWrite)
        .unwrap();
    // Update email in buffer (not yet committed)
    tx.delete(&db, "users", &j(r#""u1""#)).unwrap();
    tx.put(&db, "users", j(r#"{"id": "u1", "email": "new@b.com"}"#))
        .unwrap();

    // get_by_index should NOT find old email (doc deleted in buffer)
    let docs = tx
        .get_by_index(&db, "users", "by_email", &j(r#""old@b.com""#))
        .unwrap();
    assert_eq!(docs.len(), 0, "old email should not be visible");

    // Should find new email from buffer
    let docs = tx
        .get_by_index(&db, "users", "by_email", &j(r#""new@b.com""#))
        .unwrap();
    assert_eq!(docs.len(), 1);
    assert_eq!(at(&docs[0], "id"), val("u1"));
    tx.commit(&mut db).unwrap();
}

#[test]
fn test_transaction_get_by_index_buffered_delete_only() {
    let mut db = test_db();
    setup_users(&mut db);
    db.put("users", j(r#"{"id": "u1", "email": "a@b.com"}"#))
        .unwrap();

    let tx = db
        .transaction(&["users"], TransactionMode::ReadWrite)
        .unwrap();
    // Without any buffered writes, read-only should work
    let docs = tx
        .get_by_index(&db, "users", "by_email", &j(r#""a@b.com""#))
        .unwrap();
    assert_eq!(docs.len(), 1);
}

#[test]
fn test_transaction_abort_drop() {
    let mut db = test_db();
    db.create_object_store("users", "id").unwrap();
    {
        let mut tx = db
            .transaction(&["users"], TransactionMode::ReadWrite)
            .unwrap();
        tx.put(&db, "users", j(r#"{"id": "u1", "name": "Alice"}"#))
            .unwrap();
        // Drop without commit = abort
    }
    assert_eq!(db.count("users").unwrap(), 0);
}

#[test]
fn test_transaction_double_commit() {
    let mut db = test_db();
    db.create_object_store("users", "id").unwrap();
    let tx = db
        .transaction(&["users"], TransactionMode::ReadWrite)
        .unwrap();
    // tx.put... but we need to capture the result of first commit
    // empty commit should work
    assert!(tx.commit(&mut db).is_ok());
}

#[test]
fn test_transaction_empty_commit() {
    let mut db = test_db();
    db.create_object_store("users", "id").unwrap();
    let tx = db
        .transaction(&["users"], TransactionMode::ReadWrite)
        .unwrap();
    assert!(tx.commit(&mut db).is_ok());
}

#[test]
fn test_transaction_count_mixed() {
    let mut db = test_db();
    db.create_object_store("users", "id").unwrap();
    db.put("users", j(r#"{"id": "u1"}"#)).unwrap();

    let mut tx = db
        .transaction(&["users"], TransactionMode::ReadWrite)
        .unwrap();
    // u1 is committed, u2 is buffered
    tx.put(&db, "users", j(r#"{"id": "u2"}"#)).unwrap();
    assert_eq!(tx.count(&db, "users").unwrap(), 2);

    tx.delete(&db, "users", &j(r#""u1""#)).unwrap();
    // u1 deleted in buffer, u2 still buffered
    assert_eq!(tx.count(&db, "users").unwrap(), 1);
    tx.commit(&mut db).unwrap();
}

#[test]
fn test_put_in_transaction_updates_index() {
    let mut db = test_db();
    setup_users(&mut db);

    db.put("users", j(r#"{"id": "u1", "email": "old@b.com"}"#))
        .unwrap();

    let mut tx = db
        .transaction(&["users"], TransactionMode::ReadWrite)
        .unwrap();
    tx.delete(&db, "users", &j(r#""u1""#)).unwrap();
    tx.put(&db, "users", j(r#"{"id": "u1", "email": "new@b.com"}"#))
        .unwrap();
    tx.commit(&mut db).unwrap();

    // After commit, index should be updated
    let docs = db
        .get_by_index("users", "by_email", &j(r#""new@b.com""#))
        .unwrap();
    assert_eq!(docs.len(), 1);

    let docs = db
        .get_by_index("users", "by_email", &j(r#""old@b.com""#))
        .unwrap();
    assert_eq!(docs.len(), 0);
}

#[test]
fn test_throughput_transaction_batch() {
    let mut db = test_db();
    db.create_object_store("bench", "id").unwrap();

    let batch_size = 100;
    let batches = 50;
    let total = batch_size * batches;

    for b in 0..batches {
        let mut tx = db
            .transaction(&["bench"], TransactionMode::ReadWrite)
            .unwrap();
        for i in 0..batch_size {
            let id = b * batch_size + i;
            tx.put(&db, "bench", j(&format!(r#"{{"id": {}}}"#, id as u64))).unwrap();
        }
        tx.commit(&mut db).unwrap();
    }

    assert_eq!(db.count("bench").unwrap(), total);
}

#[test]
fn test_query_builder_with_transaction_roundtrip() {
    let mut db = test_db();
    db.create_object_store("users", "id").unwrap();
    db.create_index("users", "by_email", &["email"], true, false)
        .unwrap();
    db.put("users", j(r#"{"id": "u1", "email": "a@b.com"}"#))
        .unwrap();

    // QueryBuilder sees committed data
    let docs = db
        .query("users")
        .where_eq("email", j(r#""a@b.com""#))
        .collect()
        .unwrap();
    assert_eq!(docs.len(), 1);
}

#[test]
fn test_transaction_add_clear() {
    let mut db = test_db();
    db.create_object_store("users", "id").unwrap();
    db.put("users", j(r#"{"id": "u1", "name": "Alice"}"#)).unwrap();

    let mut tx = db
        .transaction(&["users"], TransactionMode::ReadWrite)
        .unwrap();
    // add should fail for existing key.
    let err = tx.add(&db, "users", j(r#"{"id": "u1"}"#)).unwrap_err();
    assert!(err.message().contains("already exists"));
    // add should succeed for new key.
    tx.add(&db, "users", j(r#"{"id": "u2", "name": "Bob"}"#)).unwrap();
    // clear should remove all.
    tx.clear(&db, "users").unwrap();
    tx.commit(&mut db).unwrap();

    assert_eq!(db.count("users").unwrap(), 0);
}

#[test]
fn test_mvcc_snapshot_repeatable_read() {
    // A transaction should see the same value throughout its lifetime,
    // even if other writers commit changes.
    let mut db = test_db();
    db.create_object_store("users", "id").unwrap();
    db.put("users", j(r#"{"id": "u1", "name": "Alice"}"#)).unwrap();

    let mut tx = db
        .transaction(&["users"], TransactionMode::ReadOnly)
        .unwrap();

    // Read before external modification.
    let doc1 = tx.get(&db, "users", &j(r#""u1""#)).unwrap().unwrap();
    assert_eq!(at(&doc1, "name"), val("Alice"));

    // External modification (direct put, not through the transaction).
    db.put("users", j(r#"{"id": "u1", "name": "Bob"}"#)).unwrap();

    // Read after external modification — should still see the snapshot value.
    let doc2 = tx.get(&db, "users", &j(r#""u1""#)).unwrap().unwrap();
    assert_eq!(at(&doc2, "name"), val("Alice"),
        "MVCC snapshot: transaction should see the snapshot value, not the latest"
    );
}

#[test]
fn test_mvcc_snapshot_hides_uncommitted_writes() {
    let mut db = test_db();
    db.create_object_store("users", "id").unwrap();
    db.put("users", j(r#"{"id": "u1", "v": 1}"#)).unwrap();

    // T1 begins and reads.
    let mut tx1 = db
        .transaction(&["users"], TransactionMode::ReadOnly)
        .unwrap();
    let doc = tx1.get(&db, "users", &j(r#""u1""#)).unwrap().unwrap();
    assert_eq!(at(&doc, "v"), val(1));

    // External write of v=2.
    db.put("users", j(r#"{"id": "u1", "v": 2}"#)).unwrap();

    // T2 begins after the external write.
    let mut tx2 = db
        .transaction(&["users"], TransactionMode::ReadOnly)
        .unwrap();
    let doc2 = tx2.get(&db, "users", &j(r#""u1""#)).unwrap().unwrap();
    assert_eq!(at(&doc2, "v"), val(2), "new transaction should see latest committed");

    // T1 still sees v=1.
    let doc1 = tx1.get(&db, "users", &j(r#""u1""#)).unwrap().unwrap();
    assert_eq!(at(&doc1, "v"), val(1), "old transaction should still see snapshot");
}

#[test]
fn test_mvcc_read_your_writes() {
    let mut db = test_db();
    db.create_object_store("users", "id").unwrap();

    let mut tx = db
        .transaction(&["users"], TransactionMode::ReadWrite)
        .unwrap();
    tx.put(&db, "users", j(r#"{"id": "u1", "name": "Alice"}"#)).unwrap();

    // Should see our own uncommitted write.
    let doc = tx.get(&db, "users", &j(r#""u1""#)).unwrap().unwrap();
    assert_eq!(at(&doc, "name"), val("Alice"));

    tx.commit(&mut db).unwrap();
    assert_eq!(db.count("users").unwrap(), 1);
}

#[test]
fn test_occ_conflict_concurrent_modification() {
    // If a transaction reads a key and another writer modifies it
    // before commit, the commit should fail (OCC conflict).
    let mut db = test_db();
    db.create_object_store("users", "id").unwrap();
    db.put("users", j(r#"{"id": "u1", "name": "Alice"}"#)).unwrap();

    let mut tx = db
        .transaction(&["users"], TransactionMode::ReadWrite)
        .unwrap();

    // Read the document (tracked in OCC read-set).
    let doc = tx.get(&db, "users", &j(r#""u1""#)).unwrap().unwrap();
    assert_eq!(at(&doc, "name"), val("Alice"));

    // External concurrent modification.
    db.put("users", j(r#"{"id": "u1", "name": "Bob"}"#)).unwrap();

    // Attempt to commit — should fail due to OCC conflict.
    let result = tx.commit(&mut db);
    assert!(
        result.is_err(),
        "commit should fail with OCC conflict when a read key was modified"
    );
    let err = result.unwrap_err().message();
    assert!(
        err.contains("conflict"),
        "error should mention conflict, got: {}",
        err
    );
}

#[test]
fn test_occ_no_conflict_disjoint_keys() {
    // Two transactions writing disjoint keys should both succeed.
    let mut db = test_db();
    db.create_object_store("users", "id").unwrap();
    db.put("users", j(r#"{"id": "u1", "name": "Alice"}"#)).unwrap();
    db.put("users", j(r#"{"id": "u2", "name": "Bob"}"#)).unwrap();

    // T1 reads u1 and writes u1.
    let mut tx1 = db
        .transaction(&["users"], TransactionMode::ReadWrite)
        .unwrap();
    let _doc = tx1.get(&db, "users", &j(r#""u1""#)).unwrap().unwrap();
    tx1.put(&db, "users", j(r#"{"id": "u1", "name": "Alice2"}"#)).unwrap();
    tx1.commit(&mut db).unwrap();

    // T2 reads u2 and writes u2 (disjoint from T1).
    let mut tx2 = db
        .transaction(&["users"], TransactionMode::ReadWrite)
        .unwrap();
    let _doc = tx2.get(&db, "users", &j(r#""u2""#)).unwrap().unwrap();
    tx2.put(&db, "users", j(r#"{"id": "u2", "name": "Bob2"}"#)).unwrap();
    tx2.commit(&mut db).unwrap();

    // Both commits should have succeeded.
    let doc1 = db.get("users", &j(r#""u1""#)).unwrap().unwrap();
    assert_eq!(at(&doc1, "name"), val("Alice2"));
    let doc2 = db.get("users", &j(r#""u2""#)).unwrap().unwrap();
    assert_eq!(at(&doc2, "name"), val("Bob2"));
}

#[test]
fn test_occ_no_conflict_write_only() {
    // A transaction that only writes (no reads of existing data)
    // should not have OCC conflicts.
    let mut db = test_db();
    db.create_object_store("users", "id").unwrap();

    let mut tx = db
        .transaction(&["users"], TransactionMode::ReadWrite)
        .unwrap();
    tx.put(&db, "users", j(r#"{"id": "u1", "name": "Alice"}"#)).unwrap();
    tx.commit(&mut db).unwrap();

    assert_eq!(db.count("users").unwrap(), 1);
}

#[test]
fn test_occ_conflict_on_delete() {
    // If a transaction reads a key and another writer deletes it,
    // the commit should fail.
    let mut db = test_db();
    db.create_object_store("users", "id").unwrap();
    db.put("users", j(r#"{"id": "u1", "name": "Alice"}"#)).unwrap();

    let mut tx = db
        .transaction(&["users"], TransactionMode::ReadWrite)
        .unwrap();
    let _doc = tx.get(&db, "users", &j(r#""u1""#)).unwrap().unwrap();

    // External concurrent deletion.
    db.delete("users", &j(r#""u1""#)).unwrap();

    let result = tx.commit(&mut db);
    assert!(result.is_err(), "commit should fail when read key was deleted");
}

/// Transactions that are open at the same time and write different documents.
#[test]
fn test_many_concurrent_transactions() {
    let mut db = test_db();
    db.create_object_store("users", "id").unwrap();

    let mut open = Vec::new();
    for i in 0..10 {
        let mut tx = db
            .transaction(&["users"], TransactionMode::ReadWrite)
            .unwrap();
        tx.put(&db, "users", j(&format!(r#"{{"id": "t{}"}}"#, i)))
            .unwrap();
        open.push(tx);
    }
    for tx in open {
        tx.commit(&mut db).unwrap();
    }
    assert_eq!(db.count("users").unwrap(), 10);
}

#[test]
fn test_put_doc_in_transaction() {
    let mut db = test_db();
    db.create_object_store("users", "id").unwrap();

    let mut tx = db
        .transaction(&["users"], TransactionMode::ReadWrite)
        .unwrap();
    tx.put(
        &db,
        "users",
        j(r#"{"id": "u2", "name": "Bob", "email": "b@b.com"}"#),
    )
    .unwrap();
    tx.commit(&mut db).unwrap();

    let retrieved = db.get("users", &val("u2")).unwrap().unwrap();
    assert_eq!(at(&retrieved, "name"), val("Bob"));
}

#[test]
fn a_repeated_read_gives_the_same_after_a_flush() {
    let mut db = test_db();
    db.create_object_store("users", "id").unwrap();
    db.put("users", j(r#"{"id": "u1", "n": 1}"#)).unwrap();
    let mut tx = db.transaction(&["users"], TransactionMode::ReadOnly).unwrap();
    let first = tx.get(&db, "users", &val("u1")).unwrap().unwrap();
    assert_eq!(at(&first, "n"), j("1"));
    db.put("users", j(r#"{"id": "u1", "n": 2}"#)).unwrap();
    db.engine_mut().flush().unwrap();
    let again = tx.get(&db, "users", &val("u1")).unwrap().unwrap();
    assert_eq!(at(&again, "n"), j("1"));
}

#[test]
fn a_flushed_change_is_seen_by_a_transaction_that_has_not_read_yet() {
    let mut db = test_db();
    db.create_object_store("users", "id").unwrap();
    db.put("users", j(r#"{"id": "u1", "n": 1}"#)).unwrap();
    db.put("users", j(r#"{"id": "u2", "n": 1}"#)).unwrap();
    let mut tx = db
        .transaction(&["users"], TransactionMode::ReadWrite)
        .unwrap();
    let first = tx.get(&db, "users", &val("u1")).unwrap().unwrap();
    assert_eq!(at(&first, "n"), j("1"));
    db.put("users", j(r#"{"id": "u1", "n": 2}"#)).unwrap();
    db.put("users", j(r#"{"id": "u2", "n": 2}"#)).unwrap();
    db.engine_mut().flush().unwrap();
    let again = tx.get(&db, "users", &val("u1")).unwrap().unwrap();
    assert_eq!(at(&again, "n"), j("1"));
    let other = tx.get(&db, "users", &val("u2")).unwrap().unwrap();
    assert_eq!(at(&other, "n"), j("2"));
}
