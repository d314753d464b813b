//! Storing, reading and indexing documents.

use flowdb::jsondb::encoding::{encode_index_value, encode_primary_key};
use flowdb::jsondb::value::{decode_doc, extract_field};
use flowdb::jsondb::{JsonDB, JsonValue, KeyArg, StoreSchema};
use flowdb::Config;

/// A database with nothing in it.
fn test_db() -> JsonDB {
    JsonDB::open(Config::default()).unwrap()
}

fn setup_users(db: &mut JsonDB) {
    db.create_object_store("users", "id").unwrap();
    db.create_index("users", "by_email", &["email"], true, false)
        .unwrap();
    db.create_index("users", "by_age", &["age"], false, false)
        .unwrap();
}

/// The value of a JSON text.
fn j(text: &str) -> JsonValue {
    decode_doc(text.as_bytes()).unwrap()
}

/// A field of a document; null where it is not there.
fn at(doc: &JsonValue, field: &str) -> JsonValue {
    extract_field(doc, field).unwrap_or(JsonValue::Null)
}

fn val<K: KeyArg>(k: K) -> JsonValue {
    k.into_value()
}

#[test]
fn test_put_and_get() {
    let mut db = test_db();
    db.create_object_store("users", "id").unwrap();

    db.put("users", j(r#"{"id": "u1", "name": "Alice"}"#))
        .unwrap();
    let doc = db.get("users", &j(r#""u1""#)).unwrap().unwrap();
    assert_eq!(at(&doc, "name"), val("Alice"));
}

#[test]
fn test_get_nonexistent() {
    let mut db = test_db();
    db.create_object_store("users", "id").unwrap();

    let doc = db.get("users", &j(r#""missing""#)).unwrap();
    assert!(doc.is_none());
}

#[test]
fn test_put_and_delete() {
    let mut db = test_db();
    db.create_object_store("users", "id").unwrap();

    db.put("users", j(r#"{"id": "u1", "name": "Alice"}"#))
        .unwrap();
    assert_eq!(db.count("users").unwrap(), 1);

    db.delete("users", &j(r#""u1""#)).unwrap();
    assert_eq!(db.count("users").unwrap(), 0);
    assert!(db.get("users", &j(r#""u1""#)).unwrap().is_none());
}

#[test]
fn test_put_update() {
    let mut db = test_db();
    db.create_object_store("users", "id").unwrap();

    db.put("users", j(r#"{"id": "u1", "name": "Alice"}"#))
        .unwrap();
    db.put("users", j(r#"{"id": "u1", "name": "Bob"}"#)).unwrap();

    let doc = db.get("users", &j(r#""u1""#)).unwrap().unwrap();
    assert_eq!(at(&doc, "name"), val("Bob"));
    assert_eq!(db.count("users").unwrap(), 1);
}

#[test]
fn test_scan() {
    let mut db = test_db();
    db.create_object_store("users", "id").unwrap();

    db.put("users", j(r#"{"id": "u1", "name": "Alice"}"#))
        .unwrap();
    db.put("users", j(r#"{"id": "u2", "name": "Bob"}"#)).unwrap();
    db.put("users", j(r#"{"id": "u3", "name": "Carol"}"#))
        .unwrap();

    let docs = db.scan("users").unwrap();
    assert_eq!(docs.len(), 3);
}

#[test]
fn test_count() {
    let mut db = test_db();
    db.create_object_store("users", "id").unwrap();

    assert_eq!(db.count("users").unwrap(), 0);
    db.put("users", j(r#"{"id": "u1"}"#)).unwrap();
    assert_eq!(db.count("users").unwrap(), 1);
    db.put("users", j(r#"{"id": "u2"}"#)).unwrap();
    assert_eq!(db.count("users").unwrap(), 2);
    db.delete("users", &j(r#""u1""#)).unwrap();
    assert_eq!(db.count("users").unwrap(), 1);
}

#[test]
fn test_index_point_lookup() {
    let mut db = test_db();
    setup_users(&mut db);

    db.put(
        "users",
        j(r#"{"id": "u1", "email": "alice@b.com", "age": 30}"#),
    )
    .unwrap();
    db.put(
        "users",
        j(r#"{"id": "u2", "email": "bob@c.com", "age": 25}"#),
    )
    .unwrap();

    let docs = db
        .get_by_index("users", "by_email", &j(r#""alice@b.com""#))
        .unwrap();
    assert_eq!(docs.len(), 1);
    assert_eq!(at(&docs[0], "id"), val("u1"));
}

#[test]
fn test_index_range_lookup() {
    let mut db = test_db();
    setup_users(&mut db);

    db.put(
        "users",
        j(r#"{"id": "u1", "email": "alice@b.com", "age": 30}"#),
    )
    .unwrap();
    db.put(
        "users",
        j(r#"{"id": "u2", "email": "bob@c.com", "age": 25}"#),
    )
    .unwrap();
    db.put(
        "users",
        j(r#"{"id": "u3", "email": "carol@d.com", "age": 35}"#),
    )
    .unwrap();

    // age in [25, 35) — should include u2 (age=25) and u1 (age=30)
    let docs = db
        .range_by_index("users", "by_age", &j(r#"25"#), &j(r#"35"#))
        .unwrap();
    assert_eq!(docs.len(), 2, "expected 2 docs in age range [25,35)");
}

#[test]
fn test_unique_index_violation() {
    let mut db = test_db();
    setup_users(&mut db);

    db.put("users", j(r#"{"id": "u1", "email": "same@b.com"}"#))
        .unwrap();

    let err = db
        .put("users", j(r#"{"id": "u2", "email": "same@b.com"}"#))
        .unwrap_err();
    assert!(
        err.message().contains("unique"),
        "expected unique violation: {}",
        err.message()
    );
}

#[test]
fn test_index_update_on_put() {
    let mut db = test_db();
    setup_users(&mut db);

    db.put(
        "users",
        j(r#"{"id": "u1", "email": "old@b.com", "age": 30}"#),
    )
    .unwrap();

    // Update the email.
    db.put(
        "users",
        j(r#"{"id": "u1", "email": "new@b.com", "age": 30}"#),
    )
    .unwrap();

    // Old email should have no docs.
    let docs = db
        .get_by_index("users", "by_email", &j(r#""old@b.com""#))
        .unwrap();
    assert_eq!(docs.len(), 0, "old index entry should be gone");

    // New email should have the doc.
    let docs = db
        .get_by_index("users", "by_email", &j(r#""new@b.com""#))
        .unwrap();
    assert_eq!(docs.len(), 1);
    assert_eq!(at(&docs[0], "id"), val("u1"));
}

#[test]
fn test_index_delete_removes_entries() {
    let mut db = test_db();
    setup_users(&mut db);

    db.put("users", j(r#"{"id": "u1", "email": "alice@b.com"}"#))
        .unwrap();
    db.delete("users", &j(r#""u1""#)).unwrap();

    let docs = db
        .get_by_index("users", "by_email", &j(r#""alice@b.com""#))
        .unwrap();
    assert_eq!(docs.len(), 0);
}

#[test]
fn test_create_index_on_existing_data() {
    let mut db = test_db();
    db.create_object_store("users", "id").unwrap();

    // Put docs before creating index.
    db.put("users", j(r#"{"id": "u1", "email": "a@b.com"}"#))
        .unwrap();
    db.put("users", j(r#"{"id": "u2", "email": "b@c.com"}"#))
        .unwrap();

    // Now create the index.
    db.create_index("users", "by_email", &["email"], true, false)
        .unwrap();

    // Should be able to query by index.
    let docs = db
        .get_by_index("users", "by_email", &j(r#""a@b.com""#))
        .unwrap();
    assert_eq!(docs.len(), 1);
    assert_eq!(at(&docs[0], "id"), val("u1"));
}

#[test]
fn test_auto_increment_store() {
    let mut db = test_db();
    db.create_object_store("events", "id").unwrap();
    // Make it auto-increment by setting the flag (simulated via direct schema update).
    let mut def = db.get_store("events").unwrap();
    def.auto_increment = true;
    db.store_definition(def).unwrap();

    db.put_auto("events", j(r#"{"type": "click"}"#)).unwrap();
    db.put_auto("events", j(r#"{"type": "scroll"}"#)).unwrap();
    db.put_auto("events", j(r#"{"type": "nav"}"#)).unwrap();

    assert_eq!(db.count("events").unwrap(), 3);
    let doc1 = db.get("events", &j(r#"1"#)).unwrap().unwrap();
    assert_eq!(at(&doc1, "type"), val("click"));
    let doc3 = db.get("events", &j(r#"3"#)).unwrap().unwrap();
    assert_eq!(at(&doc3, "type"), val("nav"));
}

#[test]
fn test_get_with_meta() {
    let mut db = test_db();
    db.create_object_store("users", "id").unwrap();
    db.put("users", j(r#"{"id": "u1", "name": "Alice"}"#))
        .unwrap();

    // get_with_meta returns (doc, ts, expire_at).
    let result = db.get_with_meta("users", &j(r#""u1""#)).unwrap();
    assert!(result.is_some());
    let (doc, ts, expire_at) = result.unwrap();
    assert_eq!(at(&doc, "name"), val("Alice"));
    assert!(ts >= 0, "ts should be non-negative");
    assert_eq!(expire_at, i64::MAX, "default expire_at should be i64::MAX");

    // Non-existent key returns None.
    let missing = db.get_with_meta("users", &j(r#""nope""#)).unwrap();
    assert!(missing.is_none());
}

#[test]
fn test_scan_with_meta() {
    let mut db = test_db();
    db.create_object_store("users", "id").unwrap();
    db.put("users", j(r#"{"id": "u1", "name": "Alice"}"#))
        .unwrap();
    db.put("users", j(r#"{"id": "u2", "name": "Bob"}"#))
        .unwrap();

    let docs = db.scan_with_meta("users").unwrap();
    assert_eq!(docs.len(), 2);
    for (doc, ts, expire_at) in &docs {
        assert!(matches!(at(&doc, "name"), JsonValue::String(_)));
        assert!(*ts >= 0);
        assert_eq!(*expire_at, i64::MAX);
    }
}

#[test]
fn test_apply_store_auto_increment() {
    let mut db = test_db();
    // Use apply_store with with_auto_increment — should work in one shot.
    let def = StoreSchema::new("events", "id").with_auto_increment();
    db.apply_store(&def).unwrap();

    // put_auto should work immediately.
    let id1 = db.put_auto("events", j(r#"{"type": "click"}"#)).unwrap();
    assert_eq!(id1, j(r#"1"#));
    let id2 = db.put_auto("events", j(r#"{"type": "scroll"}"#)).unwrap();
    assert_eq!(id2, j(r#"2"#));
}

#[test]
fn test_create_delete_store() {
    let mut db = test_db();
    db.create_object_store("users", "id").unwrap();
    assert!(db.get_store("users").is_some());

    db.put("users", j(r#"{"id": "u1"}"#)).unwrap();
    assert_eq!(db.count("users").unwrap(), 1);

    db.delete_object_store("users").unwrap();
    assert!(db.get_store("users").is_none());
}

#[test]
fn test_create_delete_index() {
    let mut db = test_db();
    db.create_object_store("users", "id").unwrap();
    db.create_index("users", "by_email", &["email"], true, false)
        .unwrap();

    let def = db.get_store("users").unwrap();
    assert_eq!(def.indexes.len(), 1);

    db.delete_index("users", "by_email").unwrap();
    let def = db.get_store("users").unwrap();
    assert_eq!(def.indexes.len(), 0);
}

#[test]
fn test_store_names() {
    let mut db = test_db();
    db.create_object_store("users", "id").unwrap();
    db.create_object_store("orders", "id").unwrap();
    let mut names = db.store_names();
    names.sort();
    assert_eq!(names, vec!["orders", "users"]);
}

#[test]
fn test_missing_store_returns_error() {
    let db = test_db();
    let err = db.get("nonexistent", &j(r#""1""#)).unwrap_err();
    assert!(err.message().contains("not found"));
}

#[test]
fn test_document_without_key_field() {
    let mut db = test_db();
    db.create_object_store("users", "id").unwrap();

    let err = db.put("users", j(r#"{"name": "Alice"}"#)).unwrap_err();
    assert!(
        err.message().contains("missing"),
        "expected missing-key error: {}",
        err.message()
    );
}

#[test]
fn test_duplicate_put_updates() {
    let mut db = test_db();
    db.create_object_store("users", "id").unwrap();

    db.put("users", j(r#"{"id": "u1", "val": 1}"#)).unwrap();
    db.put("users", j(r#"{"id": "u1", "val": 2}"#)).unwrap();
    db.put("users", j(r#"{"id": "u1", "val": 3}"#)).unwrap();

    assert_eq!(db.count("users").unwrap(), 1);
    assert_eq!(at(&db.get("users", &j(r#""u1""#)).unwrap().unwrap(), "val"), val(3));
}

#[test]
fn test_non_string_primary_key() {
    let mut db = test_db();
    db.create_object_store("nums", "id").unwrap();

    db.put("nums", j(r#"{"id": 42, "name": "answer"}"#)).unwrap();
    db.put("nums", j(r#"{"id": 100, "name": "hundred"}"#))
        .unwrap();

    assert_eq!(db.count("nums").unwrap(), 2);
    let doc = db.get("nums", &j(r#"42"#)).unwrap().unwrap();
    assert_eq!(at(&doc, "name"), val("answer"));

    let doc = db.get("nums", &j(r#"100"#)).unwrap().unwrap();
    assert_eq!(at(&doc, "name"), val("hundred"));
}

#[test]
fn test_index_on_deleted_doc_removed() {
    let mut db = test_db();
    setup_users(&mut db);

    db.put("users", j(r#"{"id": "u1", "email": "a@b.com"}"#))
        .unwrap();
    db.put("users", j(r#"{"id": "u2", "email": "b@c.com"}"#))
        .unwrap();

    let docs = db
        .get_by_index("users", "by_email", &j(r#""a@b.com""#))
        .unwrap();
    assert_eq!(docs.len(), 1);

    db.delete("users", &j(r#""u1""#)).unwrap();

    let docs = db
        .get_by_index("users", "by_email", &j(r#""a@b.com""#))
        .unwrap();
    assert_eq!(docs.len(), 0, "index entry should be removed after delete");
}

#[test]
fn test_put_missing_store() {
    let mut db = test_db();
    let err = db.put("nonexistent", j(r#"{"id": "1"}"#)).unwrap_err();
    assert!(err.message().contains("not found"));
}

#[test]
fn test_delete_missing_store() {
    let mut db = test_db();
    let err = db.delete("nonexistent", &j(r#""1""#)).unwrap_err();
    assert!(err.message().contains("not found"));
}

#[test]
fn test_count_missing_store() {
    let db = test_db();
    let err = db.count("nonexistent").unwrap_err();
    assert!(err.message().contains("not found"));
}

#[test]
fn test_scan_missing_store() {
    let db = test_db();
    let err = db.scan("nonexistent").unwrap_err();
    assert!(err.message().contains("not found"));
}

#[test]
fn test_get_by_index_missing_store() {
    let db = test_db();
    let err = db
        .get_by_index("nonexistent", "idx", &j(r#""v""#))
        .unwrap_err();
    assert!(err.message().contains("not found"));
}

#[test]
fn test_get_by_index_missing_index() {
    let mut db = test_db();
    db.create_object_store("users", "id").unwrap();
    let err = db
        .get_by_index("users", "nonexistent", &j(r#""v""#))
        .unwrap_err();
    assert!(err.message().contains("not found"));
}

#[test]
fn test_range_by_index_missing_store() {
    let db = test_db();
    let err = db
        .range_by_index("nonexistent", "idx", &j(r#"0"#), &j(r#"10"#))
        .unwrap_err();
    assert!(err.message().contains("not found"));
}

#[test]
fn test_range_by_index_missing_index() {
    let mut db = test_db();
    db.create_object_store("users", "id").unwrap();
    let err = db
        .range_by_index("users", "nonexistent", &j(r#"0"#), &j(r#"10"#))
        .unwrap_err();
    assert!(err.message().contains("not found"));
}

#[test]
fn test_put_auto_non_auto() {
    let mut db = test_db();
    db.create_object_store("users", "id").unwrap();
    let err = db.put_auto("users", j(r#"{"type": "x"}"#)).unwrap_err();
    assert!(err.message().contains("not auto-increment"));
}

#[test]
fn test_put_auto_missing_store() {
    let mut db = test_db();
    let err = db
        .put_auto("nonexistent", j(r#"{"type": "x"}"#))
        .unwrap_err();
    assert!(err.message().contains("not found"));
}

#[test]
fn test_delete_object_store_missing() {
    let mut db = test_db();
    let err = db.delete_object_store("nonexistent").unwrap_err();
    assert!(err.message().contains("not found"));
}

#[test]
fn test_create_object_store_same_name_different_key_path() {
    let mut db = test_db();
    db.create_object_store("users", "id").unwrap();
    let err = db.create_object_store("users", "uuid").unwrap_err();
    assert!(err.message().contains("different key_path"));
}

#[test]
fn test_create_object_store_idempotent() {
    let mut db = test_db();
    db.create_object_store("users", "id").unwrap();
    // Same name + same key_path should succeed (no-op).
    assert!(db.create_object_store("users", "id").is_ok());
}

#[test]
fn test_create_index_duplicate() {
    let mut db = test_db();
    db.create_object_store("users", "id").unwrap();
    db.create_index("users", "by_email", &["email"], true, false)
        .unwrap();
    let err = db
        .create_index("users", "by_email", &["phone"], true, false)
        .unwrap_err();
    assert!(err.message().contains("already exists"));
}

#[test]
fn test_create_index_missing_store() {
    let mut db = test_db();
    let err = db
        .create_index("nonexistent", "idx", &["field"], false, false)
        .unwrap_err();
    assert!(err.message().contains("not found"));
}

#[test]
fn test_delete_index_missing_store() {
    let mut db = test_db();
    let err = db.delete_index("nonexistent", "idx").unwrap_err();
    assert!(err.message().contains("not found"));
}

#[test]
fn test_delete_index_missing() {
    let mut db = test_db();
    db.create_object_store("users", "id").unwrap();
    let err = db.delete_index("users", "nonexistent").unwrap_err();
    assert!(err.message().contains("not found"));
}

#[test]
fn test_delete_store_with_indexes_and_data() {
    let mut db = test_db();
    setup_users(&mut db);
    db.put("users", j(r#"{"id": "u1", "email": "a@b.com", "age": 30}"#))
        .unwrap();
    db.put("users", j(r#"{"id": "u2", "email": "b@c.com", "age": 25}"#))
        .unwrap();
    assert_eq!(db.count("users").unwrap(), 2);

    db.delete_object_store("users").unwrap();
    assert!(db.get_store("users").is_none());
    // Create a new store with the same name to verify clean state
    db.create_object_store("users", "id").unwrap();
    assert_eq!(db.count("users").unwrap(), 0);
}

#[test]
fn test_delete_store_with_auto_increment() {
    let mut db = test_db();
    db.create_object_store("events", "id").unwrap();
    let mut def = db.get_store("events").unwrap();
    def.auto_increment = true;
    db.store_definition(def).unwrap();

    db.put_auto("events", j(r#"{"type": "click"}"#)).unwrap();
    db.delete_object_store("events").unwrap();
    assert!(db.get_store("events").is_none());
}

#[test]
fn test_index_on_nested_field() {
    let mut db = test_db();
    db.create_object_store("users", "id").unwrap();
    db.create_index("users", "by_city", &["address.city"], false, false)
        .unwrap();
    db.put("users", j(r#"{"id": "u1", "address": {"city": "NYC"}}"#))
        .unwrap();
    db.put("users", j(r#"{"id": "u2", "address": {"city": "SF"}}"#))
        .unwrap();

    let docs = db.get_by_index("users", "by_city", &j(r#""NYC""#)).unwrap();
    assert_eq!(docs.len(), 1);
    assert_eq!(at(&docs[0], "id"), val("u1"));
}

#[test]
fn test_index_on_field_not_present() {
    let mut db = test_db();
    db.create_object_store("users", "id").unwrap();
    db.create_index("users", "by_email", &["email"], false, false)
        .unwrap();
    // Doc without the indexed field
    db.put("users", j(r#"{"id": "u1"}"#)).unwrap();
    // Should not create index entry, so query returns no results
    let docs = db.get_by_index("users", "by_email", &j(r#""x""#)).unwrap();
    assert_eq!(docs.len(), 0);
}

#[test]
fn test_index_float_values() {
    let mut db = test_db();
    db.create_object_store("scores", "id").unwrap();
    db.create_index("scores", "by_score", &["score"], false, false)
        .unwrap();

    db.put("scores", j(r#"{"id": "a", "score": 95.5}"#)).unwrap();
    db.put("scores", j(r#"{"id": "b", "score": 87.3}"#)).unwrap();
    db.put("scores", j(r#"{"id": "c", "score": 95.5}"#)).unwrap();

    let docs = db.get_by_index("scores", "by_score", &j(r#"95.5"#)).unwrap();
    assert_eq!(docs.len(), 2);

    let docs = db
        .range_by_index("scores", "by_score", &j(r#"80.0"#), &j(r#"90.0"#))
        .unwrap();
    assert_eq!(docs.len(), 1);
    assert_eq!(at(&docs[0], "id"), val("b"));
}

#[test]
fn test_index_bool_values() {
    let mut db = test_db();
    db.create_object_store("items", "id").unwrap();
    db.create_index("items", "by_active", &["active"], false, false)
        .unwrap();

    db.put("items", j(r#"{"id": 1, "active": true}"#)).unwrap();
    db.put("items", j(r#"{"id": 2, "active": false}"#)).unwrap();

    let docs = db.get_by_index("items", "by_active", &j(r#"true"#)).unwrap();
    assert_eq!(docs.len(), 1);
    assert_eq!(at(&docs[0], "id"), val(1));

    let docs = db
        .get_by_index("items", "by_active", &j(r#"false"#))
        .unwrap();
    assert_eq!(docs.len(), 1);
    assert_eq!(at(&docs[0], "id"), val(2));
}

#[test]
fn test_index_null_values() {
    let mut db = test_db();
    db.create_object_store("users", "id").unwrap();
    db.create_index("users", "by_email", &["email"], false, false)
        .unwrap();

    db.put("users", j(r#"{"id": "u1", "email": null}"#)).unwrap();

    let docs = db
        .get_by_index("users", "by_email", &JsonValue::Null)
        .unwrap();
    assert_eq!(docs.len(), 1);
    assert_eq!(at(&docs[0], "id"), val("u1"));
}

#[test]
fn test_many_documents() {
    let mut db = test_db();
    db.create_object_store("large", "id").unwrap();
    db.create_index("large", "by_val", &["val"], false, false).unwrap();

    let n = 200;
    for i in 0..n {
        db.put("large", j(&format!(r#"{{"id": {}, "val": {}}}"#, i, i % 50))).unwrap();
    }
    assert_eq!(db.count("large").unwrap(), n);

    // Index point query
    let docs = db.get_by_index("large", "by_val", &j(r#"0"#)).unwrap();
    assert_eq!(docs.len(), n / 50);

    // Index range query
    let docs = db
        .range_by_index("large", "by_val", &j(r#"10"#), &j(r#"20"#))
        .unwrap();
    assert!(!docs.is_empty());

    // Non-string key check
    let doc = db.get("large", &j(r#"0"#)).unwrap();
    assert!(doc.is_some());
}

#[test]
fn test_multiple_stores_independent() {
    let mut db = test_db();
    db.create_object_store("a", "id").unwrap();
    db.create_object_store("b", "id").unwrap();
    db.create_index("a", "by_val", &["val"], false, false).unwrap();

    db.put("a", j(r#"{"id": "a1", "val": 1}"#)).unwrap();
    db.put("b", j(r#"{"id": "b1", "val": 2}"#)).unwrap();

    assert_eq!(db.count("a").unwrap(), 1);
    assert_eq!(db.count("b").unwrap(), 1);

    let docs = db.get_by_index("a", "by_val", &j(r#"1"#)).unwrap();
    assert_eq!(docs.len(), 1);
}

#[test]
fn test_primary_key_numeric_types() {
    let mut db = test_db();
    db.create_object_store("items", "id").unwrap();

    // Bool key
    db.put("items", j(r#"{"id": true, "name": "yes"}"#)).unwrap();
    let doc = db.get("items", &j(r#"true"#)).unwrap().unwrap();
    assert_eq!(at(&doc, "name"), val("yes"));

    // Null key
    db.put("items", j(r#"{"id": null, "name": "nothing"}"#))
        .unwrap();

    // Negative number key
    db.put("items", j(r#"{"id": -5, "name": "neg"}"#)).unwrap();
    let doc = db.get("items", &j(r#"-5"#)).unwrap().unwrap();
    assert_eq!(at(&doc, "name"), val("neg"));
}

#[test]
fn test_create_index_on_existing_data_unique_violation() {
    let mut db = test_db();
    db.create_object_store("users", "id").unwrap();
    db.put("users", j(r#"{"id": "u1", "email": "same@b.com"}"#))
        .unwrap();
    db.put("users", j(r#"{"id": "u2", "email": "same@b.com"}"#))
        .unwrap();

    // Creating a unique index on existing data with duplicates succeeds
    // but subsequent put attempts will fail with unique violation.
    db.create_index("users", "by_email", &["email"], true, false)
        .unwrap();

    let err = db
        .put("users", j(r#"{"id": "u3", "email": "same@b.com"}"#))
        .unwrap_err();
    assert!(
        err.message().contains("unique"),
        "expected unique violation"
    );
}

#[test]
fn test_validate_name_in_creation() {
    let mut db = test_db();
    let err = db.create_object_store("", "id").unwrap_err();
    assert!(err.message().contains("empty"));
    let err = db.create_object_store("has space", "id").unwrap_err();
    assert!(err.message().contains("invalid"));
}

#[test]
fn test_range_by_index_empty_range() {
    let mut db = test_db();
    setup_users(&mut db);
    db.put("users", j(r#"{"id": "u1", "age": 30}"#)).unwrap();

    // Empty range [100, 100) should return no results
    let docs = db
        .range_by_index("users", "by_age", &j(r#"100"#), &j(r#"100"#))
        .unwrap();
    assert_eq!(docs.len(), 0);
}

#[test]
fn test_range_by_index_start_equals_end() {
    let mut db = test_db();
    setup_users(&mut db);
    db.put("users", j(r#"{"id": "u1", "age": 30}"#)).unwrap();

    // Range [30, 30) should be empty (exclusive end)
    let docs = db
        .range_by_index("users", "by_age", &j(r#"30"#), &j(r#"30"#))
        .unwrap();
    assert_eq!(docs.len(), 0);
}

#[test]
fn test_throughput_sequential_writes() {
    let mut db = test_db();
    db.create_object_store("bench", "id").unwrap();
    db.create_index("bench", "by_val", &["val"], false, false).unwrap();

    let n = 1_000;
    
    for i in 0u64..n {
        db.put("bench", j(&format!(r#"{{"id": {}, "val": {}}}"#, i, i % 100))).unwrap();
    }

    assert_eq!(db.count("bench").unwrap(), n as usize);
}

#[test]
fn test_throughput_point_reads() {
    let mut db = test_db();
    db.create_object_store("bench", "id").unwrap();
    db.create_index("bench", "by_val", &["val"], false, false).unwrap();

    let n = 1_000;
    for i in 0u64..n {
        db.put("bench", j(&format!(r#"{{"id": {}, "val": {}}}"#, i, i * 2))).unwrap();
    }

    for i in 0u64..n {
        let _ = db.get("bench", &j(&format!("{}", i))).unwrap();
    }

}

#[test]
fn test_throughput_index_query() {
    let mut db = test_db();
    db.create_object_store("bench", "id").unwrap();
    db.create_index("bench", "by_val", &["val"], false, false).unwrap();

    let n = 1_000;
    for i in 0u64..n {
        db.put("bench", j(&format!(r#"{{"id": {}, "val": {}}}"#, i, i % 50))).unwrap();
    }

    for v in 0..50 {
        let docs = db.get_by_index("bench", "by_val", &j(&format!("{}", v))).unwrap();
        assert_eq!(docs.len(), n as usize / 50);
    }

}

#[test]
fn test_throughput_auto_increment() {
    let mut db = test_db();
    db.create_object_store("auto", "id").unwrap();
    let mut def = db.get_store("auto").unwrap();
    def.auto_increment = true;
    db.store_definition(def).unwrap();

    let n = 50;
    
    for _ in 0..n {
        db.put_auto("auto", j(r#"{"data": "x"}"#)).unwrap();
    }

    assert_eq!(db.count("auto").unwrap(), n);
}

#[test]
fn test_add_rejects_duplicate() {
    let mut db = test_db();
    db.create_object_store("users", "id").unwrap();
    db.add("users", j(r#"{"id": "u1", "name": "Alice"}"#))
        .unwrap();
    let err = db
        .add("users", j(r#"{"id": "u1", "name": "Bob"}"#))
        .unwrap_err();
    assert!(err.message().contains("already exists"));
    // Original doc unchanged.
    let doc = db.get("users", &j(r#""u1""#)).unwrap().unwrap();
    assert_eq!(at(&doc, "name"), val("Alice"));
}

#[test]
fn test_clear_store() {
    let mut db = test_db();
    db.create_object_store("users", "id").unwrap();
    db.put("users", j(r#"{"id": "u1"}"#)).unwrap();
    db.put("users", j(r#"{"id": "u2"}"#)).unwrap();
    db.put("users", j(r#"{"id": "u3"}"#)).unwrap();
    assert_eq!(db.count("users").unwrap(), 3);

    let removed = db.clear("users").unwrap();
    assert_eq!(removed, 3);
    assert_eq!(db.count("users").unwrap(), 0);
    // Schema still exists.
    let names = db.store_names();
    assert!(names.contains(&"users".to_string()));
}

#[test]
fn test_get_key() {
    let mut db = test_db();
    db.create_object_store("users", "id").unwrap();
    db.put("users", j(r#"{"id": "u1"}"#)).unwrap();
    assert!(db.get_key("users", &j(r#""u1""#)).unwrap().is_some());
    assert!(db.get_key("users", &j(r#""missing""#)).unwrap().is_none());
}

#[test]
fn test_multi_entry_index() {
    let mut db = test_db();
    db.create_object_store("items", "id").unwrap();
    db.create_index("items", "by_tag", &["tags"], false, true)
        .unwrap();
    db.put("items", j(r#"{"id": "i1", "tags": ["red", "blue"]}"#)).unwrap();
    db.put("items", j(r#"{"id": "i2", "tags": ["blue", "green"]}"#)).unwrap();
    // Lookup by each tag should work.
    let red = db.get_by_index("items", "by_tag", &j(r#""red""#)).unwrap();
    assert_eq!(red.len(), 1);
    let blue = db.get_by_index("items", "by_tag", &j(r#""blue""#)).unwrap();
    assert_eq!(blue.len(), 2);
}

#[test]
fn test_encoding_u64_number() {
    // u64 that doesn't fit in i64
    let encoded = encode_index_value(&18446744073709551615u64.into_value());
    assert!(!encoded.is_empty());
}

#[test]
fn test_encoding_negative_float() {
    let encoded = encode_index_value(&j("-3.5e10"));
    let encoded2 = encode_index_value(&j("-34999999999.0"));
    assert!(!encoded.is_empty());
    assert!(encoded < encoded2);
}

#[test]
fn test_primary_key_object_type() {
    // Object primary key (fallback to JSON ser)
    let val = j(r#"{"a": 1, "b": 2}"#);
    let pk = encode_primary_key(&val).unwrap();
    assert!(!pk.is_empty());
}

#[test]
fn test_extract_field_deep_path() {
    let doc = j(r#"{"a": {"b": {"c": [1, 2, 3]}}}"#);
    assert_eq!(extract_field(&doc, "a.b.c.0"), Some(j("1")));
    assert_eq!(extract_field(&doc, "a.b.c.3"), None);
    assert_eq!(extract_field(&doc, "a.b.c"), Some(j("[1, 2, 3]")));
}

#[test]
fn test_extract_field_from_non_object() {
    let doc_str = j(r#""hello""#);
    assert_eq!(extract_field(&doc_str, "anything"), None);

    let doc_arr = j("[1, 2, 3]");
    assert_eq!(extract_field(&doc_arr, "0"), Some(j("1")));
    assert_eq!(extract_field(&doc_arr, "5"), None);
}

#[test]
fn test_delete_doc() {
    let mut db = test_db();
    db.create_object_store("users", "id").unwrap();
    db.put(
        "users",
        j(r#"{"id": "u1", "name": "Alice", "email": "a@b.com"}"#),
    )
    .unwrap();
    assert!(db.count("users").unwrap() == 1);

    db.delete_doc("users", "u1").unwrap();
    assert!(db.count("users").unwrap() == 0);
}
