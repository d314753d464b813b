//! Queries, key ranges and cursors.

use flowdb::jsondb::value::{decode_doc, extract_field};
use flowdb::jsondb::{CursorDirection, JsonDB, JsonValue, KeyArg, KeyRange, SortDir};
use flowdb::Config;

/// A database with nothing in it.
fn test_db() -> JsonDB {
    JsonDB::open(Config::default()).unwrap()
}

/// The value of a JSON text.
fn j(text: &str) -> JsonValue {
    decode_doc(text.as_bytes()).unwrap()
}

/// A field of a document; null where it is not there.
fn at(doc: &JsonValue, field: &str) -> JsonValue {
    extract_field(doc, field).unwrap_or(JsonValue::Null)
}

fn val<K: KeyArg>(k: K) -> JsonValue {
    k.into_value()
}

#[test]
fn test_composite_index_equality() {
    let mut db = test_db();
    db.create_object_store("users", "id").unwrap();
    db.create_index("users", "by_city_age", &["city", "age"], false, false)
        .unwrap();

    db.put("users", j(r#"{"id": "u1", "city": "NYC", "age": 30}"#))
        .unwrap();
    db.put("users", j(r#"{"id": "u2", "city": "NYC", "age": 25}"#))
        .unwrap();
    db.put("users", j(r#"{"id": "u3", "city": "SF", "age": 30}"#))
        .unwrap();

    // Query by first field only (prefix scan)
    let docs = db
        .get_by_index("users", "by_city_age", &j(r#""NYC""#))
        .unwrap();
    assert_eq!(docs.len(), 2);

    // Query by all fields (exact match)
    let docs = db
        .get_by_index("users", "by_city_age", &j(r#"["NYC", 30]"#))
        .unwrap();
    assert_eq!(docs.len(), 1);
    assert_eq!(at(&docs[0], "id"), val("u1"));
}

#[test]
fn test_composite_index_update() {
    let mut db = test_db();
    db.create_object_store("users", "id").unwrap();
    db.create_index("users", "by_city_age", &["city", "age"], true, false)
        .unwrap();

    db.put("users", j(r#"{"id": "u1", "city": "NYC", "age": 30}"#))
        .unwrap();

    // Update city → old index entry removed, new one created
    db.put("users", j(r#"{"id": "u1", "city": "SF", "age": 30}"#))
        .unwrap();

    let docs = db
        .get_by_index("users", "by_city_age", &j(r#"["NYC", 30]"#))
        .unwrap();
    assert_eq!(docs.len(), 0, "old composite value should be gone");

    let docs = db
        .get_by_index("users", "by_city_age", &j(r#"["SF", 30]"#))
        .unwrap();
    assert_eq!(docs.len(), 1);
}

#[test]
fn test_composite_index_unique() {
    let mut db = test_db();
    db.create_object_store("users", "id").unwrap();
    db.create_index("users", "by_city_age", &["city", "age"], true, false)
        .unwrap();

    db.put("users", j(r#"{"id": "u1", "city": "NYC", "age": 30}"#))
        .unwrap();
    let err = db
        .put("users", j(r#"{"id": "u2", "city": "NYC", "age": 30}"#))
        .unwrap_err();
    assert!(
        err.message().contains("unique"),
        "composite unique should fail"
    );

    // Same city, different age → should succeed
    db.put("users", j(r#"{"id": "u2", "city": "NYC", "age": 25}"#))
        .unwrap();
    assert_eq!(db.count("users").unwrap(), 2);
}

#[test]
fn test_composite_index_on_existing_data() {
    let mut db = test_db();
    db.create_object_store("users", "id").unwrap();
    db.put("users", j(r#"{"id": "u1", "city": "NYC", "age": 30}"#))
        .unwrap();
    db.put("users", j(r#"{"id": "u2", "city": "SF", "age": 25}"#))
        .unwrap();

    // Create composite on existing data
    db.create_index("users", "by_city_age", &["city", "age"], false, false)
        .unwrap();

    let docs = db
        .get_by_index("users", "by_city_age", &j(r#"["NYC", 30]"#))
        .unwrap();
    assert_eq!(docs.len(), 1);
}

#[test]
fn test_query_builder_eq() {
    let mut db = test_db();
    db.create_object_store("users", "id").unwrap();
    db.create_index("users", "by_email", &["email"], true, false)
        .unwrap();
    db.put("users", j(r#"{"id": "u1", "email": "a@b.com"}"#))
        .unwrap();
    db.put("users", j(r#"{"id": "u2", "email": "b@c.com"}"#))
        .unwrap();

    let docs = db
        .query("users")
        .where_eq("email", j(r#""a@b.com""#))
        .collect()
        .unwrap();
    assert_eq!(docs.len(), 1);
    assert_eq!(at(&docs[0], "id"), val("u1"));
}

#[test]
fn test_query_builder_composite_eq() {
    let mut db = test_db();
    db.create_object_store("users", "id").unwrap();
    db.create_index("users", "by_city_age", &["city", "age"], false, false)
        .unwrap();
    db.put("users", j(r#"{"id": "u1", "city": "NYC", "age": 30}"#))
        .unwrap();
    db.put("users", j(r#"{"id": "u2", "city": "NYC", "age": 25}"#))
        .unwrap();
    db.put("users", j(r#"{"id": "u3", "city": "SF", "age": 30}"#))
        .unwrap();

    let docs = db
        .query("users")
        .where_eq("city", j(r#""NYC""#))
        .where_eq("age", j(r#"30"#))
        .collect()
        .unwrap();
    assert_eq!(docs.len(), 1);
    assert_eq!(at(&docs[0], "id"), val("u1"));
}

#[test]
fn test_query_builder_range() {
    let mut db = test_db();
    db.create_object_store("users", "id").unwrap();
    db.create_index("users", "by_age", &["age"], false, false).unwrap();
    db.put("users", j(r#"{"id": "u1", "age": 30}"#)).unwrap();
    db.put("users", j(r#"{"id": "u2", "age": 25}"#)).unwrap();
    db.put("users", j(r#"{"id": "u3", "age": 35}"#)).unwrap();

    let docs = db
        .query("users")
        .where_range("age", j(r#"25"#), j(r#"35"#))
        .collect()
        .unwrap();
    assert_eq!(docs.len(), 2); // age 25 ≤ docs < 35
}

#[test]
fn test_query_builder_eq_and_range() {
    let mut db = test_db();
    db.create_object_store("users", "id").unwrap();
    db.create_index("users", "by_city_age", &["city", "age"], false, false)
        .unwrap();
    db.put("users", j(r#"{"id": "u1", "city": "NYC", "age": 30}"#))
        .unwrap();
    db.put("users", j(r#"{"id": "u2", "city": "NYC", "age": 25}"#))
        .unwrap();
    db.put("users", j(r#"{"id": "u3", "city": "SF", "age": 30}"#))
        .unwrap();

    let docs = db
        .query("users")
        .where_eq("city", j(r#""NYC""#))
        .where_range("age", j(r#"20"#), j(r#"30"#))
        .collect()
        .unwrap();
    assert_eq!(docs.len(), 1); // age 20-30 in NYC → u2 (age 25). age 30 is exclusive.
    assert_eq!(at(&docs[0], "id"), val("u2"));
}

#[test]
fn test_query_builder_limit_offset() {
    let mut db = test_db();
    db.create_object_store("users", "id").unwrap();
    for i in 0..10 {
        db.put("users", j(&format!(r#"{{"id": {}, "val": {}}}"#, i, i))).unwrap();
    }

    let docs = db.query("users").limit(3).collect().unwrap();
    assert_eq!(docs.len(), 3);

    let docs = db.query("users").offset(5).limit(3).collect().unwrap();
    assert_eq!(docs.len(), 3);
}

#[test]
fn test_query_builder_order_by_asc() {
    let mut db = test_db();
    db.create_object_store("users", "id").unwrap();
    db.create_index("users", "by_age", &["age"], false, false).unwrap();
    db.put("users", j(r#"{"id": "u1", "age": 30}"#)).unwrap();
    db.put("users", j(r#"{"id": "u2", "age": 25}"#)).unwrap();
    db.put("users", j(r#"{"id": "u3", "age": 35}"#)).unwrap();

    let docs = db
        .query("users")
        .order_by("age", SortDir::Asc)
        .collect()
        .unwrap();
    assert_eq!(docs.len(), 3);
    assert_eq!(at(&docs[0], "id"), val("u2")); // age 25
    assert_eq!(at(&docs[1], "id"), val("u1")); // age 30
    assert_eq!(at(&docs[2], "id"), val("u3")); // age 35
}

#[test]
fn test_query_builder_order_by_desc() {
    let mut db = test_db();
    db.create_object_store("users", "id").unwrap();
    db.put("users", j(r#"{"id": "u1", "age": 30}"#)).unwrap();
    db.put("users", j(r#"{"id": "u2", "age": 25}"#)).unwrap();

    let docs = db
        .query("users")
        .order_by("age", SortDir::Desc)
        .collect()
        .unwrap();
    assert_eq!(docs.len(), 2);
    assert_eq!(at(&docs[0], "id"), val("u1")); // age 30
    assert_eq!(at(&docs[1], "id"), val("u2")); // age 25
}

#[test]
fn test_query_builder_where_in() {
    let mut db = test_db();
    db.create_object_store("users", "id").unwrap();
    db.put("users", j(r#"{"id": "u1", "city": "NYC"}"#)).unwrap();
    db.put("users", j(r#"{"id": "u2", "city": "SF"}"#)).unwrap();
    db.put("users", j(r#"{"id": "u3", "city": "LA"}"#)).unwrap();

    let docs = db
        .query("users")
        .where_in("city", vec![j(r#""NYC""#), j(r#""LA""#)])
        .collect()
        .unwrap();
    assert_eq!(docs.len(), 2);
}

#[test]
fn test_query_builder_no_matching_index() {
    let mut db = test_db();
    db.create_object_store("users", "id").unwrap();
    db.put("users", j(r#"{"id": "u1", "color": "red"}"#))
        .unwrap();
    db.put("users", j(r#"{"id": "u2", "color": "blue"}"#))
        .unwrap();

    // No index on "color" → full scan with filter
    let docs = db
        .query("users")
        .where_eq("color", j(r#""red""#))
        .collect()
        .unwrap();
    assert_eq!(docs.len(), 1);
}

#[test]
fn test_query_builder_store_not_found() {
    let db = test_db();
    let err = db.query("nonexistent").collect().unwrap_err();
    assert!(err.message().contains("not found"));
}

#[test]
fn test_query_builder_bool_index() {
    let mut db = test_db();
    db.create_object_store("items", "id").unwrap();
    db.create_index("items", "by_active", &["active"], false, false)
        .unwrap();
    db.put("items", j(r#"{"id": 1, "active": true}"#)).unwrap();
    db.put("items", j(r#"{"id": 2, "active": false}"#)).unwrap();

    let docs = db
        .query("items")
        .where_eq("active", j(r#"true"#))
        .collect()
        .unwrap();
    assert_eq!(docs.len(), 1);
    assert_eq!(at(&docs[0], "id"), val(1));
}

#[test]
fn test_get_all_with_count() {
    let mut db = test_db();
    db.create_object_store("users", "id").unwrap();
    for i in 0..10 {
        db.put("users", j(&format!(r#"{{"id": "u{}"}}"#, i))).unwrap();
    }
    let all = db.get_all("users", None, None).unwrap();
    assert_eq!(all.len(), 10);
    let limited = db.get_all("users", None, Some(3)).unwrap();
    assert_eq!(limited.len(), 3);
}

#[test]
fn test_get_all_keys() {
    let mut db = test_db();
    db.create_object_store("users", "id").unwrap();
    db.put("users", j(r#"{"id": "u1"}"#)).unwrap();
    db.put("users", j(r#"{"id": "u2"}"#)).unwrap();
    let keys = db.get_all_keys("users", None, None).unwrap();
    assert_eq!(keys.len(), 2);
}

#[test]
fn test_count_with_keyrange() {
    let mut db = test_db();
    db.create_object_store("users", "id").unwrap();
    for i in 0..10 {
        db.put("users", j(&format!(r#"{{"id": "u{}"}}"#, i))).unwrap();
    }
    let kr = KeyRange::bound(j(r#""u3""#), j(r#""u6""#), false, false);
    let n = db.count_with_query("users", Some(&kr)).unwrap();
    assert_eq!(n, 4); // u3, u4, u5, u6
}

#[test]
fn test_key_range_only() {
    let kr = KeyRange::only(j(r#""alice""#));
    assert!(kr.includes(&j(r#""alice""#)));
    assert!(!kr.includes(&j(r#""bob""#)));
}

#[test]
fn test_key_range_bound_closed() {
    let kr = KeyRange::bound(j(r#"10"#), j(r#"20"#), false, false);
    assert!(kr.includes(&j(r#"10"#)));
    assert!(kr.includes(&j(r#"15"#)));
    assert!(kr.includes(&j(r#"20"#)));
    assert!(!kr.includes(&j(r#"9"#)));
    assert!(!kr.includes(&j(r#"21"#)));
}

#[test]
fn test_key_range_bound_open() {
    let kr = KeyRange::bound(j(r#"10"#), j(r#"20"#), true, true);
    assert!(!kr.includes(&j(r#"10"#)));
    assert!(kr.includes(&j(r#"11"#)));
    assert!(!kr.includes(&j(r#"20"#)));
    assert!(kr.includes(&j(r#"19"#)));
}

#[test]
fn test_key_range_lower_bound() {
    let kr = KeyRange::lower_bound(j(r#"18"#), false);
    assert!(kr.includes(&j(r#"18"#)));
    assert!(kr.includes(&j(r#"100"#)));
    assert!(!kr.includes(&j(r#"17"#)));
}

#[test]
fn test_key_range_upper_bound() {
    let kr = KeyRange::upper_bound(j(r#"65"#), true);
    assert!(!kr.includes(&j(r#"65"#)));
    assert!(kr.includes(&j(r#"64"#)));
    assert!(!kr.includes(&j(r#"66"#)));
}

#[test]
fn test_cursor_next_forward() {
    let mut db = test_db();
    db.create_object_store("users", "id").unwrap();
    db.put("users", j(r#"{"id": "a"}"#)).unwrap();
    db.put("users", j(r#"{"id": "b"}"#)).unwrap();
    db.put("users", j(r#"{"id": "c"}"#)).unwrap();

    let mut cursor = db
        .open_cursor("users", None, CursorDirection::Next)
        .unwrap();
    let (k1, _) = cursor.next_value().unwrap();
    assert_eq!(k1, j(r#""a""#));
    let (k2, _) = cursor.next_value().unwrap();
    assert_eq!(k2, j(r#""b""#));
    let (k3, _) = cursor.next_value().unwrap();
    assert_eq!(k3, j(r#""c""#));
    assert!(cursor.next_value().is_none());
}

#[test]
fn test_cursor_prev_reverse() {
    let mut db = test_db();
    db.create_object_store("users", "id").unwrap();
    db.put("users", j(r#"{"id": "a"}"#)).unwrap();
    db.put("users", j(r#"{"id": "b"}"#)).unwrap();
    db.put("users", j(r#"{"id": "c"}"#)).unwrap();

    let mut cursor = db
        .open_cursor("users", None, CursorDirection::Prev)
        .unwrap();
    let (k1, _) = cursor.next_value().unwrap();
    assert_eq!(k1, j(r#""c""#));
    let (k2, _) = cursor.next_value().unwrap();
    assert_eq!(k2, j(r#""b""#));
    let (k3, _) = cursor.next_value().unwrap();
    assert_eq!(k3, j(r#""a""#));
}

#[test]
fn test_cursor_advance() {
    let mut db = test_db();
    db.create_object_store("users", "id").unwrap();
    for i in 0..10 {
        db.put("users", j(&format!(r#"{{"id": "u{}"}}"#, i))).unwrap();
    }

    let mut cursor = db
        .open_cursor("users", None, CursorDirection::Next)
        .unwrap();
    let (k, _) = cursor.advance(5).unwrap();
    assert_eq!(k, j(r#""u5""#));
    let (k, _) = cursor.next_value().unwrap();
    assert_eq!(k, j(r#""u6""#));
}

#[test]
fn test_cursor_with_keyrange() {
    let mut db = test_db();
    db.create_object_store("users", "id").unwrap();
    for i in 0..10 {
        db.put("users", j(&format!(r#"{{"id": "u{}"}}"#, i))).unwrap();
    }

    let kr = KeyRange::bound(j(r#""u3""#), j(r#""u5""#), false, false);
    let mut cursor = db
        .open_cursor("users", Some(&kr), CursorDirection::Next)
        .unwrap();
    let mut keys = Vec::new();
    while let Some((k, _)) = cursor.next_value() {
        keys.push(k);
    }
    assert_eq!(keys, vec![j(r#""u3""#), j(r#""u4""#), j(r#""u5""#)]);
}

#[test]
fn test_index_cursor() {
    let mut db = test_db();
    db.create_object_store("users", "id").unwrap();
    db.create_index("users", "by_age", &["age"], false, false)
        .unwrap();
    db.put("users", j(r#"{"id": "u1", "age": 25}"#)).unwrap();
    db.put("users", j(r#"{"id": "u2", "age": 30}"#)).unwrap();
    db.put("users", j(r#"{"id": "u3", "age": 35}"#)).unwrap();

    let mut cursor = db
        .open_cursor_on_index("users", "by_age", None, CursorDirection::Next)
        .unwrap();
    let (idx_val, pk, doc) = cursor.next_value().unwrap();
    assert_eq!(idx_val, j(r#"25"#));
    assert_eq!(pk, j(r#""u1""#));
    assert_eq!(at(&doc, "age"), val(25));
}
