//! What the bindings are built from.

use flowdb::bindings::{
    commit_ops, find_pending, inject_meta, parse_key_range, parse_mode, tx_get, ConfigRequest,
    CursorFeed, TxOp,
};
use flowdb::jsondb::value::{decode_doc, extract_field};
use flowdb::jsondb::{JsonDB, JsonValue, KeyArg, TransactionMode};
use flowdb::{Config, FlowError};

fn j(text: &str) -> JsonValue {
    decode_doc(text.as_bytes()).unwrap()
}

fn at(doc: &JsonValue, field: &str) -> JsonValue {
    extract_field(doc, field).unwrap_or(JsonValue::Null)
}

fn val<K: KeyArg>(k: K) -> JsonValue {
    k.into_value()
}

fn message<T>(r: Result<T, FlowError>) -> String {
    match r {
        Ok(_) => panic!("expected an error"),
        Err(e) => e.message(),
    }
}

fn users() -> JsonDB {
    let mut db = JsonDB::open(Config::default()).unwrap();
    db.create_object_store("users", "id").unwrap();
    db.create_index_on("users", "by_age", "age", false).unwrap();
    db.put("users", j(r#"{"id": "u1", "age": 30}"#)).unwrap();
    db.put("users", j(r#"{"id": "u2", "age": 20}"#)).unwrap();
    db.put("users", j(r#"{"id": "u3", "age": 30}"#)).unwrap();
    db
}

#[test]
fn modes_are_parsed() {
    assert!(matches!(parse_mode("readonly"), Ok(TransactionMode::ReadOnly)));
    assert!(matches!(parse_mode("readwrite"), Ok(TransactionMode::ReadWrite)));
    assert_eq!(
        message(parse_mode("Readonly")),
        "mode must be 'readonly' or 'readwrite'"
    );
}

#[test]
fn times_are_injected_in_milliseconds() {
    let doc = inject_meta(j(r#"{"id": 1}"#), 1_999, 5_000_999);
    assert_eq!(at(&doc, "_tsMs"), val(1i64));
    assert_eq!(at(&doc, "_expireAtMs"), val(5_000i64));
    assert_eq!(at(&doc, "id"), val(1i64));

    let forever = inject_meta(j(r#"{"id": 1}"#), -1_999, i64::MAX);
    assert_eq!(at(&forever, "_tsMs"), val(-1i64));
    assert_eq!(extract_field(&forever, "_expireAtMs"), Some(JsonValue::Null));

    assert_eq!(inject_meta(j("[1]"), 5, 6), j("[1]"));
}

#[test]
fn key_ranges_are_parsed() {
    assert!(parse_key_range(&None).unwrap().is_none());

    let range = j(r#"{"lower": 1, "upper": null, "lowerOpen": true, "upperOpen": 7}"#);
    let parsed = parse_key_range(&Some(range)).unwrap().unwrap();
    assert_eq!(parsed.lower, Some(val(1i64)));
    assert_eq!(parsed.upper, None);
    assert!(parsed.lower_open);
    assert!(!parsed.upper_open);

    assert_eq!(message(parse_key_range(&Some(j("3")))), "KeyRange must be an object");
}

fn request() -> ConfigRequest {
    ConfigRequest {
        data_dir: "here".to_string(),
        create_if_missing: None,
        default_ttl_secs: None,
        memtable_size_mb: None,
        block_cache_capacity_mb: None,
        bloom_bits_per_key: None,
        compaction_interval_ms: None,
    }
}

#[test]
fn settings_keep_their_defaults() {
    let c = request().into_config().unwrap();
    assert_eq!(c.data_dir, "here");
    assert!(c.create_if_missing);
    assert_eq!(c.default_ttl_secs, None);
    assert_eq!(c.memtable_size_mb, 64);
    assert_eq!(c.block_cache_capacity_mb, 128);
    assert_eq!(c.bloom_bits_per_key, 10);
    assert_eq!(c.compaction_interval_ms, 60_000);
}

#[test]
fn settings_are_taken_over() {
    let c = ConfigRequest {
        create_if_missing: Some(false),
        default_ttl_secs: Some(9),
        memtable_size_mb: Some(8),
        block_cache_capacity_mb: Some(0),
        bloom_bits_per_key: Some(7),
        compaction_interval_ms: Some(6),
        ..request()
    }
    .into_config()
    .unwrap();
    assert!(!c.create_if_missing);
    assert_eq!(c.default_ttl_secs, Some(9));
    assert_eq!(c.memtable_size_mb, 8);
    assert_eq!(c.block_cache_capacity_mb, 0);
    assert_eq!(c.bloom_bits_per_key, 7);
    assert_eq!(c.compaction_interval_ms, 6);
}

#[test]
fn settings_out_of_range_are_refused() {
    let ttl = ConfigRequest { default_ttl_secs: Some(-1), ..request() };
    assert_eq!(message(ttl.into_config()), "default_ttl_secs cannot be negative");
    let memtable = ConfigRequest { memtable_size_mb: Some(0), ..request() };
    assert_eq!(message(memtable.into_config()), "memtable_size_mb must be > 0");
    let cache = ConfigRequest { block_cache_capacity_mb: Some(-5), ..request() };
    assert_eq!(message(cache.into_config()), "block_cache_capacity_mb cannot be negative");
    let bloom = ConfigRequest { bloom_bits_per_key: Some(0), ..request() };
    assert_eq!(message(bloom.into_config()), "bloom_bits_per_key must be > 0");
    let interval = ConfigRequest { compaction_interval_ms: Some(0), ..request() };
    assert_eq!(message(interval.into_config()), "compaction_interval_ms must be > 0");
}

#[test]
fn feed_gives_every_document_and_then_is_done() {
    let db = users();
    let mut feed = CursorFeed::open(&db, "users", None, &None, "prev").unwrap();
    let mut seen = vec![];
    while let Some(item) = feed.next() {
        if item.done {
            assert_eq!(item.key, JsonValue::Null);
            assert_eq!(item.value, JsonValue::Null);
            seen.push("done".to_string());
        } else {
            assert_eq!(item.primary_key, None);
            assert_eq!(item.key, at(&item.value, "id"));
            seen.push(format!("{:?}", item.key == val("u3")));
        }
    }
    assert_eq!(seen, vec!["true", "false", "false", "done"]);
    assert!(feed.next().is_none());
}

#[test]
fn feed_over_an_index_gives_both_keys() {
    let db = users();
    let mut feed =
        CursorFeed::open(&db, "users", Some("by_age"), &Some(j(r#"{"lower": 25}"#)), "next").unwrap();
    let first = feed.next().unwrap();
    assert_eq!(first.key, val(30i64));
    assert_eq!(first.primary_key, Some(val("u1")));
    let second = feed.next().unwrap();
    assert_eq!(second.primary_key, Some(val("u3")));
    assert!(feed.next().unwrap().done);
    assert!(feed.next().is_none());
}

#[test]
fn refused_item_ends_the_feed() {
    let db = users();
    let mut feed = CursorFeed::open(&db, "users", None, &None, "next").unwrap();
    assert!(!feed.next().unwrap().done);
    feed.refused();
    assert!(feed.next().unwrap().done);
    assert!(feed.next().is_none());
    feed.refused();
    assert!(feed.next().is_none());
}

#[test]
fn feed_refuses_what_cannot_be_walked() {
    let db = users();
    assert!(CursorFeed::open(&db, "users", None, &None, "sideways").is_err());
    assert!(CursorFeed::open(&db, "nobody", None, &None, "next").is_err());
    assert!(CursorFeed::open(&db, "users", Some("by_name"), &None, "next").is_err());
    assert!(CursorFeed::open(&db, "users", None, &Some(j("1")), "next").is_err());
}

#[test]
fn last_pending_operation_decides() {
    let ops = vec![
        TxOp::Put { store: "users".to_string(), value: j(r#"{"id": "a", "n": 1}"#) },
        TxOp::Put { store: "users".to_string(), value: j(r#"{"id": "a", "n": 2}"#) },
        TxOp::Put { store: "other".to_string(), value: j(r#"{"id": "a", "n": 3}"#) },
        TxOp::Delete { store: "users".to_string(), key: val("b") },
    ];
    let found = find_pending(&ops, "users", "id", &val("a")).unwrap().unwrap();
    assert_eq!(at(&found, "n"), val(2i64));
    assert_eq!(find_pending(&ops, "users", "id", &val("b")), Some(None));
    assert_eq!(find_pending(&ops, "users", "id", &val("c")), None);
}

#[test]
fn collected_transaction_reads_its_writes_and_the_snapshot() {
    let mut db = users();
    let mut tx = db.transaction(&["users"], TransactionMode::ReadWrite).unwrap();
    db.put("users", j(r#"{"id": "u1", "age": 99}"#)).unwrap();
    let ops = vec![TxOp::Put { store: "users".to_string(), value: j(r#"{"id": "u2", "age": 1}"#) }];

    let own = tx_get(&db, &mut tx, &ops, "users", &val("u2")).unwrap().unwrap();
    assert_eq!(at(&own, "age"), val(1i64));
    let old = tx_get(&db, &mut tx, &ops, "users", &val("u1")).unwrap().unwrap();
    assert_eq!(at(&old, "age"), val(30i64));

    assert!(commit_ops(&mut db, tx, ops).is_err());
    let kept = db.get("users", &val("u2")).unwrap().unwrap();
    assert_eq!(at(&kept, "age"), val(20i64));
}

#[test]
fn collected_transaction_is_committed() {
    let mut db = users();
    let tx = db.transaction(&["users"], TransactionMode::ReadWrite).unwrap();
    let ops = vec![
        TxOp::Put { store: "users".to_string(), value: j(r#"{"id": "u4", "age": 1}"#) },
        TxOp::Delete { store: "users".to_string(), key: val("u1") },
    ];
    commit_ops(&mut db, tx, ops).unwrap();
    assert_eq!(db.count("users").unwrap(), 3);
    assert!(db.get("users", &val("u1")).unwrap().is_none());
    assert_eq!(db.get_by_index("users", "by_age", &val(1i64)).unwrap().len(), 1);
}

#[test]
fn failed_operation_commits_nothing() {
    let mut db = users();
    let tx = db.transaction(&["users"], TransactionMode::ReadWrite).unwrap();
    let ops = vec![
        TxOp::Put { store: "users".to_string(), value: j(r#"{"id": "u4", "age": 1}"#) },
        TxOp::PutAuto { store: "users".to_string(), value: j(r#"{"age": 1}"#) },
    ];
    assert!(commit_ops(&mut db, tx, ops).is_err());
    assert_eq!(db.count("users").unwrap(), 3);
}
