//! What the document layer promises, whatever happened before.

use flowdb::jsondb::value::{decode_doc, extract_field};
use flowdb::jsondb::{
    CursorDirection, JsonDB, JsonValue, KeyArg, KeyRange, SortDir, StoreSchema, TransactionMode,
};
use flowdb::{Config, FlowError};

fn j(text: &str) -> JsonValue {
    decode_doc(text.as_bytes()).unwrap()
}

fn at(doc: &JsonValue, field: &str) -> JsonValue {
    extract_field(doc, field).unwrap_or(JsonValue::Null)
}

fn val<K: KeyArg>(k: K) -> JsonValue {
    k.into_value()
}

fn ids(docs: &[JsonValue]) -> Vec<JsonValue> {
    docs.iter().map(|d| at(d, "id")).collect()
}

fn texts(keys: &[&str]) -> Vec<JsonValue> {
    keys.iter().map(|k| val(*k)).collect()
}

fn message<T>(r: Result<T, FlowError>) -> String {
    match r {
        Ok(_) => panic!("expected an error"),
        Err(e) => e.message(),
    }
}

fn users() -> JsonDB {
    let mut db = JsonDB::open(Config::default()).unwrap();
    db.create_object_store("users", "id").unwrap();
    db.create_index_on("users", "by_email", "email", true).unwrap();
    db.create_index_on("users", "by_age", "age", false).unwrap();
    db.put("users", j(r#"{"id": "a", "email": "a@x", "age": 30}"#)).unwrap();
    db.put("users", j(r#"{"id": "b", "email": "b@x", "age": 20}"#)).unwrap();
    db.put("users", j(r#"{"id": "c", "email": "c@x", "age": 30}"#)).unwrap();
    db
}

#[test]
fn put_is_read_back_and_leaves_others() {
    let mut db = users();
    let doc = j(r#"{"id": "a", "email": "new@x", "age": 1}"#);
    assert_eq!(db.put("users", doc.copy()).unwrap(), val("a"));
    assert_eq!(db.get("users", &val("a")).unwrap(), Some(doc));
    let b = db.get("users", &val("b")).unwrap().unwrap();
    assert_eq!(at(&b, "email"), val("b@x"));
}

#[test]
fn deleted_document_is_gone_and_leaves_others() {
    let mut db = users();
    db.delete("users", &val("a")).unwrap();
    assert_eq!(db.get("users", &val("a")).unwrap(), None);
    assert_eq!(db.get_by_index("users", "by_email", &val("a@x")).unwrap(), vec![]);
    assert_eq!(ids(&db.scan("users").unwrap()), texts(&["b", "c"]));
}

#[test]
fn add_refuses_only_a_key_that_is_there() {
    let mut db = users();
    assert_eq!(
        message(db.add("users", j(r#"{"id": "a", "email": "z@x"}"#))),
        "a record with key 'String(\"a\")' already exists in store 'users'"
    );
    assert_eq!(db.add("users", j(r#"{"id": "d", "email": "d@x"}"#)).unwrap(), val("d"));
    assert_eq!(db.count("users").unwrap(), 4);
}

#[test]
fn ids_rise_by_one_whatever_else_is_written() {
    let mut db = users();
    db.apply_store(&StoreSchema::new("notes", "id").with_auto_increment()).unwrap();
    assert_eq!(db.put_auto("notes", j("{}")).unwrap(), val(1i64));
    db.put("users", j(r#"{"id": "z", "email": "z@x"}"#)).unwrap();
    db.delete("notes", &val(1i64)).unwrap();
    assert_eq!(db.put_auto("notes", j("{}")).unwrap(), val(2i64));
}

#[test]
fn unique_value_is_refused_and_nothing_changes() {
    let mut db = users();
    assert_eq!(
        message(db.put("users", j(r#"{"id": "d", "email": "a@x"}"#))),
        "unique constraint violation: index 'by_email' value '[String(\"a@x\")]' already exists"
    );
    assert_eq!(db.get("users", &val("d")).unwrap(), None);
    db.put("users", j(r#"{"id": "a", "email": "a@x", "age": 31}"#)).unwrap();
}

#[test]
fn index_lookup_finds_exactly_the_documents_with_the_value() {
    let mut db = users();
    let found = db.get_by_index("users", "by_age", &val(30i64)).unwrap();
    assert_eq!(ids(&found), texts(&["a", "c"]));
    db.put("users", j(r#"{"id": "c", "email": "c@x", "age": 20}"#)).unwrap();
    let found = db.get_by_index("users", "by_age", &val(30i64)).unwrap();
    assert_eq!(ids(&found), texts(&["a"]));
    let found = db.get_by_index("users", "by_age", &val(20i64)).unwrap();
    assert_eq!(ids(&found), texts(&["b", "c"]));
}

#[test]
fn new_index_covers_what_was_there() {
    let mut db = users();
    db.put("users", j(r#"{"id": "d", "email": "d@x", "tags": ["x", "y"]}"#)).unwrap();
    db.create_index("users", "by_tag", &["tags"], false, true).unwrap();
    assert_eq!(ids(&db.get_by_index("users", "by_tag", &val("y")).unwrap()), texts(&["d"]));
    db.delete_index("users", "by_tag").unwrap();
    assert!(db.get_by_index("users", "by_tag", &val("y")).is_err());
    assert_eq!(db.count("users").unwrap(), 4);
}

#[test]
fn cleared_store_is_empty_and_its_indexes_too() {
    let mut db = users();
    assert!(db.clear("users").unwrap() >= 3);
    assert_eq!(db.count("users").unwrap(), 0);
    assert_eq!(db.get_by_index("users", "by_age", &val(30i64)).unwrap(), vec![]);
    db.put("users", j(r#"{"id": "d", "email": "a@x", "age": 30}"#)).unwrap();
    assert_eq!(ids(&db.get_by_index("users", "by_age", &val(30i64)).unwrap()), texts(&["d"]));
}

#[test]
fn deleted_store_leaves_nothing_for_its_successor() {
    let mut db = users();
    db.delete_object_store("users").unwrap();
    assert!(db.get("users", &val("a")).is_err());
    db.create_object_store("users", "id").unwrap();
    assert_eq!(db.count("users").unwrap(), 0);
}

#[test]
fn definitions_survive_reopening() {
    let mut db = users();
    db.apply_store(&StoreSchema::new("notes", "n.id").with_auto_increment()).unwrap();
    let mut engine = flowdb::Engine::open(Config::default()).unwrap();
    let log = db.engine_mut().take_unlogged();
    engine.write_internal(log).unwrap();
    let again = JsonDB::from_engine(engine).unwrap();
    let mut names = again.store_names();
    names.sort();
    assert_eq!(names, vec!["notes", "users"]);
    let notes = again.get_store("notes").unwrap();
    assert_eq!(notes.key_path, "n.id");
    assert!(notes.auto_increment);
    let stored = again.get_store("users").unwrap();
    assert_eq!(stored.indexes.len(), 2);
    assert_eq!(ids(&again.scan("users").unwrap()), texts(&["a", "b", "c"]));
}

#[test]
fn definitions_are_applied_as_differences() {
    let mut db = users();
    let def = StoreSchema::new("users", "id")
        .with_index("by_email", &["email"], true)
        .with_index("by_name", &["name"], false);
    db.apply_store(&def).unwrap();
    let names: Vec<String> =
        db.get_store("users").unwrap().indexes.into_iter().map(|i| i.name).collect();
    assert!(names.contains(&"by_email".to_string()));
    assert!(names.contains(&"by_name".to_string()));
    assert_eq!(db.count("users").unwrap(), 3);

    let other = StoreSchema::new("users", "id").with_index("by_email", &["mail", "x"], false);
    assert_eq!(
        message(db.apply_store(&other)),
        "index 'by_email' on store 'users' already exists with different definition \
         (key_paths=[\"email\"], unique=true) vs requested \
         (key_paths=[\"mail\", \"x\"], unique=false)"
    );
}

#[test]
fn ranges_are_exact() {
    let db = users();
    let range = KeyRange::bound(val("a"), val("c"), true, false);
    assert_eq!(ids(&db.get_all("users", Some(&range), None).unwrap()), texts(&["b", "c"]));
    assert_eq!(db.count_with_query("users", Some(&range)).unwrap(), 2);
    let found = db.range_by_index("users", "by_age", &val(20i64), &val(30i64)).unwrap();
    assert_eq!(ids(&found), texts(&["b"]));
    assert_eq!(db.get_all("users", None, Some(0)).unwrap(), vec![]);
}

#[test]
fn cursor_backwards_is_the_opposite_order() {
    let db = users();
    let walk = |dir: CursorDirection| -> Vec<JsonValue> {
        let mut cursor = db.open_cursor("users", None, dir).unwrap();
        let mut out = vec![];
        while let Some((key, _)) = cursor.next_value() {
            out.push(key);
        }
        out
    };
    assert_eq!(walk(CursorDirection::Next), texts(&["a", "b", "c"]));
    assert_eq!(walk(CursorDirection::Prev), texts(&["c", "b", "a"]));
}

#[test]
fn unique_cursor_gives_every_key_once() {
    let db = users();
    let mut cursor =
        db.open_cursor_on_index("users", "by_age", None, CursorDirection::NextUnique).unwrap();
    assert_eq!(cursor.next_value().unwrap().0, val(20i64));
    assert_eq!(cursor.next_value().unwrap().0, val(30i64));
    assert!(cursor.next_value().is_none());
}

#[test]
fn query_finds_every_match_sorts_and_cuts() {
    let db = users();
    let found = db.query("users").where_eq("age", val(30i64)).collect().unwrap();
    assert_eq!(ids(&found), texts(&["a", "c"]));
    let all = db.query("users").order_by("age", SortDir::Desc).collect().unwrap();
    let ages: Vec<JsonValue> = all.iter().map(|d| at(d, "age")).collect();
    assert_eq!(ages, vec![val(30i64), val(30i64), val(20i64)]);
    let cut = db.query("users").order_by("id", SortDir::Asc).offset(1).limit(1).collect().unwrap();
    assert_eq!(ids(&cut), texts(&["b"]));
    let some = db.query("users").where_in("id", vec![val("c"), val("z")]).collect().unwrap();
    assert_eq!(ids(&some), texts(&["c"]));
}

#[test]
fn transaction_reads_its_own_writes() {
    let db = users();
    let mut tx = db.transaction(&["users"], TransactionMode::ReadWrite).unwrap();
    tx.put(&db, "users", j(r#"{"id": "a", "email": "q@x"}"#)).unwrap();
    tx.delete(&db, "users", &val("b")).unwrap();
    let own = tx.get(&db, "users", &val("a")).unwrap().unwrap();
    assert_eq!(at(&own, "email"), val("q@x"));
    assert_eq!(tx.get(&db, "users", &val("b")).unwrap(), None);
    assert!(tx.get(&db, "users", &val("c")).unwrap().is_some());
    assert!(db.get("users", &val("b")).unwrap().is_some());
}

#[test]
fn transaction_reads_are_repeatable() {
    let mut db = users();
    let mut tx = db.transaction(&["users"], TransactionMode::ReadOnly).unwrap();
    let before = tx.get(&db, "users", &val("a")).unwrap();
    db.put("users", j(r#"{"id": "a", "email": "later@x"}"#)).unwrap();
    assert_eq!(tx.get(&db, "users", &val("a")).unwrap(), before);
}

#[test]
fn conflicting_transaction_is_refused_and_changes_nothing() {
    let mut db = users();
    let mut tx = db.transaction(&["users"], TransactionMode::ReadWrite).unwrap();
    tx.get(&db, "users", &val("a")).unwrap();
    tx.put(&db, "users", j(r#"{"id": "n", "email": "n@x"}"#)).unwrap();
    db.put("users", j(r#"{"id": "a", "email": "later@x"}"#)).unwrap();
    assert!(message(tx.commit(&mut db)).starts_with("transaction conflict"));
    assert_eq!(db.get("users", &val("n")).unwrap(), None);
}

#[test]
fn read_only_transaction_refuses_writes_and_commits() {
    let mut db = users();
    let mut tx = db.transaction(&["users"], TransactionMode::ReadOnly).unwrap();
    assert!(tx.put(&db, "users", j(r#"{"id": "n"}"#)).is_err());
    assert!(tx.delete(&db, "users", &val("a")).is_err());
    tx.get(&db, "users", &val("a")).unwrap();
    tx.commit(&mut db).unwrap();
    assert_eq!(db.count("users").unwrap(), 3);
}

#[test]
fn commit_takes_effect_as_a_whole() {
    let mut db = users();
    let mut tx = db.transaction(&["users"], TransactionMode::ReadWrite).unwrap();
    tx.put(&db, "users", j(r#"{"id": "n", "email": "n@x", "age": 5}"#)).unwrap();
    tx.put(&db, "users", j(r#"{"id": "n", "email": "n@x", "age": 6}"#)).unwrap();
    tx.delete(&db, "users", &val("a")).unwrap();
    tx.commit(&mut db).unwrap();
    assert_eq!(ids(&db.scan("users").unwrap()), texts(&["b", "c", "n"]));
    assert_eq!(ids(&db.get_by_index("users", "by_age", &val(6i64)).unwrap()), texts(&["n"]));
    assert_eq!(db.get_by_index("users", "by_age", &val(5i64)).unwrap(), vec![]);
}

#[test]
fn commit_keeps_unique_values_unique() {
    let mut db = users();
    let mut tx = db.transaction(&["users"], TransactionMode::ReadWrite).unwrap();
    tx.put(&db, "users", j(r#"{"id": "m", "email": "same@x"}"#)).unwrap();
    tx.put(&db, "users", j(r#"{"id": "n", "email": "same@x"}"#)).unwrap();
    assert_eq!(
        message(tx.commit(&mut db)),
        "unique constraint violation in transaction: \
         index 'by_email' value '[String(\"same@x\")]'"
    );
    assert_eq!(db.count("users").unwrap(), 3);
}

#[test]
fn composite_lookup_inside_a_transaction() {
    let mut db = users();
    db.create_index("users", "by_both", &["age", "email"], false, false).unwrap();
    let mut tx = db.transaction(&["users"], TransactionMode::ReadWrite).unwrap();
    tx.put(&db, "users", j(r#"{"id": "d", "email": "d@x", "age": 30}"#)).unwrap();
    let exact = tx.get_by_index(&db, "users", "by_both", &j(r#"[30, "d@x"]"#)).unwrap();
    assert_eq!(ids(&exact), texts(&["d"]));
    let by_age = tx.get_by_index(&db, "users", "by_age", &val(30i64)).unwrap();
    assert_eq!(by_age.len(), 3);
}

#[test]
fn unknown_names_are_refused() {
    let mut db = users();
    assert!(db.get("nobody", &val("a")).is_err());
    assert!(db.put("nobody", j(r#"{"id": 1}"#)).is_err());
    assert!(db.get_by_index("users", "by_nothing", &val(1i64)).is_err());
    assert!(db.put("users", j(r#"{"email": "no key"}"#)).is_err());
    assert!(db.create_object_store("bad name", "id").is_err());
    assert!(db.transaction(&["users", "nobody"], TransactionMode::ReadOnly).is_err());
}

/// Every document is found by the index under its age, and nothing else is.
fn check_sound(db: &JsonDB) {
    let docs = db.scan("users").unwrap();
    for age in 0..40i64 {
        let mut found = ids(&db.get_by_index("users", "by_age", &val(age)).unwrap());
        let mut want: Vec<JsonValue> = Vec::new();
        for doc in &docs {
            let key = at(doc, "id");
            assert_eq!(db.get("users", &key).unwrap().as_ref(), Some(doc));
            if at(doc, "age") == val(age) {
                want.push(key);
            }
        }
        found.sort_by_key(|k| format!("{:?}", k));
        want.sort_by_key(|k| format!("{:?}", k));
        assert_eq!(found, want);
    }
}

#[test]
fn database_stays_sound_whatever_is_done() {
    let mut db = users();
    check_sound(&db);
    for round in 0..4i64 {
        for k in 0..12i64 {
            let age = (k * 7 + round) % 40;
            let doc = format!(r#"{{"id": "k{}", "email": "{}@{}", "age": {}}}"#, k, k, round, age);
            db.put("users", j(&doc)).unwrap();
        }
        db.delete("users", &val(format!("k{}", round))).unwrap();
        let mut tx = db.transaction(&["users"], TransactionMode::ReadWrite).unwrap();
        tx.put(&db, "users", j(r#"{"id": "t", "email": "t@t", "age": 7}"#)).unwrap();
        tx.delete(&db, "users", &val("k9")).unwrap();
        tx.commit(&mut db).unwrap();
        check_sound(&db);
        db.engine_mut().flush().unwrap();
        check_sound(&db);
    }
    db.engine_mut().trigger_compaction().unwrap();
    check_sound(&db);

    db.delete_index("users", "by_age").unwrap();
    db.put("users", j(r#"{"id": "late", "email": "late@x", "age": 31}"#)).unwrap();
    db.create_index_on("users", "by_age", "age", false).unwrap();
    check_sound(&db);

    let mut tx = db.transaction(&["users"], TransactionMode::ReadWrite).unwrap();
    tx.clear(&db, "users").unwrap();
    tx.put(&db, "users", j(r#"{"id": "only", "email": "only@x", "age": 1}"#)).unwrap();
    tx.commit(&mut db).unwrap();
    check_sound(&db);
    assert_eq!(db.count("users").unwrap(), 1);
    db.clear("users").unwrap();
    check_sound(&db);
    assert_eq!(db.count("users").unwrap(), 0);
}
