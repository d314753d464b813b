//! Definitions of stores and indexes.

use flowdb::jsondb::encoding::schema_key;
use flowdb::jsondb::schema::{
    load_schemas, schema_delete_record, schema_record, validate_index_def, validate_store_def,
    IndexDef, Schema, StoreDef,
};
use flowdb::jsondb::value::{decode_doc, encode_doc};
use flowdb::record::{Op, Record};

fn def_with(index: &str) -> StoreDef {
    StoreDef {
        name: "users".into(),
        key_path: "id".into(),
        auto_increment: false,
        indexes: vec![IndexDef {
            name: index.into(),
            key_paths: vec!["f".into()],
            unique: true,
            multi_entry: false,
        }],
        next_auto_id: 0,
    }
}

#[test]
fn test_schema_basic() {
    let mut schema = Schema::new();
    let def = StoreDef {
        name: "users".into(),
        key_path: "id".into(),
        auto_increment: false,
        indexes: vec![IndexDef {
            name: "by_email".into(),
            key_paths: vec!["email".into()],
            unique: true,
            multi_entry: false,
        }],
        next_auto_id: 0,
    };
    schema.insert(def.copy());
    assert_eq!(schema.get("users").unwrap().name, "users");
    assert_eq!(schema.list().len(), 1);
    schema.remove("users");
    assert!(schema.get("users").is_none());
}

#[test]
fn test_validate_store_def() {
    assert!(validate_store_def("users", "id").is_ok());
    assert!(validate_store_def("", "id").is_err());
    assert!(validate_store_def("users", "").is_err());
    assert!(validate_store_def("has space", "id").is_err());
}

#[test]
fn test_validate_index_def_cases() {
    let store = def_with("existing");
    assert!(validate_index_def(&store, "", &["f"]).is_err());
    assert!(validate_index_def(&store, "new", &[""]).is_err());
    assert!(validate_index_def(&store, "existing", &["f"]).is_err());
    assert!(validate_index_def(&store, "new", &["f"]).is_ok());
    assert!(validate_index_def(&store, "new", &["a", "b"]).is_ok());
}

#[test]
fn test_validate_index_def_edge_cases() {
    let def = StoreDef {
        name: "users".into(),
        key_path: "id".into(),
        auto_increment: false,
        indexes: vec![IndexDef {
            name: "existing".into(),
            key_paths: vec!["f".into()],
            unique: false,
            multi_entry: false,
        }],
        next_auto_id: 0,
    };
    assert!(validate_index_def(&def, "", &["f"]).is_err());
    assert!(validate_index_def(&def, "existing", &["f"]).is_err());
    assert!(validate_index_def(&def, "new", &[""]).is_err());
}

#[test]
fn test_schema_record_roundtrip() {
    let def = StoreDef {
        name: "t".into(),
        key_path: "id".into(),
        auto_increment: true,
        indexes: vec![],
        next_auto_id: 100,
    };
    let rec = schema_record(&def).unwrap();
    let decoded = StoreDef::from_json(&decode_doc(&rec.value).unwrap()).unwrap();
    assert_eq!(decoded.name, "t");
    assert_eq!(decoded.next_auto_id, 100);
    assert!(decoded.auto_increment);
}

#[test]
fn test_schema_delete_record_roundtrip() {
    let rec = schema_delete_record("test_store");
    assert_eq!(rec.key, schema_key("test_store"));
    assert_eq!(rec.op, Op::Delete);
}

#[test]
fn test_schema_list_empty() {
    let schema = Schema::new();
    assert!(schema.list().is_empty());
    assert!(schema.get("x").is_none());
}

#[test]
fn test_schema_default() {
    let schema: Schema = Default::default();
    assert!(schema.list().is_empty());
}

fn index_from(text: &str) -> Result<IndexDef, flowdb::FlowError> {
    IndexDef::from_json(&decode_doc(text.as_bytes()).unwrap())
}

#[test]
fn test_index_def_deserialize_old_key_path_string() {
    let json = r#"{"name":"by_email","key_path":"email","unique":true,"multi_entry":false}"#;
    let idx = index_from(json).unwrap();
    assert_eq!(idx.key_paths, vec!["email"]);
    assert!(idx.unique);
}

#[test]
fn test_index_def_deserialize_old_key_path_array() {
    let json = r#"{"name":"by_city_age","key_path":["city","age"],"unique":false,"multi_entry":false}"#;
    let idx = index_from(json).unwrap();
    assert_eq!(idx.key_paths, vec!["city", "age"]);
}

#[test]
fn test_index_def_deserialize_new_key_paths_array() {
    let json = r#"{"name":"by_city_age","key_paths":["city","age"],"unique":false,"multi_entry":false}"#;
    let idx = index_from(json).unwrap();
    assert_eq!(idx.key_paths, vec!["city", "age"]);
}

#[test]
fn test_index_def_deserialize_empty_key_paths_rejected() {
    let json = r#"{"name":"bad","key_paths":[],"unique":false,"multi_entry":false}"#;
    assert!(index_from(json).is_err());
}

#[test]
fn test_index_def_serialize_new_format() {
    let idx = IndexDef {
        name: "by_city_age".into(),
        key_paths: vec!["city".into(), "age".into()],
        unique: false,
        multi_entry: false,
    };
    let json = String::from_utf8(encode_doc(&idx.to_json()).unwrap()).unwrap();
    assert!(json.contains(r#""key_paths""#));
    assert!(json.contains(r#""city""#));
    assert!(json.contains(r#""age""#));
}

/// Stored definitions are found again, in the order of their records.
#[test]
fn definitions_load_from_records() {
    let records: Vec<Record> = ["b", "a"]
        .iter()
        .map(|n| schema_record(&StoreDef::new(n, "id").with_index("i", &["x"], true)).unwrap())
        .collect();
    let schema = load_schemas(&records).unwrap();
    assert_eq!(schema.list().len(), 2);
    let def = schema.get("a").unwrap();
    assert_eq!(def.indexes.len(), 1);
    assert!(def.indexes[0].unique);
    assert_eq!(def.indexes[0].key_paths, vec!["x"]);
}
