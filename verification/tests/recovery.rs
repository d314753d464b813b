//! Starting from what was left on disk.

use flowdb::bloom::CURRENT_HASH_VERSION;
use flowdb::engine::{Engine, Recovered, SstFile};
use flowdb::jsondb::value::{decode_doc, extract_field};
use flowdb::jsondb::{JsonDB, JsonValue, KeyArg, TransactionMode};
use flowdb::manifest::{copy_infos, replay, ManifestEntry};
use flowdb::record::InternalRecord;
use flowdb::{Config, Record};

/// What a crash leaves behind.
struct Disk {
    entries: Vec<ManifestEntry>,
    ssts: Vec<SstFile>,
    wal: Vec<InternalRecord>,
}

fn disk() -> Disk {
    Disk {
        entries: vec![],
        ssts: vec![],
        wal: vec![],
    }
}

/// Writes down what the engine has taken in.
fn log(engine: &mut Engine, disk: &mut Disk) {
    disk.wal.extend(engine.take_unlogged());
}

/// Flushes all memtables to the disk and cuts the log.
fn flush(engine: &mut Engine, disk: &mut Disk) {
    log(engine, disk);
    while let Some(job) = engine.begin_flush().unwrap() {
        disk.ssts.push(SstFile {
            id: job.sst.info.id,
            data: job.sst.data.clone(),
        });
        disk.entries.push(ManifestEntry::Flush {
            seq: job.seq,
            sst: job.sst.info.copy(),
            blocks: copy_infos(&job.sst.blocks),
        });
        let seq = job.seq;
        engine.finish_flush(job);
        disk.wal.retain(|r| r.seq > seq);
    }
}

/// Starts an engine from what is on the disk.
fn reopen(config: Config, disk: Disk) -> (Engine, Vec<ManifestEntry>) {
    let lines = disk.entries.into_iter().map(Ok).collect();
    let manifest = replay(&lines, "MANIFEST").unwrap();
    Engine::recover(
        config,
        Recovered {
            manifest,
            ssts: disk.ssts,
            wal: disk.wal,
        },
    )
    .unwrap()
}

fn make_record(key: &str, ts: i64) -> Record {
    Record {
        key: key.as_bytes().to_vec(),
        ts,
        expire_at: i64::MAX,
        value: vec![1, 2, 3],
    }
}

fn j(text: &str) -> JsonValue {
    decode_doc(text.as_bytes()).unwrap()
}

fn at(doc: &JsonValue, field: &str) -> JsonValue {
    extract_field(doc, field).unwrap_or(JsonValue::Null)
}

#[test]
fn test_engine_recovery() {
    let mut d = disk();
    let mut engine = Engine::open(Config::default()).unwrap();
    engine
        .write_batch(&[make_record("a", 100), make_record("b", 200)])
        .unwrap();
    log(&mut engine, &mut d);

    let (engine, _) = reopen(Config::default(), d);
    let results = engine.query_by_prefix("a").unwrap();
    assert_eq!(results.len(), 1);
    assert_eq!(results[0].key, b"a");

    let results = engine.query_by_prefix("b").unwrap();
    assert_eq!(results.len(), 1);
}

#[test]
fn test_recovery_after_flush_no_data_loss() {
    let mut d = disk();
    let mut engine = Engine::open(Config::default()).unwrap();

    // First batch — will be flushed
    engine.write_batch(&[make_record("flushed", 100)]).unwrap();
    flush(&mut engine, &mut d);

    // Second batch — stays in memtable + WAL
    engine
        .write_batch(&[make_record("post-flush", 200)])
        .unwrap();
    log(&mut engine, &mut d);
    assert_eq!(d.wal.len(), 1);

    // Reopen — must find BOTH the flushed record and the post-flush record.
    let (engine, _) = reopen(Config::default(), d);
    let r1 = engine.get("flushed", 100).unwrap();
    assert!(r1.is_some(), "flushed record must survive restart");
    let r2 = engine.get("post-flush", 200).unwrap();
    assert!(r2.is_some(), "post-flush record must survive restart");
}

#[test]
fn test_bloom_rebuild_on_open_after_hash_upgrade() {
    let mut d = disk();
    let mut engine = Engine::open(Config::default()).unwrap();

    let records: Vec<Record> = (0..200)
        .map(|i| Record {
            key: format!("bloom_key_{:04}", i).into_bytes(),
            ts: i as i64,
            expire_at: i64::MAX,
            value: vec![1, 2, 3],
        })
        .collect();
    engine.write_batch(&records).unwrap();
    flush(&mut engine, &mut d);

    // Every bloom is of an older hasher.
    for e in d.entries.iter_mut() {
        if let ManifestEntry::Flush { sst, .. } = e {
            if let Some(b) = &mut sst.bloom {
                b.hash_version = 0;
            }
        }
    }

    let (engine2, updates) = reopen(Config::default(), d);

    // The newly rebuilt bloom must still recognise the inserted keys.
    for i in 0..200 {
        let key = format!("bloom_key_{:04}", i);
        let rec = engine2.get(&key, i as i64).unwrap();
        assert!(
            rec.is_some(),
            "key {} missing after bloom rebuild — false negative",
            key
        );
    }

    // A key that was never inserted should not appear (sanity).
    let absent = engine2.get("bloom_key_9999", 0).unwrap();
    assert!(absent.is_none());

    // The rebuilt bloom is to be made durable, with the current version.
    assert_eq!(updates.len(), 1);
    match &updates[0] {
        ManifestEntry::UpdateBloom { bloom, .. } => {
            assert_eq!(bloom.hash_version, CURRENT_HASH_VERSION)
        }
        _ => panic!("expected a bloom update"),
    }
}

#[test]
fn test_bloom_remains_valid_across_clean_restart() {
    let records: Vec<Record> = (0..50)
        .map(|i| Record {
            key: format!("restart_key_{:03}", i).into_bytes(),
            ts: i as i64,
            expire_at: i64::MAX,
            value: vec![9],
        })
        .collect();
    let mut d = disk();
    let mut engine = Engine::open(Config::default()).unwrap();
    engine.write_batch(&records).unwrap();
    flush(&mut engine, &mut d);

    let (engine, updates) = reopen(Config::default(), d);
    assert!(updates.is_empty());
    for rec in records.iter() {
        let got = engine
            .get(&String::from_utf8_lossy(&rec.key), rec.ts)
            .unwrap();
        assert!(
            got.is_some(),
            "key {} vanished after restart (bloom false negative?)",
            String::from_utf8_lossy(&rec.key)
        );
    }
}

#[test]
fn test_engine_reopen_with_ssts() {
    let mut d = disk();
    let mut engine = Engine::open(Config::default()).unwrap();
    engine.write_batch(&[make_record("persisted", 1)]).unwrap();
    flush(&mut engine, &mut d);
    assert!(d.wal.is_empty());

    let (engine, _) = reopen(Config::default(), d);
    let r = engine.get("persisted", 1).unwrap();
    assert!(r.is_some(), "record should survive reopen");
}

#[test]
fn test_single_file_engine_recovery() {
    let mut d = disk();
    let mut engine = Engine::open(Config::default()).unwrap();
    engine
        .write_batch(&[make_record("persist_a", 100), make_record("persist_b", 200)])
        .unwrap();
    flush(&mut engine, &mut d);

    let (engine, _) = reopen(Config::default(), d);
    let results = engine.query_by_prefix("persist_").unwrap();
    assert_eq!(results.len(), 2);
    assert_eq!(results[0].key, b"persist_a");
    assert_eq!(results[1].key, b"persist_b");
}

#[test]
fn test_reopen_persists_data() {
    let mut d = disk();
    let mut db = JsonDB::open(Config::default()).unwrap();
    db.create_object_store("users", "id").unwrap();
    db.create_index("users", "by_email", &["email"], true, false)
        .unwrap();
    db.put("users", j(r#"{"id": "u1", "email": "a@b.com"}"#))
        .unwrap();
    flush(db.engine_mut(), &mut d);

    let (engine, _) = reopen(Config::default(), d);
    let db = JsonDB::from_engine(engine).unwrap();
    assert!(db.get_store("users").is_some());

    let doc = db.get("users", &j(r#""u1""#)).unwrap().unwrap();
    assert_eq!(at(&doc, "email"), "a@b.com".into_value());

    let docs = db
        .get_by_index("users", "by_email", &j(r#""a@b.com""#))
        .unwrap();
    assert_eq!(docs.len(), 1);
}

#[test]
fn test_from_engine_with_existing_data() {
    let mut d = disk();
    let mut db = JsonDB::open(Config::default()).unwrap();
    db.create_object_store("users", "id").unwrap();
    db.put("users", j(r#"{"id": "u1"}"#)).unwrap();
    log(db.engine_mut(), &mut d);

    let (engine, _) = reopen(Config::default(), d);
    let db = JsonDB::from_engine(engine).unwrap();
    assert!(db.get_store("users").is_some());
    assert_eq!(db.count("users").unwrap(), 1);
}

#[test]
fn test_reopen_with_indexes() {
    let mut d = disk();
    let mut db = JsonDB::open(Config::default()).unwrap();
    db.create_object_store("users", "id").unwrap();
    db.create_index("users", "by_name", &["name"], false, false)
        .unwrap();
    db.put("users", j(r#"{"id": "u1", "name": "Alice"}"#))
        .unwrap();
    flush(db.engine_mut(), &mut d);

    let (engine, _) = reopen(Config::default(), d);
    let db = JsonDB::from_engine(engine).unwrap();
    let docs = db
        .get_by_index("users", "by_name", &j(r#""Alice""#))
        .unwrap();
    assert_eq!(docs.len(), 1);
}

#[test]
fn test_durability_shutdown_reopen() {
    let mut d = disk();
    let mut db = JsonDB::open(Config::default()).unwrap();
    db.create_object_store("store", "id").unwrap();
    db.create_index("store", "by_val", &["val"], true, false)
        .unwrap();
    for i in 0u64..20 {
        db.put(
            "store",
            j(&format!(r#"{{"id": {}, "val": "v{}"}}"#, i, i)),
        )
        .unwrap();
    }
    flush(db.engine_mut(), &mut d);

    // Reopen — all 20 docs and their index entries must be present.
    let (engine, _) = reopen(Config::default(), d);
    let db = JsonDB::from_engine(engine).unwrap();
    assert_eq!(db.count("store").unwrap(), 20);
    for i in 0u64..20 {
        let doc = db.get("store", &i.into_value()).unwrap();
        assert!(doc.is_some(), "doc {} missing after reopen", i);
    }
    let docs = db.get_by_index("store", "by_val", &j(r#""v5""#)).unwrap();
    assert_eq!(docs.len(), 1);
    assert_eq!(at(&docs[0], "id"), 5u64.into_value());
}

#[test]
fn test_durability_survives_shutdown_reopen() {
    let mut d = disk();
    let mut db = JsonDB::open(Config::default()).unwrap();
    db.create_object_store("kv", "id").unwrap();
    db.put("kv", j(r#"{"id": "k1", "v": 42}"#)).unwrap();
    log(db.engine_mut(), &mut d);

    // Reopen — data must survive.
    let (engine, _) = reopen(Config::default(), d);
    let db = JsonDB::from_engine(engine).unwrap();
    let doc = db.get("kv", &j(r#""k1""#)).unwrap().unwrap();
    assert_eq!(at(&doc, "v"), 42.into_value());
}

#[test]
fn test_durability_batch_atomicity_on_replay() {
    // Multiple records in a batch should all survive or none.
    let mut d = disk();
    let mut db = JsonDB::open(Config::default()).unwrap();
    db.create_object_store("kv", "id").unwrap();

    let mut tx = db
        .transaction(&["kv"], TransactionMode::ReadWrite)
        .unwrap();
    tx.put(&db, "kv", j(r#"{"id": "a", "v": 1}"#)).unwrap();
    tx.put(&db, "kv", j(r#"{"id": "b", "v": 2}"#)).unwrap();
    tx.put(&db, "kv", j(r#"{"id": "c", "v": 3}"#)).unwrap();
    tx.commit(&mut db).unwrap();
    log(db.engine_mut(), &mut d);

    let (engine, _) = reopen(Config::default(), d);
    let db = JsonDB::from_engine(engine).unwrap();
    assert_eq!(db.count("kv").unwrap(), 3);
    for (k, v) in [("a", 1), ("b", 2), ("c", 3)] {
        let doc = db.get("kv", &k.into_value()).unwrap().unwrap();
        assert_eq!(at(&doc, "v"), v.into_value());
    }
}

#[test]
fn test_json_db_shutdown_close() {
    let mut db = JsonDB::open(Config::default()).unwrap();
    db.close().unwrap();
    // After close the engine is flushed but still usable
    assert!(db.store_names().is_empty());
}

/// Numbers go on behind those that were used before.
#[test]
fn sequence_numbers_go_on() {
    let mut d = disk();
    let mut engine = Engine::open(Config::default()).unwrap();
    assert_eq!(engine.last_seq(), 999_999);
    engine.write_batch(&[make_record("a", 1)]).unwrap();
    assert_eq!(engine.last_seq(), 1_000_000);
    log(&mut engine, &mut d);
    let (engine, _) = reopen(Config::default(), d);
    assert_eq!(engine.last_seq(), 1_000_000);
    let mut d = disk();
    let mut engine = engine;
    engine.write_batch(&[make_record("b", 1)]).unwrap();
    flush(&mut engine, &mut d);
    let (engine, _) = reopen(Config::default(), d);
    assert_eq!(engine.last_seq(), 1_999_999);
}
