//! What time, garbage collection and restarts leave as it is.

use flowdb::block_meta_index::{BlockMeta, BlockMetaIndex};
use flowdb::engine::{Engine, Recovered, SstFile};
use flowdb::jsondb::value::decode_doc;
use flowdb::jsondb::{CursorDirection, JsonDB, JsonValue, KeyArg, ObjectStore, StoreSchema};
use flowdb::manifest::{copy_infos, replay, BlockInfo, ManifestEntry};
use flowdb::record::{InternalRecord, ScanRange};
use flowdb::{Config, Record};

fn engine() -> Engine {
    let mut engine = Engine::open(Config { block_size: 2, ..Config::default() }).unwrap();
    engine.set_time(1_000);
    engine
}

fn rec(key: &str, value: &str, expire_at: i64) -> Record {
    let mut r = Record::new(key.as_bytes().to_vec(), 0, value.as_bytes().to_vec());
    r.expire_at = expire_at;
    r
}

fn scanned(engine: &Engine) -> Vec<(Vec<u8>, Vec<u8>)> {
    engine.scan_all(ScanRange::all()).into_iter().map(|r| (r.key, r.value)).collect()
}

fn pair(k: &str, v: &str) -> (Vec<u8>, Vec<u8>) {
    (k.as_bytes().to_vec(), v.as_bytes().to_vec())
}

#[test]
fn what_never_expires_is_read_at_every_time() {
    let mut e = engine();
    e.write_batch(&[rec("a", "1", i64::MAX), rec("b", "2", i64::MAX)]).unwrap();
    e.flush().unwrap();
    e.write_batch(&[rec("c", "3", i64::MAX)]).unwrap();
    let before = scanned(&e);
    assert_eq!(before, vec![pair("a", "1"), pair("b", "2"), pair("c", "3")]);
    e.set_time(i64::MAX);
    assert_eq!(scanned(&e), before);
    assert_eq!(e.get("b", 0).unwrap().unwrap().value, b"2");
}

#[test]
fn garbage_collection_drops_only_what_has_expired() {
    let mut e = engine();
    e.write_batch(&[rec("a", "1", 2_000), rec("b", "2", 3_000)]).unwrap();
    e.flush().unwrap();
    e.write_batch(&[rec("c", "3", 2_000), rec("d", "4", i64::MAX)]).unwrap();
    e.flush().unwrap();

    e.set_time(2_500);
    assert_eq!(e.trigger_gc().unwrap(), 0);
    assert_eq!(scanned(&e), vec![pair("b", "2"), pair("d", "4")]);

    e.set_time(3_500);
    let before = scanned(&e);
    assert_eq!(before, vec![pair("d", "4")]);
    assert_eq!(e.expired_ssts(), vec![1]);
    assert_eq!(e.trigger_gc().unwrap(), 1);
    assert_eq!(scanned(&e), before);
    assert_eq!(e.trigger_gc().unwrap(), 0);
}

/// What is on disk after a flush or a compaction.
struct Disk {
    entries: Vec<ManifestEntry>,
    ssts: Vec<SstFile>,
    wal: Vec<InternalRecord>,
}

fn flush(e: &mut Engine, d: &mut Disk) {
    d.wal.extend(e.take_unlogged());
    while let Some(job) = e.begin_flush().unwrap() {
        d.ssts.push(SstFile { id: job.sst.info.id, data: job.sst.data.clone() });
        d.entries.push(ManifestEntry::Flush {
            seq: job.seq,
            sst: job.sst.info.copy(),
            blocks: copy_infos(&job.sst.blocks),
        });
        let seq = job.seq;
        e.finish_flush(job);
        d.wal.retain(|r| r.seq > seq);
    }
}

fn compact(e: &mut Engine, d: &mut Disk) {
    let plan = e.plan_compaction().unwrap().unwrap();
    let added = plan.added.as_ref().unwrap();
    d.ssts.push(SstFile { id: added.info.id, data: added.data.clone() });
    d.entries.push(ManifestEntry::Compaction {
        removed: plan.removed.clone(),
        added: vec![added.info.copy()],
        blocks: vec![(added.info.id, copy_infos(&added.blocks))],
    });
    e.apply_compaction(plan);
}

fn restart(d: Disk) -> Engine {
    let manifest = replay(&d.entries.into_iter().map(Ok).collect(), "MANIFEST").unwrap();
    let disk = Recovered { manifest, ssts: d.ssts, wal: d.wal };
    let config = Config { block_size: 2, ..Config::default() };
    let (mut e, _) = Engine::recover(config, disk).unwrap();
    e.set_time(1_000);
    e
}

#[test]
fn restart_gives_back_flushed_compacted_and_logged_writes() {
    let mut e = engine();
    let mut d = Disk { entries: vec![], ssts: vec![], wal: vec![] };
    for round in 0..4 {
        let value = format!("{}", round);
        e.write_batch(&[rec("same", &value, i64::MAX)]).unwrap();
        e.write_batch(&[rec(&format!("k{}", round), &value, i64::MAX)]).unwrap();
        flush(&mut e, &mut d);
    }
    compact(&mut e, &mut d);
    e.write_batch(&[rec("k0", "changed", i64::MAX), rec("new", "5", i64::MAX)]).unwrap();
    e.delete_batch(&[("k1".to_string(), 0)]).unwrap();
    d.wal.extend(e.take_unlogged());

    let before = scanned(&e);
    assert_eq!(
        before,
        vec![
            pair("k0", "changed"),
            pair("k2", "2"),
            pair("k3", "3"),
            pair("new", "5"),
            pair("same", "3"),
        ]
    );
    let again = restart(d);
    assert_eq!(scanned(&again), before);
    assert_eq!(again.get("same", 0).unwrap().unwrap().value, b"3");
    assert!(again.get("k1", 0).unwrap().is_none());
    assert!(again.last_seq() >= e.last_seq());
}

#[test]
fn restart_after_garbage_collection_keeps_what_was_left() {
    let mut e = engine();
    let mut d = Disk { entries: vec![], ssts: vec![], wal: vec![] };
    e.write_batch(&[rec("a", "1", 2_000)]).unwrap();
    flush(&mut e, &mut d);
    e.write_batch(&[rec("b", "2", i64::MAX)]).unwrap();
    flush(&mut e, &mut d);
    e.set_time(2_000);
    for id in e.expired_ssts() {
        d.entries.push(ManifestEntry::GcDeleteSst { sst_id: id });
        e.drop_sst(id);
        d.ssts.retain(|f| f.id != id);
    }
    assert_eq!(d.ssts.len(), 1);
    assert_eq!(scanned(&restart(d)), vec![pair("b", "2")]);
}

fn block(idx: u32, from: &str, to: &str) -> BlockInfo {
    BlockInfo {
        block_idx: idx,
        min_key: from.as_bytes().to_vec(),
        max_key: to.as_bytes().to_vec(),
        min_ts: 0,
        max_ts: 10,
        min_expire: i64::MAX,
        max_expire: i64::MAX,
    }
}

#[test]
fn point_lookup_asks_the_newest_sst_first() {
    let mut index = BlockMetaIndex::new(3600);
    index.add_sst(1, &[block(0, "a", "c"), block(1, "d", "f")]);
    assert_eq!(index.bucket_count(), 1);
    assert_eq!(index.single_sst_point(b"e", 5), Some((1, 1)));
    assert_eq!(index.single_sst_point(b"z", 5), None);

    index.add_sst(2, &[block(0, "b", "e")]);
    assert_eq!(index.single_sst_point(b"e", 5), None);
    let first = |m: &BlockMeta| Some(Record::new(vec![m.sst_id as u8], 0, vec![]));
    assert_eq!(index.query_point_inline(b"e", 5, first).unwrap().key, vec![2]);
    let of_one = |m: &BlockMeta| {
        if m.sst_id == 1 {
            Some(Record::new(vec![m.block_idx as u8], 0, vec![]))
        } else {
            None
        }
    };
    assert_eq!(index.query_point_inline(b"e", 5, of_one).unwrap().key, vec![1]);
    assert!(index.query_point_inline(b"z", 5, |_: &BlockMeta| None).is_none());
}

struct Task;

impl ObjectStore for Task {
    fn store_def() -> StoreSchema {
        StoreSchema::new("tasks", "id").with_index("by_state", &["state"], false)
    }
}

fn j(text: &str) -> JsonValue {
    decode_doc(text.as_bytes()).unwrap()
}

#[test]
fn schemas_are_applied_in_a_row() {
    let mut db = JsonDB::open(Config::default()).unwrap();
    db.apply_schema::<Task>().unwrap();
    db.put("tasks", j(r#"{"id": "a", "state": "open"}"#)).unwrap();
    let users = StoreSchema::new("users", "id").with_auto_increment();
    db.apply_schemas(&[Task::store_def(), users]).unwrap();
    assert_eq!(db.get_by_index("tasks", "by_state", &"open".into_value()).unwrap().len(), 1);
    assert_eq!(db.put_auto("users", j(r#"{"name": "x"}"#)).unwrap(), 1i64.into_value());

    let bad = StoreSchema::new("tasks", "other");
    let late = StoreSchema::new("late", "id");
    assert!(db.apply_schemas(&[bad, late]).is_err());
    assert!(db.scan("late").is_err());
}

#[test]
fn snapshot_read_sees_the_document_of_its_time() {
    let mut db = JsonDB::open(Config::default()).unwrap();
    db.create_object_store("s", "id").unwrap();
    db.put("s", j(r#"{"id": "a", "n": 1}"#)).unwrap();
    let then = db.engine().last_seq();
    db.put("s", j(r#"{"id": "a", "n": 2}"#)).unwrap();
    let key = "a".into_value();
    assert_eq!(db.get_snapshot("s", &key, then).unwrap(), Some(j(r#"{"id": "a", "n": 1}"#)));
    assert_eq!(db.get_snapshot("s", &key, u64::MAX).unwrap(), db.get("s", &key).unwrap());
    assert_eq!(db.get_snapshot("s", &key, 0).unwrap(), None);
}

#[test]
fn cursor_knows_its_current_key() {
    let mut db = JsonDB::open(Config::default()).unwrap();
    db.create_object_store("s", "id").unwrap();
    db.put("s", j(r#"{"id": "a"}"#)).unwrap();
    db.put("s", j(r#"{"id": "b"}"#)).unwrap();
    let mut cursor = db.open_cursor("s", None, CursorDirection::Next).unwrap();
    assert!(cursor.current_key().is_none());
    cursor.next_value().unwrap();
    assert_eq!(cursor.current_key(), Some(&"a".into_value()));
    cursor.next_value().unwrap();
    assert_eq!(cursor.current_key(), Some(&"b".into_value()));
    assert!(cursor.next_value().is_none());
}
