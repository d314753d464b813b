//! Records that expire, SSTs that cannot be opened, range deletions in blocks.

use std::collections::HashMap;

use flowdb::compaction::{sum_up, CompactionRunner};
use flowdb::engine::{Engine, Recovered, SstFile};
use flowdb::jsondb::value::{decode_doc, extract_field};
use flowdb::jsondb::{JsonDB, JsonValue, KeyArg};
use flowdb::manifest::{copy_infos, replay, ManifestEntry};
use flowdb::record::{InternalRecord, KeyFilter, Op, ScanRange};
use flowdb::scan::filter_sst_block;
use flowdb::sstable::{SstReader, SstWriter};
use flowdb::{Config, FlowError, Record};

fn config() -> Config {
    Config { block_size: 2, compaction_threshold: 2, ..Config::default() }
}

fn engine() -> Engine {
    let mut engine = Engine::open(config()).unwrap();
    engine.set_time(1_000);
    engine
}

fn rec(key: &str, value: &str, expire_at: i64) -> Record {
    let mut r = Record::new(key.as_bytes().to_vec(), 0, value.as_bytes().to_vec());
    r.expire_at = expire_at;
    r
}

fn entry(op: Op, key: &str, expire_at: i64, end: Option<&str>) -> InternalRecord {
    InternalRecord {
        seq: 0,
        op,
        key: key.as_bytes().to_vec(),
        ts: 0,
        expire_at,
        value: b"v".to_vec(),
        range_end: end.map(|e| e.as_bytes().to_vec()),
    }
}

fn scanned(engine: &Engine) -> Vec<String> {
    engine
        .scan_all(ScanRange::all())
        .into_iter()
        .map(|r| String::from_utf8(r.key).unwrap())
        .collect()
}

/// What is on disk.
struct Disk {
    entries: Vec<ManifestEntry>,
    ssts: Vec<SstFile>,
    wal: Vec<InternalRecord>,
}

fn disk() -> Disk {
    Disk { entries: vec![], ssts: vec![], wal: vec![] }
}

fn flush(e: &mut Engine, d: &mut Disk) {
    d.wal.extend(e.take_unlogged());
    while let Some(job) = e.begin_flush().unwrap() {
        d.ssts.push(SstFile { id: job.sst.info.id, data: job.sst.data.clone() });
        d.entries.push(ManifestEntry::Flush {
            seq: job.seq,
            sst: job.sst.info.copy(),
            blocks: copy_infos(&job.sst.blocks),
        });
        let seq = job.seq;
        e.finish_flush(job);
        d.wal.retain(|r| r.seq > seq);
    }
}

fn restart(d: Disk, now: i64) -> Engine {
    let manifest = replay(&d.entries.into_iter().map(Ok).collect(), "MANIFEST").unwrap();
    let found = Recovered { manifest, ssts: d.ssts, wal: d.wal };
    let (mut engine, _) = Engine::recover(config(), found).unwrap();
    engine.set_time(now);
    engine
}

/// Adds an SST with the given entries to the disk, range deletions among them.
fn store(d: &mut Disk, id: u32, entries: &[InternalRecord]) {
    let (data, bytes, blocks, bloom) = SstWriter::write_to_buf(entries, 2, 10).unwrap();
    let info = sum_up(id, entries.len() as u64, bytes, &blocks, Some(bloom), vec![]);
    d.ssts.push(SstFile { id, data });
    d.entries.push(ManifestEntry::Flush { seq: id as u64, sst: info, blocks });
}

#[test]
fn what_was_written_is_read_until_it_expires() {
    let mut e = engine();
    e.write_batch(&[rec("a", "1", 2_000), rec("b", "2", 3_000), rec("c", "3", i64::MAX)]).unwrap();
    e.set_time(1_999);
    assert_eq!(scanned(&e), ["a", "b", "c"]);
    assert!(e.get("a", 0).unwrap().is_some());
    e.set_time(2_000);
    assert!(e.get("a", 0).unwrap().is_none());
    assert_eq!(e.get("b", 0).unwrap().unwrap().value, b"2");
    assert_eq!(scanned(&e), ["b", "c"]);
}

#[test]
fn a_flush_with_expired_records_changes_no_read() {
    let mut e = engine();
    e.write_batch(&[rec("a", "1", 2_000), rec("b", "2", 3_000), rec("c", "3", i64::MAX)]).unwrap();
    e.write_batch(&[rec("b", "22", 4_000)]).unwrap();
    e.set_time(2_500);
    let before = scanned(&e);
    e.flush().unwrap();
    assert_eq!(scanned(&e), before);
    assert_eq!(before, ["b", "c"]);
    assert!(e.get("a", 0).unwrap().is_none());
    assert_eq!(e.get("b", 0).unwrap().unwrap().value, b"22");
    e.set_time(4_000);
    assert!(e.get("b", 0).unwrap().is_none());
    assert_eq!(scanned(&e), ["c"]);
}

#[test]
fn a_restart_gives_back_what_is_still_live() {
    let mut e = engine();
    let mut d = disk();
    e.write_batch(&[rec("a", "1", 2_000), rec("b", "2", 5_000)]).unwrap();
    flush(&mut e, &mut d);
    e.write_batch(&[rec("c", "3", 2_000), rec("d", "4", 5_000)]).unwrap();
    d.wal.extend(e.take_unlogged());
    e.set_time(1_500);
    assert_eq!(scanned(&e), ["a", "b", "c", "d"]);
    let again = restart(d, 3_000);
    assert_eq!(scanned(&again), ["b", "d"]);
    assert!(again.get("a", 0).unwrap().is_none());
    assert_eq!(again.get("b", 0).unwrap().unwrap().value, b"2");
    assert!(again.get("c", 0).unwrap().is_none());
    assert_eq!(again.get("d", 0).unwrap().unwrap().value, b"4");
}

#[test]
fn a_batch_may_hold_expired_records() {
    let mut e = engine();
    e.write_batch(&[rec("a", "1", 500), rec("b", "2", 5_000)]).unwrap();
    assert!(e.get("a", 0).unwrap().is_none());
    assert_eq!(e.get("b", 0).unwrap().unwrap().value, b"2");
    assert_eq!(scanned(&e), ["b"]);
}

#[test]
fn a_compaction_keeps_each_live_record_once() {
    let mut e = engine();
    e.write_batch(&[rec("a", "1", 2_000), rec("b", "2", i64::MAX)]).unwrap();
    e.flush().unwrap();
    e.write_batch(&[rec("c", "3", i64::MAX), rec("d", "4", 2_000)]).unwrap();
    e.flush().unwrap();
    e.set_time(2_500);
    let plan = e.plan_compaction().unwrap().unwrap();
    assert_eq!(plan.removed, vec![1, 2]);
    let added = plan.added.as_ref().unwrap();
    assert_eq!(added.info.id, 3);
    assert_eq!(added.info.records, 2);
    e.apply_compaction(plan);
    assert_eq!(scanned(&e), ["b", "c"]);
}

#[test]
fn a_patched_record_expires_as_it_says() {
    let mut e = Engine::open(Config { default_ttl_secs: Some(100), ..config() }).unwrap();
    e.set_time(1_000);
    e.write_batch(&[rec("a", "1", i64::MAX)]).unwrap();
    assert_eq!(e.get("a", 0).unwrap().unwrap().expire_at, 100_000_000);
    let patched = e.patch_record("a", 0, Some(b"2".to_vec()), Some(7)).unwrap();
    assert_eq!(patched.expire_at, 7_000_000);
    let read = e.get("a", 0).unwrap().unwrap();
    assert_eq!(read.expire_at, 7_000_000);
    assert_eq!(read.value, b"2");
    e.patch_record("a", 0, Some(b"3".to_vec()), None).unwrap();
    assert_eq!(e.get("a", 0).unwrap().unwrap().expire_at, 7_000_000);
    e.set_time(7_000_000);
    assert!(e.get("a", 0).unwrap().is_none());
}

#[test]
fn a_compaction_fails_on_an_sst_that_cannot_be_opened() {
    let mut e = engine();
    let mut d = disk();
    e.write_batch(&[rec("a", "1", i64::MAX)]).unwrap();
    flush(&mut e, &mut d);
    e.write_batch(&[rec("b", "2", i64::MAX)]).unwrap();
    flush(&mut e, &mut d);
    d.ssts[1].data[0] ^= 0xff;
    let mut again = restart(d, 1_000);
    match again.plan_compaction() {
        Err(FlowError::Corruption { file, msg }) => {
            assert_eq!(file, "sst_2");
            assert_eq!(msg, "cannot be opened");
        }
        _ => panic!("an SST that cannot be opened was merged"),
    }
    assert!(again.trigger_compaction().is_err());
    assert_eq!(again.get("a", 0).unwrap().unwrap().value, b"1");
    assert_eq!(scanned(&again), ["a"]);
}

#[test]
fn a_runner_names_the_first_sst_without_a_reader() {
    let mut d = disk();
    store(&mut d, 1, &[entry(Op::Put, "a", i64::MAX, None)]);
    store(&mut d, 2, &[entry(Op::Put, "b", i64::MAX, None)]);
    let manifest = replay(&d.entries.into_iter().map(Ok).collect(), "MANIFEST").unwrap();
    match CompactionRunner::new(2, 10, 2).run(&manifest, &HashMap::new(), 3, 0) {
        Err(FlowError::Corruption { file, .. }) => assert_eq!(file, "sst_1"),
        _ => panic!("SSTs without readers were merged"),
    }
}

#[test]
fn range_deletions_in_blocks_count_after_a_restart() {
    let mut d = disk();
    store(
        &mut d,
        1,
        &[entry(Op::Put, "a", i64::MAX, None), entry(Op::Put, "c", i64::MAX, None)],
    );
    store(
        &mut d,
        2,
        &[
            entry(Op::Put, "b", i64::MAX, None),
            entry(Op::DeleteRange, "b", i64::MAX, Some("d")),
            entry(Op::Put, "e", i64::MAX, None),
        ],
    );
    let mut again = restart(d, 1_000);
    assert!(again.get("a", 0).unwrap().is_some());
    assert!(again.get("b", 0).unwrap().is_none());
    assert!(again.get("c", 0).unwrap().is_none());
    assert!(again.get("e", 0).unwrap().is_some());
    assert_eq!(scanned(&again), ["a", "e"]);
    assert_eq!(again.trigger_gc().unwrap(), 0);
    assert!(again.trigger_compaction().unwrap());
    assert_eq!(scanned(&again), ["a", "e"]);
    assert!(again.get("b", 0).unwrap().is_none());
    assert!(again.get("c", 0).unwrap().is_none());
    again.write_batch(&[rec("c", "new", i64::MAX)]).unwrap();
    assert_eq!(again.get("c", 0).unwrap().unwrap().value, b"new");
}

#[test]
fn an_opened_sst_knows_its_range_deletions() {
    let entries = [
        entry(Op::Put, "b", i64::MAX, None),
        entry(Op::DeleteRange, "b", i64::MAX, Some("d")),
        entry(Op::Put, "e", i64::MAX, None),
    ];
    let (data, _, _, _) = SstWriter::write_to_buf(&entries, 2, 10).unwrap();
    let built = SstReader::build(data.clone(), 4).unwrap();
    assert!(built.found_ranges().is_empty());
    assert_eq!(built.read_left(0).len(), 2);
    let opened = SstReader::open(data, 4).unwrap();
    assert_eq!(opened.found_ranges(), &vec![(b"b".to_vec(), b"d".to_vec())]);
    assert!(opened.read_left(0).is_empty());
    assert_eq!(opened.read_left(1)[0].key, b"e");
    assert!(opened.read_left(2).is_empty());
}

#[test]
fn filtering_a_block_notes_its_live_range_deletions() {
    let records = vec![
        entry(Op::Put, "a", i64::MAX, None),
        entry(Op::DeleteRange, "m", i64::MAX, Some("p")),
        entry(Op::DeleteRange, "q", 10, Some("r")),
        entry(Op::DeleteRange, "s", i64::MAX, None),
        entry(Op::Delete, "b", i64::MAX, None),
        entry(Op::Put, "c", 10, None),
    ];
    let mut tombstones = vec![(b"x".to_vec(), b"y".to_vec())];
    let filter = KeyFilter::Prefix(b"a".to_vec());
    let out = filter_sst_block(&records, &filter, Some((5, 6)), false, 10, &mut tombstones);
    assert!(out.is_empty());
    assert_eq!(
        tombstones,
        vec![(b"x".to_vec(), b"y".to_vec()), (b"m".to_vec(), b"p".to_vec())]
    );
    let mut none = vec![];
    let out = filter_sst_block(&records, &KeyFilter::All, None, false, 9, &mut none);
    let kept: Vec<&[u8]> = out.iter().map(|r| r.key.as_slice()).collect();
    assert_eq!(kept, [b"a".as_slice(), b"b", b"c"]);
    assert!(out.iter().all(|r| r.seq == 0));
    assert_eq!(none.len(), 2);
}

#[test]
fn a_scan_that_has_ended_stays_at_its_end() {
    let mut e = engine();
    e.write_batch(&[rec("a", "1", i64::MAX)]).unwrap();
    let mut it = e.scan(ScanRange::all()).unwrap();
    assert_eq!(it.next().unwrap().key, b"a");
    assert!(it.next().is_none());
    assert!(it.next().is_none());
    assert!(it.collect_all().is_empty());
}

fn j(text: &str) -> JsonValue {
    decode_doc(text.as_bytes()).unwrap()
}

fn ids(docs: &[JsonValue]) -> Vec<JsonValue> {
    docs.iter().map(|d| extract_field(d, "id").unwrap()).collect()
}

fn texts(names: &[&str]) -> Vec<JsonValue> {
    names.iter().map(|n| (*n).into_value()).collect()
}

#[test]
fn a_query_finds_documents_that_an_index_does_not_enter() {
    let mut db = JsonDB::open(Config::default()).unwrap();
    db.create_object_store("users", "id").unwrap();
    db.create_index("users", "by_city_age", &["city", "age"], false, false).unwrap();
    db.put("users", j(r#"{"id": "u1", "city": "NYC", "age": 30}"#)).unwrap();
    db.put("users", j(r#"{"id": "u2", "city": "NYC"}"#)).unwrap();
    db.put("users", j(r#"{"id": "u3", "city": "SF", "age": 30}"#)).unwrap();
    let docs = db.query("users").where_eq("city", j(r#""NYC""#)).collect().unwrap();
    assert_eq!(ids(&docs), texts(&["u1", "u2"]));
    let docs = db
        .query("users")
        .where_eq("city", j(r#""NYC""#))
        .where_range("age", j("20"), j("40"))
        .collect()
        .unwrap();
    assert_eq!(ids(&docs), texts(&["u1"]));
}

#[test]
fn a_query_looks_past_a_multi_entry_index() {
    let mut db = JsonDB::open(Config::default()).unwrap();
    db.create_object_store("items", "id").unwrap();
    db.create_index("items", "by_tag", &["tags"], false, true).unwrap();
    db.put("items", j(r#"{"id": "i1", "tags": ["red", "blue"]}"#)).unwrap();
    db.put("items", j(r#"{"id": "i2", "tags": "red"}"#)).unwrap();
    let whole = db.query("items").where_eq("tags", j(r#"["red", "blue"]"#)).collect().unwrap();
    assert_eq!(ids(&whole), texts(&["i1"]));
    let one = db.query("items").where_eq("tags", j(r#""red""#)).collect().unwrap();
    assert_eq!(ids(&one), texts(&["i2"]));
    let all = db.query("items").where_range("tags", j(r#""a""#), j(r#""z""#)).collect().unwrap();
    assert!(ids(&all).contains(&"i2".into_value()));
}
