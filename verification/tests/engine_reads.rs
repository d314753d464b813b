//! What holds of reads whatever the engine did in between.

use flowdb::block_meta_index::BlockMetaIndex;
use flowdb::engine::Engine;
use flowdb::manifest::{apply_entry, BlockInfo, Manifest, ManifestEntry, ManifestState, SstInfo};
use flowdb::memtables::MemTables;
use flowdb::record::{InternalRecord, KeyFilter, ScanRange};
use flowdb::{Config, Record};

fn engine() -> Engine {
    let mut engine = Engine::open(Config { block_size: 3, ..Config::default() }).unwrap();
    engine.set_time(1_000);
    engine
}

fn rec(key: &str, value: &str) -> Record {
    Record::new(key.as_bytes().to_vec(), 0, value.as_bytes().to_vec())
}

fn value(engine: &Engine, key: &str) -> Option<String> {
    engine.get(key, 0).unwrap().map(|r| String::from_utf8(r.value).unwrap())
}

fn scanned(engine: &Engine) -> Vec<(String, String)> {
    engine
        .scan_all(ScanRange::all())
        .into_iter()
        .map(|r| (String::from_utf8(r.key).unwrap(), String::from_utf8(r.value).unwrap()))
        .collect()
}

fn pair(k: &str, v: &str) -> (String, String) {
    (k.to_string(), v.to_string())
}

#[test]
fn last_write_is_read() {
    let mut e = engine();
    e.write_batch(&[rec("a", "1"), rec("b", "2"), rec("a", "3")]).unwrap();
    assert_eq!(value(&e, "a").unwrap(), "3");
    assert_eq!(value(&e, "b").unwrap(), "2");
    e.write_batch(&[rec("a", "4")]).unwrap();
    assert_eq!(value(&e, "a").unwrap(), "4");
    assert_eq!(value(&e, "b").unwrap(), "2");
}

#[test]
fn snapshots_stay_as_they_were() {
    let mut e = engine();
    e.write_batch(&[rec("a", "1")]).unwrap();
    let snapshot = e.last_seq();
    e.write_batch(&[rec("a", "2"), rec("b", "3")]).unwrap();
    assert_eq!(e.get_bytes_seq(b"a", 0, snapshot).unwrap().value, b"1");
    assert!(e.get_bytes_seq(b"b", 0, snapshot).is_none());
    assert_eq!(e.get_bytes_seq(b"a", 0, e.last_seq()).unwrap().value, b"2");
}

#[test]
fn scans_ascend_and_go_by_the_last_write() {
    let mut e = engine();
    e.write_batch(&[rec("c", "1"), rec("a", "2"), rec("b", "3")]).unwrap();
    e.write_batch(&[rec("b", "4")]).unwrap();
    e.delete_batch(&[("c".to_string(), 0)]).unwrap();
    assert_eq!(scanned(&e), vec![pair("a", "2"), pair("b", "4")]);
}

#[test]
fn range_deletion_hides_its_keys_from_scans() {
    let mut e = engine();
    e.write_batch(&[rec("a", "1"), rec("b", "2"), rec("c", "3"), rec("d", "4")]).unwrap();
    e.delete_range("b", "d").unwrap();
    assert_eq!(scanned(&e), vec![pair("a", "1"), pair("d", "4")]);
}

#[test]
fn flush_changes_no_read() {
    let mut e = engine();
    for i in 0..20 {
        e.write_batch(&[rec(&format!("k{:02}", i), &format!("{}", i))]).unwrap();
    }
    e.write_batch(&[rec("k05", "again")]).unwrap();
    e.delete_batch(&[("k07".to_string(), 0)]).unwrap();
    let before = scanned(&e);
    assert_eq!(before.len(), 19);

    let job = e.begin_flush().unwrap().unwrap();
    assert_eq!(scanned(&e), before);
    assert_eq!(value(&e, "k05").unwrap(), "again");
    e.finish_flush(job);
    assert_eq!(scanned(&e), before);
    assert_eq!(value(&e, "k05").unwrap(), "again");
    assert_eq!(value(&e, "k07"), None);

    e.write_batch(&[rec("k05", "newer"), rec("k07", "back")]).unwrap();
    assert_eq!(value(&e, "k05").unwrap(), "newer");
    assert_eq!(value(&e, "k07").unwrap(), "back");
    assert_eq!(scanned(&e).len(), 20);
}

#[test]
fn compaction_changes_no_read() {
    let mut e = engine();
    for round in 0..3 {
        for i in 0..10 {
            let text = format!("{}-{}", round, i);
            e.write_batch(&[rec(&format!("k{}", i * (round + 1)), &text)]).unwrap();
        }
        e.flush().unwrap();
    }
    let before = scanned(&e);
    let reads: Vec<Option<String>> = (0..40).map(|i| value(&e, &format!("k{}", i))).collect();
    assert!(e.trigger_compaction().unwrap());
    assert_eq!(scanned(&e), before);
    let after: Vec<Option<String>> = (0..40).map(|i| value(&e, &format!("k{}", i))).collect();
    assert_eq!(after, reads);
}

#[test]
fn point_reads_and_scans_agree() {
    let mut e = engine();
    e.write_batch(&[rec("a", "1"), rec("b", "2")]).unwrap();
    e.delete_batch(&[("a".to_string(), 0)]).unwrap();
    e.write_batch(&[rec("c", "3")]).unwrap();
    for (k, v) in scanned(&e) {
        assert_eq!(value(&e, &k).unwrap(), v);
    }
    assert_eq!(value(&e, "a"), None);
}

#[test]
fn freezing_changes_no_memtable_read() {
    let mut tables = MemTables::new(4, 1_000_000);
    for (i, key) in ["b", "a", "b"].iter().enumerate() {
        let r = Record::new(key.as_bytes().to_vec(), 0, vec![i as u8]);
        tables.insert(InternalRecord::from_record(&r, i as u64 + 1));
    }
    let seen = |t: &MemTables| -> Vec<Vec<u8>> {
        let found = t.query(&KeyFilter::All, None, 5);
        let mut values: Vec<Vec<u8>> = found.into_iter().map(|r| r.value).collect();
        values.sort();
        values
    };
    let before = seen(&tables);
    assert_eq!(tables.get(b"b", 0, 5).unwrap().value, vec![2]);
    assert!(tables.freeze());
    assert_eq!(tables.get(b"b", 0, 5).unwrap().value, vec![2]);
    assert_eq!(seen(&tables), before);
    assert!(tables.pop_frozen_to_flushing().is_some());
    assert_eq!(tables.get(b"b", 0, 5).unwrap().value, vec![2]);
    assert_eq!(seen(&tables), before);
    tables.abort_flush();
    assert_eq!(tables.frozen_count(), 1);
}

fn block(idx: u32, from: &str, to: &str) -> BlockInfo {
    BlockInfo {
        block_idx: idx,
        min_key: from.as_bytes().to_vec(),
        max_key: to.as_bytes().to_vec(),
        min_ts: 0,
        max_ts: 10,
        min_expire: i64::MAX,
        max_expire: i64::MAX,
    }
}

#[test]
fn removing_an_sst_undoes_adding_it() {
    let mut index = BlockMetaIndex::new(3600);
    index.add_sst(1, &[block(0, "a", "f")]);
    index.add_sst(2, &[block(0, "c", "z"), block(1, "g", "h")]);
    assert_eq!(index.query_point(b"d", 5).len(), 2);
    index.remove_sst(2);
    let left = index.query_point(b"d", 5);
    assert_eq!(left.len(), 1);
    assert_eq!(left[0].sst_id, 1);
    assert_eq!(index.total_entries(), 1);
}

fn sst(id: u32) -> SstInfo {
    SstInfo {
        id,
        records: 1,
        bytes: 100,
        min_ts: 0,
        max_ts: 0,
        min_expire: i64::MAX,
        max_expire: i64::MAX,
        bloom: None,
        ranges: Vec::new(),
    }
}

#[test]
fn snapshot_of_a_manifest_restores_its_state() {
    let mut manifest = Manifest::new(ManifestState::default());
    manifest.append(&ManifestEntry::Flush { seq: 5, sst: sst(1), blocks: vec![block(0, "a", "b")] });
    manifest.append(&ManifestEntry::Flush { seq: 9, sst: sst(2), blocks: vec![block(0, "c", "d")] });
    manifest.append(&ManifestEntry::GcDeleteSst { sst_id: 1 });
    let entries = manifest.snapshot();
    let mut again = ManifestState::default();
    for entry in &entries {
        apply_entry(&mut again, entry);
    }
    assert_eq!(again.last_flushed_seq, 9);
    assert_eq!(again.active_sst_ids, vec![2]);
    assert_eq!(again.sstables.len(), 1);
    assert_eq!(again.block_infos[&2].len(), 1);
}
