//! Range deletions, and what a compaction leaves of deletions.

use flowdb::engine::{Engine, Recovered, SstFile};
use flowdb::manifest::{copy_infos, replay, ManifestEntry};
use flowdb::memtable::MemTable;
use flowdb::record::{InternalRecord, Op};
use flowdb::{Config, Record};

/// A time of the wall clock, in microseconds.
const NOW: i64 = 1_700_000_000_000_000;

fn config() -> Config {
    Config {
        compaction_threshold: 2,
        ..Config::default()
    }
}

fn open() -> Engine {
    let mut engine = Engine::open(config()).unwrap();
    engine.set_time(NOW);
    engine
}

fn rec(key: &str, ts: i64) -> Record {
    Record {
        key: key.as_bytes().to_vec(),
        ts,
        expire_at: i64::MAX,
        value: vec![1, 2, 3],
    }
}

fn keys(records: &[Record]) -> Vec<String> {
    records
        .iter()
        .map(|r| String::from_utf8(r.key.clone()).unwrap())
        .collect()
}

fn entry(seq: u64, op: Op, key: &str, ts: i64, end: Option<&str>) -> InternalRecord {
    InternalRecord {
        seq,
        op,
        key: key.as_bytes().to_vec(),
        ts,
        expire_at: i64::MAX,
        value: vec![7],
        range_end: end.map(|e| e.as_bytes().to_vec()),
    }
}

#[test]
fn point_reads_respect_a_range_deletion() {
    let mut e = open();
    e.write_batch(&[rec("a", 100), rec("b", 200), rec("c", 300), rec("d", 400)])
        .unwrap();
    e.delete_range("b", "d").unwrap();
    assert!(e.get("a", 100).unwrap().is_some());
    assert!(e.get("b", 200).unwrap().is_none());
    assert!(e.get("c", 300).unwrap().is_none());
    assert!(e.get("d", 400).unwrap().is_some());
    assert_eq!(keys(&e.query_by_key_range("a", "d").unwrap()), ["a", "d"]);
    e.flush().unwrap();
    assert!(e.get("b", 200).unwrap().is_none());
    assert!(e.get("d", 400).unwrap().is_some());
    assert_eq!(keys(&e.query_by_key_range("a", "d").unwrap()), ["a", "d"]);
}

#[test]
fn a_range_deletion_counts_whatever_a_query_asks_for() {
    let mut e = open();
    e.write_batch(&[rec("b", 200), rec("c", 300)]).unwrap();
    e.flush().unwrap();
    e.delete_range("a", "c").unwrap();
    // Neither the start of the deleted range nor its time is asked for.
    assert!(e.query_by_prefix("b").unwrap().is_empty());
    assert_eq!(keys(&e.query_time_range(150, 350).unwrap()), ["c"]);
    e.flush().unwrap();
    assert!(e.query_by_prefix("b").unwrap().is_empty());
    assert_eq!(keys(&e.query_time_range(150, 350).unwrap()), ["c"]);
}

#[test]
fn what_is_written_after_a_range_deletion_is_there() {
    let mut e = open();
    e.write_batch(&[rec("a", 1), rec("b", 2)]).unwrap();
    e.delete_range("a", "c").unwrap();
    e.write_batch(&[rec("b", 3)]).unwrap();
    for _ in 0..2 {
        assert!(e.get("a", 1).unwrap().is_none());
        assert!(e.get("b", 2).unwrap().is_none());
        assert!(e.get("b", 3).unwrap().is_some());
        assert_eq!(keys(&e.query_by_prefix("").unwrap()), ["b"]);
        assert_eq!(e.get_latest("b").unwrap().unwrap().ts, 3);
        assert!(e.get_latest("a").unwrap().is_none());
        e.flush().unwrap();
    }
}

#[test]
fn an_empty_range_deletes_nothing() {
    let mut e = open();
    e.write_batch(&[rec("b", 0)]).unwrap();
    e.delete_range("b", "b").unwrap();
    e.delete_range("c", "a").unwrap();
    assert!(e.get("b", 0).unwrap().is_some());
    assert_eq!(e.query_by_prefix("b").unwrap().len(), 1);
}

#[test]
fn a_compaction_carries_out_range_deletions() {
    let mut e = open();
    e.write_batch(&[rec("a", 1), rec("b", 2)]).unwrap();
    e.flush().unwrap();
    e.delete_range("a", "b").unwrap();
    e.flush().unwrap();
    assert!(e.trigger_compaction().unwrap());
    let left = e.query_by_prefix("").unwrap();
    assert_eq!(keys(&left), ["b"]);
    assert_eq!(left[0].ts, 2);
    assert!(e.get("a", 1).unwrap().is_none());
    assert!(e.get("b", 2).unwrap().is_some());
    assert_eq!(e.active_ssts().len(), 1);
}

#[test]
fn a_compaction_keeps_deletions_while_older_ssts_stay() {
    let mut e = open();
    // A large SST that is not of the smallest tier, then two small ones.
    let mut big: Vec<Record> = (0..400i64).map(|i| rec(&format!("big_{:04}", i), i)).collect();
    for r in big.iter_mut() {
        r.value = (0..200u32).map(|k| (k * 37 % 251) as u8 ^ r.ts as u8).collect();
    }
    e.write_batch(&big).unwrap();
    e.flush().unwrap();
    e.delete_batch(&[("big_0007".to_string(), 7)]).unwrap();
    e.delete_range("big_0100", "big_0200").unwrap();
    e.flush().unwrap();
    e.write_batch(&[rec("z", 1)]).unwrap();
    e.flush().unwrap();
    assert_eq!(e.active_ssts().len(), 3);
    assert!(e.trigger_compaction().unwrap());
    assert_eq!(e.active_ssts().len(), 2);
    assert!(e.get("big_0007", 7).unwrap().is_none());
    assert!(e.get("big_0150", 150).unwrap().is_none());
    assert!(e.get("big_0200", 200).unwrap().is_some());
    assert_eq!(e.query_by_prefix("big_").unwrap().len(), 299);
    assert!(e.get("z", 1).unwrap().is_some());
}

#[test]
fn a_compaction_lets_the_newest_version_count() {
    let mut e = open();
    let with = |v: u8| Record {
        value: vec![v],
        ..rec("k", 5)
    };
    e.write_batch(&[with(1)]).unwrap();
    e.flush().unwrap();
    // The newest version is in a large SST, which the smallest tier leaves out.
    let mut many: Vec<Record> = (0..400i64).map(|i| rec(&format!("m{:04}", i), i)).collect();
    for r in many.iter_mut() {
        r.value = (0..200u32).map(|k| (k * 31 % 241) as u8 ^ r.ts as u8).collect();
    }
    many.push(with(3));
    e.write_batch(&[rec("x", 1)]).unwrap();
    e.flush().unwrap();
    e.write_batch(&many).unwrap();
    e.flush().unwrap();
    assert!(e.trigger_compaction().unwrap());
    assert_eq!(e.get("k", 5).unwrap().unwrap().value, vec![3]);
    assert_eq!(e.query_by_prefix("m").unwrap().len(), 400);
    assert!(e.get("x", 1).unwrap().is_some());
}

#[test]
fn range_deletions_survive_a_restart() {
    let mut e = open();
    let mut ssts: Vec<SstFile> = vec![];
    let mut lines: Vec<Result<ManifestEntry, String>> = vec![];
    let steps: [&dyn Fn(&mut Engine); 2] = [
        &|e| e.write_batch(&[rec("a", 1), rec("b", 2)]).unwrap(),
        &|e| e.delete_range("a", "b").unwrap(),
    ];
    for step in steps {
        step(&mut e);
        while let Some(job) = e.begin_flush().unwrap() {
            ssts.push(SstFile {
                id: job.sst.info.id,
                data: job.sst.data.clone(),
            });
            lines.push(Ok(ManifestEntry::Flush {
                seq: job.seq,
                sst: job.sst.info.copy(),
                blocks: copy_infos(&job.sst.blocks),
            }));
            e.finish_flush(job);
        }
    }
    let manifest = replay(&lines, "MANIFEST").unwrap();
    let (mut again, _) = Engine::recover(
        config(),
        Recovered {
            manifest,
            ssts,
            wal: vec![],
        },
    )
    .unwrap();
    again.set_time(NOW);
    assert!(again.get("a", 1).unwrap().is_none());
    assert!(again.get("b", 2).unwrap().is_some());
    assert_eq!(keys(&again.query_by_prefix("").unwrap()), ["b"]);
}

#[test]
fn garbage_collection_leaves_range_deletions() {
    let mut e = open();
    e.write_batch(&[rec("a", 1), rec("c", 1)]).unwrap();
    e.flush().unwrap();
    e.delete_range("a", "b").unwrap();
    e.flush().unwrap();
    assert_eq!(e.trigger_gc().unwrap(), 0);
    assert!(e.get("a", 1).unwrap().is_none());
    assert!(e.get("c", 1).unwrap().is_some());
}

#[test]
fn the_latest_put_of_a_memtable_is_not_a_deleted_one() {
    let mut t = MemTable::new();
    t.insert(entry(1, Op::Put, "a", 100, None));
    t.insert(entry(2, Op::Delete, "a", 100, None));
    assert!(t.get_latest(b"a", NOW).is_none());
    t.insert(entry(3, Op::Put, "a", 50, None));
    assert_eq!(t.get_latest(b"a", NOW).unwrap().ts, 50);
    t.insert(entry(4, Op::DeleteRange, "a", 0, Some("b")));
    assert!(t.get_latest(b"a", NOW).is_none());
    t.insert(entry(5, Op::Put, "a", 100, None));
    assert_eq!(t.get_latest(b"a", NOW).unwrap().seq, 5);
}

#[test]
fn the_latest_of_two_flushed_ssts_is_found() {
    let mut e = open();
    e.write_batch(&[rec("k", 1)]).unwrap();
    e.flush().unwrap();
    e.write_batch(&[rec("k", 2)]).unwrap();
    e.flush().unwrap();
    assert_eq!(e.get_latest("k").unwrap().unwrap().ts, 2);
}

#[test]
fn a_compaction_of_two_ssts_leaves_one() {
    let mut e = open();
    e.write_batch(&[rec("a", 1)]).unwrap();
    e.flush().unwrap();
    e.write_batch(&[rec("b", 1)]).unwrap();
    e.flush().unwrap();
    assert!(e.trigger_compaction().unwrap());
    assert_eq!(e.active_ssts().len(), 1);
    assert_eq!(e.query_by_prefix("").unwrap().len(), 2);
}
