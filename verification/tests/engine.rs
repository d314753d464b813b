//! The engine: writing, reading, deleting, flushing and compacting.

use flowdb::engine::Engine;
use flowdb::record::{ReadOptions, ScanRange, StorageBackendKind, SyncMode};
use flowdb::stats::StatsCounters;
use flowdb::{Config, Record};

/// A time of the wall clock, in microseconds.
const NOW: i64 = 1_700_000_000_000_000;

fn make_config() -> Config {
    Config {
        data_dir: "unused".to_string(),
        memtable_size_mb: 1,
        block_size: 100,
        gc_interval_secs: 3600,
        max_frozen_memtables: 2,
        flush_interval_ms: 60000,
        time_bucket_secs: 3600,
        block_cache_capacity_mb: 16,
        index_memory_budget_mb: 64,
        default_ttl_secs: None,
        bloom_bits_per_key: 10,
        wal_segment_size_mb: 64,
        compaction_threshold: 2,
        compaction_interval_ms: 60_000,
        create_if_missing: true,
        wal_sync_mode: SyncMode::IntervalMs(u64::MAX),
        auto_background: false,
        storage_backend: StorageBackendKind::MultiFile,
    }
}

fn make_config_single_file() -> Config {
    let mut config = make_config();
    config.storage_backend = StorageBackendKind::SingleFile;
    config
}

/// An engine with nothing in it, at a known time.
fn open(config: Config) -> Engine {
    let mut engine = Engine::open(config).unwrap();
    engine.set_time(NOW);
    engine
}

fn make_record(key: &str, ts: i64) -> Record {
    Record {
        key: key.as_bytes().to_vec(),
        ts,
        expire_at: i64::MAX,
        value: vec![1, 2, 3],
    }
}

#[test]
fn test_engine_write_read_roundtrip() {
    let config = make_config();
    let mut engine = open(config);

    engine
        .write_batch(&[
            make_record("key1", 100),
            make_record("key2", 200),
            make_record("key3", 300),
        ])
        .unwrap();

    let results = engine.query_by_prefix("key1").unwrap();
    assert_eq!(results.len(), 1);
    assert_eq!(results[0].key, b"key1");

    engine.flush().unwrap();
}

#[test]
fn test_engine_key_range_query() {
    let config = make_config();
    let mut engine = open(config);

    engine
        .write_batch(&[
            make_record("a", 100),
            make_record("b", 200),
            make_record("c", 300),
            make_record("d", 400),
        ])
        .unwrap();

    let results = engine.query_by_key_range("b", "c").unwrap();
    assert_eq!(results.len(), 2);

    engine.flush().unwrap();
}

#[test]
fn test_engine_time_range_query() {
    let config = make_config();
    let mut engine = open(config);

    engine
        .write_batch(&[
            make_record("a", 100),
            make_record("b", 200),
            make_record("c", 300),
        ])
        .unwrap();

    let results = engine.query_time_range(150, 300).unwrap();
    assert_eq!(results.len(), 2);

    engine.flush().unwrap();
}

#[test]
fn test_engine_prefix_time_range() {
    let config = make_config();
    let mut engine = open(config);

    engine
        .write_batch(&[
            make_record("a", 100),
            make_record("a", 200),
            make_record("a", 300),
            make_record("b", 200),
        ])
        .unwrap();

    let results = engine.query_prefix_time_range("a", 150, 250).unwrap();
    assert_eq!(results.len(), 1);
    assert_eq!(results[0].ts, 200);

    engine.flush().unwrap();
}

#[test]
fn test_engine_ttl_expiry() {
    let config = make_config();
    let mut engine = open(config);

    let mut rec = make_record("exp", 100);
    rec.expire_at = 1;
    engine.write_batch(&[rec]).unwrap();

    let results = engine.query_by_prefix("exp").unwrap();
    assert!(results.is_empty());

    engine.flush().unwrap();
}

#[test]
fn test_engine_flush_and_query() {
    let mut config = make_config();
    config.memtable_size_mb = 64;
    let mut engine = open(config);

    let records: Vec<Record> = (0..50)
        .map(|i| make_record(&format!("key_{:04}", i), i * 10))
        .collect();
    engine.write_batch(&records).unwrap();

    engine.flush().unwrap();

    let results = engine.query_by_prefix("key_").unwrap();
    assert_eq!(results.len(), 50);

    engine.flush().unwrap();
}

#[test]
fn test_engine_compaction() {
    let config = make_config();
    let mut engine = open(config);

    for batch in 0..10u64 {
        let records: Vec<Record> = (0..5)
            .map(|i| Record {
                key: format!("compact_{}-{}", batch, i).into_bytes(),
                ts: (batch * 100 + i) as i64,
                expire_at: i64::MAX,
                value: vec![1, 2, 3],
            })
            .collect();
        engine.write_batch(&records).unwrap();
        engine.flush().unwrap();
    }

    let did = engine.trigger_compaction().unwrap();
    assert!(did);

    let results = engine.query_by_prefix("compact_").unwrap();
    assert_eq!(results.len(), 50);

    engine.flush().unwrap();
}

#[test]
fn test_engine_delete_range() {
    let config = make_config();
    let mut engine = open(config);

    engine
        .write_batch(&[
            make_record("a", 100),
            make_record("b", 200),
            make_record("c", 300),
            make_record("d", 400),
        ])
        .unwrap();

    engine.delete_range("b", "d").unwrap();

    let results = engine.query_by_key_range("a", "d").unwrap();
    assert_eq!(results.len(), 2);
    assert_eq!(results[0].key, b"a");
    assert_eq!(results[1].key, b"d");

    engine.flush().unwrap();
}

#[test]
fn test_engine_delete_range_flush_and_query() {
    let config = make_config();
    let mut engine = open(config);

    engine
        .write_batch(&[
            make_record("s1", 100),
            make_record("s2", 200),
            make_record("s3", 300),
        ])
        .unwrap();
    engine.flush().unwrap();

    engine.delete_range("s1", "s3").unwrap();
    engine.flush().unwrap();

    let results = engine.query_by_prefix("s").unwrap();
    assert_eq!(results.len(), 1);
    assert_eq!(results[0].key, b"s3");

    engine.flush().unwrap();
}

#[test]
fn test_engine_size_tiered_compaction() {
    let config = make_config();
    let mut engine = open(config);

    for batch in 0..6u64 {
        let records: Vec<Record> = (0..5)
            .map(|i| Record {
                key: format!("st_{}-{}", batch, i).into_bytes(),
                ts: (batch * 100 + i) as i64,
                expire_at: i64::MAX,
                value: vec![1, 2, 3],
            })
            .collect();
        engine.write_batch(&records).unwrap();
        engine.flush().unwrap();
    }

    let did = engine.trigger_compaction().unwrap();
    assert!(did);

    let results = engine.query_by_prefix("st_").unwrap();
    assert_eq!(results.len(), 30);

    engine.flush().unwrap();
}

#[test]
fn test_engine_delete_range_preserves_outside() {
    let config = make_config();
    let mut engine = open(config);

    engine
        .write_batch(&[
            make_record("x-a", 100),
            make_record("x-b", 200),
            make_record("x-c", 300),
            make_record("y-a", 100),
            make_record("y-b", 200),
        ])
        .unwrap();

    engine.delete_range("x-a", "x-c").unwrap();

    let x_results = engine.query_by_prefix("x-").unwrap();
    assert_eq!(x_results.len(), 1);
    assert_eq!(x_results[0].key, b"x-c");

    let y_results = engine.query_by_prefix("y-").unwrap();
    assert_eq!(y_results.len(), 2);

    engine.flush().unwrap();
}

#[test]
fn test_scan_prefix_basic() {
    let config = make_config();
    let mut engine = open(config);

    engine
        .write_batch(&[
            make_record("alpha", 100),
            make_record("alpha", 200),
            make_record("beta", 150),
        ])
        .unwrap();

    let records: Vec<Record> = engine
        .scan_prefix("alpha")
        .unwrap()
        .collect_all();
    assert_eq!(records.len(), 2);
    assert_eq!(records[0].ts, 100);
    assert_eq!(records[1].ts, 200);

    engine.flush().unwrap();
}

#[test]
fn test_scan_prefix_time_range() {
    let config = make_config();
    let mut engine = open(config);

    engine
        .write_batch(&[
            make_record("k1", 10),
            make_record("k1", 20),
            make_record("k1", 30),
            make_record("k2", 15),
        ])
        .unwrap();

    let records: Vec<Record> = engine
        .scan_prefix_time_range("k1", 12, 25)
        .unwrap()
        .collect_all();
    assert_eq!(records.len(), 1);
    assert_eq!(records[0].ts, 20);

    engine.flush().unwrap();
}

#[test]
fn engine_test_scan_range_all() {
    let config = make_config();
    let mut engine = open(config);

    engine
        .write_batch(&[
            make_record("a", 1),
            make_record("b", 2),
            make_record("c", 3),
        ])
        .unwrap();

    let records: Vec<Record> = engine
        .scan(ScanRange::all())
        .unwrap()
        .collect_all();
    assert_eq!(records.len(), 3);
    // Should be sorted by key, then ts
    assert_eq!(records[0].key, b"a");
    assert_eq!(records[1].key, b"b");
    assert_eq!(records[2].key, b"c");

    engine.flush().unwrap();
}

#[test]
fn test_scan_key_range() {
    let config = make_config();
    let mut engine = open(config);

    engine
        .write_batch(&[
            make_record("a", 1),
            make_record("b", 2),
            make_record("c", 3),
            make_record("d", 4),
        ])
        .unwrap();

    let records: Vec<Record> = engine
        .scan(ScanRange::key_range("b", "c"))
        .unwrap()
        .collect_all();
    assert_eq!(records.len(), 2);

    engine.flush().unwrap();
}

#[test]
fn test_scan_time_range() {
    let config = make_config();
    let mut engine = open(config);

    engine
        .write_batch(&[
            make_record("a", 100),
            make_record("b", 200),
            make_record("c", 300),
        ])
        .unwrap();

    let records: Vec<Record> = engine
        .scan(ScanRange::time_range(150, 300))
        .unwrap()
        .collect_all();
    assert_eq!(records.len(), 2);

    engine.flush().unwrap();
}

#[test]
fn test_scan_matches_query() {
    let config = make_config();
    let mut engine = open(config);

    // Write data with multiple keys and timestamps
    let records: Vec<Record> = (0..50)
        .map(|i| make_record(&format!("key_{:04}", i), i * 10))
        .collect();
    engine.write_batch(&records).unwrap();

    // scan and query should return the same results
    let scan_results: Vec<Record> = engine
        .scan_prefix("key_")
        .unwrap()
        .collect_all();
    let query_results = engine.query_by_prefix("key_").unwrap();

    assert_eq!(scan_results.len(), query_results.len());
    for (s, q) in scan_results.iter().zip(query_results.iter()) {
        assert_eq!(s.key, q.key);
        assert_eq!(s.ts, q.ts);
    }

    engine.flush().unwrap();
}

#[test]
fn test_scan_after_flush() {
    let config = make_config();
    let mut engine = open(config);

    engine
        .write_batch(&[
            make_record("s1", 100),
            make_record("s2", 200),
            make_record("s3", 300),
        ])
        .unwrap();
    engine.flush().unwrap();

    let records: Vec<Record> = engine
        .scan_prefix("s")
        .unwrap()
        .collect_all();
    assert_eq!(records.len(), 3);

    engine.flush().unwrap();
}

#[test]
fn test_scan_with_delete_range() {
    let config = make_config();
    let mut engine = open(config);

    engine
        .write_batch(&[
            make_record("a", 100),
            make_record("b", 200),
            make_record("c", 300),
            make_record("d", 400),
        ])
        .unwrap();

    engine.delete_range("b", "d").unwrap();

    let records: Vec<Record> = engine
        .scan(ScanRange::key_range("a", "d"))
        .unwrap()
        .collect_all();
    assert_eq!(records.len(), 2);
    assert_eq!(records[0].key, b"a");
    assert_eq!(records[1].key, b"d");

    engine.flush().unwrap();
}

#[test]
fn test_scan_empty_range() {
    let config = make_config();
    let mut engine = open(config);

    engine.write_batch(&[make_record("a", 1)]).unwrap();

    let records: Vec<Record> = engine
        .scan_prefix("nonexistent")
        .unwrap()
        .collect_all();
    assert!(records.is_empty());

    engine.flush().unwrap();
}

#[test]
fn test_get_latest() {
    let config = make_config();
    let mut engine = open(config);

    engine
        .write_batch(&[
            make_record("key1", 100),
            make_record("key1", 300),
            make_record("key1", 200),
            make_record("key2", 500),
        ])
        .unwrap();

    let latest = engine.get_latest("key1").unwrap();
    assert!(latest.is_some());
    assert_eq!(latest.unwrap().ts, 300);

    let latest2 = engine.get_latest("key2").unwrap();
    assert!(latest2.is_some());
    assert_eq!(latest2.unwrap().ts, 500);

    let none = engine.get_latest("nonexistent").unwrap();
    assert!(none.is_none());

    engine.flush().unwrap();
}

#[test]
fn test_get_latest_after_flush() {
    let config = make_config();
    let mut engine = open(config);

    engine
        .write_batch(&[
            make_record("k", 10),
            make_record("k", 20),
            make_record("k", 30),
        ])
        .unwrap();
    engine.flush().unwrap();

    // Write a newer record to memtable
    engine.write_batch(&[make_record("k", 99)]).unwrap();

    let latest = engine.get_latest("k").unwrap();
    assert!(latest.is_some());
    assert_eq!(latest.unwrap().ts, 99);

    engine.flush().unwrap();
}

#[test]
fn test_get_latest_from_sst_only() {
    // Data lives entirely in SST (no memtable data for the key).
    let config = make_config();
    let mut engine = open(config);

    engine
        .write_batch(&[
            make_record("sst_latest", 100),
            make_record("sst_latest", 500),
            make_record("sst_latest", 300),
        ])
        .unwrap();
    engine.flush().unwrap();

    // Now "sst_latest" records are only in SST, not in memtable.
    let latest = engine.get_latest("sst_latest").unwrap();
    assert!(latest.is_some());
    assert_eq!(latest.unwrap().ts, 500);

    engine.flush().unwrap();
}

#[test]
fn test_scan_opt_with_read_options() {
    let config = make_config();
    let mut engine = open(config);

    engine.write_batch(&[make_record("x", 1)]).unwrap();

    let opts = ReadOptions {
        fill_cache: false,
        verify_checksums: false,
    };
    let records: Vec<Record> = engine
        .scan_opt(ScanRange::prefix("x"), &opts)
        .unwrap()
        .collect_all();
    assert_eq!(records.len(), 1);

    engine.flush().unwrap();
}

#[test]
fn test_memtable_backpressure_under_pressure() {
    // With a tiny memtable and many writes, verify that the active memtable
    // does not grow without bound.  After flushing, the frozen memtable should
    // be drained to SST, and all data should be queryable.
    let mut config = make_config();
    config.memtable_size_mb = 1;
    let mut engine = open(config);

    // Write 5000 records with large values to force many flushes.
    let big_val = vec![0xABu8; 4096];
    for i in 0..5000 {
        let key = format!("pressure_{:05}", i).into_bytes();
        let rec = Record {
            key,
            ts: i as i64,
            expire_at: i64::MAX,
            value: big_val.clone(),
        };
        engine.write_batch_sync(vec![rec]).unwrap();
    }
    engine.flush().unwrap();

    // All records must be queryable.
    let results: Vec<Record> = engine
        .scan(ScanRange::prefix("pressure_"))
        .unwrap()
        .collect_all();
    assert_eq!(results.len(), 5000, "all 5000 records must survive");

    // Verify no data duplication or corruption.
    let mut keys: Vec<Vec<u8>> = results.iter().map(|r| r.key.clone()).collect();
    keys.sort();
    keys.dedup();
    assert_eq!(keys.len(), 5000, "no duplicate keys");
}

#[test]
fn test_write_batch_empty() {
    let config = make_config();
    let mut engine = open(config);
    assert!(engine.write_batch(&[]).is_ok());
    engine.flush().unwrap();
}

#[test]
fn test_delete_batch_empty() {
    let config = make_config();
    let mut engine = open(config);
    assert!(engine.delete_batch(&[]).is_ok());
    engine.flush().unwrap();
}

#[test]
fn test_get_nonexistent_key() {
    let config = make_config();
    let mut engine = open(config);
    let result = engine.get("no_such_key", 0).unwrap();
    assert!(result.is_none());
    engine.flush().unwrap();
}

#[test]
fn test_patch_nonexistent_record_error() {
    let config = make_config();
    let mut engine = open(config);
    let result = engine.patch_record("no_such_key", 0, Some(vec![1, 2, 3]), None);
    assert!(result.is_err());
    engine.flush().unwrap();
}

#[test]
fn test_delete_range_empty_strings() {
    let config = make_config();
    let mut engine = open(config);
    // Empty start and end strings — should not panic, produce a valid delete
    // range tombstone.
    assert!(engine.delete_range("", "z").is_ok());
    engine.flush().unwrap();
}

#[test]
fn test_query_by_prefix_empty_string() {
    let config = make_config();
    let mut engine = open(config);
    // Empty prefix matches everything.
    let results = engine.query_by_prefix("").unwrap();
    assert!(results.is_empty());
    engine.flush().unwrap();
}

#[test]
fn test_get_latest_nonexistent() {
    let config = make_config();
    let mut engine = open(config);
    assert!(engine.get_latest("no_such_key").unwrap().is_none());
    engine.flush().unwrap();
}

#[test]
fn test_flush_on_empty_engine() {
    let config = make_config();
    let mut engine = open(config);
    // Flushing an empty engine should succeed (no-op).
    assert!(engine.flush().is_ok());
    engine.flush().unwrap();
}

#[test]
fn test_scan_all_range() {
    let config = make_config();
    let mut engine = open(config);
    let iter = engine.scan(ScanRange::all()).unwrap();
    let results: Vec<_> = iter.collect_all();
    assert!(results.is_empty());
    engine.flush().unwrap();
}

#[test]
fn test_query_empty_result() {
    let config = make_config();
    let mut engine = open(config);
    let results = engine.query_by_key_range("z", "zzz").unwrap();
    assert!(results.is_empty());
    engine.flush().unwrap();
}

#[test]
fn test_write_batch_owned() {
    let mut engine = open(make_config());
    let records = vec![make_record("owned1", 1), make_record("owned2", 2)];
    engine.write_batch_owned(records).unwrap();
    let r = engine.get("owned1", 1).unwrap();
    assert!(r.is_some());
    engine.flush().unwrap();
}

#[test]
fn test_write_batch_sync() {
    let mut engine = open(make_config());
    engine
        .write_batch_sync(vec![make_record("sync1", 1), make_record("sync2", 2)])
        .unwrap();
    let r = engine.get("sync1", 1).unwrap();
    assert!(r.is_some());
    // Empty batch should be a no-op.
    engine.write_batch_sync(vec![]).unwrap();
    engine.flush().unwrap();
}

#[test]
fn test_write_batch_owned_empty() {
    let mut engine = open(make_config());
    engine.write_batch_owned(vec![]).unwrap();
    engine.flush().unwrap();
}

#[test]
fn test_write_batch_ttl_path() {
    let mut engine = open(make_config());
    engine
        .write_batch_ttl(&[make_record("ttl1", 1)], Some(u32::MAX as u64))
        .unwrap();
    let r = engine.get("ttl1", 1).unwrap().unwrap();
    assert!(r.expire_at < i64::MAX);
    engine.flush().unwrap();
}

#[test]
fn test_write_batch_owned_ttl_path() {
    let mut engine = open(make_config());
    engine
        .write_batch_owned_ttl(vec![make_record("ot", 1)], Some(u32::MAX as u64))
        .unwrap();
    let r = engine.get("ot", 1).unwrap().unwrap();
    assert!(r.expire_at < i64::MAX);
    engine.flush().unwrap();
}

#[test]
fn test_get_missing_key() {
    let mut engine = open(make_config());
    assert!(engine.get("missing", 1).unwrap().is_none());
    assert!(engine.get_sync("missing", 1).is_none());
    engine.flush().unwrap();
}

#[test]
fn test_get_latest_async_path() {
    let mut engine = open(make_config());
    engine
        .write_batch(&[
            make_record("gl", 1),
            make_record("gl", 5),
            make_record("gl", 3),
        ])
        .unwrap();
    let latest = engine.get_latest("gl").unwrap().unwrap();
    assert_eq!(latest.ts, 5);
    engine.flush().unwrap();
}

#[test]
fn test_get_latest_missing() {
    let mut engine = open(make_config());
    assert!(engine.get_latest("no-such-key").unwrap().is_none());
    engine.flush().unwrap();
}

#[test]
fn test_delete_batch_empty_noop() {
    let mut engine = open(make_config());
    engine.delete_batch(&[]).unwrap();
    engine.flush().unwrap();
}

#[test]
fn test_patch_missing_record() {
    let mut engine = open(make_config());
    let err = engine.patch_record("ghost", 1, Some(b"v".to_vec()), None);
    assert!(err.is_err());
    engine.flush().unwrap();
}

#[test]
fn test_patch_value_and_ttl() {
    let mut engine = open(make_config());
    engine.write_batch(&[make_record("p", 1)]).unwrap();
    let patched = engine
        .patch_record("p", 1, Some(b"new".to_vec()), Some(u32::MAX as u64))
        .unwrap();
    assert_eq!(patched.value, b"new");
    assert!(patched.expire_at < i64::MAX);
    engine.flush().unwrap();
}

#[test]
fn test_query_convenience_wrappers() {
    let mut engine = open(make_config());
    engine
        .write_batch(&[
            make_record("k1", 10),
            make_record("k1", 20),
            make_record("k2", 30),
        ])
        .unwrap();

    assert_eq!(engine.query_by_prefix("k1").unwrap().len(), 2);
    assert_eq!(engine.query_time_range(0, 100).unwrap().len(), 3);
    assert_eq!(
        engine.query_prefix_time_range("k1", 0, 100).unwrap().len(),
        2
    );
    assert_eq!(
        engine
            .query_key_time_range("k1", "k2", 0, 100)
            .unwrap()
            .len(),
        3
    );
    engine.flush().unwrap();
}

#[test]
fn test_scan_convenience_wrappers() {
    let mut engine = open(make_config());
    engine
        .write_batch(&[make_record("c1", 1), make_record("c2", 2)])
        .unwrap();
    let r: Vec<_> = engine
        .scan_prefix_time_range("c", 0, 100)
        .unwrap()
        .collect_all();
    assert_eq!(r.len(), 2);
    engine.flush().unwrap();
}

#[test]
fn test_get_sync_after_flush() {
    let mut engine = open(make_config());
    engine.write_batch(&[make_record("ss", 7)]).unwrap();
    engine.flush().unwrap();
    let r = engine.get_sync("ss", 7).unwrap();
    assert_eq!(r.value, vec![1, 2, 3]);
    engine.flush().unwrap();
}

#[test]
fn test_engine_with_default_ttl() {
    let mut cfg = make_config();
    cfg.default_ttl_secs = Some(u32::MAX as u64);
    let mut engine = open(cfg);
    engine.write_batch(&[make_record("dttl", 1)]).unwrap();
    let r = engine.get("dttl", 1).unwrap().unwrap();
    assert!(r.expire_at < i64::MAX);
    engine.flush().unwrap();
}

#[test]
fn test_scan_all_after_flush() {
    let mut engine = open(make_config());
    engine
        .write_batch(&[make_record("fa", 1), make_record("fb", 2)])
        .unwrap();
    engine.flush().unwrap();
    let r: Vec<_> = engine
        .scan(ScanRange::all())
        .unwrap()
        .collect_all();
    assert!(r.len() >= 2);
    engine.flush().unwrap();
}

#[test]
fn test_scan_all_with_tombstone_merge() {
    let mut engine = open(make_config());
    // Multiple keys, then a delete tombstone forces dedup work.
    engine
        .write_batch(&[
            make_record("tm1", 1),
            make_record("tm2", 1),
            make_record("tm3", 1),
        ])
        .unwrap();
    engine.flush().unwrap();
    // Add a memtable-side delete to force memtable + SST merge with tombstone.
    engine.delete_batch(&[("tm2".into(), 1)]).unwrap();
    let r: Vec<_> = engine
        .scan(ScanRange::all())
        .unwrap()
        .collect_all();
    // tm2 is deleted, only tm1 and tm3 should remain.
    assert!(r.iter().all(|x| x.key != b"tm2"));
    engine.flush().unwrap();
}

#[test]
fn test_regression_get_after_delete_same_key_ts() {
    let mut engine = open(make_config());
    engine
        .write_batch(&[Record {
            key: b"rd".to_vec(),
            ts: 100,
            expire_at: i64::MAX,
            value: b"data".to_vec(),
        }])
        .unwrap();
    // Delete the exact same (key, ts).
    engine.delete_batch(&[("rd".into(), 100)]).unwrap();
    // Point lookup must NOT find the deleted record.
    assert!(
        engine.get("rd", 100).unwrap().is_none(),
        "get after delete must return None — the delete tombstone has higher seq"
    );
    engine.flush().unwrap();
}

#[test]
fn test_regression_get_returns_latest_version() {
    let mut engine = open(make_config());
    // Write twice with the same (key, ts) but different values.
    // write_batch assigns increasing seq numbers internally.
    engine
        .write_batch(&[Record {
            key: b"ov".to_vec(),
            ts: 50,
            expire_at: i64::MAX,
            value: b"v1".to_vec(),
        }])
        .unwrap();
    engine
        .write_batch(&[Record {
            key: b"ov".to_vec(),
            ts: 50,
            expire_at: i64::MAX,
            value: b"v2".to_vec(),
        }])
        .unwrap();
    let r = engine.get("ov", 50).unwrap().unwrap();
    assert_eq!(
        r.value, b"v2",
        "get must return the latest version (v2), not the stale one (v1)"
    );
    engine.flush().unwrap();
}

#[test]
fn test_regression_config_validation_in_open() {
    let mut cfg = make_config();
    cfg.time_bucket_secs = 0;
    let result = Engine::open(cfg);
    assert!(
        result.is_err(),
        "Engine::open must reject time_bucket_secs=0 (div-by-zero)"
    );
}

#[test]
fn test_regression_config_memtable_zero_rejected() {
    let mut cfg = make_config();
    cfg.memtable_size_mb = 0;
    let result = Engine::open(cfg);
    assert!(result.is_err());
}

#[test]
fn test_full_scan_correctness_after_perblock_fix() {
    let mut cfg = make_config();
    cfg.block_size = 10; // small blocks to create many blocks
    cfg.auto_background = false;
    let mut engine = open(cfg);

    // Write enough records to span multiple blocks per SST.
    let mut expected_keys = Vec::new();
    for batch in 0..3u64 {
        let records: Vec<Record> = (0..25)
            .map(|i| {
                let key = format!("fs_{:04}", batch * 25 + i);
                expected_keys.push(key.clone());
                Record {
                    key: key.into_bytes(),
                    ts: (batch * 25 + i) as i64,
                    expire_at: i64::MAX,
                    value: vec![1],
                }
            })
            .collect();
        engine.write_batch(&records).unwrap();
        engine.flush().unwrap();
    }

    // Full scan via scan(ScanRange::all()).
    let results: Vec<Record> = engine
        .scan(ScanRange::all())
        .unwrap()
        .collect_all();

    // All non-deleted records should be returned.
    assert_eq!(
        results.len(),
        expected_keys.len(),
        "full scan must return all {} records, got {}",
        expected_keys.len(),
        results.len()
    );

    // Verify ascending key order.
    for i in 1..results.len() {
        assert!(
            results[i - 1].key <= results[i].key,
            "results must be in ascending key order at index {}",
            i
        );
    }

    engine.flush().unwrap();
}

#[test]
fn test_single_file_engine_write_read() {
    let config = make_config_single_file();
    let mut engine = open(config);

    engine
        .write_batch(&[make_record("a", 100), make_record("b", 200)])
        .unwrap();

    let results = engine.query_by_prefix("").unwrap();
    assert_eq!(results.len(), 2);

    engine.flush().unwrap();
}

#[test]
fn test_single_file_engine_flush_and_query() {
    let config = make_config_single_file();
    let mut engine = open(config);

    let records: Vec<Record> = (0..50)
        .map(|i| make_record(&format!("key_{:04}", i), i * 10))
        .collect();
    engine.write_batch(&records).unwrap();
    engine.flush().unwrap();

    let results = engine.query_by_prefix("key_").unwrap();
    assert_eq!(results.len(), 50);

    engine.flush().unwrap();
}

#[test]
fn test_single_file_engine_compaction() {
    let config = make_config_single_file();
    let mut engine = open(config);

    for batch in 0..10u64 {
        let records: Vec<Record> = (0..5)
            .map(|i| Record {
                key: format!("compact_{}-{}", batch, i).into_bytes(),
                ts: (batch * 100 + i) as i64,
                expire_at: i64::MAX,
                value: vec![1, 2, 3],
            })
            .collect();
        engine.write_batch(&records).unwrap();
        engine.flush().unwrap();
    }

    let did = engine.trigger_compaction().unwrap();
    assert!(did, "compaction should have run");

    let results = engine.query_by_prefix("compact_").unwrap();
    assert_eq!(results.len(), 50, "all records should survive compaction");

    engine.flush().unwrap();
}

#[test]
fn test_single_file_engine_point_lookup_after_flush() {
    let config = make_config_single_file();
    let mut engine = open(config);

    let records: Vec<Record> = (0..20)
        .map(|i| make_record(&format!("pt_{:03}", i), i * 10))
        .collect();
    engine.write_batch(&records).unwrap();
    engine.flush().unwrap();

    // Point lookup should find the latest version.
    let result = engine.get_latest("pt_010").unwrap();
    assert!(result.is_some());
    assert_eq!(result.unwrap().ts, 100);

    engine.flush().unwrap();
}

#[test]
fn test_single_file_engine_scan_after_flush() {
    let config = make_config_single_file();
    let mut engine = open(config);

    let records: Vec<Record> = (0..30)
        .map(|i| make_record(&format!("scan_{:03}", i), i))
        .collect();
    engine.write_batch(&records).unwrap();
    engine.flush().unwrap();

    let iter = engine.scan_prefix("scan_").unwrap();
    let collected: Vec<Record> = iter.collect_all();
    assert_eq!(collected.len(), 30);

    engine.flush().unwrap();
}

#[test]
fn test_single_file_engine_multi_sst_query() {
    let config = make_config_single_file();
    let mut engine = open(config);

    // Create multiple SSTs
    for batch in 0..5u64 {
        let records: Vec<Record> = (0..10)
            .map(|i| make_record(&format!("b{}-{:02}", batch, i), (batch * 100 + i) as i64))
            .collect();
        engine.write_batch(&records).unwrap();
        engine.flush().unwrap();
    }

    // Query across all SSTs
    let results = engine.query_by_prefix("b").unwrap();
    assert_eq!(results.len(), 50);

    engine.flush().unwrap();
}

#[test]
fn test_single_file_engine_overwrite_and_compact() {
    let config = make_config_single_file();
    let mut engine = open(config);

    // Write initial data
    let r1: Vec<Record> = (0..10)
        .map(|i| Record {
            key: format!("ow_{:02}", i).into_bytes(),
            ts: 1,
            expire_at: i64::MAX,
            value: vec![1],
        })
        .collect();
    engine.write_batch(&r1).unwrap();
    engine.flush().unwrap();

    // Overwrite with newer timestamps
    let r2: Vec<Record> = (0..10)
        .map(|i| Record {
            key: format!("ow_{:02}", i).into_bytes(),
            ts: 2,
            expire_at: i64::MAX,
            value: vec![2],
        })
        .collect();
    engine.write_batch(&r2).unwrap();
    engine.flush().unwrap();

    // Compact to merge the two SSTs
    engine.trigger_compaction().unwrap();

    // Both versions exist (compaction dedups by key+ts, not key alone)
    let results = engine.query_by_prefix("ow_").unwrap();
    assert_eq!(results.len(), 20);

    // But get_latest returns the newest version
    for i in 0..10 {
        let latest = engine.get_latest(&format!("ow_{:02}", i)).unwrap();
        assert!(latest.is_some());
        assert_eq!(latest.unwrap().ts, 2, "latest version should have ts=2");
    }

    engine.flush().unwrap();
}

#[test]
fn test_single_file_engine_delete_range() {
    let config = make_config_single_file();
    let mut engine = open(config);

    let records: Vec<Record> = (0..20)
        .map(|i| make_record(&format!("dr_{:03}", i), i))
        .collect();
    engine.write_batch(&records).unwrap();
    engine.flush().unwrap();

    // Delete records 5–14
    engine
        .delete_range("dr_005", "dr_015")
        .unwrap();

    let results = engine.query_by_prefix("dr_").unwrap();
    // dr_000–dr_004 survive (5) + dr_015–dr_019 survive (5) = 10
    assert_eq!(results.len(), 10);

    engine.flush().unwrap();
}

#[test]
fn test_single_file_engine_bloom_filter() {
    let config = make_config_single_file();
    let mut engine = open(config);

    let records: Vec<Record> = (0..50)
        .map(|i| make_record(&format!("bf_{:03}", i), i))
        .collect();
    engine.write_batch(&records).unwrap();
    engine.flush().unwrap();

    // Key that exists
    assert!(engine.get_latest("bf_025").unwrap().is_some());

    // Key that doesn't exist (bloom should quickly reject)
    assert!(engine.get_latest("nonexistent").unwrap().is_none());

    engine.flush().unwrap();
}

#[test]
fn test_scan_lazy_does_not_materialize_all() {
    let mut engine = open(make_config());

    // Write 100 records
    for i in 0..100u64 {
        engine
            .write_batch(&[Record {
                key: format!("k{:03}", i).into_bytes(),
                ts: i as i64,
                expire_at: i64::MAX,
                value: vec![42u8; 32],
            }])
            .unwrap();
    }

    // Take only first 5 from the iterator
    let mut iter = engine.scan(ScanRange::all()).unwrap();
    let mut first_5: Vec<Record> = Vec::new();
    for _ in 0..5 {
        first_5.push(iter.next().unwrap());
    }
    assert_eq!(first_5.len(), 5);
    assert_eq!(first_5[0].key, b"k000");
    assert_eq!(first_5[4].key, b"k004");
}

/// Writers that take turns.
#[test]
fn test_engine_concurrent_writes() {
    let mut engine = open(make_config());
    for i in 0..25u64 {
        for t in 0..4u64 {
            let rec = make_record(&format!("t{}-{}", t, i), (t * 100 + i) as i64);
            engine.write_batch(&[rec]).unwrap();
        }
    }
    assert_eq!(engine.query_by_prefix("t").unwrap().len(), 100);
}

/// Writers that take turns.
#[test]
fn test_single_file_engine_concurrent_writes() {
    let mut engine = open(make_config_single_file());
    for i in 0..25u64 {
        for t in 0..4u64 {
            let key = format!("t{}-key{}", t, i);
            engine
                .write_batch(&[Record {
                    key: key.into_bytes(),
                    ts: (t * 100 + i) as i64,
                    expire_at: i64::MAX,
                    value: vec![1, 2, 3, 4],
                }])
                .unwrap();
        }
    }
    engine.flush().unwrap();
    let results = engine.query_by_prefix("").unwrap();
    assert_eq!(results.len(), 100);
}

/// A read between the steps of a flush.
#[test]
fn test_flush_does_not_block_runtime() {
    let mut engine = open(make_config());
    engine
        .write_batch(&[make_record("a", 1), make_record("b", 2)])
        .unwrap();
    let job = engine.begin_flush().unwrap().unwrap();
    let r = engine.get("a", 1).unwrap();
    assert!(r.is_some());
    engine.finish_flush(job);
    let r = engine.get("a", 1).unwrap();
    assert!(r.is_some());
}

/// Repeated patches of one record: none is lost.
#[test]
fn test_patch_record_concurrent_safety() {
    let mut engine = open(make_config());
    engine.write_batch(&[make_record("k", 1)]).unwrap();
    for i in 0..10 {
        let new_val = vec![i as u8];
        engine.patch_record("k", 1, Some(new_val), None).unwrap();
    }
    let final_val = engine.get("k", 1).unwrap().unwrap();
    assert_ne!(final_val.value, vec![1u8]);
    assert_eq!(final_val.value, vec![9u8]);
}

fn expiring(engine: &mut Engine) {
    let records: Vec<Record> = (0..10)
        .map(|i| Record {
            key: format!("gc_key_{}", i).into_bytes(),
            ts: NOW,
            expire_at: i64::MAX,
            value: vec![1, 2, 3],
        })
        .collect();

    engine.write_batch_ttl(&records, Some(1)).unwrap();
    engine.flush().unwrap();

    let results = engine.query_by_prefix("gc_key_").unwrap();
    assert_eq!(results.len(), 10);

    engine.set_time(NOW + 2_000_000);

    let purged = engine.trigger_gc().unwrap();
    assert!(purged > 0);

    let results = engine.query_by_prefix("gc_key_").unwrap();
    assert!(results.is_empty());
}

#[test]
fn test_engine_gc_removes_expired_sstables() {
    let mut engine = open(make_config());
    expiring(&mut engine);
}

#[test]
fn test_single_file_engine_gc() {
    let mut engine = open(make_config_single_file());
    expiring(&mut engine);
}

#[test]
fn test_background_compaction_evicts_stale_readers() {
    let mut cfg = make_config();
    cfg.compaction_threshold = 3;
    cfg.flush_interval_ms = 60000;
    cfg.auto_background = false;
    let mut engine = Engine::open(cfg).unwrap();

    for batch in 0..5u64 {
        let records: Vec<Record> = (0..10)
            .map(|i| Record {
                key: format!("k{:03}-{}", batch, i).into_bytes(),
                ts: (batch * 100 + i) as i64,
                expire_at: i64::MAX,
                value: vec![1, 2, 3],
            })
            .collect();
        engine.write_batch(&records).unwrap();
        engine.flush().unwrap();
    }

    let _ = engine.get("k000-0", 0).unwrap();
    let _ = engine.get("k001-0", 100).unwrap();
    let _ = engine.get("k002-0", 200).unwrap();
    let _ = engine.get("k003-0", 300).unwrap();
    let _ = engine.get("k004-0", 400).unwrap();

    let readers = |e: &Engine| -> Vec<u32> { (0..100).filter(|id| e.has_reader(*id)).collect() };
    let readers_before = readers(&engine).len();
    assert!(readers_before >= 3, "should have cached several readers");

    let did = engine.trigger_compaction().unwrap();
    assert!(did, "compaction should have merged SSTs");

    let readers_after = readers(&engine).len();
    assert!(
        readers_after < readers_before,
        "reader count should decrease after compaction: before={}, after={}",
        readers_before,
        readers_after
    );

    let active = engine.active_ssts();
    for sst_id in readers(&engine) {
        assert!(
            active.contains(&sst_id),
            "stale reader for sst {} survived eviction",
            sst_id
        );
    }
}

#[test]
fn test_engine_stats() {
    let mut engine = Engine::open(make_config()).unwrap();
    let mut counters = StatsCounters::new();
    let batch = [make_record("a", 100), make_record("b", 200)];
    engine.write_batch(&batch).unwrap();
    counters.records_written(batch.len() as u64);

    let stats = engine.stats(&counters, 0);
    assert_eq!(stats.total_records_written, 2);
    assert!(stats.uptime_secs == 0 || stats.uptime_secs <= 5);
}

#[test]
fn test_metrics_text_nonempty() {
    let engine = Engine::open(make_config()).unwrap();
    let text = engine.metrics_text(&StatsCounters::new(), 0);
    assert!(!text.is_empty());
    assert!(text.contains("flowdb_"));
}

#[test]
fn stats_count_what_happened() {
    let mut engine = Engine::open(make_config()).unwrap();
    let mut counters = StatsCounters::new();
    engine.write_batch(&[make_record("a", 100), make_record("b", 200)]).unwrap();
    counters.records_written(2);
    engine.flush().unwrap();
    counters.flush_done();
    counters.records_read(u64::MAX);
    counters.records_read(3);
    counters.compaction_done();
    counters.gc_done(4);
    let stats = engine.stats(&counters, 7);
    assert_eq!(stats.total_records_read, 2);
    assert_eq!((stats.flushes, stats.compactions, stats.ssts_collected), (1, 1, 4));
    assert_eq!((stats.sst_count, stats.index_entries, stats.index_buckets), (1, 1, 1));
    assert!(stats.sst_bytes > 0);
    let text = engine.metrics_text(&counters, 7);
    assert!(text.starts_with(
        "# TYPE flowdb_records_written_total counter\nflowdb_records_written_total 2\n"
    ));
    assert!(text.ends_with("# TYPE flowdb_uptime_seconds gauge\nflowdb_uptime_seconds 7\n"));
}
