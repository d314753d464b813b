//! Records, queries, scan ranges and the configuration.

use flowdb::bytes::increment_prefix_bytes;
use flowdb::record::{Bound, InternalRecord};
use flowdb::{Config, KeyFilter, Query, ReadOptions, Record, ScanRange, SyncMode};

#[test]
fn test_internal_record_estimated_size() {
    let rec = Record {
        key: b"hello".to_vec(),
        ts: 100,
        expire_at: i64::MAX,
        value: vec![1, 2, 3, 4, 5],
    };
    let irec = InternalRecord::from_record(&rec, 1);
    let expected = 8 + 1 + 2 + 5 + 8 + 8 + 4 + 5;
    assert_eq!(irec.estimated_size(), expected);
}

#[test]
fn test_internal_record_estimated_size_empty() {
    let rec = Record {
        key: Vec::new(),
        ts: 0,
        expire_at: 0,
        value: Vec::new(),
    };
    let irec = InternalRecord::from_record(&rec, 0);
    let expected = (8 + 1 + 2) + 8 + 8 + 4;
    assert_eq!(irec.estimated_size(), expected);
}

#[test]
fn test_query_key_time_range_constructor() {
    let q = Query::key_time_range("a", "z", 100, 200);
    match &q.key_filter {
        KeyFilter::Range { start, end } => {
            assert_eq!(start.as_slice(), b"a".as_slice());
            assert_eq!(end.as_slice(), b"z".as_slice());
        }
        _ => panic!("expected range"),
    }
    assert_eq!(q.time_range, Some((100, 200)));
}

#[test]
fn test_query_prefix_time_range_constructor() {
    let q = Query::prefix_time_range("key", 100, 200);
    match &q.key_filter {
        KeyFilter::Prefix(k) => assert_eq!(k.as_slice(), b"key".as_slice()),
        _ => panic!("expected prefix"),
    }
    assert_eq!(q.time_range, Some((100, 200)));
}

#[test]
fn test_query_time_range_constructor() {
    let q = Query::time_range(100, 200);
    assert!(matches!(q.key_filter, KeyFilter::All));
    assert_eq!(q.time_range, Some((100, 200)));
}

#[test]
fn record_test_config_default_values() {
    let config = Config::default();
    assert_eq!(config.data_dir, "./data");
    assert_eq!(config.default_ttl_secs, None);
    assert_eq!(config.gc_interval_secs, 3600);
    assert_eq!(config.memtable_size_mb, 64);
    assert_eq!(config.max_frozen_memtables, 2);
    assert_eq!(config.block_size, 8192);
    assert_eq!(config.flush_interval_ms, 1000);
    assert_eq!(config.time_bucket_secs, 3600);
    assert_eq!(config.index_memory_budget_mb, 256);
    assert_eq!(config.block_cache_capacity_mb, 128);
    assert_eq!(config.bloom_bits_per_key, 10);
    assert_eq!(config.wal_segment_size_mb, 64);
    assert_eq!(config.compaction_threshold, 2);
    assert_eq!(config.compaction_interval_ms, 60_000);
    assert!(config.create_if_missing);
}

#[test]
fn test_internal_record_from_to_record_roundtrip() {
    let rec = Record {
        key: b"test".to_vec(),
        ts: 42,
        expire_at: 100,
        value: vec![7, 8, 9],
    };
    let irec = InternalRecord::from_record(&rec, 99);
    assert_eq!(irec.seq, 99);
    assert_eq!(irec.key, b"test".as_slice());
    assert_eq!(irec.ts, 42);
    assert_eq!(irec.expire_at, 100);
    assert_eq!(irec.value, vec![7, 8, 9]);

    let back = irec.to_record();
    assert_eq!(back.key, rec.key);
    assert_eq!(back.ts, rec.ts);
    assert_eq!(back.expire_at, rec.expire_at);
    assert_eq!(back.value, rec.value);
}

#[test]
fn test_read_options_default() {
    let opts = ReadOptions::default();
    assert!(opts.fill_cache);
    assert!(opts.verify_checksums);
}

#[test]
fn test_scan_range_prefix() {
    let r = ScanRange::prefix("foo");
    assert!(matches!(r.key_start, Bound::Included(_)));
    assert!(matches!(r.key_end, Bound::Excluded(_)));
    assert!(matches!(r.ts_start, Bound::Unbounded));
    let (kf, tr) = r.to_query_params();
    assert!(matches!(kf, KeyFilter::Prefix(_)));
    assert!(tr.is_none());
}

#[test]
fn test_scan_range_time_range() {
    let r = ScanRange::time_range(10, 20);
    assert!(matches!(r.key_start, Bound::Unbounded));
    let (kf, tr) = r.to_query_params();
    assert!(matches!(kf, KeyFilter::All));
    assert_eq!(tr, Some((10, 20)));
}

#[test]
fn test_scan_range_prefix_time_range() {
    let r = ScanRange::prefix_time_range("bar", 1, 100);
    let (kf, tr) = r.to_query_params();
    assert!(matches!(kf, KeyFilter::Prefix(_)));
    assert_eq!(tr, Some((1, 100)));
}

#[test]
fn test_scan_range_key_range() {
    let r = ScanRange::key_range("a", "z");
    let (kf, tr) = r.to_query_params();
    match kf {
        KeyFilter::Range { start, end } => {
            assert_eq!(start, b"a");
            assert_eq!(end, b"z");
        }
        _ => panic!("expected range"),
    }
    assert!(tr.is_none());
}

#[test]
fn record_test_scan_range_all() {
    let r = ScanRange::all();
    let (kf, tr) = r.to_query_params();
    assert!(matches!(kf, KeyFilter::All));
    assert!(tr.is_none());
}

#[test]
fn test_increment_prefix_bytes() {
    assert_eq!(increment_prefix_bytes(b"abc"), b"abd");
    assert_eq!(increment_prefix_bytes(b"a\xff"), b"b");
    // \xff\xff → all bytes overflow, sentinel [0xff, 0xff, 0] appended
    assert_eq!(increment_prefix_bytes(b"\xff\xff"), vec![0xff, 0xff, 0]);
}

#[test]
fn test_sync_mode_default() {
    assert_eq!(SyncMode::default(), SyncMode::Always);
}

#[test]
fn test_scan_range_key_time_range() {
    let r = ScanRange::key_time_range("a", "z", 100, 200);
    let (kf, tr) = r.to_query_params();
    match kf {
        KeyFilter::Range { start, end } => {
            assert_eq!(start, b"a");
            assert_eq!(end, b"z");
        }
        _ => panic!("expected range"),
    }
    assert_eq!(tr, Some((100, 200)));
}

#[test]
fn test_config_validate_ok() {
    let cfg = Config {
        data_dir: "flowdb-validate-ok".to_string(),
        ..Default::default()
    };
    assert!(cfg.validate().is_ok());
}

#[test]
fn test_config_validate_time_bucket_zero() {
    let cfg = Config {
        time_bucket_secs: 0,
        ..Default::default()
    };
    assert!(
        cfg.validate().is_err(),
        "time_bucket_secs=0 must be rejected (div-by-zero)"
    );
}

#[test]
fn test_config_validate_memtable_zero() {
    let cfg = Config {
        memtable_size_mb: 0,
        ..Default::default()
    };
    assert!(cfg.validate().is_err());
}

#[test]
fn test_config_validate_max_frozen_zero() {
    let cfg = Config {
        max_frozen_memtables: 0,
        ..Default::default()
    };
    assert!(cfg.validate().is_err());
}

#[test]
fn test_config_validate_block_size_zero() {
    let cfg = Config {
        block_size: 0,
        ..Default::default()
    };
    assert!(cfg.validate().is_err());
}

#[test]
fn test_config_validate_bloom_zero() {
    let cfg = Config {
        bloom_bits_per_key: 0,
        ..Default::default()
    };
    assert!(cfg.validate().is_err());
}

#[test]
fn test_config_validate_wal_segment_zero() {
    let cfg = Config {
        wal_segment_size_mb: 0,
        ..Default::default()
    };
    assert!(cfg.validate().is_err());
}

#[test]
fn test_config_validate_compaction_threshold_zero() {
    let cfg = Config {
        compaction_threshold: 0,
        ..Default::default()
    };
    assert!(cfg.validate().is_err());
}

#[test]
fn test_config_validate_compaction_interval_zero() {
    let cfg = Config {
        compaction_interval_ms: 0,
        ..Default::default()
    };
    assert!(cfg.validate().is_err());
}

#[test]
fn test_config_validate_cache_zero() {
    let cfg = Config {
        block_cache_capacity_mb: 0,
        ..Default::default()
    };
    assert!(cfg.validate().is_err());
}

#[test]
fn test_config_validate_ttl_zero() {
    let cfg = Config {
        default_ttl_secs: Some(0),
        ..Default::default()
    };
    assert!(cfg.validate().is_err());
}

#[test]
fn test_config_validate_ttl_overflow() {
    // i64::MAX / 1_000_000 ≈ 9.22e12; anything above that overflows
    // when converted to microseconds.
    let cfg = Config {
        default_ttl_secs: Some((i64::MAX as u64 / 1_000_000) + 1),
        ..Default::default()
    };
    assert!(cfg.validate().is_err());
}

#[test]
fn test_config_validate_time_bucket_overflow() {
    // time_bucket_secs * 1_000_000 must fit in i64.
    let max_bucket = i64::MAX as u64 / 1_000_000;
    let cfg = Config {
        time_bucket_secs: max_bucket + 1,
        ..Default::default()
    };
    assert!(cfg.validate().is_err());
}

#[test]
fn lib_test_config_default_values() {
    let config = Config::default();
    assert_eq!(config.data_dir, "./data");
    assert_eq!(config.default_ttl_secs, None);
    assert_eq!(config.gc_interval_secs, 3600);
    assert_eq!(config.memtable_size_mb, 64);
    assert_eq!(config.max_frozen_memtables, 2);
    assert_eq!(config.block_size, 8192);
    assert_eq!(config.flush_interval_ms, 1000);
    assert_eq!(config.time_bucket_secs, 3600);
    assert_eq!(config.index_memory_budget_mb, 256);
    assert_eq!(config.block_cache_capacity_mb, 128);
    assert_eq!(config.bloom_bits_per_key, 10);
    assert_eq!(config.wal_segment_size_mb, 64);
    assert_eq!(config.compaction_threshold, 2);
    assert!(config.create_if_missing);
}
