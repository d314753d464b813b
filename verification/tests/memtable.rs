//! Memtables: the tables that hold what was written last.

use flowdb::memtable::MemTable;
use flowdb::memtables::MemTables;
use flowdb::record::{InternalRecord, Op, Record};

fn make_rec(key: &str, ts: i64, seq: u64) -> InternalRecord {
    InternalRecord::from_record(
        &Record {
            key: key.as_bytes().to_vec(),
            ts,
            expire_at: i64::MAX,
            value: vec![1, 2, 3],
        },
        seq,
    )
}

#[test]
fn test_memtable_insert_query() {
    let mut mt = MemTable::new();
    mt.insert(make_rec("a", 100, 1));
    mt.insert(make_rec("a", 200, 2));
    mt.insert(make_rec("b", 100, 3));

    let result = mt.query_prefix(b"a", i64::MAX);
    assert_eq!(result.len(), 2);
}

#[test]
fn test_memtable_time_range() {
    let mut mt = MemTable::new();
    mt.insert(make_rec("a", 100, 1));
    mt.insert(make_rec("a", 200, 2));
    mt.insert(make_rec("b", 300, 3));

    let result = mt.query_time_range(150, 300, i64::MAX);
    assert_eq!(result.len(), 2);
}

#[test]
fn test_memtable_key_range() {
    let mut mt = MemTable::new();
    mt.insert(make_rec("a", 100, 1));
    mt.insert(make_rec("b", 100, 2));
    mt.insert(make_rec("c", 100, 3));

    let result = mt.query_key_range(b"a", b"b", i64::MAX);
    assert_eq!(result.len(), 2);
}

#[test]
fn test_memtable_expiry() {
    let mut mt = MemTable::new();
    let mut rec = make_rec("a", 100, 1);
    rec.expire_at = 50;
    mt.insert(rec);
    mt.insert(make_rec("b", 100, 2));

    let result = mt.query_prefix(b"a", 100);
    assert!(result.is_empty());
}

#[test]
fn test_memtables_freeze() {
    let mut mts = MemTables::new(2, 1024);
    mts.insert(make_rec("a", 100, 1));
    assert!(mts.freeze());
    assert_eq!(mts.frozen_count(), 1);

    let results = mts.query_prefix(b"a", i64::MAX);
    assert_eq!(results.len(), 1);
}

#[test]
fn test_memtables_drain_frozen() {
    let mut mts = MemTables::new(2, 1024);
    mts.insert(make_rec("a", 100, 1));
    mts.freeze();

    let frozen = mts.pop_frozen().unwrap();
    assert_eq!(frozen.len(), 1);
    assert_eq!(mts.frozen_count(), 0);
}

#[test]
fn test_memtable_query_prefix_time_range() {
    let mut mt = MemTable::new();
    mt.insert(make_rec("a", 100, 1));
    mt.insert(make_rec("a", 200, 2));
    mt.insert(make_rec("a", 300, 3));
    mt.insert(make_rec("b", 200, 4));

    let result = mt.query_prefix_time_range(b"a", 150, 250, i64::MAX);
    assert_eq!(result.len(), 1);
    assert_eq!(result[0].ts, 200);
}

#[test]
fn test_memtable_query_key_time_range() {
    let mut mt = MemTable::new();
    mt.insert(make_rec("a", 100, 1));
    mt.insert(make_rec("b", 200, 2));
    mt.insert(make_rec("c", 300, 3));
    mt.insert(make_rec("d", 400, 4));

    let result = mt.query_key_time_range(b"b", b"c", 150, 350, i64::MAX);
    assert_eq!(result.len(), 2);
}

#[test]
fn test_memtable_len_is_empty_bytes() {
    let mut mt = MemTable::new();
    assert!(mt.is_empty());
    assert_eq!(mt.len(), 0);
    assert_eq!(mt.bytes(), 0);

    mt.insert(make_rec("a", 100, 1));
    assert!(!mt.is_empty());
    assert_eq!(mt.len(), 1);
    assert!(mt.bytes() > 0);

    mt.insert(make_rec("b", 200, 2));
    assert_eq!(mt.len(), 2);
}

#[test]
fn test_memtable_iter_sorted() {
    // Vec-backed memtable: call sort() before iter_sorted().
    let mut mt = MemTable::new();
    mt.insert(make_rec("c", 300, 3));
    mt.insert(make_rec("a", 100, 1));
    mt.insert(make_rec("b", 200, 2));
    mt.sort();

    let keys: Vec<Vec<u8>> = mt.iter_sorted().iter().map(|r| r.key.clone()).collect();
    assert_eq!(keys, vec![b"a".to_vec(), b"b".to_vec(), b"c".to_vec()]);
}

#[test]
fn test_memtable_get() {
    let mut mt = MemTable::new();
    mt.insert(make_rec("a", 100, 1));
    mt.insert(make_rec("b", 200, 2));

    let result = mt.get(b"a", 100);
    assert!(result.is_some());
    assert_eq!(result.unwrap().key, b"a".to_vec());

    let result = mt.get(b"c", 100);
    assert!(result.is_none());
}

#[test]
fn test_memtable_query_prefix_time_range_expiry() {
    let mut mt = MemTable::new();
    let mut rec = make_rec("a", 100, 1);
    rec.expire_at = 50;
    mt.insert(rec);
    mt.insert(make_rec("a", 200, 2));

    let result = mt.query_prefix_time_range(b"a", 0, 300, 60);
    assert_eq!(result.len(), 1);
    assert_eq!(result[0].ts, 200);
}

#[test]
fn test_memtable_query_key_time_range_expiry() {
    let mut mt = MemTable::new();
    let mut rec = make_rec("b", 200, 2);
    rec.expire_at = 50;
    mt.insert(rec);
    mt.insert(make_rec("a", 100, 1));
    mt.insert(make_rec("c", 300, 3));

    let result = mt.query_key_time_range(b"a", b"c", 0, 400, 60);
    assert_eq!(result.len(), 2);
}

#[test]
fn test_memtables_query_prefix_time_range() {
    let mut mts = MemTables::new(2, 1024);
    mts.insert(make_rec("a", 100, 1));
    mts.insert(make_rec("a", 200, 2));
    mts.freeze();
    mts.insert(make_rec("a", 300, 3));

    let results = mts.query_prefix_time_range(b"a", 50, 250, i64::MAX);
    assert_eq!(results.len(), 2);
}

#[test]
fn test_memtables_query_key_time_range() {
    let mut mts = MemTables::new(2, 1024);
    mts.insert(make_rec("b", 100, 1));
    mts.freeze();
    mts.insert(make_rec("c", 200, 2));

    let results = mts.query_key_time_range(b"b", b"c", 50, 250, i64::MAX);
    assert_eq!(results.len(), 2);
}

#[test]
fn test_memtables_active_stats() {
    let mut mts = MemTables::new(2, 1024);
    let (count, bytes) = mts.active_stats();
    assert_eq!(count, 0);
    assert_eq!(bytes, 0);

    mts.insert(make_rec("a", 100, 1));
    let (count, bytes) = mts.active_stats();
    assert_eq!(count, 1);
    assert!(bytes > 0);
}

#[test]
fn test_memtables_should_flush() {
    let mut mts = MemTables::new(2, 30);
    assert!(!mts.should_flush());
    mts.insert(make_rec("a", 100, 1));
    assert!(mts.should_flush());
}

#[test]
fn test_memtables_frozen_is_full() {
    let mut mts = MemTables::new(2, 1024);
    assert!(!mts.frozen_is_full());
    mts.insert(make_rec("a", 100, 1));
    mts.freeze();
    mts.insert(make_rec("b", 200, 2));
    mts.freeze();
    assert!(mts.frozen_is_full());
}

#[test]
fn test_memtable_get_returns_highest_seq_for_same_key_ts() {
    let mut mt = MemTable::new();
    // Two versions of ("a", 100) with different values.
    let mut rec1 = make_rec("a", 100, 1);
    rec1.value = b"old".to_vec();
    let mut rec2 = make_rec("a", 100, 2);
    rec2.value = b"new".to_vec();
    mt.insert(rec1);
    mt.insert(rec2);

    let result = mt.get(b"a", 100).expect("should find a record");
    assert_eq!(
        result.seq, 2,
        "get must return highest-seq version (seq=2), not lowest (seq=1)"
    );
    assert_eq!(result.value, b"new");
}

#[test]
fn test_memtable_get_after_delete_returns_tombstone() {
    let mut mt = MemTable::new();
    // Put at seq=1, Delete at seq=2 for same (key, ts).
    mt.insert(make_rec("a", 100, 1));
    let delete = InternalRecord::delete(b"a".to_vec(), 100, 2);
    mt.insert(delete);

    let result = mt.get(b"a", 100).expect("should find the tombstone");
    assert_eq!(
        result.seq, 2,
        "must return the delete tombstone (highest seq)"
    );
    assert!(
        result.op != Op::Put,
        "delete tombstone must win over older Put"
    );
}

#[test]
fn test_memtable_get_three_versions() {
    let mut mt = MemTable::new();
    let mut rec1 = make_rec("k", 50, 10);
    rec1.value = b"v1".to_vec();
    let mut rec2 = make_rec("k", 50, 20);
    rec2.value = b"v2".to_vec();
    let mut rec3 = make_rec("k", 50, 30);
    rec3.value = b"v3".to_vec();
    mt.insert(rec1);
    mt.insert(rec2);
    mt.insert(rec3);

    let result = mt.get(b"k", 50).unwrap();
    assert_eq!(result.seq, 30);
    assert_eq!(result.value, b"v3");
}

#[test]
fn test_memtable_get_latest_returns_highest_ts() {
    let mut mt = MemTable::new();
    let mut rec1 = make_rec("x", 100, 1);
    rec1.value = b"old".to_vec();
    let mut rec2 = make_rec("x", 300, 2);
    rec2.value = b"new".to_vec();
    let mut rec3 = make_rec("x", 200, 3);
    rec3.value = b"mid".to_vec();
    mt.insert(rec1);
    mt.insert(rec2);
    mt.insert(rec3);

    let latest = mt.get_latest(b"x", i64::MAX).unwrap();
    assert_eq!(latest.ts, 300, "should return highest ts=300");
    assert_eq!(latest.value, b"new");
}

#[test]
fn test_memtable_get_latest_skips_expired() {
    let mut mt = MemTable::new();
    let mut live = make_rec("y", 100, 1);
    live.expire_at = i64::MAX; // never expires
    let mut expired = make_rec("y", 200, 2);
    expired.expire_at = 50; // expired
    mt.insert(live);
    mt.insert(expired);

    let latest = mt.get_latest(b"y", 100);
    assert!(latest.is_some(), "should still find the non-expired record");
    assert_eq!(latest.unwrap().ts, 100);
}

#[test]
fn test_memtable_get_latest_nonexistent() {
    let mt = MemTable::new();
    assert!(mt.get_latest(b"no_such_key", i64::MAX).is_none());
}

#[test]
fn test_memtable_get_via_point_index_after_multi_insert() {
    // Confirm the point index returns the highest-seq record
    // when the same (key, ts) is inserted twice.
    let mut mt = MemTable::new();
    let mut v1 = make_rec("dup", 42, 5);
    v1.value = b"first".to_vec();
    let mut v2 = make_rec("dup", 42, 10);
    v2.value = b"second".to_vec();
    mt.insert(v1);
    mt.insert(v2);

    let result = mt.get(b"dup", 42).unwrap();
    assert_eq!(result.seq, 10, "point index must return highest seq");
    assert_eq!(result.value, b"second");
}

#[test]
fn test_memtables_get_multi_version_across_active_and_frozen() {
    // Put in frozen table (seq=1), then a newer Put in active (seq=2).
    // MemTables::get should prefer active (higher seq).
    let mut mts = MemTables::new(2, 1024);
    let mut rec1 = make_rec("x", 100, 1);
    rec1.value = b"frozen_val".to_vec();
    mts.insert(rec1);
    mts.freeze();

    let mut rec2 = make_rec("x", 100, 2);
    rec2.value = b"active_val".to_vec();
    mts.insert(rec2);

    let result = mts.get(b"x", 100, i64::MAX).unwrap();
    assert_eq!(result.value, b"active_val");
    assert_eq!(result.seq, 2);
}

#[test]
fn test_backpressure_drains_when_active_empty() {
    // Regression: when frozen is at max_frozen and active is empty,
    // do_flush must not livelock.  This simulates the drain logic:
    // when freeze() fails (active empty) but frozen has entries,
    // pop_frozen() should relieve backpressure.
    let mut mts = MemTables::new(1, 1024);
    // Fill active and freeze.
    mts.insert(make_rec("k", 100, 1));
    assert!(mts.freeze(), "first freeze must succeed");
    // Active is now empty, frozen has 1 entry.
    assert!(mts.frozen_backpressure(), "1 >= 1 → backpressure");
    // Pop should succeed, relieving backpressure.
    let popped = mts.pop_frozen();
    assert!(popped.is_some(), "must pop frozen entry");
    assert!(!mts.frozen_backpressure(), "backpressure relieved");
    // Second pop must return None (nothing left).
    assert!(mts.pop_frozen().is_none());
}

#[test]
fn test_memtables_get_delete_in_active_overrides_put_in_frozen() {
    // Put in frozen table, Delete in active → must see deleted.
    let mut mts = MemTables::new(2, 1024);
    mts.insert(make_rec("d", 200, 1));
    mts.freeze();
    let delete = InternalRecord::delete(b"d".to_vec(), 200, 2);
    mts.insert(delete);

    let result = mts.get(b"d", 200, i64::MAX);
    assert!(
        result.is_none() || result.unwrap().op != Op::Put,
        "delete in active must override put in frozen"
    );
}

#[test]
fn test_memtables_get_latest_prefers_active_over_frozen() {
    let mut mts = MemTables::new(2, 1024);
    // Frozen: (x, 100, seq=1)
    mts.insert(make_rec("x", 100, 1));
    mts.freeze();
    // Active: (x, 200, seq=2) — newer ts in active
    mts.insert(make_rec("x", 200, 2));

    let latest = mts.get_latest(b"x", i64::MAX).unwrap();
    assert_eq!(latest.ts, 200, "active record with higher ts wins");
    assert_eq!(latest.seq, 2);
}

#[test]
fn test_memtables_get_latest_nonexistent() {
    let mut mts = MemTables::new(2, 1024);
    assert!(mts.get_latest(b"no_such_key", i64::MAX).is_none());
}

#[test]
fn test_flush_gap_records_remain_visible() {
    // During a flush, records should remain visible to readers.
    let mut memtables = MemTables::new(2, 64 * 1024 * 1024);
    let mut rec = make_rec("key1", 1, 1);
    rec.value = b"value1".to_vec();
    memtables.insert(rec);

    assert!(memtables.freeze());
    let records = memtables.pop_frozen_to_flushing().unwrap();
    assert!(!records.is_empty(), "should have records in flushing");

    // The record should still be queryable while in the flushing list.
    let found = memtables.get(b"key1", 1, i64::MAX);
    assert!(found.is_some(), "record should be visible during flush (in flushing list)");

    // Also check query_prefix sees flushing records.
    let prefix_results = memtables.query_prefix(b"key1", i64::MAX);
    assert!(!prefix_results.is_empty(), "scan should see flushing records");

    // Complete the flush.
    memtables.complete_flush();

    // After complete_flush, the flushing list is empty.
    let not_found = memtables.get(b"key1", 1, i64::MAX);
    assert!(not_found.is_none(), "record should be gone after flush completes");
}
