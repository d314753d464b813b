//! Compaction: which SSTs are merged, and what is left of them.

use std::collections::HashMap;

use flowdb::compaction::{CompactionRunner, HeapEntry};
use flowdb::manifest::{Manifest, ManifestState};
use flowdb::record::{InternalRecord, Op};

fn make_test_runner(threshold: usize) -> CompactionRunner {
    CompactionRunner::new(100, 10, threshold)
}

#[test]
fn test_should_compact_false_when_empty() {
    let runner = make_test_runner(2);
    assert!(!runner.should_compact(Manifest::new(ManifestState::default()).state()));
}

#[test]
fn test_should_compact_false_below_threshold() {
    let runner = make_test_runner(5);
    assert!(!runner.should_compact(Manifest::new(ManifestState::default()).state()));
}

#[test]
fn test_heap_entry_ordering() {
    let a = InternalRecord {
        seq: 1,
        op: Op::Put,
        key: b"a".to_vec(),
        ts: 100,
        expire_at: i64::MAX,
        value: vec![],
        range_end: None,
    };
    let b = InternalRecord {
        seq: 2,
        op: Op::Put,
        key: b"b".to_vec(),
        ts: 200,
        expire_at: i64::MAX,
        value: vec![],
        range_end: None,
    };
    let a2 = InternalRecord {
        seq: 3,
        ..a.copy()
    };
    let e1 = HeapEntry {
        record: a,
        source: 0,
    };
    let e2 = HeapEntry {
        record: b,
        source: 0,
    };
    // (key, ts, seq desc) — a.key < b.key, so e1 < e2
    assert!(e1.precedes(&e2));
    assert!(!e2.precedes(&e1));

    // Same key same ts, higher seq should be "less" (it is popped first)
    let e3 = HeapEntry {
        record: a2,
        source: 0,
    };
    assert!(e3.precedes(&e1), "higher seq should pop first for same key+ts");
}

#[test]
fn test_run_returns_false_when_no_sst() {
    let runner = make_test_runner(1);
    let state = ManifestState::default();
    assert!(runner.run(&state, &HashMap::new(), 1, 0).unwrap().is_none());
}
