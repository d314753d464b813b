//! The manifest: which SSTs there are.

use flowdb::bloom::{BloomFilter, CURRENT_HASH_VERSION};
use flowdb::error::FlowError;
use flowdb::manifest::{replay, BlockInfo, Manifest, ManifestEntry, ManifestState, SstInfo};

fn sst(id: u32, records: u64, bytes: u64, min_ts: i64, max_ts: i64, expire: i64) -> SstInfo {
    SstInfo {
        id,
        records,
        bytes,
        min_ts,
        max_ts,
        min_expire: expire,
        max_expire: expire,
        bloom: None,
        ranges: Vec::new(),
    }
}

fn empty() -> Manifest {
    Manifest::new(ManifestState::default())
}

/// The state that the entries add up to when they are read again.
fn read_again(entries: Vec<ManifestEntry>) -> ManifestState {
    let lines = entries.into_iter().map(Ok).collect();
    replay(&lines, "MANIFEST").unwrap()
}

fn first_flush() -> ManifestEntry {
    ManifestEntry::Flush {
        seq: 100,
        sst: sst(1, 100, 4096, 1000, 2000, i64::MAX),
        blocks: vec![BlockInfo {
            block_idx: 0,
            min_key: "a".into(),
            max_key: "b".into(),
            min_ts: 1000,
            max_ts: 2000,
            min_expire: i64::MAX,
            max_expire: i64::MAX,
        }],
    }
}

fn second_flush() -> ManifestEntry {
    ManifestEntry::Flush {
        seq: 200,
        sst: sst(2, 50, 2048, 2000, 3000, i64::MAX),
        blocks: vec![],
    }
}

#[test]
fn test_manifest_append_and_replay() {
    let mut mf = empty();
    mf.append(&first_flush());
    mf.append(&second_flush());
    assert_eq!(mf.state().sstables.len(), 2);
    assert_eq!(mf.state().last_flushed_seq, 200);

    let state = read_again(vec![first_flush(), second_flush()]);
    assert_eq!(state.sstables.len(), 2);
    assert_eq!(state.last_flushed_seq, 200);
    assert_eq!(state.active_sst_ids, vec![1, 2]);
    assert_eq!(state.block_infos[&1].len(), 1);
    assert_eq!(state.block_infos[&1][0].max_key, b"b");
}

#[test]
fn test_manifest_delete() {
    let mut mf = empty();
    mf.append(&ManifestEntry::Flush {
        seq: 100,
        sst: sst(1, 10, 100, 0, 0, 0),
        blocks: vec![],
    });
    mf.append(&ManifestEntry::DeleteSst { sst_id: 1 });

    assert!(!mf.state().sstables.contains_key(&1));
    assert!(mf.state().active_sst_ids.is_empty());
}

#[test]
fn test_manifest_update_bloom_entry() {
    fn flush() -> ManifestEntry {
        let mut info = sst(7, 1, 16, 0, 0, 0);
        info.bloom = Some(BloomFilter::from_keys_with_bits(&vec![b"k".to_vec()], 10));
        ManifestEntry::Flush {
            seq: 1,
            sst: info,
            blocks: vec![],
        }
    }
    fn update() -> ManifestEntry {
        ManifestEntry::UpdateBloom {
            sst_id: 7,
            bloom: BloomFilter::from_keys_with_bits(&vec![b"new".to_vec()], 10),
        }
    }
    let mut mf = empty();
    mf.append(&flush());
    mf.append(&update());

    // In-memory state: the bloom should be replaced.
    assert_eq!(
        mf.state().sstables[&7].bloom.as_ref().unwrap().hash_version,
        CURRENT_HASH_VERSION
    );

    // UpdateBloom must replay correctly.
    let state = read_again(vec![flush(), update()]);
    let bloom = state.sstables[&7].bloom.as_ref().unwrap();
    assert_eq!(bloom.hash_version, CURRENT_HASH_VERSION);
    // The new bloom should still recognise its keys.
    assert!(bloom.may_contain(b"new"));
}

/// The manifest should compact itself when it grows past the threshold.
#[test]
fn test_manifest_snapshot_compaction() {
    let mut mf = empty();
    for i in 0..600u32 {
        mf.append(&ManifestEntry::Flush {
            seq: i as u64,
            sst: sst(i, 1, 16, 0, 0, 0),
            blocks: vec![],
        });
        // Immediately delete older SSTs to keep the in-memory state small.
        if i >= 5 {
            mf.append(&ManifestEntry::DeleteSst { sst_id: i - 5 });
        }
    }

    // At this point: 1200 entries, but only ~6 active SSTs.
    assert!(mf.entry_count() > 500);

    let lines = mf.maybe_snapshot().unwrap();
    assert!(
        mf.entry_count() <= 20,
        "entry_count should be small after snapshot, got {}",
        mf.entry_count()
    );
    assert!(lines.len() <= 20, "got {} lines", lines.len());

    // Reading the entries again produces the same state.
    let state = read_again(lines);
    assert!(
        state.sstables.len() <= 10,
        "after snapshot, only active SSTs should be present"
    );
    assert_eq!(state.active_sst_ids, mf.state().active_sst_ids);
    assert_eq!(state.last_flushed_seq, mf.state().last_flushed_seq);
}

/// Manifest snapshot should be a no-op when below the threshold.
#[test]
fn test_manifest_snapshot_noop_below_threshold() {
    let mut mf = empty();
    for i in 0..10u32 {
        mf.append(&ManifestEntry::Flush {
            seq: i as u64,
            sst: sst(i, 1, 16, 0, 0, 0),
            blocks: vec![],
        });
    }

    let before = mf.entry_count();
    assert!(mf.maybe_snapshot().is_none());
    assert_eq!(
        before,
        mf.entry_count(),
        "manifest should not change when below threshold"
    );
}

#[test]
fn compaction_replaces_ssts() {
    let mut mf = empty();
    mf.append(&first_flush());
    mf.append(&second_flush());
    assert_eq!(mf.next_sst_id(), 3);
    mf.append(&ManifestEntry::Compaction {
        removed: vec![1, 2],
        added: vec![sst(3, 150, 5000, 1000, 3000, i64::MAX)],
        blocks: vec![(3, vec![])],
    });
    assert_eq!(mf.state().active_sst_ids, vec![3]);
    assert!(!mf.state().block_infos.contains_key(&1));
    assert!(mf.state().block_infos.contains_key(&3));
    assert_eq!(mf.next_sst_id(), 4);
    mf.append(&ManifestEntry::Checkpoint {
        last_flushed_seq: 900,
    });
    assert_eq!(mf.state().last_flushed_seq, 900);
    mf.append(&ManifestEntry::GcDeleteSst { sst_id: 3 });
    assert!(mf.state().active_sst_ids.is_empty());
}

/// A broken last line is what a torn write leaves, and is passed over; a broken
/// line before others is not.
#[test]
fn broken_lines() {
    let torn: Vec<Result<ManifestEntry, String>> =
        vec![Ok(first_flush()), Err("unexpected end".to_string())];
    assert_eq!(replay(&torn, "MANIFEST").unwrap().active_sst_ids, vec![1]);
    let broken: Vec<Result<ManifestEntry, String>> = vec![
        Ok(first_flush()),
        Err("unexpected end".to_string()),
        Ok(second_flush()),
    ];
    match replay(&broken, "MANIFEST") {
        Err(FlowError::Corruption { file, msg }) => {
            assert_eq!(file, "MANIFEST");
            assert_eq!(msg, "Corrupted manifest entry at line 2: unexpected end");
        }
        _ => panic!("expected corruption"),
    }
}
