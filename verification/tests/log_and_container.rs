//! The log and the one-file container of SSTs.

use flowdb::container::{encode_removed, encode_written, read_container};
use flowdb::engine::{Engine, Recovered};
use flowdb::manifest::ManifestState;
use flowdb::record::{InternalRecord, Op};
use flowdb::wal::{checksum, encode_batch, replay_from, replay_log, COMMIT};
use flowdb::{Config, FlowError, Record};

fn put(key: &str, seq: u64) -> InternalRecord {
    let record = Record::new(key.as_bytes().to_vec(), 7, b"v".to_vec());
    InternalRecord::from_record(&record, seq)
}

fn keys(records: &[InternalRecord]) -> Vec<(String, u64)> {
    records
        .iter()
        .map(|r| (String::from_utf8(r.key.clone()).unwrap(), r.seq))
        .collect()
}

#[test]
fn checksums_have_known_values() {
    assert_eq!(checksum(b""), 1);
    assert_eq!(checksum(b"a"), 31 + 97);
    assert_eq!(checksum(b"ab"), (31 + 97) * 31 + 98);
    assert_eq!(checksum(&[255; 8]), checksum(&[255; 8]));
    assert_ne!(checksum(b"ab"), checksum(b"ba"));
}

#[test]
fn empty_batch_has_a_known_form() {
    let bytes = encode_batch(5, &[]).unwrap();
    let mut want = vec![0, 0, 0, 0, 0, 0, 0, 5];
    want.extend_from_slice(&[0, 0, 0, 0, 0, 0, 0, 0, 0, 0, 0, 1]);
    want.push(COMMIT);
    assert_eq!(bytes, want);
    assert!(replay_log(&bytes).is_empty());
}

#[test]
fn batches_are_replayed_in_turn() {
    let mut log = encode_batch(10, &[put("a", 10), put("b", 11)]).unwrap();
    log.extend(encode_batch(12, &[InternalRecord::delete(b"a".to_vec(), 7, 12)]).unwrap());
    let found = replay_log(&log);
    assert_eq!(
        keys(&found),
        vec![("a".to_string(), 10), ("b".to_string(), 11), ("a".to_string(), 12)]
    );
    assert_eq!(found[2].op, Op::Delete);
    assert_eq!(found[0].value, b"v");
}

#[test]
fn range_deletions_are_replayed() {
    let deletion = InternalRecord::delete_range(b"a".to_vec(), b"c".to_vec(), 3);
    let log = encode_batch(3, &[deletion]).unwrap();
    let found = replay_log(&log);
    assert_eq!(found[0].op, Op::DeleteRange);
    assert_eq!(found[0].range_end, Some(b"c".to_vec()));
}

#[test]
fn torn_batch_is_dropped_as_a_whole() {
    let whole = encode_batch(1, &[put("a", 1)]).unwrap();
    let second = encode_batch(2, &[put("b", 2), put("c", 3)]).unwrap();
    for cut in 0..second.len() {
        let mut log = whole.clone();
        log.extend_from_slice(&second[..cut]);
        assert_eq!(keys(&replay_log(&log)), vec![("a".to_string(), 1)]);
    }
}

#[test]
fn damaged_batch_ends_the_replay() {
    let mut log = encode_batch(1, &[put("a", 1)]).unwrap();
    let middle = log.len() / 2;
    log[middle] ^= 1;
    log.extend(encode_batch(2, &[put("b", 2)]).unwrap());
    assert!(replay_log(&log).is_empty());
}

#[test]
fn uncommitted_batch_is_not_replayed() {
    let mut log = encode_batch(1, &[put("a", 1)]).unwrap();
    let last = log.len() - 1;
    log[last] = 0;
    assert!(replay_log(&log).is_empty());
}

#[test]
fn replay_skips_what_was_flushed() {
    let log = encode_batch(1, &[put("a", 1), put("b", 2), put("c", 3)]).unwrap();
    assert_eq!(keys(&replay_from(&log, 1)), vec![("b".to_string(), 2), ("c".to_string(), 3)]);
    assert!(replay_from(&log, 3).is_empty());
    assert_eq!(replay_from(&log, 0).len(), 3);
}

#[test]
fn replayed_log_gives_the_same_reads() {
    let mut engine = Engine::open(Config::default()).unwrap();
    engine.set_time(1_000);
    engine
        .write_batch(&[
            Record::new(b"a".to_vec(), 1, b"one".to_vec()),
            Record::new(b"b".to_vec(), 1, b"two".to_vec()),
        ])
        .unwrap();
    engine.delete_batch(&[("a".to_string(), 1)]).unwrap();
    let unlogged = engine.take_unlogged();
    assert!(engine.take_unlogged().is_empty());
    let log = encode_batch(unlogged[0].seq, &unlogged).unwrap();

    let found = Recovered { manifest: ManifestState::default(), ssts: vec![], wal: replay_log(&log) };
    let (mut again, updates) = Engine::recover(Config::default(), found).unwrap();
    again.set_time(1_000);
    assert!(updates.is_empty());
    assert!(again.get("a", 1).unwrap().is_none());
    assert_eq!(again.get("b", 1).unwrap().unwrap().value, b"two");
    assert!(again.last_seq() >= engine.last_seq());
}

#[test]
fn numbers_run_out_on_recovery() {
    let found = Recovered {
        manifest: ManifestState::default(),
        ssts: vec![],
        wal: vec![put("a", u64::MAX)],
    };
    match Engine::recover(Config::default(), found) {
        Err(FlowError::Other(m)) => assert_eq!(m, "sequence numbers exhausted"),
        _ => panic!("recovered past the last sequence number"),
    }
}

#[test]
fn frames_have_a_known_form() {
    assert_eq!(
        encode_written(258, b"xy"),
        vec![0, 0, 1, 2, 0, 0, 0, 0, 0, 0, 0, 2, b'x', b'y']
    );
    assert_eq!(
        encode_removed(1),
        vec![0, 0, 0, 1, 255, 255, 255, 255, 255, 255, 255, 255]
    );
}

#[test]
fn container_holds_what_was_written_and_not_removed() {
    let mut file = encode_written(1, b"one");
    file.extend(encode_written(2, b"two"));
    file.extend(encode_removed(1));
    file.extend(encode_written(3, b""));
    file.extend(encode_written(2, b"two again"));
    let mut found: Vec<(u32, Vec<u8>)> =
        read_container(&file).into_iter().map(|f| (f.id, f.data)).collect();
    found.sort();
    assert_eq!(found, vec![(2, b"two again".to_vec()), (3, vec![])]);
    assert!(read_container(&[]).is_empty());
}

#[test]
fn torn_frame_leaves_the_container_as_it_was() {
    let mut file = encode_written(1, b"one");
    let more = encode_written(1, b"another");
    for cut in 0..more.len() {
        let mut torn = file.clone();
        torn.extend_from_slice(&more[..cut]);
        let found = read_container(&torn);
        assert_eq!(found.len(), 1);
        assert_eq!(found[0].data, b"one");
    }
    file.extend(more);
    assert_eq!(read_container(&file)[0].data, b"another");
}
