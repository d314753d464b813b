//! Binary forms, encodings, errors and schedules.

use flowdb::bloom::{fnv_hash, BloomFilter};
use flowdb::bytes::{increment_prefix_bytes, successor_of_prefix};
use flowdb::codec::{decode_records, encode_records, BlockHeader};
use flowdb::jsondb::encoding::{
    counter_key, doc_key, encode_composite_value, encode_index_value, encode_primary_key, idx_key,
    schema_key, validate_name,
};
use flowdb::jsondb::value::{decode_doc, encode_doc};
use flowdb::jsondb::{JsonDB, JsonValue, KeyArg, KeyRange};
use flowdb::lz4::lengths_are_in_range;
use flowdb::maintenance::{Due, Elapsed, MaintenanceIntervals};
use flowdb::record::{InternalRecord, Op};
use flowdb::sstable::{SstReader, SstWriter};
use flowdb::{Config, FlowError, Record, SyncMode};

fn j(text: &str) -> JsonValue {
    decode_doc(text.as_bytes()).unwrap()
}

fn val<K: KeyArg>(k: K) -> JsonValue {
    k.into_value()
}

fn message<T>(r: Result<T, FlowError>) -> String {
    match r {
        Ok(_) => panic!("expected an error"),
        Err(e) => e.message(),
    }
}

#[test]
fn operations_have_their_codes() {
    for op in [Op::Put, Op::Delete, Op::DeleteRange] {
        assert_eq!(Op::from_u8(op.to_u8()), op);
    }
}

#[test]
fn records_have_a_known_form() {
    let record = Record::new(b"k".to_vec(), 2, b"vw".to_vec());
    let bytes = encode_records(&[InternalRecord::from_record(&record, 9)]);
    let mut want = vec![0, 1, b'k'];
    want.extend_from_slice(&2i64.to_be_bytes());
    want.extend_from_slice(&i64::MAX.to_be_bytes());
    want.push(Op::Put.to_u8());
    want.extend_from_slice(&[0, 0, 0, 0, 0, 2, b'v', b'w']);
    assert_eq!(bytes, want);

    let back = decode_records(&bytes, 1);
    assert_eq!(back.len(), 1);
    assert_eq!(back[0].key, b"k");
    assert_eq!(back[0].ts, 2);
    assert_eq!(back[0].value, b"vw");
    assert_eq!(decode_records(&bytes[..bytes.len() - 1], 1).len(), 0);
}

#[test]
fn negative_times_are_kept() {
    let record = Record { key: b"k".to_vec(), ts: -5, expire_at: i64::MIN, value: vec![] };
    let bytes = encode_records(&[InternalRecord::from_record(&record, 0)]);
    let back = decode_records(&bytes, 1);
    assert_eq!(back[0].ts, -5);
    assert_eq!(back[0].expire_at, i64::MIN);
}

#[test]
fn headers_are_read_back() {
    let record = Record::new(b"k".to_vec(), 2, b"v".to_vec());
    let records = [InternalRecord::from_record(&record, 9)];
    let (data, _, _, _) = SstWriter::write_to_buf(&records, 10, 10).unwrap();
    let header = BlockHeader::from_bytes(&data).unwrap();
    assert_eq!(header.to_bytes(), data[..48]);
}

#[test]
fn wrong_magic_is_refused() {
    let record = Record::new(b"k".to_vec(), 2, b"v".to_vec());
    let records = [InternalRecord::from_record(&record, 9)];
    let (mut data, _, _, _) = SstWriter::write_to_buf(&records, 10, 10).unwrap();
    data[0] ^= 0xff;
    assert!(matches!(BlockHeader::from_bytes(&data), Err(FlowError::InvalidMagic { .. })));
}

#[test]
fn blocks_are_compressed() {
    let record = Record::new(b"k".to_vec(), 2, vec![7; 10_000]);
    let records = [InternalRecord::from_record(&record, 9)];
    let (data, bytes, _, _) = SstWriter::write_to_buf(&records, 10, 10).unwrap();
    assert_eq!(bytes, data.len() as u64);
    assert!(data.len() < 1_000);
    let reader = SstReader::build(data, 1).unwrap();
    assert_eq!(reader.read_block(0).unwrap()[0].value, vec![7; 10_000]);
    assert!(lengths_are_in_range(&[255; 1000]));
}

#[test]
fn texts_that_are_not_utf8_are_replaced() {
    let record = Record::new(vec![b'a', 0xff, b'b'], 0, vec![]);
    assert_eq!(record.key_str(), "a\u{fffd}b");
    assert_eq!(Record::new("key".into(), 0, vec![]).key_str(), "key");
}

#[test]
fn hashes_have_known_values() {
    assert_eq!(fnv_hash(0xcbf29ce484222325, b""), 0xcbf29ce484222325);
    assert_eq!(fnv_hash(0xcbf29ce484222325, b"a"), 0xaf63dc4c8601ec8c);
}

#[test]
fn filters_hold_what_was_put_in() {
    let keys: Vec<Vec<u8>> = (0..200u32).map(|i| i.to_be_bytes().to_vec()).collect();
    let filter = BloomFilter::from_keys_with_bits(&keys, 10);
    assert!(filter.is_current());
    assert!(keys.iter().all(|k| filter.may_contain(k)));
    let others = (1000..2000u32).filter(|i| filter.may_contain(&i.to_be_bytes())).count();
    assert!(others < 200);

    let mut small = BloomFilter::with_bits_per_key(1, 10);
    assert!(!small.may_contain(b"x"));
    small.insert(b"x");
    assert!(small.may_contain(b"x"));
    assert!(small.copy().may_contain(b"x"));
}

#[test]
fn prefixes_have_successors() {
    assert_eq!(successor_of_prefix(b"ab"), Some(b"ac".to_vec()));
    assert_eq!(successor_of_prefix(&[1, 255, 255]), Some(vec![2]));
    assert_eq!(successor_of_prefix(&[255]), None);
    assert_eq!(increment_prefix_bytes(&[255]), vec![255, 0]);
}

#[test]
fn keys_have_known_forms() {
    assert_eq!(doc_key("s", b"1"), b"D\0s\x001");
    assert_eq!(idx_key("s", "i", b"v", b"1"), b"I\0s\0i\0v\x001");
    assert_eq!(schema_key("s"), b"S\0s");
    assert_eq!(counter_key("s"), b"C\0s");
}

#[test]
fn keys_of_different_things_differ() {
    assert_ne!(doc_key("a", b"b"), doc_key("ab", b""));
    assert_ne!(idx_key("s", "i", b"v", b"1"), idx_key("s", "i", b"v1", b""));
    assert_ne!(doc_key("s", b"1"), schema_key("s"));
    assert_ne!(schema_key("s"), counter_key("s"));
}

#[test]
fn names_are_checked() {
    validate_name("a_B-9").unwrap();
    assert_eq!(message(validate_name("")), "name cannot be empty");
    assert_eq!(message(validate_name("a b")), "invalid name 'a b'");
}

#[test]
fn primary_keys_have_known_forms() {
    assert_eq!(encode_primary_key(&val("u1")).unwrap(), b"u1");
    assert_eq!(encode_primary_key(&val(-3i64)).unwrap(), b"-3");
    assert_eq!(encode_primary_key(&j("true")).unwrap(), b"true");
    assert_eq!(encode_primary_key(&j("null")).unwrap(), b"null");
    assert_eq!(encode_primary_key(&j("[1, \"a\"]")).unwrap(), b"[1,\"a\"]");
    assert_eq!(
        message(encode_primary_key(&val("a\0b"))),
        "primary key must not contain a null byte"
    );
}

#[test]
fn index_values_have_known_forms() {
    assert_eq!(encode_index_value(&j("null")), vec![16]);
    assert_eq!(encode_index_value(&j("false")), vec![32, 1]);
    assert_eq!(encode_index_value(&j("true")), vec![32, 2]);
    assert_eq!(encode_index_value(&j("0")), vec![48, 50]);
    assert_eq!(encode_index_value(&val("a\0\u{1}")), vec![64, b'a', 1, 1, 1, 2]);
    assert_eq!(
        encode_composite_value(&vec![j("null"), j("true")]),
        vec![16, 0, 32, 2]
    );
}

#[test]
fn numbers_sort_by_their_value() {
    let texts = [
        "-1e300", "-9223372036854775808", "-100.5", "-100", "-1", "-0.5", "-1e-300", "0", "1e-300",
        "0.5", "1", "1.5", "2", "10", "100", "9007199254740993", "18446744073709551615", "1e300",
    ];
    for pair in texts.windows(2) {
        let (a, b) = (encode_index_value(&j(pair[0])), encode_index_value(&j(pair[1])));
        assert!(a < b, "{} before {}", pair[0], pair[1]);
    }
    assert_eq!(encode_index_value(&j("0")), encode_index_value(&j("-0.0")));
    assert_eq!(encode_index_value(&j("2")), encode_index_value(&j("2.0")));
}

#[test]
fn types_sort_apart() {
    let texts = ["null", "false", "true", "-5", "7", "\"\"", "\"z\"", "[]", "{}"];
    for pair in texts.windows(2) {
        assert!(encode_index_value(&j(pair[0])) < encode_index_value(&j(pair[1])));
    }
}

#[test]
fn texts_sort_by_their_bytes() {
    for (a, b) in [("", "a"), ("a", "a\0"), ("a\0", "a\u{1}"), ("a\u{1}", "ab"), ("ab", "b")] {
        assert!(encode_index_value(&val(a)) < encode_index_value(&val(b)));
    }
    for text in ["", "\0", "a\0b"] {
        assert!(!encode_index_value(&val(text)).contains(&0));
    }
}

#[test]
fn ranges_hold_what_is_between() {
    let open = KeyRange::bound(val(1i64), val(5i64), true, true);
    assert!(!open.includes(&val(1i64)));
    assert!(open.includes(&j("1.5")));
    assert!(!open.includes(&val(5i64)));
    let closed = KeyRange::bound(val(1i64), val(5i64), false, false);
    assert!(closed.includes(&val(1i64)) && closed.includes(&val(5i64)));
    assert!(KeyRange::only(val("x")).includes(&val("x")));
    assert!(!KeyRange::only(val("x")).includes(&val("xy")));
    assert!(KeyRange::lower_bound(val(3i64), false).includes(&val("text")));
    assert!(!KeyRange::upper_bound(val(3i64), true).includes(&val(3i64)));
    assert!(KeyRange::default().is_unbounded());
    assert!(!open.is_unbounded());
}

#[test]
fn documents_are_written_and_read() {
    let text = br#"{"a":[1,-2,true,null],"b":"x"}"#;
    let doc = decode_doc(text).unwrap();
    assert_eq!(encode_doc(&doc).unwrap(), text);
    assert_eq!(decode_doc(br#"{ "b": 1, "a": 2 }"#).unwrap(), j(r#"{"a":2,"b":1}"#));
    assert!(matches!(decode_doc(b"{"), Err(FlowError::Json(_))));
}

#[test]
fn numbers_are_compared_by_value() {
    assert!(j("0.0").same(&j("-0.0")));
    assert!(j("1").same(&j("1")));
    assert!(!j("1").same(&j("2")));
    assert!(!j("1").same(&j("\"1\"")));
}

#[test]
fn errors_are_described() {
    assert_eq!(FlowError::Config("bad".to_string()).message(), "bad");
    let corrupt = FlowError::Corruption { file: "f".to_string(), msg: "m".to_string() };
    assert_eq!(corrupt.message(), "f: m");
    assert_eq!(
        FlowError::InvalidMagic { expected: 1, actual: 2 }.message(),
        "invalid magic: expected 1, found 2"
    );
    assert_eq!(
        FlowError::BlockNotFound { sst_id: 3, block_idx: 4 }.message(),
        "block 4 not found in sst 3"
    );
    assert_eq!(FlowError::JsonDb("j".to_string()).message(), "j");
    assert_eq!(FlowError::Json("p".to_string()).message(), "p");
    assert_eq!(FlowError::Other("o".to_string()).message(), "o");
}

#[test]
fn refused_configuration_opens_nothing() {
    let config = Config { block_size: 0, ..Config::default() };
    assert!(matches!(JsonDB::open(config), Err(FlowError::Config(_))));
}

#[test]
fn maintenance_runs_at_its_intervals() {
    let config = Config {
        flush_interval_ms: 0,
        gc_interval_secs: 2,
        compaction_interval_ms: 500,
        wal_sync_mode: SyncMode::IntervalMs(40),
        ..Config::default()
    };
    let m = MaintenanceIntervals::from_config(&config);
    assert_eq!(
        m,
        MaintenanceIntervals { flush_ms: 1, compact_ms: 500, gc_ms: 2_000, sync_ms: 40, poll_ms: 1 }
    );
    let due = m.due(Elapsed { flush_ms: 1, compact_ms: 499, gc_ms: 2_000, sync_ms: 39 });
    assert_eq!(due, Due { flush: true, compact: false, gc: true, sync: false });
}

#[test]
fn maintenance_looks_four_times_a_second_at_most() {
    let m = MaintenanceIntervals::from_config(&Config::default());
    assert_eq!(m.sync_ms, 3_600_000);
    assert_eq!(m.poll_ms, 250);
    let slow_gc = Config { gc_interval_secs: u64::MAX, ..Config::default() };
    assert_eq!(MaintenanceIntervals::from_config(&slow_gc).gc_ms, u64::MAX);
    assert_eq!(MaintenanceIntervals::from_config(&slow_gc).compact_ms, m.compact_ms);
}
