//! Encoding and reading SSTs.

use flowdb::error::FlowError;
use flowdb::record::{InternalRecord, Op, Record};
use flowdb::sstable::{SstReader, SstStreamWriter, SstWriter};

fn make_records(n: usize) -> Vec<InternalRecord> {
    (0..n)
        .map(|i| {
            InternalRecord::from_record(
                &Record {
                    key: format!("key_{:04}", i).into_bytes(),
                    ts: (i * 100) as i64,
                    expire_at: i64::MAX,
                    value: vec![1, 2, 3, 4],
                },
                i as u64,
            )
        })
        .collect()
}

#[test]
fn test_sst_write_read_roundtrip() {
    let records = make_records(100);

    let (data, bytes, block_infos, _) = SstWriter::write_to_buf(&records, 10, 10).unwrap();
    assert!(bytes > 0);
    assert_eq!(block_infos.len(), 10);

    let reader = SstReader::build(data, 1).unwrap();
    assert_eq!(reader.block_count(), 10);

    let block = reader.read_block(0).unwrap();
    assert_eq!(block.len(), 10);
    assert_eq!(block[0].key.as_slice(), b"key_0000");
}

#[test]
fn test_sst_all_blocks_readable() {
    let records = make_records(50);

    let (data, _, _, _) = SstWriter::write_to_buf(&records, 10, 10).unwrap();
    let reader = SstReader::build(data, 1).unwrap();

    let mut all_records = Vec::new();
    for i in 0..reader.block_count() {
        all_records.extend(reader.read_block(i).unwrap());
    }

    assert_eq!(all_records.len(), 50);
    for (i, rec) in all_records.iter().enumerate() {
        assert_eq!(rec.key, format!("key_{:04}", i).into_bytes());
    }
}

#[test]
fn test_sst_block_metadata() {
    let records = make_records(20);

    let (_, _, block_infos, _) = SstWriter::write_to_buf(&records, 10, 10).unwrap();
    assert_eq!(block_infos.len(), 2);

    assert_eq!(block_infos[0].min_key, b"key_0000");
    assert_eq!(block_infos[0].max_key, b"key_0009");
    assert_eq!(block_infos[0].min_ts, 0);
    assert_eq!(block_infos[0].max_ts, 900);

    assert_eq!(block_infos[1].min_key, b"key_0010");
    assert_eq!(block_infos[1].max_key, b"key_0019");
}

#[test]
fn test_sst_compression() {
    let records: Vec<InternalRecord> = (0..100)
        .map(|i| {
            InternalRecord::from_record(
                &Record {
                    key: b"same_key".to_vec(),
                    ts: i,
                    expire_at: i64::MAX,
                    value: vec![0u8; 100],
                },
                i as u64,
            )
        })
        .collect();

    let (_, bytes, _, _) = SstWriter::write_to_buf(&records, 100, 10).unwrap();

    let raw_size: usize = records.iter().map(|r| r.estimated_size()).sum();
    assert!(bytes < raw_size as u64);
}

#[test]
fn test_sst_stream_writer_empty() {
    let writer = SstStreamWriter::new(10, 0, 10).unwrap();
    let (data, bytes, blocks, _bloom) = writer.finish().unwrap();
    assert!(data.is_empty(), "empty writer produces zero bytes");
    assert_eq!(bytes, 0, "empty writer produces zero bytes");
    assert!(blocks.is_empty());
}

#[test]
fn test_sst_stream_writer_single_block() {
    let records = make_records(5);
    let mut writer = SstStreamWriter::new(100, 5, 10).unwrap();
    for rec in &records {
        writer.write_record(rec).unwrap();
    }
    let (data, bytes, blocks, bloom) = writer.finish().unwrap();
    assert!(bytes > 0, "should have written data");
    assert_eq!(blocks.len(), 1, "all records → single block");
    assert_eq!(data.len() as u64, bytes);

    let reader = SstReader::build(data, 1).unwrap();
    assert_eq!(reader.block_count(), 1);
    let block = reader.read_block(0).unwrap();
    assert_eq!(block.len(), 5);
    assert_eq!(block[0].key, b"key_0000");
    // The bloom must recognise the inserted keys.
    for rec in &records {
        assert!(
            bloom.may_contain(&rec.key),
            "bloom must contain {}",
            String::from_utf8_lossy(&rec.key)
        );
    }
}

#[test]
fn test_sst_stream_writer_multi_block() {
    let records = make_records(25);
    // block_size = 10 → 3 blocks (10 + 10 + 5)
    let mut writer = SstStreamWriter::new(10, 25, 10).unwrap();
    for rec in &records {
        writer.write_record(rec).unwrap();
    }
    let (data, bytes, blocks, bloom) = writer.finish().unwrap();
    assert!(bytes > 0);
    assert_eq!(blocks.len(), 3);

    // Verify full read-back.
    let reader = SstReader::build(data, 1).unwrap();
    let mut all_records = Vec::new();
    for i in 0..reader.block_count() {
        all_records.extend(reader.read_block(i).unwrap());
    }
    assert_eq!(all_records.len(), 25);
    for (i, rec) in all_records.iter().enumerate() {
        assert_eq!(rec.key, format!("key_{:04}", i).into_bytes());
    }
    // Bloom sanity.
    for rec in &records {
        assert!(bloom.may_contain(&rec.key));
    }
}

#[test]
fn test_sst_stream_writer_roundtrip_via_reader() {
    // Write with stream writer, read with SstReader → must match
    // the same records written via the batch SstWriter.
    let records = make_records(50);
    // Stream write
    let mut sw = SstStreamWriter::new(10, 50, 10).unwrap();
    for rec in &records {
        sw.write_record(rec).unwrap();
    }
    let (s_data, _, s_blocks, _) = sw.finish().unwrap();
    // Batch write
    let (b_data, _, b_blocks, _) = SstWriter::write_to_buf(&records, 10, 10).unwrap();

    assert_eq!(s_blocks.len(), b_blocks.len());

    // Both must produce the same records.
    let s_reader = SstReader::build(s_data, 1).unwrap();
    let b_reader = SstReader::build(b_data, 1).unwrap();

    for idx in 0..s_reader.block_count() {
        let s_block = s_reader.read_block(idx).unwrap();
        let b_block = b_reader.read_block(idx).unwrap();
        assert_eq!(
            s_block.len(),
            b_block.len(),
            "block {} record count mismatch",
            idx
        );
        for (s_rec, b_rec) in s_block.iter().zip(b_block.iter()) {
            assert_eq!(s_rec.key, b_rec.key);
            assert_eq!(s_rec.ts, b_rec.ts);
            assert_eq!(s_rec.value, b_rec.value);
        }
    }
}

/// A reader over the bytes of an SST that were cut out of a larger buffer.
#[test]
fn test_sst_reader_open_region() {
    let records = make_records(30);
    let (data, _, block_infos, _) = SstWriter::write_to_buf(&records, 10, 10).unwrap();

    // A container: header padding + SST data + trailing junk
    let padding = 128usize;
    let trailing = 64usize;
    let mut container = Vec::with_capacity(padding + data.len() + trailing);
    container.extend_from_slice(&vec![0u8; padding]);
    container.extend_from_slice(&data);
    container.extend_from_slice(&vec![0xFFu8; trailing]);

    let region = container[padding..padding + data.len()].to_vec();
    let reader = SstReader::build(region, 42).unwrap();
    assert_eq!(reader.block_count(), block_infos.len() as u32);
    assert_eq!(reader.sst_id(), 42);

    // Read all blocks and verify
    let mut all = Vec::new();
    for i in 0..reader.block_count() {
        all.extend(reader.read_block(i).unwrap());
    }
    assert_eq!(all.len(), 30);
    assert_eq!(all[0].key, b"key_0000");
    assert_eq!(all[29].key, b"key_0029");
}

/// Records of every kind come back as they went in, but for their numbers.
#[test]
fn blocks_keep_operations_and_expiry() {
    let records = vec![
        InternalRecord::delete(b"a".to_vec(), -5, 7),
        InternalRecord::delete_range(b"b".to_vec(), b"d".to_vec(), 8),
        InternalRecord {
            seq: 9,
            op: Op::Put,
            key: b"e".to_vec(),
            ts: i64::MIN,
            expire_at: 12,
            value: vec![0, 255],
            range_end: None,
        },
    ];
    let (data, _, infos, _) = SstWriter::write_to_buf(&records, 2, 10).unwrap();
    assert_eq!(infos.len(), 2);
    let reader = SstReader::build(data, 3).unwrap();
    let mut back = reader.read_block(0).unwrap();
    back.extend(reader.read_block(1).unwrap());
    assert_eq!(back.len(), 3);
    assert_eq!(back[0].op, Op::Delete);
    assert_eq!(back[0].ts, -5);
    assert_eq!(back[1].op, Op::DeleteRange);
    assert_eq!(back[1].range_end, Some(b"d".to_vec()));
    assert_eq!(back[2].op, Op::Put);
    assert_eq!(back[2].ts, i64::MIN);
    assert_eq!(back[2].expire_at, 12);
    assert_eq!(back[2].value, vec![0, 255]);
    assert_eq!(infos[0].min_key, b"a");
    assert_eq!(infos[1].max_expire, 12);
}

#[test]
fn block_behind_the_last_is_not_found() {
    let records = make_records(3);
    let (data, _, _, _) = SstWriter::write_to_buf(&records, 10, 10).unwrap();
    let reader = SstReader::build(data, 9).unwrap();
    match reader.read_block(1) {
        Err(FlowError::BlockNotFound { sst_id, block_idx }) => {
            assert_eq!(sst_id, 9);
            assert_eq!(block_idx, 1);
        }
        _ => panic!("expected no block"),
    }
}

#[test]
fn damaged_block_is_refused() {
    let records = make_records(3);
    let (mut data, _, _, _) = SstWriter::write_to_buf(&records, 10, 10).unwrap();
    data[0] ^= 0xFF;
    assert!(SstReader::build(data, 9).is_err());
}
