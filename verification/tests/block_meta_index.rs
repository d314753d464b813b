//! The index over the blocks of all SSTs.

use flowdb::block_meta_index::BlockMetaIndex;
use flowdb::manifest::BlockInfo;
use flowdb::record::KeyFilter;

fn make_block_info(
    idx: u32,
    min_key: &str,
    max_key: &str,
    min_ts: i64,
    max_ts: i64,
) -> BlockInfo {
    BlockInfo {
        block_idx: idx,
        min_key: min_key.as_bytes().to_vec(),
        max_key: max_key.as_bytes().to_vec(),
        min_ts,
        max_ts,
        min_expire: i64::MAX,
        max_expire: i64::MAX,
    }
}

#[test]
fn test_index_prefix_query() {
    let mut idx = BlockMetaIndex::new(3600);
    idx.add_sst(
        1,
        &[
            make_block_info(0, "call-a", "call-c", 1000, 2000),
            make_block_info(1, "call-d", "call-f", 3000, 4000),
        ],
    );

    let result = idx.query(&KeyFilter::Prefix(b"call-a".to_vec()), None, 0);
    assert!(!result.is_empty());
    assert_eq!(result[0].sst_id, 1);
    assert_eq!(result[0].block_idx, 0);
}

#[test]
fn test_index_key_range_query() {
    let mut idx = BlockMetaIndex::new(3600);
    idx.add_sst(
        1,
        &[
            make_block_info(0, "a", "c", 1000, 2000),
            make_block_info(1, "d", "f", 3000, 4000),
        ],
    );

    let result = idx.query(
        &KeyFilter::Range {
            start: b"b".to_vec(),
            end: b"e".to_vec(),
        },
        None,
        0,
    );
    assert_eq!(result.len(), 2);
}

#[test]
fn test_index_time_range_query() {
    let mut idx = BlockMetaIndex::new(3600);
    let bucket_us: i64 = 3_600_000_000;
    idx.add_sst(
        1,
        &[
            make_block_info(0, "a", "b", bucket_us, bucket_us * 2),
            make_block_info(1, "c", "d", bucket_us * 3, bucket_us * 4),
        ],
    );

    let result = idx.query(&KeyFilter::All, Some((bucket_us, bucket_us * 3)), 0);
    assert!(!result.is_empty());
}

#[test]
fn test_index_remove_sst() {
    let mut idx = BlockMetaIndex::new(3600);
    idx.add_sst(1, &[make_block_info(0, "a", "b", 1000, 2000)]);
    idx.add_sst(2, &[make_block_info(0, "c", "d", 3000, 4000)]);

    idx.remove_sst(1);

    let result = idx.query(&KeyFilter::Prefix(b"a".to_vec()), None, 0);
    assert!(result.is_empty());

    let result = idx.query(&KeyFilter::Prefix(b"c".to_vec()), None, 0);
    assert!(!result.is_empty());
}

#[test]
fn test_index_expiry_filter() {
    let mut idx = BlockMetaIndex::new(3600);
    let mut bi = make_block_info(0, "a", "b", 1000, 2000);
    bi.min_expire = 100;
    bi.max_expire = 200;
    idx.add_sst(1, &[bi]);

    let result = idx.query(&KeyFilter::Prefix(b"a".to_vec()), None, 300);
    assert!(result.is_empty());
}

#[test]
fn test_index_combined_query() {
    let mut idx = BlockMetaIndex::new(3600);
    idx.add_sst(
        1,
        &[
            make_block_info(0, "call-a", "call-b", 1000, 2000),
            make_block_info(1, "call-a", "call-b", 3000, 4000),
        ],
    );

    let result = idx.query(
        &KeyFilter::Prefix(b"call-a".to_vec()),
        Some((1500, 3500)),
        0,
    );
    assert_eq!(result.len(), 2);
}
