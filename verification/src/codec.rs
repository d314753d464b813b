//! The binary form of records and block headers.

use vstd::prelude::*;
use vstd::slice::{slice_subrange, slice_to_vec};

use crate::bytes::{
    be_bytes, be_value, bits_i64, i64_bits, i64_from_bits, i64_to_bits, lemma_be_len,
    lemma_be_value_of_bytes, lemma_pow256_values, push_be, push_bytes, read_be,
};
use crate::error::{string_of, FlowError, FlowErrorView, Result};
use crate::record::{entries, op_code, op_of_code, Entry, InternalRecord, Op};

verus! {

/// The length of a range end and the range end itself; nothing is written as
/// the length zero.
pub open spec fn range_end_bytes(range_end: Option<Seq<u8>>) -> Seq<u8> {
    match range_end {
        Some(re) => be_bytes(re.len(), 2) + re,
        None => be_bytes(0, 2),
    }
}

/// The binary form of one record: key_len(2) | key | ts(8) | expire_at(8) |
/// op(1) | range_end_len(2) | range_end | val_len(4) | value, all lengths and
/// numbers big-endian. A length keeps its low bytes only.
pub open spec fn record_bytes(e: Entry) -> Seq<u8> {
    be_bytes(e.key.len(), 2) + e.key + be_bytes(i64_bits(e.ts), 8) + be_bytes(
        i64_bits(e.expire_at),
        8,
    ) + seq![op_code(e.op)] + range_end_bytes(e.range_end) + be_bytes(e.value.len(), 4) + e.value
}

/// The binary forms of the records, one after the other.
pub open spec fn encoded(s: Seq<Entry>) -> Seq<u8>
    decreases s.len(),
{
    if s.len() == 0 {
        Seq::empty()
    } else {
        record_bytes(s.first()) + encoded(s.drop_first())
    }
}

/// The record whose binary form starts at `pos`, and where it ends. `None`
/// where the data ends first.
pub open spec fn decoded_one(data: Seq<u8>, pos: int) -> Option<(Entry, int)> {
    let key_len = be_value(data.subrange(pos, pos + 2)) as int;
    let p1 = pos + 2 + key_len;
    let p2 = p1 + 17;
    let re_len = be_value(data.subrange(p2, p2 + 2)) as int;
    let p3 = p2 + 2 + re_len;
    let val_len = be_value(data.subrange(p3, p3 + 4)) as int;
    let p4 = p3 + 4 + val_len;
    if pos + 2 > data.len() || p1 > data.len() || p2 > data.len() || p2 + 2 > data.len() || p3
        > data.len() || p3 + 4 > data.len() || p4 > data.len() {
        None
    } else {
        Some(
            (
                Entry {
                    seq: 0,
                    op: op_of_code(data[p1 + 16]),
                    key: data.subrange(pos + 2, p1),
                    ts: bits_i64(be_value(data.subrange(p1, p1 + 8))),
                    expire_at: bits_i64(be_value(data.subrange(p1 + 8, p1 + 16))),
                    value: data.subrange(p3 + 4, p4),
                    range_end: if re_len > 0 {
                        Some(data.subrange(p2 + 2, p3))
                    } else {
                        None
                    },
                },
                p4,
            ),
        )
    }
}

/// Up to `count` records read from `pos` on; reading stops where the data ends.
pub open spec fn decoded(data: Seq<u8>, pos: int, count: nat) -> Seq<Entry>
    decreases count,
{
    if count == 0 {
        Seq::empty()
    } else {
        match decoded_one(data, pos) {
            Some((e, next)) => seq![e] + decoded(data, next, (count - 1) as nat),
            None => Seq::empty(),
        }
    }
}

/// The lengths of an entry fit the fields they are written in, and a range end
/// that is there is not empty.
pub open spec fn fits_format(e: Entry) -> bool {
    &&& e.key.len() <= u16::MAX
    &&& e.value.len() <= u32::MAX
    &&& match e.range_end {
        Some(re) => 0 < re.len() <= u16::MAX,
        None => true,
    }
}

pub proof fn lemma_encoded_push(s: Seq<Entry>, e: Entry)
    ensures
        encoded(s.push(e)) == encoded(s) + record_bytes(e),
    decreases s.len(),
{
    let t = s.push(e);
    if s.len() == 0 {
        assert(t.drop_first() =~= Seq::<Entry>::empty());
        assert(encoded(t.drop_first()) =~= Seq::<u8>::empty());
        assert(encoded(t) =~= encoded(s) + record_bytes(e));
    } else {
        assert(t.drop_first() =~= s.drop_first().push(e));
        lemma_encoded_push(s.drop_first(), e);
        assert(encoded(t) =~= encoded(s) + record_bytes(e));
    }
}

/// Every record takes at least 25 bytes.
pub proof fn lemma_encoded_len(s: Seq<Entry>)
    ensures
        encoded(s).len() >= 25 * s.len(),
    decreases s.len(),
{
    if s.len() > 0 {
        lemma_encoded_len(s.drop_first());
        let e = s.first();
        lemma_be_len(e.key.len(), 2);
        lemma_be_len(i64_bits(e.ts), 8);
        lemma_be_len(i64_bits(e.expire_at), 8);
        lemma_be_len(e.value.len(), 4);
        match e.range_end {
            Some(re) => lemma_be_len(re.len(), 2),
            None => lemma_be_len(0, 2),
        }
    }
}

/// A record is read back from where it was written, without its sequence number.
proof fn lemma_decode_one(data: Seq<u8>, pos: int, e: Entry)
    requires
        fits_format(e),
        0 <= pos,
        pos + record_bytes(e).len() <= data.len(),
        data.subrange(pos, pos + record_bytes(e).len()) == record_bytes(e),
    ensures
        decoded_one(data, pos) == Some((e.unsequenced(), pos + record_bytes(e).len())),
{
    let rb = record_bytes(e);
    let a = be_bytes(e.key.len(), 2);
    let b = be_bytes(i64_bits(e.ts), 8);
    let c = be_bytes(i64_bits(e.expire_at), 8);
    let d = range_end_bytes(e.range_end);
    let f = be_bytes(e.value.len(), 4);
    lemma_pow256_values();
    lemma_be_len(e.key.len(), 2);
    lemma_be_len(i64_bits(e.ts), 8);
    lemma_be_len(i64_bits(e.expire_at), 8);
    lemma_be_len(e.value.len(), 4);
    lemma_be_value_of_bytes(e.key.len(), 2);
    lemma_be_value_of_bytes(i64_bits(e.ts), 8);
    lemma_be_value_of_bytes(i64_bits(e.expire_at), 8);
    lemma_be_value_of_bytes(e.value.len(), 4);
    let kl = e.key.len() as int;
    let g = match e.range_end {
        Some(re) => re.len(),
        None => 0,
    };
    lemma_be_len(g, 2);
    lemma_be_value_of_bytes(g, 2);
    let vl = e.value.len() as int;
    let p1 = pos + 2 + kl;
    let p2 = p1 + 17;
    let p3 = p2 + 2 + g;
    assert(d.len() == 2 + g);
    assert(rb.len() == 2 + kl + 17 + 2 + g + 4 + vl);
    assert forall|i: int| 0 <= i < rb.len() implies data[pos + i] == rb[i] by {
        assert(data.subrange(pos, pos + rb.len())[i] == data[pos + i]);
    }
    assert(data.subrange(pos, pos + 2) =~= a) by {
        assert forall|i: int| 0 <= i < 2 implies data[pos + i] == a[i] by {
            assert(rb[i] == a[i]);
        }
    }
    assert(data.subrange(pos + 2, p1) =~= e.key) by {
        assert forall|i: int| 0 <= i < kl implies data[pos + 2 + i] == e.key[i] by {
            assert(rb[2 + i] == e.key[i]);
        }
    }
    assert(data.subrange(p1, p1 + 8) =~= b) by {
        assert forall|i: int| 0 <= i < 8 implies data[p1 + i] == b[i] by {
            assert(rb[2 + kl + i] == b[i]);
            assert(p1 + i == pos + (2 + kl + i));
        }
    }
    assert(data.subrange(p1 + 8, p1 + 16) =~= c) by {
        assert forall|i: int| 0 <= i < 8 implies data[p1 + 8 + i] == c[i] by {
            assert(rb[2 + kl + 8 + i] == c[i]);
            assert(p1 + 8 + i == pos + (2 + kl + 8 + i));
        }
    }
    assert(data[p1 + 16] == op_code(e.op)) by {
        assert(rb[2 + kl + 16] == op_code(e.op));
        assert(p1 + 16 == pos + (2 + kl + 16));
    }
    assert forall|i: int| 0 <= i < 2 + g implies data[p2 + i] == d[i] by {
        assert(rb[2 + kl + 17 + i] == d[i]);
        assert(p2 + i == pos + (2 + kl + 17 + i));
    }
    assert(data.subrange(p2, p2 + 2) =~= be_bytes(g, 2)) by {
        assert forall|i: int| 0 <= i < 2 implies data[p2 + i] == be_bytes(g, 2)[i] by {
            assert(data[p2 + i] == d[i]);
        }
    }
    if let Some(re) = e.range_end {
        assert(data.subrange(p2 + 2, p3) =~= re) by {
            assert forall|i: int| 0 <= i < g implies data[p2 + 2 + i] == re[i] by {
                assert(data[p2 + (2 + i)] == d[2 + i]);
            }
        }
    }
    assert(data.subrange(p3, p3 + 4) =~= f) by {
        assert forall|i: int| 0 <= i < 4 implies data[p3 + i] == f[i] by {
            assert(rb[2 + kl + 17 + 2 + g + i] == f[i]);
            assert(p3 + i == pos + (2 + kl + 17 + 2 + g + i));
        }
    }
    assert(data.subrange(p3 + 4, p3 + 4 + vl) =~= e.value) by {
        assert forall|i: int| 0 <= i < vl implies data[p3 + 4 + i] == e.value[i] by {
            assert(rb[2 + kl + 17 + 2 + g + 4 + i] == e.value[i]);
            assert(p3 + 4 + i == pos + (2 + kl + 17 + 2 + g + 4 + i));
        }
    }
    assert(bits_i64(i64_bits(e.ts)) == e.ts);
    assert(bits_i64(i64_bits(e.expire_at)) == e.expire_at);
    assert(op_of_code(op_code(e.op)) == e.op);
}

/// The entries without their sequence numbers.
pub open spec fn unsequenced(s: Seq<Entry>) -> Seq<Entry> {
    s.map_values(|e: Entry| e.unsequenced())
}

proof fn lemma_decode_from(data: Seq<u8>, pos: int, s: Seq<Entry>)
    requires
        forall|i: int| 0 <= i < s.len() ==> fits_format(#[trigger] s[i]),
        0 <= pos <= data.len(),
        data.subrange(pos, data.len() as int) == encoded(s),
    ensures
        decoded(data, pos, s.len()) == unsequenced(s),
    decreases s.len(),
{
    if s.len() == 0 {
        assert(decoded(data, pos, 0) =~= unsequenced(s));
    } else {
        let e = s.first();
        let rb = record_bytes(e);
        let rest = encoded(s.drop_first());
        let tail = data.subrange(pos, data.len() as int);
        assert(tail == rb + rest);
        assert(data.subrange(pos, pos + rb.len()) =~= rb) by {
            assert forall|i: int| 0 <= i < rb.len() implies data[pos + i] == rb[i] by {
                assert(tail[i] == data[pos + i]);
            }
        }
        lemma_decode_one(data, pos, e);
        let next = pos + rb.len();
        assert(data.subrange(next, data.len() as int) =~= rest) by {
            assert forall|i: int| 0 <= i < rest.len() implies data[next + i] == rest[i] by {
                assert(tail[rb.len() + i] == data[pos + (rb.len() + i)]);
            }
        }
        assert forall|i: int| 0 <= i < s.drop_first().len() implies fits_format(
            #[trigger] s.drop_first()[i],
        ) by {
            assert(s.drop_first()[i] == s[i + 1]);
        }
        lemma_decode_from(data, next, s.drop_first());
        assert(decoded(data, pos, s.len()) =~= unsequenced(s));
    }
}

/// Records whose lengths fit the format are read back as they were written;
/// only their sequence numbers are not stored.
pub proof fn law_decode_inverts_encode(s: Seq<Entry>)
    requires
        forall|i: int| 0 <= i < s.len() ==> fits_format(#[trigger] s[i]),
    ensures
        decoded(encoded(s), 0, s.len()) == unsequenced(s),
{
    assert(encoded(s).subrange(0, encoded(s).len() as int) =~= encoded(s));
    lemma_decode_from(encoded(s), 0, s);
}

/// Encodes records into a compact binary buffer (big-endian, no compression).
/// Per-record layout: key_len(2) | key | ts(8) | expire_at(8) | op(1) |
///                    range_end_len(2) | range_end | val_len(4) | value
pub fn encode_records(records: &[InternalRecord]) -> (buf: Vec<u8>)
    ensures
        buf@ == encoded(entries(records@)),
{
    let mut buf: Vec<u8> = Vec::new();
    let mut i: usize = 0;
    let ghost all = entries(records@);
    assert(all.subrange(0, 0) =~= Seq::<Entry>::empty());
    while i < records.len()
        invariant
            i <= records.len(),
            all == entries(records@),
            buf@ == encoded(all.subrange(0, i as int)),
        decreases records.len() - i,
    {
        let rec = &records[i];
        let ghost before = buf@;
        push_be(&mut buf, rec.key.len() as u64, 2);
        push_bytes(&mut buf, &rec.key);
        push_be(&mut buf, i64_to_bits(rec.ts), 8);
        push_be(&mut buf, i64_to_bits(rec.expire_at), 8);
        buf.push(rec.op.to_u8());
        match &rec.range_end {
            Some(re) => {
                push_be(&mut buf, re.len() as u64, 2);
                push_bytes(&mut buf, re);
            },
            None => {
                push_be(&mut buf, 0, 2);
            },
        }
        push_be(&mut buf, rec.value.len() as u64, 4);
        push_bytes(&mut buf, &rec.value);
        proof {
            let e = all[i as int];
            assert(e == rec@);
            assert(buf@ =~= before + record_bytes(e));
            assert(all.subrange(0, i + 1) =~= all.subrange(0, i as int).push(e));
            lemma_encoded_push(all.subrange(0, i as int), e);
        }
        i = i + 1;
    }
    assert(all.subrange(0, all.len() as int) =~= all);
    buf
}

/// Reads the record at `pos`.
fn decode_record(data: &[u8], pos: usize) -> (r: Option<(InternalRecord, usize)>)
    requires
        pos <= data@.len(),
    ensures
        match r {
            Some((rec, next)) => decoded_one(data@, pos as int) == Some((rec@, next as int)) && pos
                <= next <= data@.len(),
            None => decoded_one(data@, pos as int) is None,
        },
{
    proof {
        lemma_pow256_values();
    }
    let len: usize = data.len();
    if len - pos < 2 {
        return None;
    }
    let key_len: usize = read_be(data, pos, 2) as usize;
    let key_at: usize = pos + 2;
    if len - key_at < key_len {
        return None;
    }
    let p1: usize = key_at + key_len;
    if len - p1 < 17 {
        return None;
    }
    let ts = i64_from_bits(read_be(data, p1, 8));
    let expire_at = i64_from_bits(read_be(data, p1 + 8, 8));
    let op = Op::from_u8(data[p1 + 16]);
    let p2: usize = p1 + 17;
    if len - p2 < 2 {
        return None;
    }
    let re_len: usize = read_be(data, p2, 2) as usize;
    let re_at: usize = p2 + 2;
    if len - re_at < re_len {
        return None;
    }
    let p3: usize = re_at + re_len;
    if len - p3 < 4 {
        return None;
    }
    let val_len: usize = read_be(data, p3, 4) as usize;
    let val_at: usize = p3 + 4;
    if len - val_at < val_len {
        return None;
    }
    let p4: usize = val_at + val_len;
    let range_end = if re_len > 0 {
        Some(slice_to_vec(slice_subrange(data, re_at, p3)))
    } else {
        None
    };
    Some(
        (
            InternalRecord {
                seq: 0,
                op,
                key: slice_to_vec(slice_subrange(data, key_at, p1)),
                ts,
                expire_at,
                value: slice_to_vec(slice_subrange(data, val_at, p4)),
                range_end,
            },
            p4,
        ),
    )
}

/// Decodes up to `count` records. Reading stops without an error where the
/// data ends in the middle of a record.
pub fn decode_records(data: &[u8], count: u32) -> (r: Vec<InternalRecord>)
    ensures
        entries(r@) == decoded(data@, 0, count as nat),
{
    let mut records: Vec<InternalRecord> = Vec::new();
    let mut pos: usize = 0;
    let mut left: u32 = count;
    assert(entries(records@) + decoded(data@, 0, count as nat) =~= decoded(data@, 0, count as nat));
    while left > 0
        invariant
            pos <= data@.len(),
            entries(records@) + decoded(data@, pos as int, left as nat) == decoded(
                data@,
                0,
                count as nat,
            ),
        decreases left,
    {
        match decode_record(data, pos) {
            Some((rec, next)) => {
                let ghost before = entries(records@);
                let ghost e = rec@;
                let ghost rest = decoded(data@, next as int, (left - 1) as nat);
                records.push(rec);
                assert(entries(records@) =~= before.push(e));
                assert(before.push(e) + rest =~= before + (seq![e] + rest));
                pos = next;
                left = left - 1;
            },
            None => {
                assert(entries(records@) + Seq::<Entry>::empty() =~= entries(records@));
                return records;
            },
        }
    }
    assert(entries(records@) + Seq::<Entry>::empty() =~= entries(records@));
    records
}

pub const BLOCK_MAGIC_LZ4: u32 = 0x54534E42;

pub const HEADER_SIZE: usize = 48;

/// What stands in front of every block.
#[derive(Debug, Clone, Copy)]
pub struct BlockHeader {
    pub num_records: u32,
    pub min_ts: i64,
    pub max_ts: i64,
    pub min_expire: i64,
    pub max_expire: i64,
    pub data_len: u32,
    pub compressed_len: u32,
}

/// The binary form of a header: magic(4) | num_records(4) | min_ts(8) |
/// max_ts(8) | min_expire(8) | max_expire(8) | data_len(4) | compressed_len(4).
pub open spec fn header_bytes(h: BlockHeader) -> Seq<u8> {
    be_bytes(BLOCK_MAGIC_LZ4 as nat, 4) + be_bytes(h.num_records as nat, 4) + be_bytes(
        i64_bits(h.min_ts),
        8,
    ) + be_bytes(i64_bits(h.max_ts), 8) + be_bytes(i64_bits(h.min_expire), 8) + be_bytes(
        i64_bits(h.max_expire),
        8,
    ) + be_bytes(h.data_len as nat, 4) + be_bytes(h.compressed_len as nat, 4)
}

/// The header that the first 48 bytes of `data` spell, or the complaint about them.
pub open spec fn parsed_header(data: Seq<u8>) -> core::result::Result<BlockHeader, FlowErrorView> {
    if data.len() < 48 {
        Err(FlowErrorView::Corruption { file: "sst"@, msg: "block header too short"@ })
    } else if be_value(data.subrange(0, 4)) != BLOCK_MAGIC_LZ4 as nat {
        Err(
            FlowErrorView::InvalidMagic {
                expected: BLOCK_MAGIC_LZ4,
                actual: be_value(data.subrange(0, 4)) as u32,
            },
        )
    } else {
        Ok(
            BlockHeader {
                num_records: be_value(data.subrange(4, 8)) as u32,
                min_ts: bits_i64(be_value(data.subrange(8, 16))),
                max_ts: bits_i64(be_value(data.subrange(16, 24))),
                min_expire: bits_i64(be_value(data.subrange(24, 32))),
                max_expire: bits_i64(be_value(data.subrange(32, 40))),
                data_len: be_value(data.subrange(40, 44)) as u32,
                compressed_len: be_value(data.subrange(44, 48)) as u32,
            },
        )
    }
}

/// A header is 48 bytes long.
pub proof fn lemma_header_len(h: BlockHeader)
    ensures
        header_bytes(h).len() == 48,
{
    lemma_be_len(BLOCK_MAGIC_LZ4 as nat, 4);
    lemma_be_len(h.num_records as nat, 4);
    lemma_be_len(i64_bits(h.min_ts), 8);
    lemma_be_len(i64_bits(h.max_ts), 8);
    lemma_be_len(i64_bits(h.min_expire), 8);
    lemma_be_len(i64_bits(h.max_expire), 8);
    lemma_be_len(h.data_len as nat, 4);
    lemma_be_len(h.compressed_len as nat, 4);
}

/// A header is read back as it was written, whatever follows it.
pub proof fn law_header_round_trip(h: BlockHeader, rest: Seq<u8>)
    ensures
        parsed_header(header_bytes(h) + rest) == Ok::<BlockHeader, FlowErrorView>(h),
{
    lemma_header_len(h);
    lemma_pow256_values();
    lemma_be_len(BLOCK_MAGIC_LZ4 as nat, 4);
    lemma_be_len(h.num_records as nat, 4);
    lemma_be_len(i64_bits(h.min_ts), 8);
    lemma_be_len(i64_bits(h.max_ts), 8);
    lemma_be_len(i64_bits(h.min_expire), 8);
    lemma_be_len(i64_bits(h.max_expire), 8);
    lemma_be_len(h.data_len as nat, 4);
    lemma_be_len(h.compressed_len as nat, 4);
    lemma_be_value_of_bytes(BLOCK_MAGIC_LZ4 as nat, 4);
    lemma_be_value_of_bytes(h.num_records as nat, 4);
    lemma_be_value_of_bytes(i64_bits(h.min_ts), 8);
    lemma_be_value_of_bytes(i64_bits(h.max_ts), 8);
    lemma_be_value_of_bytes(i64_bits(h.min_expire), 8);
    lemma_be_value_of_bytes(i64_bits(h.max_expire), 8);
    lemma_be_value_of_bytes(h.data_len as nat, 4);
    lemma_be_value_of_bytes(h.compressed_len as nat, 4);
    let d = header_bytes(h) + rest;
    assert(d.subrange(0, 4) =~= be_bytes(BLOCK_MAGIC_LZ4 as nat, 4));
    assert(d.subrange(4, 8) =~= be_bytes(h.num_records as nat, 4));
    assert(d.subrange(8, 16) =~= be_bytes(i64_bits(h.min_ts), 8));
    assert(d.subrange(16, 24) =~= be_bytes(i64_bits(h.max_ts), 8));
    assert(d.subrange(24, 32) =~= be_bytes(i64_bits(h.min_expire), 8));
    assert(d.subrange(32, 40) =~= be_bytes(i64_bits(h.max_expire), 8));
    assert(d.subrange(40, 44) =~= be_bytes(h.data_len as nat, 4));
    assert(d.subrange(44, 48) =~= be_bytes(h.compressed_len as nat, 4));
}

impl BlockHeader {
    /// Serialises the header into 48 big-endian bytes.
    pub fn to_bytes(&self) -> (buf: Vec<u8>)
        ensures
            buf@ == header_bytes(*self),
            buf@.len() == HEADER_SIZE,
    {
        let mut buf: Vec<u8> = Vec::new();
        push_be(&mut buf, BLOCK_MAGIC_LZ4 as u64, 4);
        push_be(&mut buf, self.num_records as u64, 4);
        push_be(&mut buf, i64_to_bits(self.min_ts), 8);
        push_be(&mut buf, i64_to_bits(self.max_ts), 8);
        push_be(&mut buf, i64_to_bits(self.min_expire), 8);
        push_be(&mut buf, i64_to_bits(self.max_expire), 8);
        push_be(&mut buf, self.data_len as u64, 4);
        push_be(&mut buf, self.compressed_len as u64, 4);
        proof {
            lemma_header_len(*self);
            assert(buf@ =~= header_bytes(*self));
        }
        buf
    }

    /// Parses a header from the first 48 bytes of a big-endian slice.
    pub fn from_bytes(data: &[u8]) -> (r: Result<BlockHeader>)
        ensures
            match r {
                Ok(h) => parsed_header(data@) == Ok::<BlockHeader, FlowErrorView>(h),
                Err(e) => parsed_header(data@) == Err::<BlockHeader, FlowErrorView>(e@),
            },
    {
        proof {
            lemma_pow256_values();
        }
        if data.len() < HEADER_SIZE {
            return Err(
                FlowError::Corruption {
                    file: string_of("sst"),
                    msg: string_of("block header too short"),
                },
            );
        }
        let magic: u32 = read_be(data, 0, 4) as u32;
        if magic != BLOCK_MAGIC_LZ4 {
            return Err(FlowError::InvalidMagic { expected: BLOCK_MAGIC_LZ4, actual: magic });
        }
        Ok(
            BlockHeader {
                num_records: read_be(data, 4, 4) as u32,
                min_ts: i64_from_bits(read_be(data, 8, 8)),
                max_ts: i64_from_bits(read_be(data, 16, 8)),
                min_expire: i64_from_bits(read_be(data, 24, 8)),
                max_expire: i64_from_bits(read_be(data, 32, 8)),
                data_len: read_be(data, 40, 4) as u32,
                compressed_len: read_be(data, 44, 4) as u32,
            },
        )
    }
}

} // verus!
