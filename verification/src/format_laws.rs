//! Where things stand in the files of an engine, and what the filters over its
//! keys report.

use vstd::prelude::*;

use crate::bloom::{bit_at, bit_position, fnv, holds_keys, BloomView, MAX_WORDS};
use crate::bytes::{
    be_bytes, be_value, i64_bits, lemma_be_len, lemma_be_value_of_bytes, lemma_pow256_values,
    lex_le,
};
use crate::codec::{encoded, header_bytes, parsed_header, record_bytes, BlockHeader};
use crate::compaction::sums_up;
use crate::container::{frame_bytes, held, Frame};
use crate::engine::Engine;
use crate::error::FlowErrorView;
use crate::manifest::{good_lines, BlockInfoView, ManifestEntry, SstInfoView};
use crate::record::Entry;
use crate::sstable::{describes, stored_block};
use crate::stats::StatsCounters;
use crate::wal::{batch_at, batch_bytes, checksum_of, replayed};

verus! {

/// Where the parts of a block's header stand: the mark of the format and the
/// number of records in four bytes each, the first and the last time and the
/// first and the last expiry in eight bytes each, and the lengths of the records
/// before and after compression in four bytes each.
pub proof fn law_parts_of_a_header(h: BlockHeader)
    ensures
        header_bytes(h).len() == 48,
        header_bytes(h).subrange(0, 4) == be_bytes(0x54534E42, 4),
        header_bytes(h).subrange(4, 8) == be_bytes(h.num_records as nat, 4),
        header_bytes(h).subrange(8, 16) == be_bytes(i64_bits(h.min_ts), 8),
        header_bytes(h).subrange(16, 24) == be_bytes(i64_bits(h.max_ts), 8),
        header_bytes(h).subrange(24, 32) == be_bytes(i64_bits(h.min_expire), 8),
        header_bytes(h).subrange(32, 40) == be_bytes(i64_bits(h.max_expire), 8),
        header_bytes(h).subrange(40, 44) == be_bytes(h.data_len as nat, 4),
        header_bytes(h).subrange(44, 48) == be_bytes(h.compressed_len as nat, 4),
{
    lemma_be_len(0x54534E42, 4);
    lemma_be_len(h.num_records as nat, 4);
    lemma_be_len(i64_bits(h.min_ts), 8);
    lemma_be_len(i64_bits(h.max_ts), 8);
    lemma_be_len(i64_bits(h.min_expire), 8);
    lemma_be_len(i64_bits(h.max_expire), 8);
    lemma_be_len(h.data_len as nat, 4);
    lemma_be_len(h.compressed_len as nat, 4);
}

/// Where the parts of a logged batch stand: the number of its first record in
/// eight bytes, how many records there are and how many bytes they take in four
/// each, the records, their checksum in four bytes, and the mark of a whole
/// batch.
pub proof fn law_parts_of_a_batch(first: u64, es: Seq<Entry>)
    ensures
        ({
            let s = batch_bytes(first, es);
            let n = encoded(es).len() as int;
            &&& s.len() == 21 + n
            &&& s.subrange(0, 8) == be_bytes(first as nat, 8)
            &&& s.subrange(8, 12) == be_bytes(es.len(), 4)
            &&& s.subrange(12, 16) == be_bytes(n as nat, 4)
            &&& s.subrange(16, 16 + n) == encoded(es)
            &&& s.subrange(16 + n, 20 + n) == be_bytes(checksum_of(encoded(es)), 4)
            &&& s[20 + n] == 0xC5
        }),
{
    lemma_be_len(first as nat, 8);
    lemma_be_len(es.len(), 4);
    lemma_be_len(encoded(es).len(), 4);
    lemma_be_len(checksum_of(encoded(es)), 4);
}

/// Records are written one after the other.
pub proof fn law_records_follow_each_other(a: Seq<Entry>, b: Seq<Entry>)
    ensures
        encoded(a + b) == encoded(a) + encoded(b),
        forall|e: Entry| #[trigger] encoded(seq![e]) == record_bytes(e),
    decreases a.len(),
{
    assert forall|e: Entry| #[trigger] encoded(seq![e]) == record_bytes(e) by {
        assert(seq![e].drop_first() =~= Seq::<Entry>::empty());
        assert(encoded(Seq::<Entry>::empty()) == Seq::<u8>::empty());
        assert(encoded(seq![e]) =~= record_bytes(e));
    }
    if a.len() == 0 {
        assert(a + b =~= b);
        assert(encoded(a + b) =~= encoded(a) + encoded(b));
    } else {
        law_records_follow_each_other(a.drop_first(), b);
        assert((a + b).drop_first() =~= a.drop_first() + b);
        assert((a + b).first() == a.first());
        assert(encoded(a + b) =~= encoded(a) + encoded(b));
    }
}

/// Where the parts of a change to a file of SSTs stand: the number of the SST in
/// four bytes, the length of its data in eight, and the data; a removal has no
/// data, and a length that no data has.
pub proof fn law_parts_of_a_change(id: u32, data: Seq<u8>)
    ensures
        ({
            let w = frame_bytes(Frame::Written(id, data));
            let r = frame_bytes(Frame::Removed(id));
            let n = data.len() as int;
            &&& w.len() == 12 + n
            &&& w.subrange(0, 4) == be_bytes(id as nat, 4)
            &&& w.subrange(4, 12) == be_bytes(n as nat, 8)
            &&& w.subrange(12, 12 + n) == data
            &&& r.len() == 12
            &&& r.subrange(0, 4) == be_bytes(id as nat, 4)
            &&& r.subrange(4, 12) == be_bytes(0xffff_ffff_ffff_ffff, 8)
        }),
{
    lemma_be_len(id as nat, 4);
    lemma_be_len(data.len(), 8);
    lemma_be_len(0xffff_ffff_ffff_ffff, 8);
}

/// The change is about an SST.
pub open spec fn is_about(f: Frame, id: u32) -> bool {
    match f {
        Frame::Written(i, _) => i == id,
        Frame::Removed(i) => i == id,
    }
}

/// Of the changes about an SST the last decides: the file holds what it wrote, or
/// nothing where it was a removal. Without one the file holds nothing.
pub proof fn law_last_change_decides(fs: Seq<Frame>, id: u32, k: int)
    requires
        0 <= k < fs.len(),
        is_about(fs[k], id),
        forall|j: int| k < j < fs.len() ==> !is_about(#[trigger] fs[j], id),
    ensures
        match fs[k] {
            Frame::Written(_, data) => held(fs).contains_key(id) && held(fs)[id] == data,
            Frame::Removed(_) => !held(fs).contains_key(id),
        },
    decreases fs.len(),
{
    if k < fs.len() - 1 {
        assert(!is_about(fs[fs.len() - 1], id));
        let t = fs.drop_last();
        assert(t[k] == fs[k]);
        assert forall|j: int| k < j < t.len() implies !is_about(#[trigger] t[j], id) by {
            assert(t[j] == fs[j]);
        }
        law_last_change_decides(t, id, k);
    }
}

/// A file without a change about an SST does not hold it.
pub proof fn law_unmentioned_is_not_held(fs: Seq<Frame>, id: u32)
    requires
        forall|j: int| 0 <= j < fs.len() ==> !is_about(#[trigger] fs[j], id),
    ensures
        !held(fs).contains_key(id),
    decreases fs.len(),
{
    if fs.len() > 0 {
        let t = fs.drop_last();
        assert(!is_about(fs[fs.len() - 1], id));
        assert forall|j: int| 0 <= j < t.len() implies !is_about(#[trigger] t[j], id) by {
            assert(t[j] == fs[j]);
        }
        law_unmentioned_is_not_held(t, id);
    }
}

proof fn lemma_checksum_below(s: Seq<u8>)
    ensures
        checksum_of(s) < 0x1_0000_0000,
{
}

proof fn lemma_times_31(x: int, y: int, k: int)
    by (nonlinear_arith)
    requires
        31 * (x - y) == k * 0x1_0000_0000,
    ensures
        x - y == 0x1_0000_0000 * (3186588639 * k - 23 * (x - y)),
{
}

/// One byte changed in a text changes its checksum.
pub proof fn law_changed_byte_changes_the_checksum(s: Seq<u8>, i: int, b: u8)
    requires
        0 <= i < s.len(),
        b != s[i],
    ensures
        checksum_of(s.update(i, b)) != checksum_of(s),
    decreases s.len(),
{
    let t = s.update(i, b);
    let s0 = s.drop_last();
    let t0 = t.drop_last();
    let x = checksum_of(s0) as int;
    let y = checksum_of(t0) as int;
    lemma_checksum_below(s0);
    lemma_checksum_below(t0);
    if i == s.len() - 1 {
        assert(t0 =~= s0);
        let p = x * 31 + s.last();
        let q = x * 31 + b;
        if p % 0x1_0000_0000 == q % 0x1_0000_0000 {
            let m: int = 0x1_0000_0000;
            let k = p / m - q / m;
            assert(p - q == k * m) by {
                vstd::arithmetic::div_mod::lemma_fundamental_div_mod(p, m);
                vstd::arithmetic::div_mod::lemma_fundamental_div_mod(q, m);
            }
            assert(-256 < p - q < 256);
            assert(k == 0);
        }
    } else {
        assert(t0 =~= s0.update(i, b));
        law_changed_byte_changes_the_checksum(s0, i, b);
        assert(t.last() == s.last());
        let p = x * 31 + s.last();
        let q = y * 31 + s.last();
        if p % 0x1_0000_0000 == q % 0x1_0000_0000 {
            let m: int = 0x1_0000_0000;
            let k = p / m - q / m;
            assert(p - q == k * m) by {
                vstd::arithmetic::div_mod::lemma_fundamental_div_mod(p, m);
                vstd::arithmetic::div_mod::lemma_fundamental_div_mod(q, m);
            }
            lemma_times_31(x, y, k);
            let z = 3186588639 * k - 23 * (x - y);
            assert(x - y == m * z);
            assert(z == 0);
        }
    }
}

/// A text is hashed byte by byte: the hash of what follows goes on from that of
/// the beginning.
pub proof fn law_hash_goes_on(basis: u64, a: Seq<u8>, b: Seq<u8>)
    ensures
        fnv(basis, a + b) == fnv(fnv(basis, a), b),
        fnv(basis, Seq::<u8>::empty()) == basis,
        forall|c: u8| #[trigger]
            fnv(basis, seq![c]) == vstd::wrapping::u64_specs::wrapping_mul(
                basis ^ (c as u64),
                0x100000001b3,
            ),
    decreases b.len(),
{
    assert forall|c: u8| #[trigger]
        fnv(basis, seq![c]) == vstd::wrapping::u64_specs::wrapping_mul(
            basis ^ (c as u64),
            0x100000001b3,
        ) by {
        assert(seq![c].drop_last() =~= Seq::<u8>::empty());
        assert(fnv(basis, Seq::<u8>::empty()) == basis);
    }
    if b.len() == 0 {
        assert(a + b =~= a);
    } else {
        law_hash_goes_on(basis, a, b.drop_last());
        assert((a + b).drop_last() =~= a + b.drop_last());
        assert((a + b).last() == b.last());
    }
}

/// A filter that is made reports nothing.
pub proof fn law_blank_filter_reports_nothing(n: int, per_key: int, key: Seq<u8>)
    ensures
        !BloomView::blank(n, per_key).reports(key),
{
    let f = BloomView::blank(n, per_key);
    let p = bit_position(key, 0, f.bit_len());
    assert(0 < f.bits.len());
    assert(0 <= p < f.bit_len());
    assert(0 <= p / 64 < f.bits.len());
    let k = (p % 64) as u64;
    assert((0u64 >> k) & 1 == 0) by (bit_vector);
    assert(!bit_at(f.bits, p));
}

/// One of the keys picks a bit.
pub open spec fn picked(filter: BloomView, keys: Seq<Seq<u8>>, p: int) -> bool {
    exists|j: int| 0 <= j < keys.len() && filter.picks(#[trigger] keys[j], p)
}

/// A filter reports a key exactly if every bit that the key picks is picked by a
/// key that was added.
pub proof fn law_filter_reports_by_its_bits(
    n: int,
    per_key: int,
    keys: Seq<Seq<u8>>,
    filter: BloomView,
    key: Seq<u8>,
)
    requires
        holds_keys(BloomView::blank(n, per_key), keys, filter),
    ensures
        filter.reports(key) <==> forall|i: u32|
            i < filter.num_hashes ==> picked(
                filter,
                keys,
                #[trigger] bit_position(key, i, filter.bit_len()),
            ),
{
    lemma_filter_shape(n, per_key, keys, filter);
    let m = filter.bit_len();
    assert(0 < filter.bits.len() <= MAX_WORDS);
    assert forall|i: u32|
        bit_at(filter.bits, #[trigger] bit_position(key, i, m)) <==> picked(
            filter,
            keys,
            bit_position(key, i, m),
        ) by {
        lemma_filter_bits(n, per_key, keys, filter, bit_position(key, i, m));
    }
}

proof fn lemma_filter_shape(n: int, per_key: int, keys: Seq<Seq<u8>>, filter: BloomView)
    requires
        holds_keys(BloomView::blank(n, per_key), keys, filter),
    ensures
        filter.bits.len() == BloomView::blank(n, per_key).bits.len(),
        filter.num_hashes == BloomView::blank(n, per_key).num_hashes,
    decreases keys.len(),
{
    if keys.len() > 0 {
        let start = BloomView::blank(n, per_key);
        let before = choose|before: BloomView|
            holds_keys(start, keys.drop_last(), before) && #[trigger] before.adds(
                keys.last(),
                filter,
            );
        lemma_filter_shape(n, per_key, keys.drop_last(), before);
    }
}

proof fn lemma_filter_bits(n: int, per_key: int, keys: Seq<Seq<u8>>, filter: BloomView, p: int)
    requires
        holds_keys(BloomView::blank(n, per_key), keys, filter),
        0 <= p < filter.bit_len(),
    ensures
        bit_at(filter.bits, p) <==> exists|j: int|
            0 <= j < keys.len() && filter.picks(#[trigger] keys[j], p),
    decreases keys.len(),
{
    let start = BloomView::blank(n, per_key);
    if keys.len() == 0 {
        let k = (p % 64) as u64;
        assert((0u64 >> k) & 1 == 0) by (bit_vector);
        assert(0 <= p / 64 < filter.bits.len());
    } else {
        let less = keys.drop_last();
        let before = choose|before: BloomView|
            holds_keys(start, keys.drop_last(), before) && #[trigger] before.adds(
                keys.last(),
                filter,
            );
        lemma_filter_bits(n, per_key, less, before, p);
        assert forall|k: Seq<u8>| #[trigger] filter.picks(k, p) <==> before.picks(k, p) by {
            assert(filter.bit_len() == before.bit_len());
        }
        if bit_at(before.bits, p) {
            let j = choose|j: int| 0 <= j < less.len() && before.picks(#[trigger] less[j], p);
            assert(filter.picks(keys[j], p));
        }
        if before.picks(keys.last(), p) {
            assert(filter.picks(keys[keys.len() - 1], p));
        }
        if exists|j: int| 0 <= j < keys.len() && filter.picks(#[trigger] keys[j], p) {
            let j = choose|j: int| 0 <= j < keys.len() && filter.picks(#[trigger] keys[j], p);
            if j < less.len() {
                assert(before.picks(less[j], p));
            }
        }
    }
}

/// Every whole line of a manifest counts, in order; a last line that is torn does
/// not.
pub proof fn law_whole_lines_count(s: Seq<core::result::Result<ManifestEntry, String>>)
    requires
        forall|i: int| 0 <= i < s.len() - 1 ==> (#[trigger] s[i]) is Ok,
    ensures
        s.len() > 0 && s.last() is Err ==> good_lines(s).len() == s.len() - 1,
        s.len() == 0 || s.last() is Ok ==> good_lines(s).len() == s.len(),
        forall|i: int|
            0 <= i < good_lines(s).len() ==> (#[trigger] good_lines(s)[i]) == (s[i]->Ok_0)@,
    decreases s.len(),
{
    if s.len() > 0 {
        let t = s.drop_last();
        assert forall|i: int| 0 <= i < t.len() implies (#[trigger] t[i]) is Ok by {
            assert(t[i] == s[i]);
        }
        law_whole_lines_count(t);
        assert(good_lines(t).len() == t.len()) by {
            if t.len() > 0 {
                assert(t[t.len() - 1] is Ok);
            }
        }
        assert forall|i: int| 0 <= i < good_lines(s).len() implies (#[trigger] good_lines(s)[i])
            == (s[i]->Ok_0)@ by {
            if i < t.len() {
                assert(good_lines(s)[i] == good_lines(t)[i]);
                assert(t[i] == s[i]);
            }
        }
    }
}

/// The numbers that describe an engine are those that were counted, each by its
/// name, and how many SSTs and blocks there are.
pub proof fn law_stats_show_what_was_counted(engine: Engine, counters: StatsCounters, secs: u64)
    ensures
        ({
            let s = engine.stats_of(counters, secs);
            &&& s.total_records_written == counters.records_written
            &&& s.total_records_read == counters.records_read
            &&& s.flushes == counters.flushes
            &&& s.compactions == counters.compactions
            &&& s.ssts_collected == counters.ssts_collected
            &&& s.sst_count == engine@.manifest.active.len() as u64
            &&& s.index_entries == engine@.index.blocks.len() as u64
            &&& s.uptime_secs == secs
        }),
{
}

/// A logged batch one of whose record bytes was changed is not replayed, nor is
/// one whose mark was.
pub proof fn law_damaged_batch_is_not_replayed(first: u64, es: Seq<Entry>, i: int, b: u8)
    requires
        encoded(es).len() <= u32::MAX,
        16 <= i < 16 + encoded(es).len() || i == 20 + encoded(es).len(),
        b != batch_bytes(first, es)[i],
    ensures
        batch_at(batch_bytes(first, es).update(i, b), 0) is None,
        replayed(batch_bytes(first, es).update(i, b), 0) == Seq::<Entry>::empty(),
{
    let s = batch_bytes(first, es);
    let t = s.update(i, b);
    let e = encoded(es);
    let n = e.len() as int;
    law_parts_of_a_batch(first, es);
    lemma_pow256_values();
    lemma_be_value_of_bytes(e.len(), 4);
    assert(t.subrange(12, 16) =~= s.subrange(12, 16));
    assert(be_value(t.subrange(12, 16)) == n);
    if i < 16 + n {
        let body = t.subrange(16, 16 + n);
        assert(s.subrange(16, 16 + n)[i - 16] == s[i]);
        assert(body =~= e.update(i - 16, b));
        law_changed_byte_changes_the_checksum(e, i - 16, b);
        lemma_checksum_below(e);
        lemma_be_value_of_bytes(checksum_of(e), 4);
        assert(t.subrange(16 + n, 20 + n) =~= s.subrange(16 + n, 20 + n));
    } else {
        assert(t[20 + n] == b);
    }
}

/// A block that does not begin with the mark of the format is refused.
pub proof fn law_foreign_block_is_refused(data: Seq<u8>)
    requires
        data.len() >= 48,
        data.subrange(0, 4) != be_bytes(0x54534E42, 4),
    ensures
        parsed_header(data) is Err,
        parsed_header(data)->Err_0 is InvalidMagic,
{
    let a = data.subrange(0, 4);
    lemma_be_bytes_of_value(a);
}

proof fn lemma_be_bytes_of_value(a: Seq<u8>)
    ensures
        be_bytes(be_value(a), a.len()) == a,
    decreases a.len(),
{
    if a.len() == 0 {
        assert(be_bytes(be_value(a), 0) =~= a);
    } else {
        let n = be_value(a.drop_last());
        lemma_be_bytes_of_value(a.drop_last());
        assert(be_value(a) == n * 256 + a.last() as nat);
        assert(be_value(a) / 256 == n);
        assert(be_value(a) % 256 == a.last() as nat);
        assert(be_bytes(be_value(a), a.len()) =~= a);
    }
}

/// The description of a block holds of every record in it, and each of its bounds
/// is reached: no narrower one does.
pub proof fn law_block_bounds_are_tight(info: BlockInfoView, chunk: Seq<Entry>, other: BlockInfoView)
    requires
        describes(info, chunk),
        forall|i: int|
            0 <= i < chunk.len() ==> {
                let e = #[trigger] chunk[i];
                &&& other.min_ts <= e.ts <= other.max_ts
                &&& other.min_expire <= e.expire_at <= other.max_expire
                &&& lex_le(other.min_key, e.key)
                &&& lex_le(e.key, other.max_key)
            },
    ensures
        forall|i: int|
            0 <= i < chunk.len() ==> {
                let e = #[trigger] chunk[i];
                &&& info.min_ts <= e.ts <= info.max_ts
                &&& info.min_expire <= e.expire_at <= info.max_expire
                &&& lex_le(info.min_key, e.key)
                &&& lex_le(e.key, info.max_key)
            },
        other.min_ts <= info.min_ts,
        info.max_ts <= other.max_ts,
        other.min_expire <= info.min_expire,
        info.max_expire <= other.max_expire,
        lex_le(other.min_key, info.min_key),
        lex_le(info.max_key, other.max_key),
{
    let i = choose|i: int| 0 <= i < chunk.len() && (#[trigger] chunk[i]).ts == info.min_ts;
    assert(other.min_ts <= chunk[i].ts);
    let i = choose|i: int| 0 <= i < chunk.len() && (#[trigger] chunk[i]).ts == info.max_ts;
    assert(chunk[i].ts <= other.max_ts);
    let i = choose|i: int| 0 <= i < chunk.len() && (#[trigger] chunk[i]).expire_at
        == info.min_expire;
    assert(other.min_expire <= chunk[i].expire_at);
    let i = choose|i: int| 0 <= i < chunk.len() && (#[trigger] chunk[i]).expire_at
        == info.max_expire;
    assert(chunk[i].expire_at <= other.max_expire);
    let i = choose|i: int| 0 <= i < chunk.len() && (#[trigger] chunk[i]).key == info.min_key;
    assert(lex_le(other.min_key, chunk[i].key));
    let i = choose|i: int| 0 <= i < chunk.len() && (#[trigger] chunk[i]).key == info.max_key;
    assert(lex_le(chunk[i].key, other.max_key));
}

/// The description of an SST holds of every block of it, and no narrower one
/// does.
pub proof fn law_sst_bounds_are_tight(
    info: SstInfoView,
    blocks: Seq<BlockInfoView>,
    lo: i64,
    hi: i64,
    first: i64,
    last: i64,
)
    requires
        sums_up(info, blocks),
        blocks.len() > 0,
        forall|i: int|
            0 <= i < blocks.len() ==> lo <= (#[trigger] blocks[i]).min_ts && blocks[i].max_ts <= hi
                && first <= blocks[i].min_expire && blocks[i].max_expire <= last,
    ensures
        forall|i: int|
            0 <= i < blocks.len() ==> info.min_ts <= (#[trigger] blocks[i]).min_ts
                && blocks[i].max_ts <= info.max_ts && info.min_expire <= blocks[i].min_expire
                && blocks[i].max_expire <= info.max_expire,
        lo <= info.min_ts,
        info.max_ts <= hi,
        first <= info.min_expire,
        info.ranges.len() == 0 ==> info.max_expire <= last,
        info.ranges.len() > 0 ==> info.max_expire == i64::MAX,
{
    let i = choose|i: int| 0 <= i < blocks.len() && (#[trigger] blocks[i]).min_ts == info.min_ts;
    assert(lo <= blocks[i].min_ts);
    let i = choose|i: int| 0 <= i < blocks.len() && (#[trigger] blocks[i]).max_ts == info.max_ts;
    assert(blocks[i].max_ts <= hi);
    let i = choose|i: int| 0 <= i < blocks.len() && (#[trigger] blocks[i]).min_expire
        == info.min_expire;
    assert(first <= blocks[i].min_expire);
    if info.ranges.len() == 0 {
        let i = choose|i: int| 0 <= i < blocks.len() && (#[trigger] blocks[i]).max_expire
            == info.max_expire;
        assert(blocks[i].max_expire <= last);
    }
}

/// A block that an SST does not have is not found, and the answer says which of
/// which SST.
pub proof fn law_block_past_the_last_is_not_found(
    data: Seq<u8>,
    starts: Seq<int>,
    sst_id: u32,
    idx: u32,
)
    ensures
        idx >= starts.len() ==> stored_block(data, starts, sst_id, idx) is Err && stored_block(
            data,
            starts,
            sst_id,
            idx,
        )->Err_0 == (FlowErrorView::BlockNotFound { sst_id, block_idx: idx }),
        idx < starts.len() && stored_block(data, starts, sst_id, idx) is Err ==> !(stored_block(
            data,
            starts,
            sst_id,
            idx,
        )->Err_0 is BlockNotFound),
{
}

} // verus!
