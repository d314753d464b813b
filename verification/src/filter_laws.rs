//! What becomes of the filters over the keys of SSTs when an engine is opened, and
//! which keys the ranges that SSTs delete have in them.

use vstd::prelude::*;

use crate::bloom::{at_least_one, law_no_false_negatives, BloomView};
use crate::bytes::{lex_le, lex_lt};
use crate::compaction::ranges_of;
use crate::engine::{all_blocks, filter_over, filter_settled, is_stale, whole_sst};
use crate::manifest::ManifestView;
use crate::ranges::{covers_at, lemma_spans_cover, masked, spans_in};
use crate::record::{Entry, Op};
use crate::sstable::{
    block_starts, key_runs, lemma_key_runs_complete, spans_of_blocks, spans_of_sst, stored_block,
    SstReader,
};

verus! {

/// The entry stands in a block of the SST.
pub open spec fn stands_in(reader: SstReader, k: u32, e: Entry) -> bool {
    let b = reader.block(k);
    k < reader.starts().len() && b is Ok && (b->Ok_0).1.contains(e)
}

proof fn lemma_all_blocks(reader: SstReader, n: u32, k: u32, e: Entry)
    requires
        all_blocks(reader, n) is Some,
        k < n,
        reader.block(k) is Ok,
        (reader.block(k)->Ok_0).1.contains(e),
    ensures
        all_blocks(reader, n)->0.contains(e),
    decreases n,
{
    let s = all_blocks(reader, (n - 1) as u32)->0;
    let t = (reader.block((n - 1) as u32)->Ok_0).1;
    assert(all_blocks(reader, n)->0 == s + t);
    if k == n - 1 {
        let i = choose|i: int| 0 <= i < t.len() && t[i] == e;
        assert((s + t)[s.len() + i] == e);
    } else {
        lemma_all_blocks(reader, (n - 1) as u32, k, e);
        let i = choose|i: int| 0 <= i < s.len() && s[i] == e;
        assert((s + t)[i] == e);
    }
}

/// A filter over the keys of entries reports the key of each of them.
pub proof fn law_filter_over_entries_misses_none(
    bloom: BloomView,
    s: Seq<Entry>,
    bits: usize,
    e: Entry,
)
    requires
        filter_over(bloom, s, bits),
        s.contains(e),
    ensures
        bloom.reports(e.key),
{
    let i = choose|i: int| 0 <= i < s.len() && s[i] == e;
    lemma_key_runs_complete(s, i);
    law_no_false_negatives(
        BloomView::blank(at_least_one(key_runs(s).len() as int), bits as int),
        key_runs(s),
        bloom,
        e.key,
    );
}

/// A filter that was made with another hash than that of today is not kept: what
/// takes its place reports every key of the SST. Any other filter stays as it is.
pub proof fn law_stale_filter_is_replaced(
    before: Map<u32, BloomView>,
    after: Map<u32, BloomView>,
    m: ManifestView,
    readers: Map<u32, SstReader>,
    bits: usize,
    id: u32,
)
    requires
        filter_settled(before, after, m, readers, bits, id),
        m.sstables.contains_key(id),
        m.sstables[id].bloom is Some,
        readers.contains_key(id) ==> readers[id].starts().len() <= u32::MAX,
    ensures
        (m.sstables[id].bloom->0).hash_version != 1 ==> (after.contains_key(id)
            ==> readers.contains_key(id) && forall|k: u32, e: Entry| #[trigger]
            stands_in(readers[id], k, e) ==> after[id].reports(e.key)),
        (m.sstables[id].bloom->0).hash_version == 1 ==> (after.contains_key(id)
            <==> before.contains_key(id)) && (before.contains_key(id) ==> after[id] == before[id]),
{
    if is_stale(m, id) && after.contains_key(id) {
        let r = readers[id];
        assert forall|k: u32, e: Entry| #[trigger] stands_in(r, k, e) implies after[id].reports(
            e.key,
        ) by {
            lemma_all_blocks(r, r.starts().len() as u32, k, e);
            law_filter_over_entries_misses_none(after[id], whole_sst(r)->0, bits, e);
        }
    }
}

/// The entry deletes a range with the key in it: its start or after, and before
/// its end.
pub open spec fn deletes_key(e: Entry, key: Seq<u8>) -> bool {
    e.op == Op::DeleteRange && e.range_end is Some && lex_le(e.key, key) && lex_lt(
        key,
        e.range_end->0,
    )
}

/// The key ranges of entries have a key in them exactly if one of the entries
/// deletes a range with the key in it.
pub proof fn law_ranges_are_those_of_the_deletions(s: Seq<Entry>, key: Seq<u8>)
    ensures
        masked(spans_in(s), key) <==> exists|e: Entry| #[trigger]
            s.contains(e) && deletes_key(e, key),
{
    lemma_spans_cover(s, key);
    if masked(spans_in(s), key) {
        let j = choose|j: int| 0 <= j < s.len() && covers_at(#[trigger] s[j], key, None, u64::MAX);
        assert(s.contains(s[j]) && deletes_key(s[j], key));
    }
    if exists|e: Entry| #[trigger] s.contains(e) && deletes_key(e, key) {
        let e = choose|e: Entry| #[trigger] s.contains(e) && deletes_key(e, key);
        let j = choose|j: int| 0 <= j < s.len() && s[j] == e;
        assert(covers_at(s[j], key, None, u64::MAX));
    }
}

/// The entry stands in a block of the bytes of an SST.
pub open spec fn stands_at(data: Seq<u8>, starts: Seq<int>, id: u32, k: u32, e: Entry) -> bool {
    let b = stored_block(data, starts, id, k);
    b is Ok && (b->Ok_0).1.contains(e)
}

/// The key ranges that are found in the blocks of an SST have a key in them
/// exactly if an entry of a block that can be read deletes a range with the key
/// in it.
pub proof fn law_found_ranges_are_those_of_the_blocks(data: Seq<u8>, id: u32, key: Seq<u8>)
    requires
        block_starts(data, 0) is Ok,
        block_starts(data, 0)->Ok_0.len() <= u32::MAX,
    ensures
        masked(spans_of_sst(data, id), key) <==> exists|k: u32, e: Entry| #[trigger]
            stands_at(data, block_starts(data, 0)->Ok_0, id, k, e) && deletes_key(e, key),
{
    let starts = block_starts(data, 0)->Ok_0;
    let n = starts.len() as u32;
    lemma_spans_of_blocks(data, starts, id, n, key);
    if exists|k: u32, e: Entry| #[trigger]
        stands_at(data, starts, id, k, e) && deletes_key(e, key) {
        let (k, e) = choose|k: u32, e: Entry| #[trigger]
            stands_at(data, starts, id, k, e) && deletes_key(e, key);
        assert(k < n);
    }
}

proof fn lemma_masked_add(
    a: Seq<(Seq<u8>, Seq<u8>)>,
    b: Seq<(Seq<u8>, Seq<u8>)>,
    key: Seq<u8>,
)
    ensures
        masked(a + b, key) <==> masked(a, key) || masked(b, key),
{
    let c = a + b;
    if masked(c, key) {
        let i = choose|i: int|
            0 <= i < c.len() && lex_le((#[trigger] c[i]).0, key) && lex_lt(key, c[i].1);
        if i < a.len() {
            assert(a[i] == c[i]);
        } else {
            assert(b[i - a.len()] == c[i]);
        }
    }
    if masked(a, key) {
        let i = choose|i: int|
            0 <= i < a.len() && lex_le((#[trigger] a[i]).0, key) && lex_lt(key, a[i].1);
        assert(c[i] == a[i]);
    }
    if masked(b, key) {
        let i = choose|i: int|
            0 <= i < b.len() && lex_le((#[trigger] b[i]).0, key) && lex_lt(key, b[i].1);
        assert(c[a.len() + i] == b[i]);
    }
}

proof fn lemma_spans_of_blocks(
    data: Seq<u8>,
    starts: Seq<int>,
    id: u32,
    n: u32,
    key: Seq<u8>,
)
    ensures
        masked(spans_of_blocks(data, starts, id, n), key) <==> exists|k: u32, e: Entry|
            k < n && #[trigger] stands_at(data, starts, id, k, e) && deletes_key(e, key),
    decreases n,
{
    if n > 0 {
        let m = (n - 1) as u32;
        lemma_spans_of_blocks(data, starts, id, m, key);
        let a = spans_of_blocks(data, starts, id, m);
        let b = stored_block(data, starts, id, m);
        if b is Ok {
            let s = (b->Ok_0).1;
            lemma_masked_add(a, spans_in(s), key);
            law_ranges_are_those_of_the_deletions(s, key);
            if masked(spans_in(s), key) {
                let e = choose|e: Entry| #[trigger] s.contains(e) && deletes_key(e, key);
                assert(stands_at(data, starts, id, m, e));
            }
        } else {
            lemma_masked_add(a, Seq::empty(), key);
        }
        if exists|k: u32, e: Entry|
            k < n && #[trigger] stands_at(data, starts, id, k, e) && deletes_key(e, key) {
            let (k, e) = choose|k: u32, e: Entry|
                k < n && #[trigger] stands_at(data, starts, id, k, e) && deletes_key(e, key);
            if k == m {
                assert((b->Ok_0).1.contains(e));
            } else {
                assert(k < m);
            }
        }
    }
}

/// The key ranges of SSTs that are merged have a key in them exactly if those of
/// one of them do.
pub proof fn law_merged_ranges_are_those_of_each(ids: Seq<u32>, m: ManifestView, key: Seq<u8>)
    ensures
        masked(ranges_of(ids, m), key) <==> exists|id: u32| #[trigger]
            ids.contains(id) && m.sstables.contains_key(id) && masked(m.sstables[id].ranges, key),
    decreases ids.len(),
{
    if ids.len() > 0 {
        let t = ids.drop_last();
        let x = ids.last();
        law_merged_ranges_are_those_of_each(t, m, key);
        if m.sstables.contains_key(x) {
            lemma_masked_add(ranges_of(t, m), m.sstables[x].ranges, key);
        }
        assert(ids[ids.len() - 1] == x);
        if masked(ranges_of(t, m), key) {
            let id = choose|id: u32| #[trigger]
                t.contains(id) && m.sstables.contains_key(id) && masked(m.sstables[id].ranges, key);
            let i = choose|i: int| 0 <= i < t.len() && t[i] == id;
            assert(ids[i] == id);
            assert(ids.contains(id));
        }
        assert(ids.contains(x));
        if exists|id: u32| #[trigger]
            ids.contains(id) && m.sstables.contains_key(id) && masked(m.sstables[id].ranges, key) {
            let id = choose|id: u32| #[trigger]
                ids.contains(id) && m.sstables.contains_key(id) && masked(
                    m.sstables[id].ranges,
                    key,
                );
            let i = choose|i: int| 0 <= i < ids.len() && ids[i] == id;
            if i < t.len() {
                assert(t[i] == id);
                assert(t.contains(id));
            }
        }
    }
}

} // verus!
