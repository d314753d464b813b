//! Which blocks the index over all SSTs finds, in terms of their keys and times.

use vstd::prelude::*;

use crate::block_meta_index::{
    bucket_of, falling_ids, inserted, lemma_insert_contains, lemma_rank_bounds, meta_of, metas_of,
    rank_of, with_blocks, with_sst, IndexView, MetaView, SstView,
};
use crate::bytes::{
    has_prefix, lemma_lex_le_transitive, lemma_lex_total, lemma_prefix_le, lemma_prefix_range,
    less_at, lex_le, prefix_successor,
};
use crate::manifest::BlockInfoView;
use crate::memtables::lemma_flatten_contains;
use crate::order::lemma_filter_contains;
use crate::record::KeyFilterView;

verus! {

/// The key lies between the first and the last key of a block.
pub open spec fn spans(m: MetaView, key: Seq<u8>) -> bool {
    lex_le(m.min_key, key) && lex_le(key, m.max_key)
}

/// A block overlaps a filter exactly if a key between its first and its last key
/// is let through: one that begins with the prefix, or one in the range.
pub proof fn law_block_overlaps_what_lets_a_key_through(m: MetaView, filter: KeyFilterView)
    requires
        lex_le(m.min_key, m.max_key),
        filter matches KeyFilterView::Range { start, end } ==> lex_le(start, end),
    ensures
        m.meets(filter) <==> match filter {
            KeyFilterView::Prefix(p) => exists|key: Seq<u8>| #[trigger]
                spans(m, key) && has_prefix(key, p),
            KeyFilterView::Range { start, end } => exists|key: Seq<u8>| #[trigger]
                spans(m, key) && lex_le(start, key) && lex_le(key, end),
            KeyFilterView::All => true,
        },
{
    match filter {
        KeyFilterView::Prefix(p) => {
            if m.meets(filter) {
                lemma_lex_total(p, m.min_key);
                if lex_le(p, m.min_key) {
                    assert(spans(m, m.min_key));
                    match prefix_successor(p) {
                        Some(end) => {
                            lemma_prefix_range(p, m.min_key);
                        },
                        None => {
                            lemma_last_prefix(p, m.min_key);
                        },
                    }
                } else {
                    assert(spans(m, p));
                    assert(p.subrange(0, p.len() as int) =~= p);
                }
            }
            if exists|key: Seq<u8>| #[trigger] spans(m, key) && has_prefix(key, p) {
                let key = choose|key: Seq<u8>| #[trigger] spans(m, key) && has_prefix(key, p);
                lemma_prefix_le(key, p);
                lemma_lex_le_transitive(p, key, m.max_key);
                if prefix_successor(p) is Some {
                    lemma_prefix_range(p, key);
                    lemma_lex_le_transitive(m.min_key, key, prefix_successor(p)->0);
                }
            }
        },
        KeyFilterView::Range { start, end } => {
            if m.meets(filter) {
                lemma_lex_total(start, m.min_key);
                if lex_le(start, m.min_key) {
                    assert(spans(m, m.min_key));
                } else {
                    assert(spans(m, start));
                }
            }
            if exists|key: Seq<u8>| #[trigger]
                spans(m, key) && lex_le(start, key) && lex_le(key, end) {
                let key = choose|key: Seq<u8>| #[trigger]
                    spans(m, key) && lex_le(start, key) && lex_le(key, end);
                lemma_lex_le_transitive(m.min_key, key, end);
                lemma_lex_le_transitive(start, key, m.max_key);
            }
        },
        KeyFilterView::All => {},
    }
}

/// A prefix that nothing follows is made of the greatest byte alone: what is not
/// below it begins with it.
proof fn lemma_last_prefix(p: Seq<u8>, key: Seq<u8>)
    requires
        prefix_successor(p) is None,
        lex_le(p, key),
    ensures
        has_prefix(key, p),
{
    lemma_all_greatest(p);
    if p == key {
        assert(key.subrange(0, p.len() as int) =~= p);
    } else {
        let i = choose|i: int| less_at(p, key, i);
        if i < p.len() {
            assert(p[i] == 255);
        }
        assert(key.subrange(0, p.len() as int) =~= p);
    }
}

proof fn lemma_all_greatest(p: Seq<u8>)
    requires
        prefix_successor(p) is None,
    ensures
        forall|i: int| 0 <= i < p.len() ==> p[i] == 255,
    decreases p.len(),
{
    if p.len() > 0 {
        lemma_all_greatest(p.drop_last());
        assert forall|i: int| 0 <= i < p.len() implies p[i] == 255 by {
            if i < p.len() - 1 {
                assert(p.drop_last()[i] == p[i]);
            }
        }
    }
}

/// Two entries of the index with the same names are the same.
pub open spec fn names_differ(blocks: Seq<MetaView>) -> bool {
    forall|i: int, j: int|
        0 <= i < blocks.len() && 0 <= j < blocks.len() && (#[trigger] blocks[i]).sst_id == (
        #[trigger] blocks[j]).sst_id && blocks[i].block_idx == blocks[j].block_idx ==> blocks[i]
            == blocks[j]
}

/// A query of the index finds a block exactly if the block is in the index, not
/// all of it has expired, it overlaps the filter, and its times overlap those
/// asked for.
pub proof fn law_index_query_finds_what_overlaps(
    index: IndexView,
    filter: KeyFilterView,
    times: Option<(i64, i64)>,
    now: i64,
    m: MetaView,
)
    requires
        names_differ(index.blocks),
    ensures
        index.candidates(filter, times, now).contains(m) <==> index.blocks.contains(m)
            && m.max_expire >= now && m.meets(filter) && match times {
            Some((start, end)) => m.min_ts <= end && start <= m.max_ts,
            None => true,
        },
{
    lemma_filter_contains(
        index.blocks,
        |m: MetaView| !m.expired(now) && m.meets(filter) && index.timely(m, times, now),
        m,
    );
    if index.blocks.contains(m) {
        let k = choose|k: int| 0 <= k < index.blocks.len() && index.blocks[k] == m;
        assert(m.same_block(index.blocks[k]));
    }
}

/// A lookup of a key finds a block exactly if an SST that may hold the key has
/// it, the key lies between its first and its last key, and not all of it has
/// expired.
pub proof fn law_index_lookup_finds_what_spans(index: IndexView, key: Seq<u8>, now: i64, m: MetaView)
    ensures
        index.point_candidates(key, now).contains(m) <==> exists|i: int|
            0 <= i < index.ssts.len() && (#[trigger] index.ssts[i]).blocks.contains(m)
                && index.may_hold(index.ssts[i].sst_id, key) && spans(m, key) && m.max_expire
                >= now,
{
    let t = Seq::new(index.ssts.len(), |i: int| index.point_blocks(i, key, now));
    let p = |m: MetaView| m.covers(key) && !m.expired(now);
    if t.flatten().contains(m) {
        lemma_flatten_contains(t, m);
        let i = choose|i: int| 0 <= i < t.len() && (#[trigger] t[i]).contains(m);
        assert(t[i] == index.point_blocks(i, key, now));
        lemma_filter_contains(index.ssts[i].blocks, p, m);
        assert(index.ssts[i].blocks.contains(m));
    }
    if exists|i: int|
        0 <= i < index.ssts.len() && (#[trigger] index.ssts[i]).blocks.contains(m)
            && index.may_hold(index.ssts[i].sst_id, key) && spans(m, key) && m.max_expire >= now {
        let i = choose|i: int|
            0 <= i < index.ssts.len() && (#[trigger] index.ssts[i]).blocks.contains(m)
                && index.may_hold(index.ssts[i].sst_id, key) && spans(m, key) && m.max_expire
                >= now;
        lemma_filter_contains(index.ssts[i].blocks, p, m);
        assert(t[i].contains(m));
        lemma_flatten_contains(t, m);
    }
}

/// An SST that is added has all its blocks in the index, and no other block is
/// added or lost.
pub proof fn law_added_blocks_are_found(
    index: IndexView,
    id: u32,
    blocks: Seq<BlockInfoView>,
    m: MetaView,
)
    ensures
        index.with(id, blocks).blocks.contains(m) <==> index.blocks.contains(m) || exists|k: int|
            0 <= k < blocks.len() && m.sst_id == id && m.block_idx == (
            #[trigger] blocks[k]).block_idx && m.min_key == blocks[k].min_key && m.max_key
                == blocks[k].max_key && m.min_ts == blocks[k].min_ts && m.max_ts
                == blocks[k].max_ts && m.max_expire == blocks[k].max_expire,
        index.with(id, blocks).blocks.len() == index.blocks.len() + blocks.len(),
    decreases blocks.len(),
{
    if blocks.len() > 0 {
        let less = blocks.drop_last();
        law_added_blocks_are_found(index, id, less, m);
        let s = with_blocks(index.blocks, id, less);
        let x = meta_of(id, blocks.last());
        lemma_rank_bounds(s, x.min_key);
        lemma_insert_contains(s, rank_of(s, x.min_key), x, m);
        assert(index.with(id, blocks).blocks == inserted(s, x));
        assert(forall|k: int| 0 <= k < less.len() ==> less[k] == blocks[k]);
        if m == x {
            assert(m.block_idx == blocks[blocks.len() - 1].block_idx);
        }
        if exists|k: int|
            0 <= k < blocks.len() && m.sst_id == id && m.block_idx == (
            #[trigger] blocks[k]).block_idx && m.min_key == blocks[k].min_key && m.max_key
                == blocks[k].max_key && m.min_ts == blocks[k].min_ts && m.max_ts
                == blocks[k].max_ts && m.max_expire == blocks[k].max_expire {
            let k = choose|k: int|
                0 <= k < blocks.len() && m.sst_id == id && m.block_idx == (
                #[trigger] blocks[k]).block_idx && m.min_key == blocks[k].min_key && m.max_key
                    == blocks[k].max_key && m.min_ts == blocks[k].min_ts && m.max_ts
                    == blocks[k].max_ts && m.max_expire == blocks[k].max_expire;
            if k < less.len() {
                assert(less[k] == blocks[k]);
            } else {
                assert(m == x);
            }
        }
    }
}

/// An SST that is removed has no block in the index any more, and no other block
/// is lost.
pub proof fn law_removed_blocks_are_gone(index: IndexView, id: u32, m: MetaView, other: u32)
    ensures
        index.without(id).blocks.contains(m) <==> index.blocks.contains(m) && m.sst_id != id,
        index.without(id).blooms.contains_key(other) <==> index.blooms.contains_key(other) && other
            != id,
        index.without(id).ranges.contains_key(other) <==> index.ranges.contains_key(other) && other
            != id,
        forall|t: SstView| #[trigger]
            index.without(id).ssts.contains(t) <==> index.ssts.contains(t) && t.sst_id != id,
{
    lemma_filter_contains(index.blocks, |m: MetaView| m.sst_id != id, m);
    assert forall|t: SstView| #[trigger]
        index.without(id).ssts.contains(t) <==> index.ssts.contains(t) && t.sst_id != id by {
        lemma_filter_contains(index.ssts, |t: SstView| t.sst_id != id, t);
    }
}

/// Of an SST that is added a lookup reads the blocks in file order; it takes the
/// place of one with the same number, and the others stay.
pub proof fn law_added_sst_is_looked_up(
    index: IndexView,
    id: u32,
    blocks: Seq<BlockInfoView>,
    t: SstView,
)
    requires
        falling_ids(index.ssts),
    ensures
        index.with(id, blocks).ssts.contains(t) <==> (if t.sst_id == id {
            t.blocks.len() == blocks.len() && forall|k: int|
                0 <= k < blocks.len() ==> t.blocks[k] == meta_of(id, #[trigger] blocks[k])
        } else {
            index.ssts.contains(t)
        }),
{
    let new = SstView { sst_id: id, blocks: metas_of(id, blocks) };
    lemma_with_sst_contains(index.ssts, new, t);
    if t.sst_id == id && t.blocks.len() == blocks.len() && forall|k: int|
        0 <= k < blocks.len() ==> t.blocks[k] == meta_of(id, #[trigger] blocks[k]) {
        assert(t.blocks =~= new.blocks) by {
            assert forall|k: int| 0 <= k < blocks.len() implies t.blocks[k] == new.blocks[k] by {
                assert(t.blocks[k] == meta_of(id, blocks[k]));
            }
        }
    }
}

proof fn lemma_with_sst_contains(ssts: Seq<SstView>, new: SstView, t: SstView)
    requires
        falling_ids(ssts),
    ensures
        with_sst(ssts, new).contains(t) <==> t == new || (ssts.contains(t) && t.sst_id
            != new.sst_id),
    decreases ssts.len(),
{
    let r = with_sst(ssts, new);
    if ssts.len() == 0 || ssts[0].sst_id < new.sst_id {
        assert(r == seq![new] + ssts);
        assert(r[0] == new);
        lemma_front(new, ssts, t);
        if ssts.contains(t) {
            let i = choose|i: int| 0 <= i < ssts.len() && ssts[i] == t;
            if i > 0 {
                assert(ssts[0].sst_id > ssts[i].sst_id);
            }
        }
    } else {
        let rest = ssts.drop_first();
        assert forall|i: int, j: int| 0 <= i < j < rest.len() implies (
        #[trigger] rest[i]).sst_id > (#[trigger] rest[j]).sst_id by {
            assert(ssts[i + 1].sst_id > ssts[j + 1].sst_id);
        }
        lemma_front(ssts[0], rest, t);
        assert(ssts =~= seq![ssts[0]] + rest);
        if ssts[0].sst_id == new.sst_id {
            lemma_front(new, rest, t);
            if rest.contains(t) {
                let i = choose|i: int| 0 <= i < rest.len() && rest[i] == t;
                assert(ssts[0].sst_id > ssts[i + 1].sst_id);
            }
        } else {
            lemma_with_sst_contains(rest, new, t);
            lemma_front(ssts[0], with_sst(rest, new), t);
        }
    }
}

proof fn lemma_front(x: SstView, s: Seq<SstView>, t: SstView)
    ensures
        (seq![x] + s).contains(t) <==> t == x || s.contains(t),
{
    let r = seq![x] + s;
    assert(r[0] == x);
    if s.contains(t) {
        let i = choose|i: int| 0 <= i < s.len() && s[i] == t;
        assert(r[i + 1] == t);
    }
    if r.contains(t) {
        let i = choose|i: int| 0 <= i < r.len() && r[i] == t;
        if i > 0 {
            assert(s[i - 1] == t);
        }
    }
}

/// A bucket holds the times of its width, counted from zero: those from its
/// start on where it is not before zero, and those up to its end where it is
/// before.
pub proof fn law_bucket_holds_its_times(m: MetaView, width: int)
    requires
        width > 0,
    ensures
        m.min_ts >= 0 ==> bucket_of(m, width) * width <= m.min_ts < (bucket_of(m, width) + 1)
            * width,
        m.min_ts < 0 ==> (bucket_of(m, width) - 1) * width < m.min_ts <= bucket_of(m, width)
            * width,
{
    let t = m.min_ts as int;
    if t >= 0 {
        lemma_quotient(t, width);
    } else {
        lemma_quotient(-t, width);
        let q = (-t) / width;
        assert(-q * width == -(q * width)) by (nonlinear_arith);
        assert((-q - 1) * width == -((q + 1) * width)) by (nonlinear_arith);
    }
}

proof fn lemma_quotient(a: int, b: int)
    requires
        a >= 0,
        b > 0,
    ensures
        (a / b) * b <= a < (a / b + 1) * b,
{
    vstd::arithmetic::div_mod::lemma_fundamental_div_mod(a, b);
    let q = a / b;
    assert(q * b == b * q) by (nonlinear_arith);
    assert((q + 1) * b == q * b + b) by (nonlinear_arith);
}

} // verus!
