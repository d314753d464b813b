//! What the SSTs of an engine hold, and how reads find it.

use vstd::prelude::*;

use crate::block_meta_index::{
    falling_ids, law_index_query_is_complete, lemma_filter_all, meta_of, metas_of, IndexView,
    MetaView, SstView,
};
use crate::codec::unsequenced;
use crate::engine::{block_hit, first_hit, is_hit, EngineView};
use crate::flush_laws::{
    can_be_stored, lemma_block_hit, lemma_block_hit_add, lemma_first_hit, lemma_piece_of,
};
use crate::manifest::BlockInfoView;
use crate::memtable::passes;
use crate::order::{
    entry_before, lemma_before_asymmetric, lemma_filter_contains, same_version, strictly_sorted,
};
use crate::record::{in_time_range, live_at, Entry, KeyFilterView};
use crate::scan::{block_run, readable, taken};
use crate::sstable::{
    chunks, describe_all, describes, is_sst, law_sst_reads_back, lemma_chunk_element,
    lemma_nothing_found,
};
use crate::winners::{
    block_winner, entry_of, has_version, lemma_block_run, lemma_first_for, lemma_winner,
};

verus! {

/// SST `id` holds the entries `s`: its bytes are theirs, the index lists its
/// blocks, and its filter excludes none of their keys.
pub open spec fn stored_as(
    v: EngineView,
    id: u32,
    s: Seq<Entry>,
    cap: int,
    bs: Seq<BlockInfoView>,
    data: Seq<u8>,
) -> bool {
    &&& cap > 0
    &&& strictly_sorted(s)
    &&& forall|e: Entry| #[trigger] s.contains(e) ==> !(e.op is DeleteRange)
    &&& is_sst(s, cap, bs, data)
    &&& can_be_stored(s, cap)
    &&& v.readers.contains_key(id)
    &&& EngineView::reads_sst(v.readers[id], id, data)
    &&& forall|e: Entry| #[trigger] s.contains(e) ==> v.index.may_hold(id, e.key)
    &&& forall|i: int|
        0 <= i < v.index.ssts.len() && (#[trigger] v.index.ssts[i]).sst_id == id
            ==> v.index.ssts[i].blocks == metas_of(id, bs)
    &&& forall|m: MetaView|
        m.sst_id == id ==> (#[trigger] v.index.blocks.contains(m) <==> metas_of(id, bs).contains(m))
}

/// SST `id` holds the entries `s`.
pub open spec fn holds_sst(v: EngineView, id: u32, s: Seq<Entry>) -> bool {
    exists|cap: int, bs: Seq<BlockInfoView>, data: Seq<u8>| #[trigger]
        stored_as(v, id, s, cap, bs, data)
}

/// An SST is listed under the number.
pub open spec fn is_listed(ssts: Seq<SstView>, id: u32) -> bool {
    exists|i: int| 0 <= i < ssts.len() && (#[trigger] ssts[i]).sst_id == id
}

/// The SSTs of the engine are those of `c`, and each holds what `c` says.
pub open spec fn ssts_hold(v: EngineView, c: Map<u32, Seq<Entry>>) -> bool {
    &&& forall|id: u32| #[trigger] c.contains_key(id) ==> holds_sst(v, id, c[id])
    &&& forall|id: u32| #[trigger] c.contains_key(id) <==> is_listed(v.index.ssts, id)
    &&& falling_ids(v.index.ssts)
    &&& forall|i: int|
        0 <= i < v.index.blocks.len() ==> c.contains_key((#[trigger] v.index.blocks[i]).sst_id)
    &&& forall|id: u32| #[trigger] v.index.ranges.contains_key(id) ==> c.contains_key(id)
}

/// The SSTs from which no later one deletes `key` by range.
pub open spec fn bare(c: Map<u32, Seq<Entry>>, index: IndexView, key: Seq<u8>) -> Map<
    u32,
    Seq<Entry>,
> {
    Map::new(
        |id: u32| c.contains_key(id) && !index.covers_above(id, key),
        |id: u32| c[id],
    )
}

/// Among the entries of SST `id`, `e` is a live version of `(key, ts)`.
pub open spec fn offered(
    c: Map<u32, Seq<Entry>>,
    id: u32,
    key: Seq<u8>,
    ts: i64,
    now: i64,
    e: Entry,
) -> bool {
    c.contains_key(id) && c[id].contains(e) && e.key == key && e.ts == ts && live_at(
        e.expire_at,
        now,
    )
}

/// `hit` is the live version of `(key, ts)` in the SST with the highest number
/// below `bound` that has one.
pub open spec fn finds_below(
    c: Map<u32, Seq<Entry>>,
    bound: int,
    key: Seq<u8>,
    ts: i64,
    now: i64,
    hit: Option<Entry>,
) -> bool {
    match hit {
        Some(h) => exists|id: u32, e: Entry|
            #[trigger] offered(c, id, key, ts, now, e) && id < bound && h == e.unsequenced()
                && highest_below(c, bound, key, ts, now, id),
        None => forall|id: u32, e: Entry| #[trigger]
            offered(c, id, key, ts, now, e) ==> id >= bound,
    }
}

/// No SST with a number above `id` and below `bound` has a live version.
pub open spec fn highest_below(
    c: Map<u32, Seq<Entry>>,
    bound: int,
    key: Seq<u8>,
    ts: i64,
    now: i64,
    id: u32,
) -> bool {
    forall|other: u32, e: Entry| #[trigger]
        offered(c, other, key, ts, now, e) && other < bound ==> other <= id
}

/// `hit` is the live version of `(key, ts)` in the SST with the highest number
/// that has one.
pub open spec fn finds(
    c: Map<u32, Seq<Entry>>,
    key: Seq<u8>,
    ts: i64,
    now: i64,
    hit: Option<Entry>,
) -> bool {
    finds_below(c, u32::MAX + 1, key, ts, now, hit)
}

/// In strictly rising order there is one version of a `(key, ts)`.
pub proof fn lemma_one_version(s: Seq<Entry>, e: Entry, f: Entry)
    requires
        strictly_sorted(s),
        s.contains(e),
        s.contains(f),
        same_version(e, f),
    ensures
        e == f,
{
    let i = choose|i: int| 0 <= i < s.len() && s[i] == e;
    let j = choose|j: int| 0 <= j < s.len() && s[j] == f;
    if i < j {
        assert(entry_before(s[i], s[j]));
        lemma_before_asymmetric(e, f);
    } else if j < i {
        assert(entry_before(s[j], s[i]));
        lemma_before_asymmetric(f, e);
    }
}

/// There is one answer only.
pub proof fn lemma_finds_one(
    c: Map<u32, Seq<Entry>>,
    key: Seq<u8>,
    ts: i64,
    now: i64,
    a: Option<Entry>,
    b: Option<Entry>,
)
    requires
        forall|id: u32| #[trigger] c.contains_key(id) ==> strictly_sorted(c[id]),
        finds(c, key, ts, now, a),
        finds(c, key, ts, now, b),
    ensures
        a == b,
{
    let bound = u32::MAX + 1;
    if a is Some && b is Some {
        let (i, e) = choose|id: u32, e: Entry|
            #[trigger] offered(c, id, key, ts, now, e) && id < bound && a->0 == e.unsequenced()
                && highest_below(c, bound, key, ts, now, id);
        let (j, f) = choose|id: u32, e: Entry|
            #[trigger] offered(c, id, key, ts, now, e) && id < bound && b->0 == e.unsequenced()
                && highest_below(c, bound, key, ts, now, id);
        assert(i <= j && j <= i);
        lemma_one_version(c[i], e, f);
    }
}

/// A block of a stored SST, read back.
pub proof fn lemma_stored_readable(
    v: EngineView,
    id: u32,
    s: Seq<Entry>,
    cap: int,
    bs: Seq<BlockInfoView>,
    data: Seq<u8>,
    idx: int,
)
    requires
        stored_as(v, id, s, cap, bs, data),
        0 <= idx < chunks(s, cap).len(),
    ensures
        readable(v.readers, meta_of(id, bs[idx])) == unsequenced(chunks(s, cap)[idx]),
        bs.len() == chunks(s, cap).len(),
        describes(bs[idx], chunks(s, cap)[idx]),
        metas_of(id, bs).contains(meta_of(id, bs[idx])),
{
    law_sst_reads_back(s, cap, bs, data, id, idx as u32);
    lemma_nothing_found(v.readers[id], idx as u32);
    assert(describe_all(bs, chunks(s, cap)));
    assert(describes(bs[idx], chunks(s, cap)[idx]));
    assert(bs[idx].block_idx == idx as u32);
    assert(metas_of(id, bs)[idx] == meta_of(id, bs[idx]));
}

/// What stands in a block of a stored SST is one of its entries.
pub proof fn lemma_block_entry(
    v: EngineView,
    id: u32,
    s: Seq<Entry>,
    cap: int,
    bs: Seq<BlockInfoView>,
    data: Seq<u8>,
    m: MetaView,
    o: int,
) -> (e: Entry)
    requires
        stored_as(v, id, s, cap, bs, data),
        metas_of(id, bs).contains(m),
        0 <= o < readable(v.readers, m).len(),
    ensures
        s.contains(e),
        readable(v.readers, m)[o] == e.unsequenced(),
{
    let own = metas_of(id, bs);
    let c = choose|c: int| 0 <= c < own.len() && own[c] == m;
    assert(describe_all(bs, chunks(s, cap)));
    assert(own[c] == meta_of(id, bs[c]));
    lemma_stored_readable(v, id, s, cap, bs, data, c);
    let e = chunks(s, cap)[c][o];
    lemma_chunk_element(s, cap, c, o);
    assert(0 <= c * cap + o) by (nonlinear_arith)
        requires
            c >= 0,
            cap > 0,
            o >= 0,
    ;
    assert(s[c * cap + o] == e);
    assert(s.contains(e));
    e
}

/// Where an entry of a stored SST stands: the block, and its position there.
pub proof fn lemma_entry_block(
    v: EngineView,
    id: u32,
    s: Seq<Entry>,
    cap: int,
    bs: Seq<BlockInfoView>,
    data: Seq<u8>,
    e: Entry,
) -> (r: (int, int))
    requires
        stored_as(v, id, s, cap, bs, data),
        s.contains(e),
    ensures
        0 <= r.0 < chunks(s, cap).len(),
        0 <= r.1 < chunks(s, cap)[r.0].len(),
        chunks(s, cap)[r.0][r.1] == e,
        readable(v.readers, meta_of(id, bs[r.0])) == unsequenced(chunks(s, cap)[r.0]),
        readable(v.readers, meta_of(id, bs[r.0]))[r.1] == e.unsequenced(),
        describes(bs[r.0], chunks(s, cap)[r.0]),
        metas_of(id, bs).contains(meta_of(id, bs[r.0])),
{
    let k = choose|k: int| 0 <= k < s.len() && s[k] == e;
    let (c, o) = lemma_piece_of(s, cap, k);
    lemma_stored_readable(v, id, s, cap, bs, data, c);
    (c, o)
}

/// What a lookup in one SST gives.
proof fn lemma_sst_lookup(v: EngineView, c: Map<u32, Seq<Entry>>, i: int, key: Seq<u8>, ts: i64)
    requires
        ssts_hold(v, c),
        0 <= i < v.index.ssts.len(),
    ensures
        ({
            let id = v.index.ssts[i].sst_id;
            let hit = block_hit(v.index.point_blocks(i, key, v.now), v.readers, key, ts, v.now);
            match hit {
                Some(h) => exists|e: Entry| #[trigger]
                    offered(c, id, key, ts, v.now, e) && h == e.unsequenced(),
                None => forall|e: Entry| !#[trigger] offered(c, id, key, ts, v.now, e),
            }
        }),
{
    let id = v.index.ssts[i].sst_id;
    let now = v.now;
    assert(is_listed(v.index.ssts, id));
    assert(c.contains_key(id));
    assert(holds_sst(v, id, c[id]));
    let s = c[id];
    let (cap, bs, data) = choose|cap: int, bs: Seq<BlockInfoView>, data: Seq<u8>| #[trigger]
        stored_as(v, id, s, cap, bs, data);
    let own = metas_of(id, bs);
    let pred = |m: MetaView| m.covers(key) && !m.expired(now);
    let pb = v.index.point_blocks(i, key, now);
    lemma_block_hit(pb, v.readers, key, ts, now);
    let hit = block_hit(pb, v.readers, key, ts, now);
    assert(v.index.ssts[i].blocks == own);
    if hit is Some {
        let h = hit->0;
        let k = choose|k: int|
            0 <= k < pb.len() && first_hit(readable(v.readers, #[trigger] pb[k]), key, ts, now)
                == Some(h);
        let m = pb[k];
        assert(pb.contains(m));
        lemma_filter_contains(own, pred, m);
        let block = readable(v.readers, m);
        lemma_first_hit(block, key, ts, now);
        let o = choose|o: int| 0 <= o < block.len() && block[o] == h;
        let e = lemma_block_entry(v, id, s, cap, bs, data, m, o);
        assert(is_hit(h, key, ts, now));
        assert(offered(c, id, key, ts, now, e));
    } else {
        assert forall|e: Entry| !#[trigger] offered(c, id, key, ts, now, e) by {
            if offered(c, id, key, ts, now, e) {
                let (d, o) = lemma_entry_block(v, id, s, cap, bs, data, e);
                let m = meta_of(id, bs[d]);
                assert(m.covers(key) && !m.expired(now));
                assert(v.index.may_hold(id, e.key));
                lemma_filter_contains(own, pred, m);
                let k = choose|k: int| 0 <= k < pb.len() && pb[k] == m;
                let block = readable(v.readers, m);
                lemma_first_hit(block, key, ts, now);
                assert(is_hit(block[o], key, ts, now));
                assert(first_hit(readable(v.readers, pb[k]), key, ts, now) is Some);
            }
        }
    }
}

/// The number above those of the SSTs from position `k` on.
spec fn bound_at(ssts: Seq<SstView>, k: int) -> int {
    if k < ssts.len() {
        ssts[k].sst_id + 1
    } else {
        0
    }
}

/// Of the blocks of one SST a lookup reads all, or none where a later SST
/// deletes the key.
proof fn lemma_own_blocks(v: EngineView, c: Map<u32, Seq<Entry>>, i: int, key: Seq<u8>)
    requires
        ssts_hold(v, c),
        0 <= i < v.index.ssts.len(),
    ensures
        ({
            let pb = v.index.point_blocks(i, key, v.now);
            if v.index.covers_above(v.index.ssts[i].sst_id, key) {
                pb.filter(v.index.bares(key)) == Seq::<MetaView>::empty()
            } else {
                pb.filter(v.index.bares(key)) == pb
            }
        }),
{
    let id = v.index.ssts[i].sst_id;
    let pb = v.index.point_blocks(i, key, v.now);
    let p = v.index.bares(key);
    assert(is_listed(v.index.ssts, id));
    assert(c.contains_key(id));
    assert(holds_sst(v, id, c[id]));
    let (cap, bs, data) = choose|cap: int, bs: Seq<BlockInfoView>, data: Seq<u8>| #[trigger]
        stored_as(v, id, c[id], cap, bs, data);
    let own = metas_of(id, bs);
    let pred = |m: MetaView| m.covers(key) && !m.expired(v.now);
    assert(v.index.ssts[i].blocks == own);
    assert forall|k: int| 0 <= k < pb.len() implies (#[trigger] pb[k]).sst_id == id by {
        assert(pb.contains(pb[k]));
        lemma_filter_contains(own, pred, pb[k]);
        let j = choose|j: int| 0 <= j < own.len() && own[j] == pb[k];
    }
    if v.index.covers_above(id, key) {
        assert forall|k: int| 0 <= k < pb.len() implies !p(#[trigger] pb[k]) by {}
        pb.lemma_all_neg_filter_empty(p);
    } else {
        lemma_filter_all(pb, p);
    }
}

/// What lookups in the SSTs from position `k` on give.
proof fn lemma_lookups(v: EngineView, c: Map<u32, Seq<Entry>>, k: int, key: Seq<u8>, ts: i64)
    requires
        ssts_hold(v, c),
        0 <= k <= v.index.ssts.len(),
    ensures
        ({
            let parts = Seq::new(v.index.ssts.len(), |i: int| v.index.point_blocks(i, key, v.now));
            finds_below(
                bare(c, v.index, key),
                bound_at(v.index.ssts, k),
                key,
                ts,
                v.now,
                block_hit(
                    parts.subrange(k, parts.len() as int).flatten().filter(v.index.bares(key)),
                    v.readers,
                    key,
                    ts,
                    v.now,
                ),
            )
        }),
    decreases v.index.ssts.len() - k,
{
    let ssts = v.index.ssts;
    let now = v.now;
    let parts = Seq::new(ssts.len(), |i: int| v.index.point_blocks(i, key, now));
    let tail = parts.subrange(k, parts.len() as int);
    let d = bare(c, v.index, key);
    let p = v.index.bares(key);
    if k == ssts.len() {
        assert(tail =~= Seq::<Seq<MetaView>>::empty());
        assert(tail.flatten() =~= Seq::<MetaView>::empty());
        assert(tail.flatten().filter(p) =~= Seq::<MetaView>::empty()) by {
            reveal_with_fuel(Seq::filter, 1);
        }
        assert forall|other: u32, e: Entry| #[trigger] offered(d, other, key, ts, now, e) implies other
            >= 0 by {}
    } else {
        lemma_lookups(v, c, k + 1, key, ts);
        lemma_sst_lookup(v, c, k, key, ts);
        let rest = parts.subrange(k + 1, parts.len() as int);
        assert(tail.drop_first() =~= rest);
        assert(tail.first() == parts[k]);
        assert(tail.flatten() == parts[k] + rest.flatten());
        let here = parts[k].filter(p);
        let more = rest.flatten().filter(p);
        Seq::filter_distributes_over_add(parts[k], rest.flatten(), p);
        lemma_block_hit_add(here, more, v.readers, key, ts, now);
        let id = ssts[k].sst_id;
        lemma_own_blocks(v, c, k, key);
        assert forall|e: Entry| #[trigger] offered(d, id, key, ts, now, e) implies offered(
            c,
            id,
            key,
            ts,
            now,
            e,
        ) by {}
        let bound = id + 1;
        let next = bound_at(ssts, k + 1);
        // Below the bound there are this SST and those that follow.
        assert forall|other: u32, e: Entry| #[trigger]
            offered(d, other, key, ts, now, e) && other < bound implies other == id || other
            < next by {
            assert(is_listed(ssts, other));
            let j = choose|j: int| 0 <= j < ssts.len() && (#[trigger] ssts[j]).sst_id == other;
            if j < k {
                assert(ssts[j].sst_id > ssts[k].sst_id);
            } else if j > k + 1 {
                assert(ssts[k + 1].sst_id > ssts[j].sst_id);
            }
        }
        assert(next <= id) by {
            if k + 1 < ssts.len() {
                assert(ssts[k].sst_id > ssts[k + 1].sst_id);
            }
        }
        let own = block_hit(here, v.readers, key, ts, now);
        match own {
            Some(h) => {
                let e = choose|e: Entry| #[trigger]
                    offered(c, id, key, ts, now, e) && h == e.unsequenced();
                assert(offered(d, id, key, ts, now, e));
                assert(highest_below(d, bound, key, ts, now, id));
            },
            None => {
                let hit = block_hit(more, v.readers, key, ts, now);
                if hit is Some {
                    let (x, e) = choose|x: u32, e: Entry|
                        #[trigger] offered(d, x, key, ts, now, e) && x < next && hit->0
                            == e.unsequenced() && highest_below(d, next, key, ts, now, x);
                    assert(highest_below(d, bound, key, ts, now, x)) by {
                        assert forall|other: u32, f: Entry| #[trigger]
                            offered(d, other, key, ts, now, f) && other < bound implies other
                            <= x by {
                            assert(other == id || other < next);
                        }
                    }
                    assert(offered(d, x, key, ts, now, e));
                }
            },
        }
    }
}

/// A point lookup finds in the SSTs from which no later one deletes the key the
/// live version with the highest number.
pub proof fn lemma_point_finds(v: EngineView, c: Map<u32, Seq<Entry>>, key: Seq<u8>, ts: i64)
    requires
        ssts_hold(v, c),
    ensures
        finds(bare(c, v.index, key), key, ts, v.now, v.stored_version(key, ts)),
{
    let d = bare(c, v.index, key);
    let ssts = v.index.ssts;
    let parts = Seq::new(ssts.len(), |i: int| v.index.point_blocks(i, key, v.now));
    lemma_lookups(v, c, 0, key, ts);
    assert(parts.subrange(0, parts.len() as int) =~= parts);
    let bound = bound_at(ssts, 0);
    assert forall|id: u32, e: Entry| #[trigger] offered(d, id, key, ts, v.now, e) implies id
        < bound by {
        assert(is_listed(ssts, id));
        let j = choose|j: int| 0 <= j < ssts.len() && (#[trigger] ssts[j]).sst_id == id;
        if j > 0 {
            assert(ssts[0].sst_id > ssts[j].sst_id);
        }
    }
    let hit = v.stored_version(key, ts);
    if hit is Some {
        let (x, e) = choose|x: u32, e: Entry|
            #[trigger] offered(d, x, key, ts, v.now, e) && x < bound && hit->0 == e.unsequenced()
                && highest_below(d, bound, key, ts, v.now, x);
        assert(highest_below(d, u32::MAX + 1, key, ts, v.now, x));
        assert(offered(d, x, key, ts, v.now, e));
    }
}

/// A scan finds in the SSTs from which no later one deletes the key the live
/// version with the highest number.
pub proof fn lemma_scan_finds(
    v: EngineView,
    c: Map<u32, Seq<Entry>>,
    filter: KeyFilterView,
    times: Option<(i64, i64)>,
    key: Seq<u8>,
    ts: i64,
)
    requires
        ssts_hold(v, c),
        filter.admits(key),
        in_time_range(ts, times),
    ensures
        finds(
            bare(c, v.index, key),
            key,
            ts,
            v.now,
            entry_of(
                block_winner(
                    v.index.candidates(filter, times, v.now).filter(v.index.bares(key)),
                    v.readers,
                    filter,
                    times,
                    v.now,
                    key,
                    ts,
                ),
            ),
        ),
{
    let now = v.now;
    let read = v.index.candidates(filter, times, now);
    let bares = v.index.bares(key);
    let cand = read.filter(bares);
    let b = bare(c, v.index, key);
    let h = |m: MetaView| block_run(v.readers, m, filter, times, now);
    let runs = cand.map_values(h);
    let at = lemma_winner(runs, key, ts);
    let w = block_winner(cand, v.readers, filter, times, now, key, ts);
    // What is offered stands in the run of a block that is read.
    assert forall|id: u32, e: Entry| #[trigger] offered(b, id, key, ts, now, e) implies exists|
        i: int,
    |
        0 <= i < runs.len() && (#[trigger] runs[i]).rank == id && has_version(
            runs[i].rest,
            key,
            ts,
        ) by {
        assert(holds_sst(v, id, c[id]));
        let (cap, bs, data) = choose|cap: int, bs: Seq<BlockInfoView>, data: Seq<u8>| #[trigger]
            stored_as(v, id, c[id], cap, bs, data);
        let (d, o) = lemma_entry_block(v, id, c[id], cap, bs, data, e);
        let m = meta_of(id, bs[d]);
        assert(v.index.blocks.contains(m));
        assert(passes(chunks(c[id], cap)[d][o], filter, times, now));
        law_index_query_is_complete(
            v.index,
            id,
            bs[d],
            chunks(c[id], cap)[d],
            o,
            filter,
            times,
            now,
        );
        lemma_filter_contains(read, bares, m);
        let i = choose|i: int| 0 <= i < cand.len() && cand[i] == m;
        assert(runs[i] == h(m));
        let block = readable(v.readers, m);
        assert(taken(block[o], filter, times, false, now) == Some(e.unsequenced()));
        lemma_block_run(v.readers, m, filter, times, now, e.unsequenced());
        let rest = runs[i].rest;
        let z = choose|z: int| 0 <= z < rest.len() && rest[z] == e.unsequenced();
        assert(rest[z].key == key && rest[z].ts == ts);
        let p = lemma_first_for(rest, key, ts);
        assert(runs[i].rank == id);
    }
    match w {
        Some((r, x)) => {
            let m = cand[at];
            assert(runs[at] == h(m));
            let id = m.sst_id;
            assert(cand.contains(m));
            lemma_filter_contains(read, bares, m);
            lemma_filter_contains(
                v.index.blocks,
                |m: MetaView| !m.expired(now) && m.meets(filter) && v.index.timely(m, times, now),
                m,
            );
            let k = choose|k: int| 0 <= k < v.index.blocks.len() && v.index.blocks[k] == m;
            assert(c.contains_key(v.index.blocks[k].sst_id));
            assert(holds_sst(v, id, c[id]));
            let (cap, bs, data) = choose|cap: int, bs: Seq<BlockInfoView>, data: Seq<u8>| #[trigger]
                stored_as(v, id, c[id], cap, bs, data);
            assert(metas_of(id, bs).contains(m));
            let p = lemma_first_for(runs[at].rest, key, ts);
            assert(runs[at].rest.contains(x));
            lemma_block_run(v.readers, m, filter, times, now, x);
            let block = readable(v.readers, m);
            let o = choose|o: int|
                0 <= o < block.len() && taken(#[trigger] block[o], filter, times, false, now)
                    == Some(x);
            let e = lemma_block_entry(v, id, c[id], cap, bs, data, m, o);
            assert(x == e.unsequenced());
            assert(offered(b, id, key, ts, now, e));
            assert(highest_below(b, u32::MAX + 1, key, ts, now, id)) by {
                assert forall|other: u32, f: Entry| #[trigger]
                    offered(b, other, key, ts, now, f) && other < u32::MAX + 1 implies other
                    <= id by {
                    let i = choose|i: int|
                        0 <= i < runs.len() && (#[trigger] runs[i]).rank == other && has_version(
                            runs[i].rest,
                            key,
                            ts,
                        );
                    assert(runs[i].rank <= r);
                }
            }
        },
        None => {
            assert forall|id: u32, e: Entry| #[trigger]
                offered(b, id, key, ts, now, e) implies id >= u32::MAX + 1 by {
                let i = choose|i: int|
                    0 <= i < runs.len() && (#[trigger] runs[i]).rank == id && has_version(
                        runs[i].rest,
                        key,
                        ts,
                    );
                assert(!has_version(runs[i].rest, key, ts));
            }
        },
    }
}

} // verus!
