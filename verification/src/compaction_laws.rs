//! Compacting SSTs changes where records are, not what reads give.

use vstd::prelude::*;

use crate::block_meta_index::{
    falling_ids, meta_of, metas_of, with_blocks, with_sst, without_sst, IndexView, MetaView,
    SstView,
};
use crate::bloom::{at_least_one, law_no_false_negatives, BloomView};
use crate::bytes::{lex_le, lex_lt};
use crate::codec::unsequenced;
use crate::compaction::{
    block_total, from_lowest, ids_of, is_by_size, is_kept, known_records, live_block, live_blocks,
    merged, picks, ranges_of, sst_run, sst_runs, widened, CompactionPlan, CompactionRunner,
};
use crate::engine::{compaction_planned, flushed, shown, stays_in, EngineView, FlushJob};
use crate::flush_laws::{can_be_stored, lemma_flushed};
use crate::flush_scan_laws::{flushes_by, lemma_same_offers, lemma_with_blocks_contains};
use crate::manifest::{infos, BlockInfoView, ManifestView};
use crate::memtables::{best_version, lemma_flatten_contains, MemView};
use crate::merge::RunView;
use crate::order::{
    lemma_filter_contains, lemma_sort_contains, lemma_stable_sort_exists, same_version,
    stable_sorted, strictly_sorted,
};
use crate::ranges::masked;
use crate::record::{
    law_scan_filter_is_complete, live_at, Config, Entry, Op, RecordView, ScanRangeView,
};
use crate::scan::live_entries;
use crate::sst_laws::{
    bare, finds, highest_below, holds_sst, is_listed, lemma_finds_one, lemma_one_version,
    lemma_point_finds, lemma_scan_finds, offered, ssts_hold, stored_as,
};
use crate::sstable::{
    block_capacity, block_starts, chunks, is_sst, key_runs, keys_of, law_sst_reads_back,
    lemma_chunks_flatten, lemma_key_runs_complete, lemma_nothing_found, SstReader,
};
use crate::winners::{
    entry_of, has_version, lemma_first_for, lemma_range_scan_shows, lemma_winner, lemma_wins,
    scan_memory, scan_stored, winner,
};

verus! {

/// Leaving SSTs out keeps the others in falling order.
proof fn lemma_filter_falling(s: Seq<SstView>, p: spec_fn(SstView) -> bool)
    requires
        falling_ids(s),
    ensures
        falling_ids(s.filter(p)),
    decreases s.len(),
{
    reveal_with_fuel(Seq::filter, 1);
    if s.len() > 0 {
        let t = s.drop_last();
        let x = s.last();
        assert(s =~= t.push(x));
        assert forall|i: int, j: int| 0 <= i < j < t.len() implies (#[trigger] t[i]).sst_id > (
        #[trigger] t[j]).sst_id by {
            assert(t[i] == s[i] && t[j] == s[j]);
        }
        lemma_filter_falling(t, p);
        t.lemma_filter_push(x, p);
        let f = s.filter(p);
        let g = t.filter(p);
        assert forall|i: int, j: int| 0 <= i < j < f.len() implies (#[trigger] f[i]).sst_id > (
        #[trigger] f[j]).sst_id by {
            if j == g.len() {
                assert(g.contains(g[i]));
                lemma_filter_contains(t, p, g[i]);
                let k = choose|k: int| 0 <= k < t.len() && t[k] == g[i];
                assert(s[k] == g[i]);
                assert(s[k].sst_id > s[s.len() - 1].sst_id);
            } else {
                assert(f[i] == g[i] && f[j] == g[j]);
            }
        }
    }
}

/// Without an SST the engine holds what the others hold.
proof fn lemma_hold_without(v: EngineView, w: EngineView, c: Map<u32, Seq<Entry>>, id: u32)
    requires
        ssts_hold(v, c),
        w.index == v.index.without(id),
        w.readers == v.readers.remove(id),
    ensures
        ssts_hold(w, c.remove(id)),
{
    let d = c.remove(id);
    let ps = |t: SstView| t.sst_id != id;
    let pb = |m: MetaView| m.sst_id != id;
    assert(w.index.ssts == v.index.ssts.filter(ps));
    assert(w.index.blocks == v.index.blocks.filter(pb));
    lemma_filter_falling(v.index.ssts, ps);
    assert forall|k: u32| #[trigger] d.contains_key(k) implies holds_sst(w, k, d[k]) by {
        assert(holds_sst(v, k, c[k]));
        let (cap, bs, data) = choose|cap: int, bs: Seq<BlockInfoView>, data: Seq<u8>| #[trigger]
            stored_as(v, k, c[k], cap, bs, data);
        assert(stored_as(w, k, c[k], cap, bs, data)) by {
            assert forall|e: Entry| #[trigger] c[k].contains(e) implies w.index.may_hold(
                k,
                e.key,
            ) by {
                assert(v.index.may_hold(k, e.key));
            }
            assert forall|i: int|
                0 <= i < w.index.ssts.len() && (#[trigger] w.index.ssts[i]).sst_id
                    == k implies w.index.ssts[i].blocks == metas_of(k, bs) by {
                let t = w.index.ssts[i];
                assert(w.index.ssts.contains(t));
                lemma_filter_contains(v.index.ssts, ps, t);
                let j = choose|j: int| 0 <= j < v.index.ssts.len() && v.index.ssts[j] == t;
                assert(v.index.ssts[j].sst_id == k);
            }
            assert forall|m: MetaView|
                m.sst_id == k implies (#[trigger] w.index.blocks.contains(m) <==> metas_of(
                k,
                bs,
            ).contains(m)) by {
                lemma_filter_contains(v.index.blocks, pb, m);
                assert(v.index.blocks.contains(m) <==> metas_of(k, bs).contains(m));
            }
        }
    }
    assert forall|k: u32| #[trigger] d.contains_key(k) <==> is_listed(w.index.ssts, k) by {
        if d.contains_key(k) {
            assert(is_listed(v.index.ssts, k));
            let j = choose|j: int| 0 <= j < v.index.ssts.len() && (#[trigger] v.index.ssts[j]).sst_id
                == k;
            let t = v.index.ssts[j];
            assert(v.index.ssts.contains(t));
            lemma_filter_contains(v.index.ssts, ps, t);
            let i = choose|i: int| 0 <= i < w.index.ssts.len() && w.index.ssts[i] == t;
            assert(w.index.ssts[i].sst_id == k);
        }
        if is_listed(w.index.ssts, k) {
            let i = choose|i: int| 0 <= i < w.index.ssts.len() && (#[trigger] w.index.ssts[i]).sst_id
                == k;
            let t = w.index.ssts[i];
            assert(w.index.ssts.contains(t));
            lemma_filter_contains(v.index.ssts, ps, t);
            let j = choose|j: int| 0 <= j < v.index.ssts.len() && v.index.ssts[j] == t;
            assert(v.index.ssts[j].sst_id == k);
            assert(is_listed(v.index.ssts, k));
            assert(c.contains_key(k));
        }
    }
    assert forall|i: int| 0 <= i < w.index.blocks.len() implies d.contains_key(
        (#[trigger] w.index.blocks[i]).sst_id,
    ) by {
        let m = w.index.blocks[i];
        assert(w.index.blocks.contains(m));
        lemma_filter_contains(v.index.blocks, pb, m);
        let j = choose|j: int| 0 <= j < v.index.blocks.len() && v.index.blocks[j] == m;
        assert(c.contains_key(v.index.blocks[j].sst_id));
    }
    assert forall|k: u32| #[trigger] w.index.ranges.contains_key(k) implies d.contains_key(k) by {
        assert(v.index.ranges.contains_key(k));
    }
}

/// With an SST of a higher number the engine holds what it held and what is in
/// that one.
pub proof fn lemma_hold_with(
    v: EngineView,
    w: EngineView,
    c: Map<u32, Seq<Entry>>,
    id: u32,
    s: Seq<Entry>,
    cap: int,
    bs: Seq<BlockInfoView>,
    data: Seq<u8>,
)
    requires
        ssts_hold(v, c),
        forall|k: u32| #[trigger] c.contains_key(k) ==> k < id,
        w.index.ssts == with_sst(v.index.ssts, SstView { sst_id: id, blocks: metas_of(id, bs) }),
        w.index.blocks == with_blocks(v.index.blocks, id, bs),
        forall|k: u32|
            k != id ==> (#[trigger] w.index.blooms.contains_key(k) <==> v.index.blooms.contains_key(
                k,
            )) && (w.index.blooms.contains_key(k) ==> w.index.blooms[k] == v.index.blooms[k]),
        forall|k: u32|
            k != id && #[trigger] w.index.ranges.contains_key(k) ==> v.index.ranges.contains_key(k),
        w.readers == v.readers.insert(id, w.readers[id]),
        EngineView::reads_sst(w.readers[id], id, data),
        cap > 0,
        strictly_sorted(s),
        forall|e: Entry| #[trigger] s.contains(e) ==> !(e.op is DeleteRange),
        is_sst(s, cap, bs, data),
        can_be_stored(s, cap),
        forall|e: Entry| #[trigger] s.contains(e) ==> w.index.may_hold(id, e.key),
    ensures
        ssts_hold(w, c.insert(id, s)),
{
    let d = c.insert(id, s);
    let new = SstView { sst_id: id, blocks: metas_of(id, bs) };
    let old = v.index.ssts;
    assert forall|i: int| 0 <= i < old.len() implies (#[trigger] old[i]).sst_id < id by {
        assert(is_listed(old, old[i].sst_id));
        assert(c.contains_key(old[i].sst_id));
    }
    assert(w.index.ssts =~= seq![new] + old) by {
        if old.len() > 0 {
            assert(old[0].sst_id < id);
        }
    }
    assert forall|m: MetaView| #[trigger] w.index.blocks.contains(m) <==> v.index.blocks.contains(m)
        || metas_of(id, bs).contains(m) by {
        lemma_with_blocks_contains(v.index.blocks, id, bs, m);
        let own = metas_of(id, bs);
        if own.contains(m) {
            let k = choose|k: int| 0 <= k < own.len() && own[k] == m;
            assert(m == meta_of(id, bs[k]));
        }
        if exists|k: int|
            0 <= k < bs.len() && m == meta_of(id, #[trigger] bs[k]) {
            let k = choose|k: int|
                0 <= k < bs.len() && m == meta_of(id, #[trigger] bs[k]);
            assert(own[k] == m);
        }
    }
    assert forall|m: MetaView| #[trigger] v.index.blocks.contains(m) implies c.contains_key(
        m.sst_id,
    ) by {
        let k = choose|k: int| 0 <= k < v.index.blocks.len() && v.index.blocks[k] == m;
        assert(c.contains_key(v.index.blocks[k].sst_id));
    }
    assert forall|m: MetaView| #[trigger] metas_of(id, bs).contains(m) implies m.sst_id == id by {}
    assert forall|k: u32| #[trigger] d.contains_key(k) implies holds_sst(w, k, d[k]) by {
        if k == id {
            assert(stored_as(w, id, s, cap, bs, data)) by {
                assert forall|i: int|
                    0 <= i < w.index.ssts.len() && (#[trigger] w.index.ssts[i]).sst_id
                        == id implies w.index.ssts[i].blocks == metas_of(id, bs) by {
                    if i > 0 {
                        assert(w.index.ssts[i] == old[i - 1]);
                    }
                }
                assert forall|m: MetaView|
                    m.sst_id == id implies (#[trigger] w.index.blocks.contains(m) <==> metas_of(
                    id,
                    bs,
                ).contains(m)) by {
                    if v.index.blocks.contains(m) {
                        assert(c.contains_key(m.sst_id));
                    }
                }
            }
        } else {
            assert(c.contains_key(k));
            assert(holds_sst(v, k, c[k]));
            let (kc, kb, kd) = choose|cap: int, bs: Seq<BlockInfoView>, data: Seq<u8>| #[trigger]
                stored_as(v, k, c[k], cap, bs, data);
            assert(stored_as(w, k, c[k], kc, kb, kd)) by {
                assert forall|e: Entry| #[trigger] c[k].contains(e) implies w.index.may_hold(
                    k,
                    e.key,
                ) by {
                    assert(v.index.may_hold(k, e.key));
                    assert(w.index.blooms.contains_key(k) <==> v.index.blooms.contains_key(k));
                }
                assert forall|i: int|
                    0 <= i < w.index.ssts.len() && (#[trigger] w.index.ssts[i]).sst_id
                        == k implies w.index.ssts[i].blocks == metas_of(k, kb) by {
                    assert(w.index.ssts[i] == old[i - 1]);
                    assert(old[i - 1].sst_id == k);
                }
                assert forall|m: MetaView|
                    m.sst_id == k implies (#[trigger] w.index.blocks.contains(m) <==> metas_of(
                    k,
                    kb,
                ).contains(m)) by {
                    assert(v.index.blocks.contains(m) <==> metas_of(k, kb).contains(m));
                }
            }
        }
    }
    assert forall|k: u32| #[trigger] d.contains_key(k) <==> is_listed(w.index.ssts, k) by {
        if k == id {
            assert(w.index.ssts[0].sst_id == id);
        } else {
            if c.contains_key(k) {
                assert(is_listed(old, k));
                let j = choose|j: int| 0 <= j < old.len() && (#[trigger] old[j]).sst_id == k;
                assert(w.index.ssts[j + 1].sst_id == k);
            }
            if is_listed(w.index.ssts, k) {
                let i = choose|i: int|
                    0 <= i < w.index.ssts.len() && (#[trigger] w.index.ssts[i]).sst_id == k;
                assert(old[i - 1].sst_id == k);
                assert(is_listed(old, k));
            }
        }
    }
    assert(falling_ids(w.index.ssts)) by {
        assert forall|i: int, j: int| 0 <= i < j < w.index.ssts.len() implies (
        #[trigger] w.index.ssts[i]).sst_id > (#[trigger] w.index.ssts[j]).sst_id by {
            assert(w.index.ssts[j] == old[j - 1]);
            if i > 0 {
                assert(w.index.ssts[i] == old[i - 1]);
            }
        }
    }
    assert forall|i: int| 0 <= i < w.index.blocks.len() implies d.contains_key(
        (#[trigger] w.index.blocks[i]).sst_id,
    ) by {
        assert(w.index.blocks.contains(w.index.blocks[i]));
    }
    assert forall|k: u32| #[trigger] w.index.ranges.contains_key(k) implies d.contains_key(k) by {
        if k != id {
            assert(v.index.ranges.contains_key(k));
        }
    }
}

/// What is left once the SSTs `ids` are gone.
pub open spec fn left(c: Map<u32, Seq<Entry>>, ids: Seq<u32>) -> Map<u32, Seq<Entry>>
    decreases ids.len(),
{
    if ids.len() == 0 {
        c
    } else {
        left(c, ids.drop_last()).remove(ids.last())
    }
}

pub proof fn lemma_left(c: Map<u32, Seq<Entry>>, ids: Seq<u32>, k: u32)
    ensures
        left(c, ids).contains_key(k) <==> c.contains_key(k) && !ids.contains(k),
        left(c, ids).contains_key(k) ==> left(c, ids)[k] == c[k],
    decreases ids.len(),
{
    if ids.len() > 0 {
        let t = ids.drop_last();
        lemma_left(c, t, k);
        if ids.contains(k) {
            let i = choose|i: int| 0 <= i < ids.len() && ids[i] == k;
            if i < t.len() {
                assert(t[i] == k);
            }
        }
        if t.contains(k) {
            let i = choose|i: int| 0 <= i < t.len() && t[i] == k;
            assert(ids[i] == k);
        }
        assert(ids[ids.len() - 1] == ids.last());
    }
}

/// Without several SSTs the engine holds what the others hold.
proof fn lemma_hold_left(v: EngineView, c: Map<u32, Seq<Entry>>, ids: Seq<u32>)
    requires
        ssts_hold(v, c),
    ensures
        ssts_hold(
            EngineView { index: v.index_without(ids), readers: v.readers_without(ids), ..v },
            left(c, ids),
        ),
    decreases ids.len(),
{
    let w = EngineView { index: v.index_without(ids), readers: v.readers_without(ids), ..v };
    if ids.len() == 0 {
        assert(w == v);
    } else {
        let t = ids.drop_last();
        lemma_hold_left(v, c, t);
        let u = EngineView { index: v.index_without(t), readers: v.readers_without(t), ..v };
        lemma_hold_without(u, w, left(c, t), ids.last());
    }
}

/// Dropping SSTs one by one leaves out their blocks and readers.
proof fn lemma_without_ssts(v: EngineView, ids: Seq<u32>)
    ensures
        v.without_ssts(ids).index == v.index_without(ids),
        v.without_ssts(ids).readers == v.readers_without(ids),
        v.without_ssts(ids).mem == v.mem,
        v.without_ssts(ids).now == v.now,
        v.without_ssts(ids).next_seq == v.next_seq,
    decreases ids.len(),
{
    if ids.len() > 0 {
        lemma_without_ssts(v, ids.drop_last());
    }
}

/// The live entries of several blocks.
proof fn lemma_live_blocks(reader: SstReader, n: u32, now: i64, x: Entry)
    ensures
        live_blocks(reader, n, now).contains(x) <==> exists|k: u32|
            k < n && (#[trigger] live_block(reader, k, now)).contains(x),
    decreases n,
{
    if n > 0 {
        let m = (n - 1) as u32;
        lemma_live_blocks(reader, m, now, x);
        let a = live_blocks(reader, m, now);
        let b = live_block(reader, m, now);
        let all = live_blocks(reader, n, now);
        if all.contains(x) {
            let i = choose|i: int| 0 <= i < all.len() && all[i] == x;
            if i < a.len() {
                assert(a[i] == x);
            } else {
                assert(b[i - a.len()] == x);
                assert(b.contains(x));
            }
        }
        if a.contains(x) {
            let i = choose|i: int| 0 <= i < a.len() && a[i] == x;
            assert(all[i] == x);
        }
        if b.contains(x) {
            let i = choose|i: int| 0 <= i < b.len() && b[i] == x;
            assert(all[a.len() + i] == x);
        }
        if exists|k: u32| k < n && (#[trigger] live_block(reader, k, now)).contains(x) {
            let k = choose|k: u32| k < n && (#[trigger] live_block(reader, k, now)).contains(x);
            if k < m {
                assert(a.contains(x));
            }
        }
    }
}

/// A stored SST contributes its live entries to a compaction, but for those that
/// a later SST deletes by range.
proof fn lemma_sst_run(v: EngineView, id: u32, s: Seq<Entry>, x: Entry)
    requires
        holds_sst(v, id, s),
    ensures
        sst_run(v.readers[id], v.manifest, v.now).rank == id,
        sst_run(v.readers[id], v.manifest, v.now).rest.contains(x) <==> !v.manifest.covers_above(
            id,
            x.key,
        ) && exists|e: Entry| #[trigger]
            s.contains(e) && live_at(e.expire_at, v.now) && x == e.unsequenced(),
        block_total(v.readers[id]) == 0 ==> s.len() == 0,
{
    let reader = v.readers[id];
    let now = v.now;
    let (cap, bs, data) = choose|cap: int, bs: Seq<BlockInfoView>, data: Seq<u8>| #[trigger]
        stored_as(v, id, s, cap, bs, data);
    let pieces = chunks(s, cap);
    let total = block_total(reader);
    let live = live_blocks(reader, total, now);
    let p = |e: Entry| live_at(e.expire_at, now);
    lemma_chunks_flatten(s, cap);
    assert(total == pieces.len()) by {
        if pieces.len() > 0 {
            law_sst_reads_back(s, cap, bs, data, id, 0);
        } else {
            assert(data =~= Seq::<u8>::empty());
        }
    }
    assert forall|k: u32| k < total implies #[trigger] live_block(reader, k, now) == live_entries(
        unsequenced(pieces[k as int]),
        now,
    ) by {
        law_sst_reads_back(s, cap, bs, data, id, k);
        lemma_nothing_found(reader, k);
    }
    lemma_stable_sort_exists(live);
    lemma_sort_contains(stable_sorted(live), live, x);
    lemma_filter_contains(
        stable_sorted(live),
        |e: Entry| !v.manifest.covers_above(id, e.key),
        x,
    );
    assert(reader.id() == id);
    lemma_live_blocks(reader, total, now, x);
    if live.contains(x) {
        let k = choose|k: u32| k < total && (#[trigger] live_block(reader, k, now)).contains(x);
        let block = unsequenced(pieces[k as int]);
        lemma_filter_contains(block, p, x);
        let o = choose|o: int| 0 <= o < block.len() && block[o] == x;
        let e = pieces[k as int][o];
        assert(x == e.unsequenced());
        assert(pieces[k as int].contains(e));
        lemma_flatten_contains(pieces, e);
        assert(s.contains(e));
    }
    if exists|e: Entry| #[trigger]
        s.contains(e) && live_at(e.expire_at, now) && x == e.unsequenced() {
        let e = choose|e: Entry| #[trigger]
            s.contains(e) && live_at(e.expire_at, now) && x == e.unsequenced();
        lemma_flatten_contains(pieces, e);
        let i = choose|i: int| 0 <= i < pieces.len() && (#[trigger] pieces[i]).contains(e);
        let o = choose|o: int| 0 <= o < pieces[i].len() && pieces[i][o] == e;
        let block = unsequenced(pieces[i]);
        assert(block[o] == x);
        assert(block.contains(x));
        lemma_filter_contains(block, p, x);
        assert(live_block(reader, i as u32, now).contains(x));
    }
    if total == 0 && s.len() > 0 {
        assert(s.contains(s[0]));
        lemma_flatten_contains(pieces, s[0]);
    }
}

/// The run is that of one of the SSTs.
spec fn is_run_of(
    run: RunView,
    ids: Seq<u32>,
    readers: Map<u32, SstReader>,
    m: ManifestView,
    now: i64,
) -> bool {
    exists|id: u32| #[trigger]
        ids.contains(id) && readers.contains_key(id) && run == sst_run(readers[id], m, now)
}

/// The runs of a compaction are those of its SSTs.
proof fn lemma_sst_runs(ids: Seq<u32>, readers: Map<u32, SstReader>, m: ManifestView, now: i64)
    ensures
        forall|i: int|
            0 <= i < sst_runs(ids, readers, m, now).len() ==> is_run_of(
                #[trigger] sst_runs(ids, readers, m, now)[i],
                ids,
                readers,
                m,
                now,
            ),
        forall|id: u32|
            #[trigger] ids.contains(id) && readers.contains_key(id) && block_total(readers[id]) != 0
                ==> sst_runs(ids, readers, m, now).contains(sst_run(readers[id], m, now)),
    decreases ids.len(),
{
    let runs = sst_runs(ids, readers, m, now);
    if ids.len() > 0 {
        let t = ids.drop_last();
        let x = ids.last();
        let before = sst_runs(t, readers, m, now);
        lemma_sst_runs(t, readers, m, now);
        assert(ids[ids.len() - 1] == x);
        assert(ids.contains(x));
        assert forall|i: int| 0 <= i < runs.len() implies is_run_of(
            #[trigger] runs[i],
            ids,
            readers,
            m,
            now,
        ) by {
            if i < before.len() {
                assert(runs[i] == before[i]);
                assert(is_run_of(before[i], t, readers, m, now));
                let id = choose|id: u32| #[trigger]
                    t.contains(id) && readers.contains_key(id) && before[i] == sst_run(
                        readers[id],
                        m,
                        now,
                    );
                let k = choose|k: int| 0 <= k < t.len() && t[k] == id;
                assert(ids[k] == id);
                assert(ids.contains(id));
            } else {
                assert(runs[i] == sst_run(readers[x], m, now));
            }
        }
        assert forall|id: u32|
            #[trigger] ids.contains(id) && readers.contains_key(id) && block_total(readers[id])
                != 0 implies runs.contains(sst_run(readers[id], m, now)) by {
            if id == x {
                assert(runs[runs.len() - 1] == sst_run(readers[x], m, now));
            } else {
                let k = choose|k: int| 0 <= k < ids.len() && ids[k] == id;
                assert(t[k] == id);
                assert(t.contains(id));
                assert(before.contains(sst_run(readers[id], m, now)));
                let j = choose|j: int| 0 <= j < before.len() && before[j] == sst_run(
                    readers[id],
                    m,
                    now,
                );
                assert(runs[j] == before[j]);
            }
        }
    }
}

/// The index knows the deleted key ranges that the manifest lists.
pub open spec fn ranges_agree(index: IndexView, m: ManifestView) -> bool {
    forall|j: u32, key: Seq<u8>| #[trigger] index.deletes(j, key) == m.deletes(j, key)
}

proof fn lemma_same_above(index: IndexView, m: ManifestView, id: u32, key: Seq<u8>)
    requires
        ranges_agree(index, m),
    ensures
        m.covers_above(id, key) == index.covers_above(id, key),
{
    if m.covers_above(id, key) {
        let j = choose|j: u32| j > id && #[trigger] m.deletes(j, key);
        assert(index.deletes(j, key));
    }
    if index.covers_above(id, key) {
        let j = choose|j: u32| j > id && #[trigger] index.deletes(j, key);
        assert(m.deletes(j, key));
    }
}

/// The SSTs `ids` are those from the lowest of some on.
pub open spec fn takes_newest(active: Seq<u32>, ids: Seq<u32>) -> bool {
    exists|picked: Seq<u32>| ids == #[trigger] widened(active, picked)
}

/// What is merged is newer than what stays, and where anything stays less than
/// all is merged.
proof fn lemma_takes_newest(active: Seq<u32>, ids: Seq<u32>, x: u32)
    requires
        takes_newest(active, ids),
        active.contains(x),
        !ids.contains(x),
    ensures
        forall|id: u32| #[trigger] ids.contains(id) ==> active.contains(id) && x < id,
        ids.len() < active.len(),
{
    let picked = choose|picked: Seq<u32>| ids == #[trigger] widened(active, picked);
    let p = from_lowest(picked);
    lemma_filter_contains(active, p, x);
    assert forall|id: u32| #[trigger] ids.contains(id) implies active.contains(id) && x < id by {
        lemma_filter_contains(active, p, id);
        let i = choose|i: int| 0 <= i < picked.len() && #[trigger] picked[i] <= id;
        assert(!(picked[i] <= x));
    }
    lemma_shorter(active, p, x);
}

/// Leaving something out makes a sequence shorter.
proof fn lemma_shorter(s: Seq<u32>, p: spec_fn(u32) -> bool, x: u32)
    requires
        s.contains(x),
        !p(x),
    ensures
        s.filter(p).len() < s.len(),
    decreases s.len(),
{
    reveal_with_fuel(Seq::filter, 1);
    let t = s.drop_last();
    let k = choose|k: int| 0 <= k < s.len() && s[k] == x;
    t.lemma_filter_len(p);
    if k < t.len() {
        assert(t[k] == x);
        lemma_shorter(t, p, x);
    }
}

/// The key ranges of several SSTs are those of each.
proof fn lemma_ranges_of(ids: Seq<u32>, m: ManifestView, key: Seq<u8>)
    ensures
        masked(ranges_of(ids, m), key) <==> exists|id: u32| #[trigger]
            ids.contains(id) && m.deletes(id, key),
    decreases ids.len(),
{
    if ids.len() > 0 {
        let t = ids.drop_last();
        let x = ids.last();
        let a = ranges_of(t, m);
        let b = ranges_of(ids, m);
        lemma_ranges_of(t, m, key);
        assert(ids[ids.len() - 1] == x);
        assert forall|id: u32| #[trigger] t.contains(id) implies ids.contains(id) by {
            let k = choose|k: int| 0 <= k < t.len() && t[k] == id;
            assert(ids[k] == id);
        }
        if masked(b, key) {
            let i = choose|i: int|
                0 <= i < b.len() && lex_le((#[trigger] b[i]).0, key) && lex_lt(key, b[i].1);
            if i < a.len() {
                assert(a[i] == b[i]);
                assert(masked(a, key));
            } else {
                let own = m.sstables[x].ranges;
                assert(own[i - a.len()] == b[i]);
                assert(m.deletes(x, key));
                assert(ids.contains(x));
            }
        }
        if masked(a, key) {
            let i = choose|i: int|
                0 <= i < a.len() && lex_le((#[trigger] a[i]).0, key) && lex_lt(key, a[i].1);
            assert(b[i] == a[i]);
        }
        if m.deletes(x, key) {
            let own = m.sstables[x].ranges;
            let i = choose|i: int|
                0 <= i < own.len() && lex_le((#[trigger] own[i]).0, key) && lex_lt(key, own[i].1);
            assert(b[a.len() + i] == own[i]);
        }
        if exists|id: u32| #[trigger] ids.contains(id) && m.deletes(id, key) {
            let id = choose|id: u32| #[trigger] ids.contains(id) && m.deletes(id, key);
            let k = choose|k: int| 0 <= k < ids.len() && ids[k] == id;
            if k < t.len() {
                assert(t[k] == id);
                assert(t.contains(id));
            }
        }
    }
}

/// The merge of a compaction takes the live version with the highest number
/// among its SSTs, of those from which no later one deletes the key.
proof fn lemma_merge_finds(
    v: EngineView,
    c: Map<u32, Seq<Entry>>,
    ids: Seq<u32>,
    key: Seq<u8>,
    ts: i64,
)
    requires
        ssts_hold(v, c),
        ranges_agree(v.index, v.manifest),
        forall|id: u32| #[trigger] ids.contains(id) ==> c.contains_key(id),
    ensures
        finds(
            bare(c, v.index, key).restrict(ids.to_set()),
            key,
            ts,
            v.now,
            entry_of(winner(sst_runs(ids, v.readers, v.manifest, v.now), key, ts)),
        ),
{
    let now = v.now;
    let part = bare(c, v.index, key).restrict(ids.to_set());
    assert forall|id: u32| #[trigger] v.manifest.covers_above(id, key) == v.index.covers_above(id, key) by {
        lemma_same_above(v.index, v.manifest, id, key);
    }
    let runs = sst_runs(ids, v.readers, v.manifest, now);
    lemma_sst_runs(ids, v.readers, v.manifest, now);
    let at = lemma_winner(runs, key, ts);
    assert forall|id: u32, e: Entry| #[trigger]
        offered(part, id, key, ts, now, e) implies exists|i: int|
        0 <= i < runs.len() && (#[trigger] runs[i]).rank == id && has_version(
            runs[i].rest,
            key,
            ts,
        ) by {
        assert(c.contains_key(id));
        assert(holds_sst(v, id, c[id]));
        lemma_sst_run(v, id, c[id], e.unsequenced());
        assert(ids.contains(id));
        assert(c[id].contains(e));
        assert(c[id].len() > 0);
        let run = sst_run(v.readers[id], v.manifest, now);
        assert(runs.contains(run));
        let i = choose|i: int| 0 <= i < runs.len() && runs[i] == run;
        let z = choose|z: int| 0 <= z < run.rest.len() && run.rest[z] == e.unsequenced();
        assert(run.rest[z].key == key && run.rest[z].ts == ts);
        let p = lemma_first_for(run.rest, key, ts);
        assert(runs[i].rank == id);
    }
    match winner(runs, key, ts) {
        Some((r, x)) => {
            assert(is_run_of(runs[at], ids, v.readers, v.manifest, now));
            let id = choose|id: u32| #[trigger]
                ids.contains(id) && v.readers.contains_key(id) && runs[at] == sst_run(
                    v.readers[id],
                    v.manifest,
                    now,
                );
            assert(c.contains_key(id));
            assert(holds_sst(v, id, c[id]));
            lemma_sst_run(v, id, c[id], x);
            let p = lemma_first_for(runs[at].rest, key, ts);
            assert(runs[at].rest.contains(x));
            let e = choose|e: Entry| #[trigger]
                c[id].contains(e) && live_at(e.expire_at, now) && x == e.unsequenced();
            assert(part.contains_key(id));
            assert(offered(part, id, key, ts, now, e));
            assert(highest_below(part, u32::MAX + 1, key, ts, now, id)) by {
                assert forall|other: u32, f: Entry| #[trigger]
                    offered(part, other, key, ts, now, f) && other < u32::MAX
                        + 1 implies other <= id by {
                    let i = choose|i: int|
                        0 <= i < runs.len() && (#[trigger] runs[i]).rank == other
                            && has_version(runs[i].rest, key, ts);
                    assert(runs[i].rank <= r);
                }
            }
        },
        None => {
            assert forall|id: u32, e: Entry| #[trigger]
                offered(part, id, key, ts, now, e) implies id >= u32::MAX + 1 by {
                let i = choose|i: int|
                    0 <= i < runs.len() && (#[trigger] runs[i]).rank == id && has_version(
                        runs[i].rest,
                        key,
                        ts,
                    );
                assert(!has_version(runs[i].rest, key, ts));
            }
        },
    }
}

/// What a reader gets of what was found.
pub open spec fn shown_of(hit: Option<Entry>) -> Option<RecordView> {
    match hit {
        Some(e) => shown(e),
        None => None,
    }
}

/// What a compaction of the SSTs `ids` makes of their entries.
pub open spec fn merged_of(v: EngineView, ids: Seq<u32>) -> Seq<Entry> {
    merged(
        sst_runs(ids, v.readers, v.manifest, v.now),
        ids.len() < v.manifest.active.len(),
    )
}

/// The SSTs after a compaction: those that stay, and the new one, if there is one.
pub open spec fn compacted(
    c: Map<u32, Seq<Entry>>,
    ids: Seq<u32>,
    new_id: u32,
    plan: CompactionPlan,
    out: Seq<Entry>,
) -> Map<u32, Seq<Entry>> {
    if plan.added is Some {
        left(c, ids).insert(new_id, out)
    } else {
        left(c, ids)
    }
}

/// The compaction of the SSTs `ids` was planned and carried out, and what it
/// wrote can be read back.
pub open spec fn compacts_by(
    v: EngineView,
    c: Map<u32, Seq<Entry>>,
    ids: Seq<u32>,
    new_id: u32,
    plan: CompactionPlan,
    after: EngineView,
    runner: CompactionRunner,
) -> bool {
    &&& ssts_hold(v, c)
    &&& ranges_agree(v.index, v.manifest)
    &&& forall|id: u32| #[trigger] c.contains_key(id) <==> v.manifest.active.contains(id)
    &&& forall|id: u32| #[trigger] c.contains_key(id) ==> id < new_id
    &&& takes_newest(v.manifest.active, ids)
    &&& runner.comes_to(ids, v.manifest, v.readers, new_id, v.now, Ok(Some(plan)))
    &&& v.compacts_to(plan, after)
    &&& can_be_stored(merged_of(v, ids), block_capacity(runner.block_size))
}

/// What is merged was there.
pub proof fn lemma_ids_known(active: Seq<u32>, ids: Seq<u32>)
    requires
        takes_newest(active, ids),
    ensures
        forall|id: u32| #[trigger] ids.contains(id) ==> active.contains(id),
{
    let picked = choose|picked: Seq<u32>| ids == #[trigger] widened(active, picked);
    assert forall|id: u32| #[trigger] ids.contains(id) implies active.contains(id) by {
        lemma_filter_contains(active, from_lowest(picked), id);
    }
}

/// The key ranges that are deleted once SSTs are gone: those of the others.
proof fn lemma_ranges_left(v: EngineView, ids: Seq<u32>, j: u32)
    ensures
        v.index_without(ids).ranges.contains_key(j) <==> v.index.ranges.contains_key(j)
            && !ids.contains(j),
        v.index_without(ids).ranges.contains_key(j) ==> v.index_without(ids).ranges[j]
            == v.index.ranges[j],
    decreases ids.len(),
{
    if ids.len() > 0 {
        let t = ids.drop_last();
        lemma_ranges_left(v, t, j);
        assert(ids[ids.len() - 1] == ids.last());
        if t.contains(j) {
            let k = choose|k: int| 0 <= k < t.len() && t[k] == j;
            assert(ids[k] == j);
        }
        if ids.contains(j) {
            let k = choose|k: int| 0 <= k < ids.len() && ids[k] == j;
            if k < t.len() {
                assert(t[k] == j);
            }
        }
    }
}

/// From the SSTs that stay the same keys are deleted as before, and from the new
/// one none.
proof fn lemma_compacted_ranges(
    v: EngineView,
    c: Map<u32, Seq<Entry>>,
    ids: Seq<u32>,
    new_id: u32,
    plan: CompactionPlan,
    after: EngineView,
    runner: CompactionRunner,
    key: Seq<u8>,
)
    requires
        compacts_by(v, c, ids, new_id, plan, after, runner),
    ensures
        !after.index.covers_above(new_id, key),
        forall|x: u32|
            c.contains_key(x) && !ids.contains(x) ==> (#[trigger] after.index.covers_above(x, key)
                <==> v.index.covers_above(x, key)),
{
    let m = v.manifest;
    let older = ids.len() < m.active.len();
    let new_deletes = older && masked(ranges_of(ids, m), key);
    lemma_ranges_of(ids, m, key);
    lemma_ids_known(m.active, ids);
    lemma_without_ssts(v, ids);
    assert forall|j: u32| #[trigger] v.index.deletes(j, key) implies c.contains_key(j) && j
        < new_id by {}
    assert forall|j: u32| #[trigger] after.index.deletes(j, key) <==> (v.index.deletes(j, key)
        && !ids.contains(j)) || (j == new_id && new_deletes) by {
        lemma_ranges_left(v, ids, j);
        if plan.added is None {
            assert(!new_deletes);
        }
    }
    assert forall|x: u32| c.contains_key(x) && !ids.contains(x) implies (
    #[trigger] after.index.covers_above(x, key) <==> v.index.covers_above(x, key)) by {
        assert(m.active.contains(x));
        lemma_takes_newest(m.active, ids, x);
        if after.index.covers_above(x, key) {
            let j = choose|j: u32| j > x && #[trigger] after.index.deletes(j, key);
            if j == new_id && new_deletes {
                let id = choose|id: u32| #[trigger] ids.contains(id) && m.deletes(id, key);
                assert(v.index.deletes(id, key));
            } else {
                assert(v.index.deletes(j, key));
            }
        }
        if v.index.covers_above(x, key) {
            let j = choose|j: u32| j > x && #[trigger] v.index.deletes(j, key);
            if ids.contains(j) {
                assert(m.deletes(j, key));
                assert(after.index.deletes(new_id, key));
            } else {
                assert(after.index.deletes(j, key));
            }
        }
    }
}

/// What is found before a compaction and after it gives the same record.
proof fn lemma_same_finds(
    v: EngineView,
    c: Map<u32, Seq<Entry>>,
    ids: Seq<u32>,
    new_id: u32,
    plan: CompactionPlan,
    after: EngineView,
    runner: CompactionRunner,
    key: Seq<u8>,
    ts: i64,
    a: Option<Entry>,
    b: Option<Entry>,
)
    requires
        compacts_by(v, c, ids, new_id, plan, after, runner),
        finds(bare(c, v.index, key), key, ts, v.now, a),
        finds(
            bare(compacted(c, ids, new_id, plan, merged_of(v, ids)), after.index, key),
            key,
            ts,
            v.now,
            b,
        ),
    ensures
        shown_of(a) == shown_of(b),
{
    let now = v.now;
    let runs = sst_runs(ids, v.readers, v.manifest, now);
    let older = ids.len() < v.manifest.active.len();
    let out = merged_of(v, ids);
    let c0 = bare(c, v.index, key);
    let part = c0.restrict(ids.to_set());
    let all = compacted(c, ids, new_id, plan, out);
    let d = bare(all, after.index, key);
    let m = entry_of(winner(runs, key, ts));
    let bound = u32::MAX + 1;
    lemma_ids_known(v.manifest.active, ids);
    assert forall|id: u32| #[trigger] ids.contains(id) implies c.contains_key(id) by {
        assert(v.manifest.active.contains(id));
    }
    lemma_merge_finds(v, c, ids, key, ts);
    lemma_compacted_ranges(v, c, ids, new_id, plan, after, runner, key);
    assert forall|id: u32| #[trigger] c.contains_key(id) implies strictly_sorted(c[id]) by {
        assert(holds_sst(v, id, c[id]));
    }
    assert forall|id: u32| #[trigger] d.contains_key(id) implies strictly_sorted(d[id]) by {
        lemma_left(c, ids, id);
    }
    assert forall|id: u32| #[trigger] c0.contains_key(id) implies strictly_sorted(c0[id]) by {
        assert(c.contains_key(id));
    }
    // What the new SST has of the `(key, ts)`.
    assert forall|e: Entry| #[trigger] out.contains(e) && e.key == key && e.ts == ts implies m
        == Some(e) && is_kept(e, older) by {
        lemma_wins(runs, e);
    }
    assert forall|id: u32, e: Entry| id != new_id implies (#[trigger] offered(
        d,
        id,
        key,
        ts,
        now,
        e,
    ) <==> !ids.contains(id) && offered(c0, id, key, ts, now, e)) by {
        lemma_left(c, ids, id);
        if c.contains_key(id) && !ids.contains(id) {
            assert(after.index.covers_above(id, key) <==> v.index.covers_above(id, key));
        }
    }
    assert forall|id: u32, e: Entry| #[trigger] offered(part, id, key, ts, now, e) <==> ids.contains(
        id,
    ) && offered(c0, id, key, ts, now, e) by {}
    assert(!c.contains_key(new_id)) by {
        if c.contains_key(new_id) {
            assert(new_id < new_id);
        }
    }
    assert forall|e: Entry| #[trigger] offered(d, new_id, key, ts, now, e) implies out.contains(
        e,
    ) by {
        lemma_left(c, ids, new_id);
    }
    if m is Some {
        let (x, e) = choose|x: u32, e: Entry|
            #[trigger] offered(part, x, key, ts, now, e) && x < bound && m->0 == e.unsequenced()
                && highest_below(part, bound, key, ts, now, x);
        assert(offered(c0, x, key, ts, now, e) && ids.contains(x));
        // What is merged is newer than what stays.
        assert(highest_below(c0, bound, key, ts, now, x)) by {
            assert forall|other: u32, f: Entry| #[trigger]
                offered(c0, other, key, ts, now, f) && other < bound implies other <= x by {
                if ids.contains(other) {
                    assert(offered(part, other, key, ts, now, f));
                } else {
                    assert(v.manifest.active.contains(other));
                    lemma_takes_newest(v.manifest.active, ids, other);
                }
            }
        }
        assert(finds(c0, key, ts, now, m));
        lemma_finds_one(c0, key, ts, now, a, m);
        let h = m->0;
        assert(!(h.op is DeleteRange)) by {
            assert(holds_sst(v, x, c[x]));
            assert(c[x].contains(e));
        }
        if is_kept(h, older) {
            lemma_wins(runs, h);
            assert(out.contains(h));
            assert(out.len() > 0);
            assert(plan.added is Some);
            assert(all[new_id] == out);
            assert(offered(d, new_id, key, ts, now, h));
            assert(highest_below(d, bound, key, ts, now, new_id)) by {
                assert forall|other: u32, f: Entry| #[trigger]
                    offered(d, other, key, ts, now, f) && other < bound implies other <= new_id by {
                    lemma_left(c, ids, other);
                }
            }
            assert(h.unsequenced() == h);
            assert(finds(d, key, ts, now, Some(h)));
            lemma_finds_one(d, key, ts, now, b, Some(h));
        } else if b is Some {
            let (y, f) = choose|y: u32, f: Entry|
                #[trigger] offered(d, y, key, ts, now, f) && y < bound && b->0 == f.unsequenced()
                    && highest_below(d, bound, key, ts, now, y);
            if y == new_id {
                assert(out.contains(f));
            } else {
                assert(offered(c0, y, key, ts, now, f));
                assert(v.manifest.active.contains(y));
                lemma_takes_newest(v.manifest.active, ids, y);
            }
        }
    } else {
        // No SST that goes has a version, and what the others have counts as before.
        assert forall|id: u32, e: Entry| #[trigger] offered(d, id, key, ts, now, e) <==> offered(
            c0,
            id,
            key,
            ts,
            now,
            e,
        ) by {
            if ids.contains(id) && offered(c0, id, key, ts, now, e) {
                assert(offered(part, id, key, ts, now, e));
            }
            if id == new_id && offered(d, id, key, ts, now, e) {
                assert(out.contains(e));
                assert(m == Some(e));
            }
        }
        lemma_same_offers(c0, d, key, ts, now, a);
        lemma_finds_one(d, key, ts, now, a, b);
    }
}

/// After a compaction the SSTs are those that stay and the new one, which holds
/// what was merged.
pub proof fn law_compaction_keeps_ssts(
    v: EngineView,
    c: Map<u32, Seq<Entry>>,
    ids: Seq<u32>,
    new_id: u32,
    plan: CompactionPlan,
    after: EngineView,
    runner: CompactionRunner,
)
    requires
        compacts_by(v, c, ids, new_id, plan, after, runner),
    ensures
        ssts_hold(after, compacted(c, ids, new_id, plan, merged_of(v, ids))),
        after.mem == v.mem,
        after.now == v.now,
        after.next_seq == v.next_seq,
{
    let out = merged_of(v, ids);
    let cap = block_capacity(runner.block_size);
    let w = EngineView { index: v.index_without(ids), readers: v.readers_without(ids), ..v };
    lemma_hold_left(v, c, ids);
    match plan.added {
        Some(new) => {
            let bs = infos(new.blocks@);
            let data = new.data@;
            assert forall|k: u32| #[trigger] left(c, ids).contains_key(k) implies k < new_id by {
                lemma_left(c, ids, k);
            }
            assert forall|e: Entry| #[trigger] out.contains(e) implies after.index.may_hold(
                new_id,
                e.key,
            ) by {
                let i = choose|i: int| 0 <= i < out.len() && out[i] == e;
                assert(keys_of(out)[i] == e.key);
                assert(keys_of(out).contains(e.key));
                law_no_false_negatives(
                    BloomView::blank(
                        at_least_one(known_records(ids, v.manifest) as int),
                        runner.bloom_bits_per_key as int,
                    ),
                    keys_of(out),
                    new.info.bloom->0@,
                    e.key,
                );
            }
            lemma_can_be_opened(out, cap, bs, data, new_id);
            lemma_hold_with(w, after, left(c, ids), new_id, out, cap, bs, data);
        },
        None => {
            lemma_without_ssts(v, ids);
            assert(ssts_hold(after, left(c, ids))) by {
                lemma_same_ssts(w, after, left(c, ids));
            }
        },
    }
}

/// An SST as it was written can be opened.
pub proof fn lemma_can_be_opened(
    s: Seq<Entry>,
    cap: int,
    bs: Seq<BlockInfoView>,
    data: Seq<u8>,
    id: u32,
)
    requires
        cap > 0,
        is_sst(s, cap, bs, data),
        can_be_stored(s, cap),
    ensures
        block_starts(data, 0) is Ok,
{
    if chunks(s, cap).len() > 0 {
        law_sst_reads_back(s, cap, bs, data, id, 0);
    } else {
        assert(data =~= Seq::<u8>::empty());
    }
}

/// What the SSTs hold goes by the index and the readers alone.
pub proof fn lemma_same_ssts(v: EngineView, w: EngineView, c: Map<u32, Seq<Entry>>)
    requires
        ssts_hold(v, c),
        w.index == v.index,
        w.readers == v.readers,
    ensures
        ssts_hold(w, c),
{
    assert forall|id: u32| #[trigger] c.contains_key(id) implies holds_sst(w, id, c[id]) by {
        assert(holds_sst(v, id, c[id]));
        let (cap, bs, data) = choose|cap: int, bs: Seq<BlockInfoView>, data: Seq<u8>| #[trigger]
            stored_as(v, id, c[id], cap, bs, data);
        assert(stored_as(w, id, c[id], cap, bs, data));
    }
}

/// What is found in the SSTs of two states gives the same record.
pub open spec fn same_found(
    c: Map<u32, Seq<Entry>>,
    d: Map<u32, Seq<Entry>>,
    key: Seq<u8>,
    ts: i64,
    now: i64,
) -> bool {
    forall|a: Option<Entry>, b: Option<Entry>| #[trigger]
        finds(c, key, ts, now, a) && #[trigger] finds(d, key, ts, now, b) ==> shown_of(a)
            == shown_of(b)
}

/// Reads stay the same where memory does and the SSTs give the same records.
pub proof fn lemma_same_reads(
    v: EngineView,
    w: EngineView,
    c: Map<u32, Seq<Entry>>,
    d: Map<u32, Seq<Entry>>,
)
    requires
        v.in_step(),
        ssts_hold(v, c),
        ssts_hold(w, d),
        w.mem == v.mem,
        w.now == v.now,
        w.next_seq == v.next_seq,
        forall|key: Seq<u8>, ts: i64| #[trigger]
            same_found(bare(c, v.index, key), bare(d, w.index, key), key, ts, v.now),
    ensures
        w.in_step(),
        forall|key: Seq<u8>, ts: i64| #[trigger] w.point(key, ts) == v.point(key, ts),
        forall|range: ScanRangeView, r: RecordView| #[trigger]
            w.range_scan(range).records().contains(r) <==> v.range_scan(range).records().contains(r),
{
    assert forall|key: Seq<u8>, ts: i64| #[trigger] w.point(key, ts) == v.point(key, ts) by {
        lemma_point_finds(v, c, key, ts);
        lemma_point_finds(w, d, key, ts);
        assert(same_found(bare(c, v.index, key), bare(d, w.index, key), key, ts, v.now));
        lemma_decisions(
            v.mem,
            key,
            best_version(v.mem.tables(), key, ts, v.now, u64::MAX),
            v.stored_version(key, ts),
            w.stored_version(key, ts),
        );
    }
    assert forall|range: ScanRangeView, r: RecordView| #[trigger]
        w.range_scan(range).records().contains(r) <==> v.range_scan(range).records().contains(r) by {
        lemma_range_scan_shows(v, range, r);
        lemma_range_scan_shows(w, range, r);
        if range.admits(r.key, r.ts) {
            law_scan_filter_is_complete(range, r.key, r.ts);
            lemma_scan_finds(v, c, range.filter(), range.times(), r.key, r.ts);
            lemma_scan_finds(w, d, range.filter(), range.times(), r.key, r.ts);
            assert(same_found(
                bare(c, v.index, r.key),
                bare(d, w.index, r.key),
                r.key,
                r.ts,
                v.now,
            ));
            lemma_decisions(
                v.mem,
                r.key,
                scan_memory(v, range, r.key, r.ts),
                scan_stored(v, range, r.key, r.ts),
                scan_stored(w, range, r.key, r.ts),
            );
        }
    }
    assert forall|range: ScanRangeView| #[trigger] w.scan_agrees(range) by {
        assert(v.scan_agrees(range));
        assert forall|r: RecordView| #[trigger]
            w.range_scan(range).records().contains(r) <==> range.admits(r.key, r.ts) && w.point(
                r.key,
                r.ts,
            ) == Some(r) by {
            assert(w.point(r.key, r.ts) == v.point(r.key, r.ts));
            assert(w.range_scan(range).records().contains(r) <==> v.range_scan(
                range,
            ).records().contains(r));
        }
    }
}

/// What counts gives the same record where what is found below does.
pub proof fn lemma_decisions(
    mem: MemView,
    key: Seq<u8>,
    hit: Option<Entry>,
    a: Option<Entry>,
    b: Option<Entry>,
)
    requires
        shown_of(a) == shown_of(b),
    ensures
        shown_of(mem.decide(key, u64::MAX, hit, a)) == shown_of(
            mem.decide(key, u64::MAX, hit, b),
        ),
{
}

/// A compaction changes no read: what is deleted stays deleted, and of several
/// versions the same one counts.
pub proof fn law_compaction_keeps_reads_in_step(
    v: EngineView,
    c: Map<u32, Seq<Entry>>,
    ids: Seq<u32>,
    new_id: u32,
    plan: CompactionPlan,
    after: EngineView,
    runner: CompactionRunner,
)
    requires
        v.in_step(),
        compacts_by(v, c, ids, new_id, plan, after, runner),
    ensures
        after.in_step(),
        ssts_hold(after, compacted(c, ids, new_id, plan, merged_of(v, ids))),
        forall|key: Seq<u8>, ts: i64| #[trigger] after.point(key, ts) == v.point(key, ts),
        forall|range: ScanRangeView, r: RecordView| #[trigger]
            after.range_scan(range).records().contains(r) <==> v.range_scan(
                range,
            ).records().contains(r),
{
    let d = compacted(c, ids, new_id, plan, merged_of(v, ids));
    law_compaction_keeps_ssts(v, c, ids, new_id, plan, after, runner);
    assert forall|key: Seq<u8>, ts: i64| #[trigger]
        same_found(bare(c, v.index, key), bare(d, after.index, key), key, ts, v.now) by {
        assert forall|a: Option<Entry>, b: Option<Entry>| #[trigger]
            finds(bare(c, v.index, key), key, ts, v.now, a) && #[trigger] finds(
                bare(d, after.index, key),
                key,
                ts,
                v.now,
                b,
            ) implies shown_of(a) == shown_of(b) by {
            lemma_same_finds(v, c, ids, new_id, plan, after, runner, key, ts, a, b);
        }
    }
    lemma_same_reads(v, after, c, d);
}

/// A compaction of SSTs without deletions keeps each live record once: what the
/// new SST holds are the live records of those that go, each `(key, ts)` of which
/// only one has.
pub proof fn law_compaction_keeps_each_live_record(
    v: EngineView,
    c: Map<u32, Seq<Entry>>,
    ids: Seq<u32>,
    new_id: u32,
    plan: CompactionPlan,
    after: EngineView,
    runner: CompactionRunner,
    r: RecordView,
)
    requires
        compacts_by(v, c, ids, new_id, plan, after, runner),
        forall|j: u32, key: Seq<u8>| !#[trigger] v.index.deletes(j, key),
        forall|id: u32, e: Entry|
            ids.contains(id) && #[trigger] c[id].contains(e) && live_at(e.expire_at, v.now)
                ==> e.op == Op::Put,
        forall|i: u32, j: u32, e: Entry, f: Entry|
            #![trigger c[i].contains(e), c[j].contains(f)]
            ids.contains(i) && ids.contains(j) && c[i].contains(e) && c[j].contains(f) && live_at(
                e.expire_at,
                v.now,
            ) && live_at(f.expire_at, v.now) && same_version(e, f) ==> i == j,
    ensures
        strictly_sorted(merged_of(v, ids)),
        (exists|h: Entry| #[trigger] merged_of(v, ids).contains(h) && h.record() == r) <==> (exists|
            id: u32,
            e: Entry,
        |
            ids.contains(id) && #[trigger] c[id].contains(e) && live_at(e.expire_at, v.now)
                && e.record() == r),
{
    let now = v.now;
    let key = r.key;
    let ts = r.ts;
    let runs = sst_runs(ids, v.readers, v.manifest, now);
    let out = merged_of(v, ids);
    let part = bare(c, v.index, key).restrict(ids.to_set());
    let bound = u32::MAX + 1;
    let m = entry_of(winner(runs, key, ts));
    lemma_ids_known(v.manifest.active, ids);
    assert forall|id: u32| #[trigger] ids.contains(id) implies c.contains_key(id) by {
        assert(v.manifest.active.contains(id));
    }
    lemma_merge_finds(v, c, ids, key, ts);
    assert forall|id: u32| !#[trigger] v.index.covers_above(id, key) by {
        if v.index.covers_above(id, key) {
            let j = choose|j: u32| j > id && #[trigger] v.index.deletes(j, key);
        }
    }
    if exists|h: Entry| #[trigger] out.contains(h) && h.record() == r {
        let h = choose|h: Entry| #[trigger] out.contains(h) && h.record() == r;
        lemma_wins(runs, h);
        assert(m == Some(h));
        let (x, e) = choose|x: u32, e: Entry|
            #[trigger] offered(part, x, key, ts, now, e) && x < bound && m->0 == e.unsequenced()
                && highest_below(part, bound, key, ts, now, x);
        assert(ids.contains(x) && c[x].contains(e));
        assert(e.record() == r);
    }
    if exists|id: u32, e: Entry|
        ids.contains(id) && #[trigger] c[id].contains(e) && live_at(e.expire_at, now) && e.record()
            == r {
        let (id, e) = choose|id: u32, e: Entry|
            ids.contains(id) && #[trigger] c[id].contains(e) && live_at(e.expire_at, now)
                && e.record() == r;
        assert(c.contains_key(id));
        assert(!v.index.covers_above(id, key));
        assert(offered(part, id, key, ts, now, e));
        assert(m is Some);
        let (x, f) = choose|x: u32, f: Entry|
            #[trigger] offered(part, x, key, ts, now, f) && x < bound && m->0 == f.unsequenced()
                && highest_below(part, bound, key, ts, now, x);
        assert(c[x].contains(f) && ids.contains(x));
        assert(x == id);
        assert(holds_sst(v, id, c[id]));
        lemma_one_version(c[id], e, f);
        let h = m->0;
        assert(h.op == Op::Put);
        lemma_wins(runs, h);
        assert(out.contains(h) && h.record() == r);
    }
}

/// The plan that a compaction comes to takes the newest SSTs.
pub proof fn law_planned_compaction_takes_newest(v: EngineView, config: Config, plan: CompactionPlan)
    requires
        v.manifest.max_id() < u32::MAX,
        compaction_planned(v, config, Ok(Some(plan))),
    ensures
        takes_newest(v.manifest.active, plan.removed@),
        plan.added is Some ==> plan.added->0.info.id == v.manifest.max_id() + 1,
{
    let runner = CompactionRunner {
        block_size: config.block_size,
        bloom_bits_per_key: config.bloom_bits_per_key,
        compaction_threshold: config.compaction_threshold,
    };
    let (sized, n) = choose|sized: Seq<(u32, u64)>, n: int| #[trigger]
        picks(sized, n) && is_by_size(sized, v.manifest) && runner.comes_to(
            widened(v.manifest.active, ids_of(sized.subrange(0, n))),
            v.manifest,
            v.readers,
            (v.manifest.max_id() + 1) as u32,
            v.now,
            Ok(Some(plan)),
        );
    assert(plan.removed@ == widened(v.manifest.active, ids_of(sized.subrange(0, n))));
}

/// Dropping an SST in which everything has expired, and which deletes no range,
/// changes no read.
pub proof fn law_collecting_expired_ssts_keeps_reads_in_step(
    v: EngineView,
    c: Map<u32, Seq<Entry>>,
    id: u32,
)
    requires
        v.in_step(),
        ssts_hold(v, c),
        c.contains_key(id),
        forall|e: Entry| #[trigger] c[id].contains(e) ==> !live_at(e.expire_at, v.now),
        forall|key: Seq<u8>| !#[trigger] v.index.deletes(id, key),
    ensures
        v.without_sst(id).in_step(),
        ssts_hold(v.without_sst(id), c.remove(id)),
        forall|key: Seq<u8>, ts: i64| #[trigger]
            v.without_sst(id).point(key, ts) == v.point(key, ts),
        forall|range: ScanRangeView, r: RecordView| #[trigger]
            v.without_sst(id).range_scan(range).records().contains(r) <==> v.range_scan(
                range,
            ).records().contains(r),
{
    let w = v.without_sst(id);
    let d = c.remove(id);
    lemma_hold_without(v, w, c, id);
    assert forall|k: u32| #[trigger] c.contains_key(k) implies strictly_sorted(c[k]) by {
        assert(holds_sst(v, k, c[k]));
    }
    assert forall|key: Seq<u8>, ts: i64| #[trigger]
        same_found(bare(c, v.index, key), bare(d, w.index, key), key, ts, v.now) by {
        let c0 = bare(c, v.index, key);
        let d0 = bare(d, w.index, key);
        assert forall|j: u32| #[trigger] w.index.deletes(j, key) == v.index.deletes(j, key) by {
            assert(!v.index.deletes(id, key));
        }
        assert forall|k: u32| #[trigger] w.index.covers_above(k, key) == v.index.covers_above(k, key) by {
            if v.index.covers_above(k, key) {
                let j = choose|j: u32| j > k && #[trigger] v.index.deletes(j, key);
                assert(w.index.deletes(j, key));
            }
            if w.index.covers_above(k, key) {
                let j = choose|j: u32| j > k && #[trigger] w.index.deletes(j, key);
                assert(v.index.deletes(j, key));
            }
        }
        assert forall|k: u32, e: Entry| #[trigger] offered(d0, k, key, ts, v.now, e) <==> offered(
            c0,
            k,
            key,
            ts,
            v.now,
            e,
        ) by {
            assert(w.index.covers_above(k, key) == v.index.covers_above(k, key));
        }
        assert forall|k: u32| #[trigger] d0.contains_key(k) implies strictly_sorted(d0[k]) by {
            assert(c.contains_key(k));
        }
        assert forall|a: Option<Entry>, b: Option<Entry>| #[trigger]
            finds(c0, key, ts, v.now, a) && #[trigger] finds(d0, key, ts, v.now, b) implies shown_of(
            a,
        ) == shown_of(b) by {
            lemma_same_offers(c0, d0, key, ts, v.now, a);
            lemma_finds_one(d0, key, ts, v.now, a, b);
        }
    }
    lemma_same_reads(v, w, c, d);
}

/// After a flush the SSTs are those there were and the new one, which holds
/// what the flush keeps of the memtable.
pub proof fn law_flush_keeps_ssts(
    f: EngineView,
    c: Map<u32, Seq<Entry>>,
    job: FlushJob,
    after: EngineView,
    config: Config,
)
    requires
        flushes_by(f, c, job, after, config),
    ensures
        ssts_hold(after, c.insert(job.sst.info.id, flushed(f.mem.frozen.first()))),
{
    let table = f.mem.frozen.first();
    let s = flushed(table);
    let cap = block_capacity(config.block_size);
    let id = job.sst.info.id;
    let bs = infos(job.sst.blocks@);
    let data = job.sst.data@;
    let g = f.starts_flush();
    lemma_flushed(table);
    lemma_same_ssts(f, g, c);
    lemma_can_be_opened(s, cap, bs, data, id);
    assert forall|e: Entry| #[trigger] s.contains(e) implies after.index.may_hold(id, e.key) by {
        let i = choose|i: int| 0 <= i < s.len() && s[i] == e;
        lemma_key_runs_complete(s, i);
        law_no_false_negatives(
            BloomView::blank(
                at_least_one(key_runs(s).len() as int),
                config.bloom_bits_per_key as int,
            ),
            key_runs(s),
            job.sst.info.bloom->0@,
            e.key,
        );
    }
    assert forall|e: Entry| #[trigger] s.contains(e) implies !(e.op is DeleteRange) by {
        assert(stays_in(table)(e));
    }
    lemma_hold_with(g, after, c, id, s, cap, bs, data);
}

/// A new engine has no SSTs.
pub proof fn law_new_engine_has_no_ssts()
    ensures
        ssts_hold(EngineView::fresh(), Map::empty()),
{
    let v = EngineView::fresh();
    assert(v.index.ssts.len() == 0);
    assert(v.index.blocks.len() == 0);
}

} // verus!
