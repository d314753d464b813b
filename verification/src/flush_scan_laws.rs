//! A flush changes no read.

use vstd::prelude::*;

use crate::block_meta_index::{inserted, lemma_rank_bounds, meta_of, rank_of, with_blocks, MetaView};
use crate::compaction_laws::{law_flush_keeps_ssts, lemma_same_ssts, shown_of};
use crate::engine::{flush_by, flushed, lemma_freeze_seqs_below, stays_in, EngineView, FlushJob};
use crate::flush_laws::{
    can_be_stored, distinct_ranks, is_top, lemma_flushed, lemma_leave_out, lemma_newest_is_top,
};
use crate::manifest::BlockInfoView;
use crate::memtable::{is_version, lemma_newest, newest};
use crate::memtables::{best_version, lemma_best_version, lemma_flatten_contains, offers, MemView};
use crate::order::{same_version, sorted_entries, strictly_sorted};
use crate::ranges::{covered, covers_at, is_proper, is_span, lemma_spans_cover};
use crate::read_laws::{
    is_live_in, law_freeze_keeps_reads_in_step, lemma_covers_in, lemma_scan_memory, live_on_top,
    one_per_number,
};
use crate::record::{law_scan_filter_is_complete, live_at, Config, Entry, RecordView, ScanRangeView};
use crate::sst_laws::{
    bare, finds, highest_below, holds_sst, lemma_finds_one, lemma_point_finds, lemma_scan_finds,
    offered, ssts_hold,
};
use crate::sstable::block_capacity;
use crate::winners::{lemma_covered_earlier, lemma_range_scan_shows, scan_memory, scan_stored};

verus! {

/// No version in the oldest frozen memtable is newer than one of the same
/// `(key, ts)` in another memtable, and its range deletions and those of the
/// others are in order too.
pub open spec fn flushed_is_older(mem: MemView) -> bool {
    forall|i: int, e: Entry, f: Entry|
        #![trigger mem.frozen.first().contains(e), mem.tables()[i].contains(f)]
        0 <= i < mem.tables().len() && i != 1 && mem.frozen.first().contains(e)
            && mem.tables()[i].contains(f) && (same_version(e, f) || is_span(e) || is_span(f)) ==> e.seq
            < f.seq
}

/// The oldest frozen memtable holds each number once, no expired version in it
/// stands over a live one, and a deleted range has something in it.
pub open spec fn flushes_plainly(f: EngineView) -> bool {
    let table = f.mem.frozen.first();
    &&& f.mem.frozen.len() > 0
    &&& f.mem.flushing.len() == 0
    &&& sorted_entries(table)
    &&& distinct_ranks(table)
    &&& flushed_is_older(f.mem)
    &&& forall|e: Entry| #[trigger] table.contains(e) ==> is_proper(e)
    &&& live_on_top(table, f.now)
}

/// The newest version of `(key, ts)` in a memtable, where it is live.
pub open spec fn live_newest(table: Seq<Entry>, key: Seq<u8>, ts: i64, now: i64) -> Option<Entry> {
    match newest(table, key, ts, u64::MAX) {
        Some(e) => if live_at(e.expire_at, now) {
            Some(e)
        } else {
            None
        },
        None => None,
    }
}

/// The blocks of an index with an SST added.
pub proof fn lemma_with_blocks_contains(
    s: Seq<MetaView>,
    id: u32,
    blocks: Seq<BlockInfoView>,
    m: MetaView,
)
    ensures
        with_blocks(s, id, blocks).contains(m) <==> s.contains(m) || exists|c: int|
            0 <= c < blocks.len() && m == meta_of(id, #[trigger] blocks[c]),
    decreases blocks.len(),
{
    if blocks.len() > 0 {
        let rest = blocks.drop_last();
        let t = with_blocks(s, id, rest);
        let x = meta_of(id, blocks.last());
        let p = rank_of(t, x.min_key);
        let u = inserted(t, x);
        lemma_with_blocks_contains(s, id, rest, m);
        lemma_rank_bounds(t, x.min_key);
        assert(u.contains(m) <==> t.contains(m) || m == x) by {
            assert(u[p] == x);
            if t.contains(m) {
                let k = choose|k: int| 0 <= k < t.len() && t[k] == m;
                if k < p {
                    assert(u[k] == m);
                } else {
                    assert(u[k + 1] == m);
                }
            }
            if u.contains(m) {
                let k = choose|k: int| 0 <= k < u.len() && u[k] == m;
                if k < p {
                    assert(t[k] == m);
                } else if k > p {
                    assert(t[k - 1] == m);
                }
            }
        }
        if exists|c: int| 0 <= c < rest.len() && m == meta_of(id, #[trigger] rest[c]) {
            let c = choose|c: int| 0 <= c < rest.len() && m == meta_of(id, #[trigger] rest[c]);
            assert(blocks[c] == rest[c]);
        }
        if exists|c: int| 0 <= c < blocks.len() && m == meta_of(id, #[trigger] blocks[c]) {
            let c = choose|c: int| 0 <= c < blocks.len() && m == meta_of(id, #[trigger] blocks[c]);
            if c < rest.len() {
                assert(rest[c] == blocks[c]);
            }
        }
        assert(blocks[blocks.len() - 1] == blocks.last());
    }
}

/// Memory holds what it held but for the flushed table.
proof fn lemma_flushed_memory(m: MemView, w: MemView, e: Entry)
    requires
        m.frozen.len() > 0,
        m.flushing.len() == 0,
        w == m.starts_flush().completes_flush(),
    ensures
        m.all().contains(e) <==> w.all().contains(e) || m.frozen.first().contains(e),
        w.all().contains(e) <==> exists|i: int|
            0 <= i < m.tables().len() && i != 1 && (#[trigger] m.tables()[i]).contains(e),
{
    let t0 = m.tables();
    let t1 = w.tables();
    assert(w.frozen =~= m.frozen.drop_first());
    assert(w.flushing =~= Seq::<Seq<Entry>>::empty());
    lemma_flatten_contains(t0, e);
    lemma_flatten_contains(t1, e);
    assert(t0[1] == m.frozen.first());
    if exists|i: int| 0 <= i < t1.len() && (#[trigger] t1[i]).contains(e) {
        let i = choose|i: int| 0 <= i < t1.len() && (#[trigger] t1[i]).contains(e);
        if i == 0 {
            assert(t0[0] == t1[0]);
        } else {
            assert(t0[i + 1] == t1[i]);
        }
    }
    if exists|i: int| 0 <= i < t0.len() && i != 1 && (#[trigger] t0[i]).contains(e) {
        let i = choose|i: int| 0 <= i < t0.len() && i != 1 && (#[trigger] t0[i]).contains(e);
        if i == 0 {
            assert(t1[0].contains(e));
        } else {
            assert(t1[i - 1] == t0[i]);
            assert(t1[i - 1].contains(e));
        }
    }
    if m.frozen.first().contains(e) {
        assert(t0[1].contains(e));
    }
    if exists|i: int| 0 <= i < t0.len() && (#[trigger] t0[i]).contains(e) {
        let i = choose|i: int| 0 <= i < t0.len() && (#[trigger] t0[i]).contains(e);
        if i != 1 {
            assert(t0[i].contains(e));
        }
    }
}

/// The flush of the oldest frozen memtable was made and took effect, and what it
/// wrote can be read back.
pub open spec fn flushes_by(
    f: EngineView,
    c: Map<u32, Seq<Entry>>,
    job: FlushJob,
    after: EngineView,
    config: Config,
) -> bool {
    &&& ssts_hold(f, c)
    &&& flushes_plainly(f)
    &&& f.manifest.max_id() < u32::MAX
    &&& forall|k: u32| #[trigger] c.contains_key(k) ==> k <= f.manifest.max_id()
    &&& job.writes_table(f.mem.frozen.first(), (f.manifest.max_id() + 1) as u32, config)
    &&& f.starts_flush().finishes_flush(job, after)
    &&& can_be_stored(flushed(f.mem.frozen.first()), block_capacity(config.block_size))
}

/// Which keys the SSTs delete after a flush: those they deleted, and those that
/// the memtable did.
proof fn lemma_flushed_ranges(
    f: EngineView,
    c: Map<u32, Seq<Entry>>,
    job: FlushJob,
    after: EngineView,
    config: Config,
    key: Seq<u8>,
)
    requires
        flushes_by(f, c, job, after, config),
    ensures
        !after.index.covers_above(job.sst.info.id, key),
        forall|x: u32|
            x < job.sst.info.id ==> (#[trigger] after.index.covers_above(x, key)
                <==> f.index.covers_above(x, key) || covered(
                f.mem.frozen.first(),
                key,
                None,
                u64::MAX,
            )),
{
    let id = job.sst.info.id;
    let table = f.mem.frozen.first();
    lemma_spans_cover(table, key);
    assert(!f.index.ranges.contains_key(id)) by {
        if f.index.ranges.contains_key(id) {
            assert(c.contains_key(id));
        }
    }
    assert forall|j: u32| #[trigger] after.index.deletes(j, key) <==> f.index.deletes(j, key) || (j
        == id && covered(table, key, None, u64::MAX)) by {}
    assert forall|j: u32| #[trigger] f.index.deletes(j, key) implies j < id by {
        assert(c.contains_key(j));
    }
    assert forall|x: u32| x < id implies (#[trigger] after.index.covers_above(x, key)
        <==> f.index.covers_above(x, key) || covered(table, key, None, u64::MAX)) by {
        if f.index.covers_above(x, key) {
            let j = choose|j: u32| j > x && #[trigger] f.index.deletes(j, key);
            assert(after.index.deletes(j, key));
        }
        if covered(table, key, None, u64::MAX) {
            assert(after.index.deletes(id, key));
        }
        if after.index.covers_above(x, key) {
            let j = choose|j: u32| j > x && #[trigger] after.index.deletes(j, key);
            assert(f.index.deletes(j, key) || j == id);
        }
    }
}

/// What is found in the SSTs after a flush.
proof fn lemma_flushed_finds(
    f: EngineView,
    c: Map<u32, Seq<Entry>>,
    job: FlushJob,
    after: EngineView,
    config: Config,
    key: Seq<u8>,
    ts: i64,
    a: Option<Entry>,
    b: Option<Entry>,
)
    requires
        flushes_by(f, c, job, after, config),
        finds(bare(c, f.index, key), key, ts, f.now, a),
        finds(
            bare(
                c.insert(job.sst.info.id, flushed(f.mem.frozen.first())),
                after.index,
                key,
            ),
            key,
            ts,
            f.now,
            b,
        ),
    ensures
        ({
            let table = f.mem.frozen.first();
            let n = live_newest(table, key, ts, f.now);
            if n is Some && stays_in(table)(n->0) {
                b == Some(n->0.unsequenced())
            } else if covered(table, key, None, u64::MAX) {
                b is None
            } else {
                a == b
            }
        }),
{
    let id = job.sst.info.id;
    let table = f.mem.frozen.first();
    let s = flushed(table);
    let now = f.now;
    let n = live_newest(table, key, ts, f.now);
    let bound = u32::MAX + 1;
    let c0 = bare(c, f.index, key);
    let d = bare(c.insert(id, s), after.index, key);
    lemma_flushed(table);
    lemma_flushed_ranges(f, c, job, after, config, key);
    lemma_newest(table, key, ts, u64::MAX);
    assert forall|k: u32| #[trigger] c.contains_key(k) implies strictly_sorted(c[k]) by {
        assert(holds_sst(f, k, c[k]));
    }
    assert forall|k: u32| #[trigger] d.contains_key(k) implies strictly_sorted(d[k]) by {
        if k != id {
            assert(c.contains_key(k));
        }
    }
    assert forall|k: u32, e: Entry| k != id implies (#[trigger] offered(d, k, key, ts, now, e)
        <==> offered(c0, k, key, ts, now, e) && !covered(table, key, None, u64::MAX)) by {
        if c.contains_key(k) {
            assert(k < id);
            assert(after.index.covers_above(k, key) <==> f.index.covers_above(k, key) || covered(
                table,
                key,
                None,
                u64::MAX,
            ));
        }
    }
    assert forall|e: Entry| #[trigger] offered(d, id, key, ts, now, e) implies n == Some(e)
        && stays_in(table)(e) by {
        assert(s.contains(e));
        lemma_newest_is_top(table, key, ts, e);
    }
    if n is Some && stays_in(table)(n->0) {
        let e = n->0;
        assert(is_top(table, e)) by {
            assert forall|i: int| 0 <= i < table.len() && same_version(
                #[trigger] table[i],
                e,
            ) implies table[i].seq <= e.seq by {
                assert(is_version(table[i], key, ts, u64::MAX));
            }
        }
        assert(s.contains(e));
        assert(table.contains(e));
        assert(offered(d, id, key, ts, now, e));
        assert(highest_below(d, bound, key, ts, now, id)) by {
            assert forall|other: u32, g: Entry| #[trigger]
                offered(d, other, key, ts, now, g) && other < bound implies other <= id by {
                if other != id {
                    assert(c.contains_key(other));
                }
            }
        }
        assert(finds(d, key, ts, now, Some(e.unsequenced())));
        lemma_finds_one(d, key, ts, now, b, Some(e.unsequenced()));
    } else {
        assert forall|e: Entry| !#[trigger] offered(d, id, key, ts, now, e) by {}
        if covered(table, key, None, u64::MAX) {
            if b is Some {
                let (x, e) = choose|x: u32, e: Entry|
                    #[trigger] offered(d, x, key, ts, now, e) && x < bound && b->0
                        == e.unsequenced() && highest_below(d, bound, key, ts, now, x);
                assert(x != id);
            }
        } else {
            assert(!c0.contains_key(id)) by {
                if c.contains_key(id) {
                    assert(id <= f.manifest.max_id());
                }
            }
            lemma_same_offers(c0, d, key, ts, now, a);
            lemma_finds_one(d, key, ts, now, a, b);
        }
    }
}

/// What is found is the same where the same is offered.
pub proof fn lemma_same_offers(
    c: Map<u32, Seq<Entry>>,
    d: Map<u32, Seq<Entry>>,
    key: Seq<u8>,
    ts: i64,
    now: i64,
    a: Option<Entry>,
)
    requires
        forall|k: u32, e: Entry| #[trigger]
            offered(d, k, key, ts, now, e) <==> offered(c, k, key, ts, now, e),
        finds(c, key, ts, now, a),
    ensures
        finds(d, key, ts, now, a),
{
    let bound = u32::MAX + 1;
    if a is Some {
        let (x, e) = choose|x: u32, e: Entry|
            #[trigger] offered(c, x, key, ts, now, e) && x < bound && a->0 == e.unsequenced()
                && highest_below(c, bound, key, ts, now, x);
        assert(offered(d, x, key, ts, now, e));
        assert(highest_below(d, bound, key, ts, now, x)) by {
            assert forall|other: u32, g: Entry| #[trigger]
                offered(d, other, key, ts, now, g) && other < bound implies other <= x by {
                assert(offered(c, other, key, ts, now, g));
            }
        }
    } else {
        assert forall|k: u32, e: Entry| #[trigger] offered(d, k, key, ts, now, e) implies k
            >= bound by {
            assert(offered(c, k, key, ts, now, e));
        }
    }
}

/// What counts before a flush and after it gives the same record.
proof fn lemma_flushed_decides(
    f: EngineView,
    c: Map<u32, Seq<Entry>>,
    job: FlushJob,
    after: EngineView,
    config: Config,
    key: Seq<u8>,
    ts: i64,
    x: Option<Entry>,
    y: Option<Entry>,
    a: Option<Entry>,
    b: Option<Entry>,
)
    requires
        flushes_by(f, c, job, after, config),
        finds(bare(c, f.index, key), key, ts, f.now, a),
        finds(
            bare(
                c.insert(job.sst.info.id, flushed(f.mem.frozen.first())),
                after.index,
                key,
            ),
            key,
            ts,
            f.now,
            b,
        ),
        y is Some ==> x == y && after.mem.all().contains(y->0),
        y is None ==> x == live_newest(f.mem.frozen.first(), key, ts, f.now),
    ensures
        shown_of(f.mem.decide(key, u64::MAX, x, a)) == shown_of(
            after.mem.decide(key, u64::MAX, y, b),
        ),
{
    let table = f.mem.frozen.first();
    let o = after.mem;
    let n = live_newest(table, key, ts, f.now);
    lemma_flushed_finds(f, c, job, after, config, key, ts, a, b);
    lemma_newest(table, key, ts, u64::MAX);
    assert forall|from: Option<u64>| #[trigger] f.mem.covers(key, from, u64::MAX) <==> o.covers(
        key,
        from,
        u64::MAX,
    ) || covered(table, key, from, u64::MAX) by {
        lemma_flushed_covers(f.mem, o, key, from);
    }
    if y is Some {
        let e = y->0;
        assert(!covered(table, key, Some(e.seq), u64::MAX)) by {
            if covered(table, key, Some(e.seq), u64::MAX) {
                let k = choose|k: int|
                    0 <= k < table.len() && covers_at(
                        #[trigger] table[k],
                        key,
                        Some(e.seq),
                        u64::MAX,
                    );
                lemma_flushed_memory(f.mem, o, e);
                let i = choose|i: int|
                    0 <= i < f.mem.tables().len() && i != 1 && (
                    #[trigger] f.mem.tables()[i]).contains(e);
                assert(table.contains(table[k]));
            }
        }
        assert(f.mem.covers(key, Some(e.seq), u64::MAX) <==> o.covers(
            key,
            Some(e.seq),
            u64::MAX,
        ));
    } else {
        assert(f.mem.covers(key, None, u64::MAX) <==> o.covers(key, None, u64::MAX) || covered(
            table,
            key,
            None,
            u64::MAX,
        ));
        if n is Some {
            let e = n->0;
            assert(table.contains(e));
            assert(f.mem.covers(key, Some(e.seq), u64::MAX) <==> o.covers(
                key,
                Some(e.seq),
                u64::MAX,
            ) || covered(table, key, Some(e.seq), u64::MAX));
            if o.covers(key, None, u64::MAX) {
                lemma_covers_in(o, key, None, u64::MAX);
                let g = choose|g: Entry| #[trigger]
                    o.all().contains(g) && covers_at(g, key, None, u64::MAX);
                lemma_flushed_memory(f.mem, o, g);
                let i = choose|i: int|
                    0 <= i < f.mem.tables().len() && i != 1 && (
                    #[trigger] f.mem.tables()[i]).contains(g);
                assert(e.seq < g.seq);
                assert(covers_at(g, key, Some(e.seq), u64::MAX));
                lemma_covers_in(o, key, Some(e.seq), u64::MAX);
            } else {
                if o.covers(key, Some(e.seq), u64::MAX) {
                    lemma_covered_earlier(o, key, e.seq, e.seq);
                }
                if covered(table, key, Some(e.seq), u64::MAX) {
                    let k = choose|k: int|
                        0 <= k < table.len() && covers_at(
                            #[trigger] table[k],
                            key,
                            Some(e.seq),
                            u64::MAX,
                        );
                    assert(covers_at(table[k], key, None, u64::MAX));
                } else if e.op is DeleteRange {
                    let k = choose|k: int| 0 <= k < table.len() && table[k] == e;
                    assert(covers_at(table[k], key, None, u64::MAX));
                }
            }
        }
    }
}

/// Range deletions in memory before a flush: those there are after it, and those
/// of the flushed memtable.
proof fn lemma_flushed_covers(m: MemView, w: MemView, key: Seq<u8>, from: Option<u64>)
    requires
        m.frozen.len() > 0,
        m.flushing.len() == 0,
        w == m.starts_flush().completes_flush(),
    ensures
        m.covers(key, from, u64::MAX) <==> w.covers(key, from, u64::MAX) || covered(
            m.frozen.first(),
            key,
            from,
            u64::MAX,
        ),
{
    let table = m.frozen.first();
    lemma_covers_in(m, key, from, u64::MAX);
    lemma_covers_in(w, key, from, u64::MAX);
    if m.covers(key, from, u64::MAX) {
        let e = choose|e: Entry| #[trigger]
            m.all().contains(e) && covers_at(e, key, from, u64::MAX);
        lemma_flushed_memory(m, w, e);
        if table.contains(e) {
            let k = choose|k: int| 0 <= k < table.len() && table[k] == e;
            assert(covers_at(table[k], key, from, u64::MAX));
        }
    }
    if w.covers(key, from, u64::MAX) {
        let e = choose|e: Entry| #[trigger]
            w.all().contains(e) && covers_at(e, key, from, u64::MAX);
        lemma_flushed_memory(m, w, e);
    }
    if covered(table, key, from, u64::MAX) {
        let k = choose|k: int|
            0 <= k < table.len() && covers_at(#[trigger] table[k], key, from, u64::MAX);
        assert(table.contains(table[k]));
        lemma_flushed_memory(m, w, table[k]);
    }
}

/// What a point read finds in memory before a flush and after it.
proof fn lemma_flushed_best(f: EngineView, after: EngineView, key: Seq<u8>, ts: i64)
    requires
        flushes_plainly(f),
        after.mem == f.mem.starts_flush().completes_flush(),
    ensures
        ({
            let x = best_version(f.mem.tables(), key, ts, f.now, u64::MAX);
            let y = best_version(after.mem.tables(), key, ts, f.now, u64::MAX);
            &&& y is Some ==> x == y && after.mem.all().contains(y->0)
            &&& y is None ==> x == live_newest(f.mem.frozen.first(), key, ts, f.now)
        }),
{
    let t0 = f.mem.tables();
    let t1 = after.mem.tables();
    let table = f.mem.frozen.first();
    assert(after.mem.frozen =~= f.mem.frozen.drop_first());
    assert(after.mem.flushing =~= Seq::<Seq<Entry>>::empty());
    assert(t0[1] == table);
    lemma_newest(table, key, ts, u64::MAX);
    assert forall|i: int|
        0 <= i < t0.len() && i != 1 && newest(#[trigger] t0[i], key, ts, u64::MAX) is Some
            && newest(t0[1], key, ts, u64::MAX) is Some implies newest(
        t0[1],
        key,
        ts,
        u64::MAX,
    )->0.seq < newest(t0[i], key, ts, u64::MAX)->0.seq by {
        lemma_newest(t0[i], key, ts, u64::MAX);
        assert(table.contains(newest(table, key, ts, u64::MAX)->0));
        assert(t0[i].contains(newest(t0[i], key, ts, u64::MAX)->0));
    }
    lemma_leave_out(t0, t1, t1.len() as int, key, ts, f.now);
    assert(t0.subrange(0, t0.len() as int) =~= t0);
    assert(t1.subrange(0, t1.len() as int) =~= t1);
    let n = live_newest(table, key, ts, f.now);
    if n is Some {
        assert(table.contains(n->0));
    }
    let y = best_version(t1, key, ts, f.now, u64::MAX);
    if y is Some {
        lemma_best_version(t1, key, ts, f.now, u64::MAX);
        let k = choose|k: int| #[trigger]
            offers(t1, k, key, ts, f.now, u64::MAX) && newest(t1[k], key, ts, u64::MAX) == y;
        lemma_newest(t1[k], key, ts, u64::MAX);
        lemma_flatten_contains(t1, y->0);
    }
}

/// What a scan finds in memory before a flush and after it.
proof fn lemma_flushed_scan_memory(
    f: EngineView,
    after: EngineView,
    range: ScanRangeView,
    key: Seq<u8>,
    ts: i64,
)
    requires
        flushes_plainly(f),
        one_per_number(f.mem),
        after.mem == f.mem.starts_flush().completes_flush(),
        after.now == f.now,
        range.admits(key, ts),
    ensures
        ({
            let x = scan_memory(f, range, key, ts);
            let y = scan_memory(after, range, key, ts);
            &&& y is Some ==> x == y && after.mem.all().contains(y->0)
            &&& y is None ==> x == live_newest(f.mem.frozen.first(), key, ts, f.now)
        }),
{
    let table = f.mem.frozen.first();
    let x = scan_memory(f, range, key, ts);
    let y = scan_memory(after, range, key, ts);
    let n = live_newest(table, key, ts, f.now);
    lemma_scan_memory(f, range, key, ts);
    lemma_scan_memory(after, range, key, ts);
    lemma_newest(table, key, ts, u64::MAX);
    assert forall|e: Entry| #[trigger] is_live_in(f, key, ts, e) <==> is_live_in(after, key, ts, e)
        || (table.contains(e) && e.key == key && e.ts == ts && live_at(e.expire_at, f.now)) by {
        lemma_flushed_memory(f.mem, after.mem, e);
    }
    if y is Some {
        let e = y->0;
        assert(is_live_in(after, key, ts, e));
        assert(is_live_in(f, key, ts, e));
        let d = x->0;
        assert(is_live_in(f, key, ts, d));
        lemma_flushed_memory(f.mem, after.mem, e);
        let i = choose|i: int|
            0 <= i < f.mem.tables().len() && i != 1 && (#[trigger] f.mem.tables()[i]).contains(e);
        if table.contains(d) {
            assert(d.seq < e.seq);
        }
        assert(is_live_in(after, key, ts, d));
        assert(f.mem.all().contains(d) && f.mem.all().contains(e));
    } else if n is Some {
        let e = n->0;
        assert(is_live_in(f, key, ts, e));
        let d = x->0;
        assert(is_live_in(f, key, ts, d));
        assert(!is_live_in(after, key, ts, d));
        let k = choose|k: int| 0 <= k < table.len() && table[k] == d;
        assert(is_version(table[k], key, ts, u64::MAX));
        assert(f.mem.all().contains(d) && f.mem.all().contains(e));
    } else if x is Some {
        let d = x->0;
        assert(is_live_in(f, key, ts, d));
        if table.contains(d) {
            let k = choose|k: int| 0 <= k < table.len() && table[k] == d;
            assert(is_version(table[k], key, ts, u64::MAX));
        }
    }
}

/// A flush, of range deletions too, changes no read: point reads and scans give
/// what they gave while the records were in memory, whatever of it has expired,
/// as long as no expired version stands over a live one.
pub proof fn law_flush_keeps_reads_in_step(
    f: EngineView,
    c: Map<u32, Seq<Entry>>,
    job: FlushJob,
    after: EngineView,
    config: Config,
)
    requires
        f.in_step(),
        flushes_by(f, c, job, after, config),
    ensures
        after.in_step(),
        ssts_hold(after, c.insert(job.sst.info.id, flushed(f.mem.frozen.first()))),
        forall|key: Seq<u8>, ts: i64| #[trigger] after.point(key, ts) == f.point(key, ts),
        forall|range: ScanRangeView, r: RecordView| #[trigger]
            after.range_scan(range).records().contains(r) <==> f.range_scan(
                range,
            ).records().contains(r),
{
    let d = c.insert(job.sst.info.id, flushed(f.mem.frozen.first()));
    law_flush_keeps_ssts(f, c, job, after, config);
    assert forall|key: Seq<u8>, ts: i64| #[trigger] after.point(key, ts) == f.point(key, ts) by {
        lemma_point_finds(f, c, key, ts);
        lemma_point_finds(after, d, key, ts);
        lemma_flushed_best(f, after, key, ts);
        lemma_flushed_decides(
            f,
            c,
            job,
            after,
            config,
            key,
            ts,
            best_version(f.mem.tables(), key, ts, f.now, u64::MAX),
            best_version(after.mem.tables(), key, ts, f.now, u64::MAX),
            f.stored_version(key, ts),
            after.stored_version(key, ts),
        );
    }
    assert forall|range: ScanRangeView, r: RecordView| #[trigger]
        after.range_scan(range).records().contains(r) <==> f.range_scan(range).records().contains(
            r,
        ) by {
        lemma_range_scan_shows(f, range, r);
        lemma_range_scan_shows(after, range, r);
        if range.admits(r.key, r.ts) {
            law_scan_filter_is_complete(range, r.key, r.ts);
            lemma_scan_finds(f, c, range.filter(), range.times(), r.key, r.ts);
            lemma_scan_finds(after, d, range.filter(), range.times(), r.key, r.ts);
            lemma_flushed_scan_memory(f, after, range, r.key, r.ts);
            lemma_flushed_decides(
                f,
                c,
                job,
                after,
                config,
                r.key,
                r.ts,
                scan_memory(f, range, r.key, r.ts),
                scan_memory(after, range, r.key, r.ts),
                scan_stored(f, range, r.key, r.ts),
                scan_stored(after, range, r.key, r.ts),
            );
        }
    }
    assert(after.in_step()) by {
        lemma_flushed_numbers(f, after);
        assert forall|range: ScanRangeView| #[trigger] after.scan_agrees(range) by {
            assert(f.scan_agrees(range));
            assert forall|r: RecordView| #[trigger]
                after.range_scan(range).records().contains(r) <==> range.admits(r.key, r.ts)
                    && after.point(r.key, r.ts) == Some(r) by {
                assert(after.point(r.key, r.ts) == f.point(r.key, r.ts));
                assert(after.range_scan(range).records().contains(r) <==> f.range_scan(
                    range,
                ).records().contains(r));
            }
        }
    }
}

/// Numbers still tell entries apart after a flush.
proof fn lemma_flushed_numbers(f: EngineView, after: EngineView)
    requires
        f.seqs_below(),
        one_per_number(f.mem),
        f.mem.frozen.len() > 0,
        f.mem.flushing.len() == 0,
        after.mem == f.mem.starts_flush().completes_flush(),
        after.next_seq == f.next_seq,
    ensures
        after.seqs_below(),
        one_per_number(after.mem),
{
    let t0 = f.mem.tables();
    let t1 = after.mem.tables();
    assert(after.mem.frozen =~= f.mem.frozen.drop_first());
    assert(after.mem.flushing =~= Seq::<Seq<Entry>>::empty());
    assert forall|i: int, j: int| 0 <= i < t1.len() && 0 <= j < t1[i].len() implies (
    #[trigger] t1[i][j]).seq < after.next_seq by {
        let k = if i == 0 {
            0
        } else {
            i + 1
        };
        assert(t1[i] == t0[k]);
        assert(t0[k][j].seq < f.next_seq);
    }
    assert forall|d: Entry, e: Entry|
        #![trigger after.mem.all().contains(d), after.mem.all().contains(e)]
        after.mem.all().contains(d) && after.mem.all().contains(e) && same_version(d, e) && d.seq
            == e.seq implies d == e by {
        lemma_flushed_memory(f.mem, after.mem, d);
        lemma_flushed_memory(f.mem, after.mem, e);
    }
}

/// A memtable that was flushed, after what was active had been frozen, leaves every
/// read as it was.
pub proof fn law_flushed_memtable_is_still_read(
    v: EngineView,
    f: EngineView,
    c: Map<u32, Seq<Entry>>,
    job: FlushJob,
    after: EngineView,
    config: Config,
)
    requires
        v.in_step(),
        ssts_hold(v, c),
        forall|k: u32| #[trigger] c.contains_key(k) ==> k <= v.manifest.max_id(),
        flush_by(v, f, job, after, config),
        flushes_plainly(f),
        can_be_stored(flushed(f.mem.frozen.first()), block_capacity(config.block_size)),
    ensures
        after.in_step(),
        forall|key: Seq<u8>, ts: i64| #[trigger] after.point(key, ts) == v.point(key, ts),
        forall|range: ScanRangeView, r: RecordView| #[trigger]
            after.range_scan(range).records().contains(r) <==> v.range_scan(
                range,
            ).records().contains(r),
{
    if v.mem.active.len() > 0 {
        lemma_freeze_seqs_below(v, f);
        law_freeze_keeps_reads_in_step(v, f);
    }
    lemma_same_ssts(v, f, c);
    law_flush_keeps_reads_in_step(f, c, job, after, config);
}

} // verus!
