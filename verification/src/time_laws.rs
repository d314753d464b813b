//! What was written is read back until it expires, and no longer.

use vstd::prelude::*;

use crate::block_meta_index::MetaView;
use crate::compaction_laws::lemma_same_ssts;
use crate::engine::{block_hit, first_hit, EngineView};
use crate::memtable::{lemma_newest, newest};
use crate::memtables::{best_version, lemma_best_version, lemma_flatten_contains, offers};
use crate::order::strictly_sorted;
use crate::read_laws::{
    is_live_in, is_newest_in, law_live_on_top_is_in_step, lemma_one_newest, lemma_scan_memory,
    one_per_number,
};
use crate::record::{law_scan_filter_is_complete, live_at, Entry, RecordView, ScanRangeView};
use crate::scan::{block_run, readable};
use crate::sst_laws::{
    bare, finds, highest_below, holds_sst, lemma_finds_one, lemma_point_finds, lemma_scan_finds,
    offered, ssts_hold,
};
use crate::sstable::SstReader;
use crate::winners::{
    block_winner, lemma_block_run, lemma_block_winner_rank, lemma_first_for, lemma_range_scan_shows,
    scan_memory, scan_stored,
};

verus! {

/// What counts in memory still counts at a later time at which it has not
/// expired, and nothing new comes to count where nothing did.
proof fn lemma_best_later(
    tables: Seq<Seq<Entry>>,
    key: Seq<u8>,
    ts: i64,
    now: i64,
    later: i64,
    max_seq: u64,
)
    requires
        now <= later,
    ensures
        ({
            let a = best_version(tables, key, ts, now, max_seq);
            let b = best_version(tables, key, ts, later, max_seq);
            &&& a is None ==> b is None
            &&& a is Some && live_at(a->0.expire_at, later) ==> b == a
            &&& b is Some ==> b->0.seq <= a->0.seq
        }),
    decreases tables.len(),
{
    if tables.len() > 0 {
        lemma_best_later(tables.drop_last(), key, ts, now, later, max_seq);
    }
}

/// What is found in the SSTs is still found at a later time at which it has not
/// expired, and nothing new is found where nothing was.
proof fn lemma_finds_later(
    c: Map<u32, Seq<Entry>>,
    key: Seq<u8>,
    ts: i64,
    now: i64,
    later: i64,
    a: Option<Entry>,
    b: Option<Entry>,
)
    requires
        forall|id: u32| #[trigger] c.contains_key(id) ==> strictly_sorted(c[id]),
        now <= later,
        finds(c, key, ts, now, a),
        finds(c, key, ts, later, b),
    ensures
        a is None ==> b is None,
        a is Some && live_at(a->0.expire_at, later) ==> b == a,
{
    let bound = u32::MAX + 1;
    assert forall|id: u32, e: Entry| #[trigger] offered(c, id, key, ts, later, e) implies offered(
        c,
        id,
        key,
        ts,
        now,
        e,
    ) by {}
    if a is Some {
        if live_at(a->0.expire_at, later) {
            let (x, e) = choose|x: u32, e: Entry|
                #[trigger] offered(c, x, key, ts, now, e) && x < bound && a->0 == e.unsequenced()
                    && highest_below(c, bound, key, ts, now, x);
            assert(offered(c, x, key, ts, later, e));
            assert(highest_below(c, bound, key, ts, later, x)) by {
                assert forall|other: u32, f: Entry| #[trigger]
                    offered(c, other, key, ts, later, f) && other < bound implies other <= x by {
                    assert(offered(c, other, key, ts, now, f));
                }
            }
            assert(finds(c, key, ts, later, a));
            lemma_finds_one(c, key, ts, later, a, b);
        }
    } else if b is Some {
        let (x, e) = choose|x: u32, e: Entry|
            #[trigger] offered(c, x, key, ts, later, e) && x < bound && b->0 == e.unsequenced()
                && highest_below(c, bound, key, ts, later, x);
        assert(offered(c, x, key, ts, now, e));
    }
}

/// What a scan finds in memory is still found at a later time at which it has
/// not expired, and nothing new is found where nothing was.
proof fn lemma_scan_memory_later(
    v: EngineView,
    later: i64,
    range: ScanRangeView,
    key: Seq<u8>,
    ts: i64,
)
    requires
        one_per_number(v.mem),
        v.now <= later,
        range.admits(key, ts),
    ensures
        ({
            let a = scan_memory(v, range, key, ts);
            let b = scan_memory(EngineView { now: later, ..v }, range, key, ts);
            &&& a is None ==> b is None
            &&& a is Some && live_at(a->0.expire_at, later) ==> b == a
        }),
{
    let w = EngineView { now: later, ..v };
    lemma_scan_memory(v, range, key, ts);
    lemma_scan_memory(w, range, key, ts);
    let a = scan_memory(v, range, key, ts);
    let b = scan_memory(w, range, key, ts);
    assert forall|e: Entry| #[trigger] is_live_in(w, key, ts, e) implies is_live_in(v, key, ts, e) by {}
    if b is Some {
        assert(is_live_in(w, key, ts, b->0));
        assert(is_live_in(v, key, ts, b->0));
    }
    if a is Some && live_at(a->0.expire_at, later) {
        assert(is_live_in(v, key, ts, a->0));
        assert(is_live_in(w, key, ts, a->0));
        assert(is_newest_in(w, key, ts, a->0)) by {
            assert forall|f: Entry| #[trigger] is_live_in(w, key, ts, f) implies f.seq
                <= a->0.seq by {
                assert(is_live_in(v, key, ts, f));
            }
        }
        lemma_one_newest(w, key, ts, a->0, b->0);
    }
}

/// What a point read gives it gives at every later time until it expires,
/// whatever else has expired by then.
pub proof fn law_what_is_live_is_read_later(
    v: EngineView,
    c: Map<u32, Seq<Entry>>,
    later: i64,
    key: Seq<u8>,
    ts: i64,
    r: RecordView,
)
    requires
        ssts_hold(v, c),
        v.now <= later,
        v.point(key, ts) == Some(r),
        live_at(r.expire_at, later),
    ensures
        (EngineView { now: later, ..v }).point(key, ts) == Some(r),
{
    lemma_point_later(v, c, later, key, ts);
}

/// A version that counts for a point read still counts while it is live.
proof fn lemma_point_later(
    v: EngineView,
    c: Map<u32, Seq<Entry>>,
    later: i64,
    key: Seq<u8>,
    ts: i64,
)
    requires
        ssts_hold(v, c),
        v.now <= later,
    ensures
        ({
            let w = EngineView { now: later, ..v };
            let a = v.version(key, ts, u64::MAX);
            let b = w.version(key, ts, u64::MAX);
            a is Some && live_at(a->0.expire_at, later) ==> b == a
        }),
{
    let w = EngineView { now: later, ..v };
    let d = bare(c, v.index, key);
    lemma_same_ssts(v, w, c);
    assert forall|k: u32| #[trigger] d.contains_key(k) implies strictly_sorted(d[k]) by {
        assert(c.contains_key(k));
        assert(holds_sst(v, k, c[k]));
    }
    lemma_best_later(v.mem.tables(), key, ts, v.now, later, u64::MAX);
    lemma_point_finds(v, c, key, ts);
    lemma_point_finds(w, c, key, ts);
    lemma_finds_later(
        d,
        key,
        ts,
        v.now,
        later,
        v.stored_version(key, ts),
        w.stored_version(key, ts),
    );
}

/// What a scan shows it shows at every later time until it expires, whatever
/// else has expired by then.
pub proof fn law_what_is_live_is_scanned_later(
    v: EngineView,
    c: Map<u32, Seq<Entry>>,
    later: i64,
    range: ScanRangeView,
    r: RecordView,
)
    requires
        ssts_hold(v, c),
        one_per_number(v.mem),
        v.now <= later,
        v.range_scan(range).records().contains(r),
        live_at(r.expire_at, later),
    ensures
        (EngineView { now: later, ..v }).range_scan(range).records().contains(r),
{
    let w = EngineView { now: later, ..v };
    lemma_range_scan_shows(v, range, r);
    lemma_range_scan_shows(w, range, r);
    lemma_scan_later(v, c, later, range, r.key, r.ts);
}

/// What a scan finds in memory and in the SSTs, at a later time.
proof fn lemma_scan_later(
    v: EngineView,
    c: Map<u32, Seq<Entry>>,
    later: i64,
    range: ScanRangeView,
    key: Seq<u8>,
    ts: i64,
)
    requires
        ssts_hold(v, c),
        one_per_number(v.mem),
        v.now <= later,
        range.admits(key, ts),
    ensures
        ({
            let w = EngineView { now: later, ..v };
            let a = scan_memory(v, range, key, ts);
            let b = scan_memory(w, range, key, ts);
            let x = scan_stored(v, range, key, ts);
            let y = scan_stored(w, range, key, ts);
            &&& a is None ==> b is None
            &&& a is Some && live_at(a->0.expire_at, later) ==> b == a
            &&& x is None ==> y is None
            &&& x is Some && live_at(x->0.expire_at, later) ==> y == x
        }),
{
    let w = EngineView { now: later, ..v };
    let d = bare(c, v.index, key);
    lemma_same_ssts(v, w, c);
    law_scan_filter_is_complete(range, key, ts);
    assert forall|k: u32| #[trigger] d.contains_key(k) implies strictly_sorted(d[k]) by {
        assert(c.contains_key(k));
        assert(holds_sst(v, k, c[k]));
    }
    lemma_scan_memory_later(v, later, range, key, ts);
    lemma_scan_finds(v, c, range.filter(), range.times(), key, ts);
    lemma_scan_finds(w, c, range.filter(), range.times(), key, ts);
    lemma_finds_later(
        d,
        key,
        ts,
        v.now,
        later,
        scan_stored(v, range, key, ts),
        scan_stored(w, range, key, ts),
    );
}

/// No version of `(key, ts)` in memory or in the SSTs expires by `later`.
pub open spec fn lasts(
    v: EngineView,
    c: Map<u32, Seq<Entry>>,
    key: Seq<u8>,
    ts: i64,
    later: i64,
) -> bool {
    &&& forall|e: Entry| #[trigger]
        v.mem.all().contains(e) && e.key == key && e.ts == ts && live_at(e.expire_at, v.now)
            ==> live_at(e.expire_at, later)
    &&& forall|id: u32, e: Entry|
        c.contains_key(id) && #[trigger] c[id].contains(e) && e.key == key && e.ts == ts
            && live_at(e.expire_at, v.now) ==> live_at(e.expire_at, later)
}

/// What is found of entries that last is live later.
proof fn lemma_found_lasts(
    v: EngineView,
    c: Map<u32, Seq<Entry>>,
    key: Seq<u8>,
    ts: i64,
    later: i64,
    a: Option<Entry>,
)
    requires
        lasts(v, c, key, ts, later),
        finds(bare(c, v.index, key), key, ts, v.now, a),
    ensures
        a is Some ==> live_at(a->0.expire_at, later),
{
    let d = bare(c, v.index, key);
    let bound = u32::MAX + 1;
    if a is Some {
        let (x, e) = choose|x: u32, e: Entry|
            #[trigger] offered(d, x, key, ts, v.now, e) && x < bound && a->0 == e.unsequenced()
                && highest_below(d, bound, key, ts, v.now, x);
        assert(c[x].contains(e));
    }
}

/// Time changes no read of a `(key, ts)` none of whose versions expires
/// meanwhile, whatever expires of others.
pub proof fn law_time_changes_no_read_of_what_lasts(
    v: EngineView,
    c: Map<u32, Seq<Entry>>,
    later: i64,
    key: Seq<u8>,
    ts: i64,
)
    requires
        ssts_hold(v, c),
        one_per_number(v.mem),
        v.now <= later,
        lasts(v, c, key, ts, later),
    ensures
        ({
            let w = EngineView { now: later, ..v };
            &&& w.point(key, ts) == v.point(key, ts)
            &&& forall|range: ScanRangeView, r: RecordView|
                r.key == key && r.ts == ts ==> (#[trigger] w.range_scan(range).records().contains(r)
                    <==> v.range_scan(range).records().contains(r))
        }),
{
    let w = EngineView { now: later, ..v };
    let t = v.mem.tables();
    let a = best_version(t, key, ts, v.now, u64::MAX);
    lemma_same_ssts(v, w, c);
    lemma_best_later(t, key, ts, v.now, later, u64::MAX);
    if a is Some {
        lemma_best_is_live(v, key, ts);
    }
    lemma_point_finds(v, c, key, ts);
    lemma_point_finds(w, c, key, ts);
    lemma_found_lasts(v, c, key, ts, later, v.stored_version(key, ts));
    let d = bare(c, v.index, key);
    assert forall|k: u32| #[trigger] d.contains_key(k) implies strictly_sorted(d[k]) by {
        assert(c.contains_key(k));
        assert(holds_sst(v, k, c[k]));
    }
    lemma_finds_later(
        d,
        key,
        ts,
        v.now,
        later,
        v.stored_version(key, ts),
        w.stored_version(key, ts),
    );
    assert forall|range: ScanRangeView, r: RecordView|
        r.key == key && r.ts == ts implies (#[trigger] w.range_scan(range).records().contains(r)
        <==> v.range_scan(range).records().contains(r)) by {
        lemma_range_scan_shows(v, range, r);
        lemma_range_scan_shows(w, range, r);
        if range.admits(key, ts) {
            law_scan_filter_is_complete(range, key, ts);
            lemma_scan_later(v, c, later, range, key, ts);
            lemma_scan_memory(v, range, key, ts);
            if scan_memory(v, range, key, ts) is Some {
                assert(is_live_in(v, key, ts, scan_memory(v, range, key, ts)->0));
            }
            lemma_scan_finds(v, c, range.filter(), range.times(), key, ts);
            lemma_found_lasts(v, c, key, ts, later, scan_stored(v, range, key, ts));
        }
    }
}

/// What counts in memory is a live version there.
proof fn lemma_best_is_live(v: EngineView, key: Seq<u8>, ts: i64)
    requires
        best_version(v.mem.tables(), key, ts, v.now, u64::MAX) is Some,
    ensures
        is_live_in(v, key, ts, best_version(v.mem.tables(), key, ts, v.now, u64::MAX)->0),
{
    let t = v.mem.tables();
    let b = best_version(t, key, ts, v.now, u64::MAX);
    lemma_best_version(t, key, ts, v.now, u64::MAX);
    let i = choose|i: int| #[trigger]
        offers(t, i, key, ts, v.now, u64::MAX) && newest(t[i], key, ts, u64::MAX) == b;
    lemma_newest(t[i], key, ts, u64::MAX);
    lemma_flatten_contains(t, b->0);
    assert(t[i].contains(b->0));
}

/// Scans and point reads stay in step over time as long as no expired version
/// comes to stand over a live one in a memtable.
pub proof fn law_time_keeps_reads_in_step(v: EngineView, c: Map<u32, Seq<Entry>>, later: i64)
    requires
        v.in_step(),
        ssts_hold(v, c),
        v.mem.live_on_top(later),
    ensures
        (EngineView { now: later, ..v }).in_step(),
        ssts_hold(EngineView { now: later, ..v }, c),
{
    let w = EngineView { now: later, ..v };
    lemma_same_ssts(v, w, c);
    law_live_on_top_is_in_step(w, c);
}

/// No point read gives what has expired.
pub proof fn law_no_expired_record_is_read(v: EngineView, key: Seq<u8>, ts: i64, r: RecordView)
    requires
        v.point(key, ts) == Some(r),
    ensures
        live_at(r.expire_at, v.now),
{
    if best_version(v.mem.tables(), key, ts, v.now, u64::MAX) is Some {
        lemma_best_is_live(v, key, ts);
    } else {
        lemma_hit_is_live(
            v.index.point_candidates(key, v.now).filter(v.index.bares(key)),
            v.readers,
            key,
            ts,
            v.now,
        );
    }
}

proof fn lemma_hit_is_live(
    blocks: Seq<MetaView>,
    readers: Map<u32, SstReader>,
    key: Seq<u8>,
    ts: i64,
    now: i64,
)
    ensures
        block_hit(blocks, readers, key, ts, now) is Some ==> live_at(
            block_hit(blocks, readers, key, ts, now)->0.expire_at,
            now,
        ),
    decreases blocks.len(),
{
    if blocks.len() > 0 {
        lemma_first_hit_is_live(readable(readers, blocks.first()), key, ts, now);
        lemma_hit_is_live(blocks.drop_first(), readers, key, ts, now);
    }
}

proof fn lemma_first_hit_is_live(s: Seq<Entry>, key: Seq<u8>, ts: i64, now: i64)
    ensures
        first_hit(s, key, ts, now) is Some ==> live_at(
            first_hit(s, key, ts, now)->0.expire_at,
            now,
        ),
    decreases s.len(),
{
    if s.len() > 0 {
        lemma_first_hit_is_live(s.drop_first(), key, ts, now);
    }
}

/// No scan shows what has expired.
pub proof fn law_no_expired_record_is_scanned(v: EngineView, range: ScanRangeView, r: RecordView)
    requires
        v.range_scan(range).records().contains(r),
    ensures
        live_at(r.expire_at, v.now),
{
    lemma_range_scan_shows(v, range, r);
    let key = r.key;
    let ts = r.ts;
    let filter = range.filter();
    let times = range.times();
    if scan_memory(v, range, key, ts) is Some {
        lemma_scan_memory(v, range, key, ts);
        assert(is_live_in(v, key, ts, scan_memory(v, range, key, ts)->0));
    } else {
        let blocks = v.index.candidates(filter, times, v.now).filter(v.index.bares(key));
        let i = lemma_block_winner_rank(blocks, v.readers, filter, times, v.now, key, ts);
        let won = block_winner(blocks, v.readers, filter, times, v.now, key, ts)->0;
        let e = won.1;
        let run = block_run(v.readers, blocks[i], filter, times, v.now).rest;
        let p = lemma_first_for(run, key, ts);
        assert(run.contains(e));
        lemma_block_run(v.readers, blocks[i], filter, times, v.now, e);
    }
}

} // verus!
