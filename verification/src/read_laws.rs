//! Scans and point reads agree.

use vstd::prelude::*;

use crate::block_meta_index::{IndexView, MetaView};
use crate::compaction_laws::lemma_same_ssts;
use crate::engine::{block_hit, first_hit, sequenced, EngineView};
use crate::engine_laws::{
    deletes_last, ends_with, last_for, law_batch_decides_point_reads, lemma_deleted_last,
    lemma_last_for, lemma_memory_seqs, lemma_not_covered, lemma_not_deleted_after,
    lemma_not_deleted_at_all, lemma_nothing_later, lemma_same_decision, lemma_written_covers,
    lemma_written_in_memory, lemma_written_seqs_below,
};
use crate::memtable::{is_version, lemma_newest, newest, passes, selected};
use crate::memtables::{
    best_version, law_flush_start_keeps_point_reads, law_freeze_keeps_point_reads,
    lemma_best_version, lemma_flatten_contains, lemma_flush_start_keeps_entries,
    lemma_freeze_keeps_entries, offers, ties_agree, MemView,
};
use crate::order::{
    lemma_filter_contains, lemma_sort_contains, lemma_stable_sort_exists, same_version,
    stable_sorted, strictly_sorted,
};
use crate::ranges::{covered, covers, covers_at};
use crate::record::{law_scan_filter_is_complete, live_at, Entry, RecordView, ScanRangeView};
use crate::scan::readable;
use crate::scan_laws::lemma_scan_has_result;
use crate::sst_laws::{
    bare, holds_sst, lemma_finds_one, lemma_point_finds, lemma_scan_finds, ssts_hold,
};
use crate::sstable::SstReader;
use crate::winners::{
    lemma_first_of_sorted, lemma_range_scan_shows, scan_memory, scan_stored, scan_version,
};

verus! {

/// Among the entries in memory, key, time and number tell an entry.
pub open spec fn one_per_number(mem: MemView) -> bool {
    forall|e: Entry, f: Entry|
        #![trigger mem.all().contains(e), mem.all().contains(f)]
        mem.all().contains(e) && mem.all().contains(f) && same_version(e, f) && e.seq == f.seq
            ==> e == f
}

impl EngineView {
    /// A scan of a range shows exactly what point reads give in that range.
    pub open spec fn scan_agrees(self, range: ScanRangeView) -> bool {
        forall|r: RecordView| #[trigger]
            self.range_scan(range).records().contains(r) <==> range.admits(r.key, r.ts)
                && self.point(r.key, r.ts) == Some(r)
    }

    /// Scans and point reads agree.
    pub open spec fn in_step(self) -> bool {
        &&& self.seqs_below()
        &&& one_per_number(self.mem)
        &&& forall|range: ScanRangeView| #[trigger] self.scan_agrees(range)
    }
}

/// Among the entries no expired version stands over a live one of the same
/// `(key, ts)`.
pub open spec fn live_on_top(s: Seq<Entry>, now: i64) -> bool {
    forall|e: Entry, g: Entry|
        #![trigger s.contains(e), s.contains(g)]
        s.contains(e) && s.contains(g) && same_version(e, g) && e.seq <= g.seq && live_at(
            e.expire_at,
            now,
        ) ==> live_at(g.expire_at, now)
}

impl MemView {
    /// In no memtable does an expired version stand over a live one.
    pub open spec fn live_on_top(self, now: i64) -> bool {
        forall|i: int|
            0 <= i < self.tables().len() ==> live_on_top(#[trigger] self.tables()[i], now)
    }
}

/// The last entry of a batch for each `(key, ts)` has not expired.
pub open spec fn simple_batch(es: Seq<Entry>, now: i64) -> bool {
    forall|i: int|
        0 <= i < es.len() && ends_with(es, i, es[i].key, es[i].ts) ==> live_at(
            (#[trigger] es[i]).expire_at,
            now,
        )
}

/// What a scan finds in memory of `(key, ts)`: nothing where there is none, else
/// one of the highest number.
pub proof fn lemma_scan_memory(v: EngineView, range: ScanRangeView, key: Seq<u8>, ts: i64)
    requires
        range.admits(key, ts),
    ensures
        match scan_memory(v, range, key, ts) {
            Some(e) => is_newest_in(v, key, ts, e),
            None => forall|e: Entry| !#[trigger] is_live_in(v, key, ts, e),
        },
{
    let p = |x: Entry| passes(x, range.filter(), range.times(), v.now);
    let sel = selected(v.mem.all(), range.filter(), range.times(), v.now);
    law_scan_filter_is_complete(range, key, ts);
    lemma_first_of_sorted(sel, key, ts);
    assert forall|e: Entry| #[trigger] is_live_in(v, key, ts, e) <==> sel.contains(e) && e.key
        == key && e.ts == ts by {
        lemma_filter_contains(v.mem.all(), p, e);
    }
    match scan_memory(v, range, key, ts) {
        Some(e) => {
            assert(is_live_in(v, key, ts, e));
            assert forall|f: Entry| #[trigger] is_live_in(v, key, ts, f) implies f.seq <= e.seq by {
                assert(sel.contains(f) && same_version(f, e));
            }
        },
        None => {},
    }
}

/// `e` is a live version of `(key, ts)` in memory.
pub open spec fn is_live_in(v: EngineView, key: Seq<u8>, ts: i64, e: Entry) -> bool {
    v.mem.all().contains(e) && e.key == key && e.ts == ts && live_at(e.expire_at, v.now)
}

/// `e` is a live version of `(key, ts)` in memory, of the highest number.
pub open spec fn is_newest_in(v: EngineView, key: Seq<u8>, ts: i64, e: Entry) -> bool {
    is_live_in(v, key, ts, e) && forall|f: Entry| #[trigger]
        is_live_in(v, key, ts, f) ==> f.seq <= e.seq
}

/// Numbers tell the newest version in memory.
pub proof fn lemma_one_newest(v: EngineView, key: Seq<u8>, ts: i64, e: Entry, f: Entry)
    requires
        one_per_number(v.mem),
        is_newest_in(v, key, ts, e),
        is_newest_in(v, key, ts, f),
    ensures
        e == f,
{
    assert(is_live_in(v, key, ts, e) && is_live_in(v, key, ts, f));
    assert(v.mem.all().contains(e) && v.mem.all().contains(f));
}

/// A range deletion in memory is one of its entries.
pub proof fn lemma_covers_in(mem: MemView, key: Seq<u8>, after: Option<u64>, max_seq: u64)
    ensures
        mem.covers(key, after, max_seq) <==> exists|e: Entry| #[trigger]
            mem.all().contains(e) && covers_at(e, key, after, max_seq),
{
    let t = mem.tables();
    if mem.covers(key, after, max_seq) {
        let i = choose|i: int| 0 <= i < t.len() && covered(#[trigger] t[i], key, after, max_seq);
        let j = choose|j: int|
            0 <= j < t[i].len() && covers_at(#[trigger] t[i][j], key, after, max_seq);
        lemma_flatten_contains(t, t[i][j]);
        assert(t[i].contains(t[i][j]));
        assert(mem.all().contains(t[i][j]));
    }
    if exists|e: Entry| #[trigger] mem.all().contains(e) && covers_at(e, key, after, max_seq) {
        let e = choose|e: Entry| #[trigger]
            mem.all().contains(e) && covers_at(e, key, after, max_seq);
        lemma_flatten_contains(t, e);
        let i = choose|i: int| 0 <= i < t.len() && (#[trigger] t[i]).contains(e);
        let j = choose|j: int| 0 <= j < t[i].len() && t[i][j] == e;
        assert(covers_at(t[i][j], key, after, max_seq));
        assert(covered(t[i], key, after, max_seq));
    }
}

/// Scans find the same where memory holds the same and the SSTs are the same.
pub proof fn lemma_same_scan_version(v: EngineView, w: EngineView, range: ScanRangeView, key: Seq<u8>, ts: i64)
    requires
        one_per_number(v.mem),
        w.index == v.index,
        w.readers == v.readers,
        w.now == v.now,
        range.admits(key, ts),
        forall|e: Entry| e.key == key && e.ts == ts ==> (#[trigger] w.mem.all().contains(e)
            <==> v.mem.all().contains(e)),
        forall|after: Option<u64>| #[trigger]
            w.mem.covers(key, after, u64::MAX) == v.mem.covers(key, after, u64::MAX),
    ensures
        scan_version(w, range, key, ts) == scan_version(v, range, key, ts),
{
    lemma_scan_memory(v, range, key, ts);
    lemma_scan_memory(w, range, key, ts);
    let a = scan_memory(v, range, key, ts);
    let b = scan_memory(w, range, key, ts);
    assert forall|e: Entry| #[trigger] is_live_in(v, key, ts, e) <==> is_live_in(w, key, ts, e) by {
        if e.key == key && e.ts == ts {
            assert(w.mem.all().contains(e) <==> v.mem.all().contains(e));
        }
    }
    if a is Some {
        assert(is_live_in(w, key, ts, a->0));
        assert(b is Some);
        assert(is_newest_in(v, key, ts, b->0)) by {
            assert forall|f: Entry| #[trigger] is_live_in(v, key, ts, f) implies f.seq <= b->0.seq by {
                assert(is_live_in(w, key, ts, f));
            }
        }
        lemma_one_newest(v, key, ts, a->0, b->0);
    } else if b is Some {
        assert(is_live_in(v, key, ts, b->0));
    }
    lemma_same_decision(w.mem, v.mem, key, u64::MAX, a, scan_stored(v, range, key, ts));
}

/// Numbers still tell entries apart after a batch.
proof fn lemma_batch_numbers(v: EngineView, es: Seq<Entry>)
    requires
        v.seqs_below(),
        one_per_number(v.mem),
        v.next_seq + es.len() <= u64::MAX,
    ensures
        one_per_number(v.written(sequenced(es, v.next_seq)).mem),
{
    let n = sequenced(es, v.next_seq);
    let w = v.written(n);
    assert forall|e: Entry, f: Entry|
        #![trigger w.mem.all().contains(e), w.mem.all().contains(f)]
        w.mem.all().contains(e) && w.mem.all().contains(f) && same_version(e, f) && e.seq
            == f.seq implies e == f by {
        lemma_written_in_memory(v, n, e);
        lemma_written_in_memory(v, n, f);
        if v.mem.all().contains(e) {
            lemma_memory_seqs(v, e);
        }
        if v.mem.all().contains(f) {
            lemma_memory_seqs(v, f);
        }
        if n.contains(e) {
            let i = choose|i: int| 0 <= i < n.len() && n[i] == e;
            assert(e.seq == v.next_seq + i);
            if n.contains(f) {
                let j = choose|j: int| 0 <= j < n.len() && n[j] == f;
                assert(f.seq == v.next_seq + j);
            }
        }
        if n.contains(f) {
            let j = choose|j: int| 0 <= j < n.len() && n[j] == f;
            assert(f.seq == v.next_seq + j);
        }
    }
}

/// What a scan gives of one record after a batch.
proof fn lemma_scan_after_batch(v: EngineView, es: Seq<Entry>, range: ScanRangeView, r: RecordView)
    requires
        v.in_step(),
        simple_batch(es, v.now),
        v.next_seq + es.len() <= u64::MAX,
    ensures
        ({
            let w = v.written(sequenced(es, v.next_seq));
            w.range_scan(range).records().contains(r) <==> range.admits(r.key, r.ts) && w.point(
                r.key,
                r.ts,
            ) == Some(r)
        }),
{
    let n = sequenced(es, v.next_seq);
    let w = v.written(n);
    let key = r.key;
    let ts = r.ts;
    assert(v.scan_agrees(range));
    let i = lemma_last_for(es, key, ts);
    law_batch_decides_point_reads(v, es, key, ts);
    lemma_range_scan_shows(w, range, r);
    lemma_range_scan_shows(v, range, r);
    if range.admits(key, ts) {
        assert(v.range_scan(range).records().contains(r) <==> v.point(key, ts) == Some(r));
        lemma_scan_memory(w, range, key, ts);
        let b = scan_memory(w, range, key, ts);
        assert forall|e: Entry| #[trigger] w.mem.all().contains(e) <==> v.mem.all().contains(e)
            || n.contains(e) by {
            lemma_written_in_memory(v, n, e);
        }
        if deletes_last(es, key, ts) {
            let d = choose|d: int|
                0 <= d < es.len() && #[trigger] covers(es[d], key) && ends_with(es, d, key, ts);
            assert(ends_with(n, d, key, ts)) by {
                assert forall|j: int| d < j < n.len() implies !((#[trigger] n[j]).key == key
                    && n[j].ts == ts) by {
                    assert(!(es[j].key == key && es[j].ts == ts));
                }
            }
            lemma_deleted_last(v, n, d, key, ts);
            if b is Some {
                assert(is_live_in(w, key, ts, b->0));
                assert(w.mem.all().contains(b->0));
            }
        } else if last_for(es, key, ts) is Some {
            let e = n[i];
            assert(n.contains(e));
            assert(live_at(es[i].expire_at, v.now));
            assert(is_live_in(w, key, ts, e));
            let g = b->0;
            assert(is_live_in(w, key, ts, g));
            assert(w.mem.all().contains(g));
            assert(e.seq == v.next_seq + i);
            assert(g == e) by {
                if v.mem.all().contains(g) {
                    lemma_memory_seqs(v, g);
                } else {
                    let j = choose|j: int| 0 <= j < n.len() && n[j] == g;
                    assert(n[j].seq == v.next_seq + j);
                    assert(es[j].key == key && es[j].ts == ts);
                }
            }
            lemma_not_deleted_after(v, es, i, key, ts);
            lemma_written_covers(v, n, key, Some(e.seq), u64::MAX);
            lemma_nothing_later(v, key, e.seq, u64::MAX);
        } else {
            lemma_not_deleted_at_all(v, es, key, ts);
            assert forall|after: Option<u64>| #[trigger]
                w.mem.covers(key, after, u64::MAX) == v.mem.covers(key, after, u64::MAX) by {
                lemma_written_covers(v, n, key, after, u64::MAX);
                lemma_not_covered(n, key, after, u64::MAX);
            }
            assert forall|e: Entry| e.key == key && e.ts == ts implies (
            #[trigger] w.mem.all().contains(e) <==> v.mem.all().contains(e)) by {
                if n.contains(e) {
                    let j = choose|j: int| 0 <= j < n.len() && n[j] == e;
                    assert(es[j].key == key && es[j].ts == ts);
                }
            }
            lemma_same_scan_version(v, w, range, key, ts);
        }
    }
}

/// Writing puts and deletions, of ranges too, keeps scans and point reads in step.
pub proof fn law_writes_keep_reads_in_step(v: EngineView, es: Seq<Entry>)
    requires
        v.in_step(),
        simple_batch(es, v.now),
        v.next_seq + es.len() <= u64::MAX,
    ensures
        v.written(sequenced(es, v.next_seq)).in_step(),
{
    let w = v.written(sequenced(es, v.next_seq));
    lemma_written_seqs_below(v, es);
    lemma_batch_numbers(v, es);
    assert forall|range: ScanRangeView| #[trigger] w.scan_agrees(range) by {
        assert forall|r: RecordView| #[trigger]
            w.range_scan(range).records().contains(r) <==> range.admits(r.key, r.ts) && w.point(
                r.key,
                r.ts,
            ) == Some(r) by {
            lemma_scan_after_batch(v, es, range, r);
        }
    }
}

/// In an empty engine scans and point reads agree: both find nothing.
pub proof fn law_empty_engine_is_in_step(v: EngineView)
    requires
        v.mem == MemView::empty(),
        v.index == IndexView::empty(),
    ensures
        v.in_step(),
        forall|range: ScanRangeView| (#[trigger] v.range_scan(range)).records().len() == 0,
        forall|key: Seq<u8>, ts: i64| (#[trigger] v.point(key, ts)) is None,
{
    let t = v.mem.tables();
    assert(t =~= seq![Seq::<Entry>::empty()]);
    assert(v.mem.all() =~= Seq::<Entry>::empty()) by {
        assert forall|e: Entry| !v.mem.all().contains(e) by {
            lemma_flatten_contains(t, e);
        }
        if v.mem.all().len() > 0 {
            assert(v.mem.all().contains(v.mem.all()[0]));
        }
    }
    assert forall|range: ScanRangeView|
        v.scan_agrees(range) && (#[trigger] v.range_scan(range)).records().len() == 0 by {
        lemma_empty_scan(v, range);
        assert forall|r: RecordView| #[trigger]
            v.range_scan(range).records().contains(r) <==> range.admits(r.key, r.ts) && v.point(
                r.key,
                r.ts,
            ) == Some(r) by {
            lemma_empty_point(v, r.key, r.ts);
        }
    }
    assert forall|range: ScanRangeView| #[trigger] v.scan_agrees(range) by {
        assert(v.range_scan(range).records().len() == 0);
    }
    assert forall|key: Seq<u8>, ts: i64| (#[trigger] v.point(key, ts)) is None by {
        lemma_empty_point(v, key, ts);
    }
}

proof fn lemma_empty_scan(v: EngineView, range: ScanRangeView)
    requires
        v.mem.all() == Seq::<Entry>::empty(),
        v.index == IndexView::empty(),
    ensures
        v.range_scan(range).records().len() == 0,
{
    let sc = v.range_scan(range);
    let filter = range.filter();
    let times = range.times();
    let sel = selected(v.mem.all(), filter, times, v.now);
    let blocks = v.index.candidates(filter, times, v.now);
    assert(blocks =~= Seq::<MetaView>::empty()) by {
        reveal_with_fuel(Seq::filter, 1);
    }
    assert(sel =~= Seq::<Entry>::empty()) by {
        reveal_with_fuel(Seq::filter, 1);
    }
    lemma_stable_sort_exists(sel);
    lemma_scan_has_result(sc);
    let rest = stable_sorted(sel);
    assert(rest.len() == 0) by {
        if rest.len() > 0 {
            assert(rest.contains(rest[0]));
            lemma_sort_contains(rest, sel, rest[0]);
        }
    }
    assert(sc.merge.runs.len() == 1);
    assert(rest.filter(v.mem.uncovered()).len() == 0) by {
        reveal_with_fuel(Seq::filter, 1);
    }
    if sc.result().len() > 0 {
        let e = sc.result()[0];
        assert(sc.result().contains(e));
        assert(sc.visible(e));
        let (i, p) = choose|i: int, p: int| #[trigger] sc.merge.wins_at(i, p, e);
        assert(i == 0);
    }
}

proof fn lemma_empty_point(v: EngineView, key: Seq<u8>, ts: i64)
    requires
        v.mem == MemView::empty(),
        v.index == IndexView::empty(),
    ensures
        v.point(key, ts) is None,
{
    let t = v.mem.tables();
    assert(t =~= seq![Seq::<Entry>::empty()]);
    lemma_best_version(t, key, ts, v.now, u64::MAX);
    if best_version(t, key, ts, v.now, u64::MAX) is Some {
        let i = choose|i: int| #[trigger]
            offers(t, i, key, ts, v.now, u64::MAX) && newest(
                t[i],
                key,
                ts,
                u64::MAX,
            ) == best_version(t, key, ts, v.now, u64::MAX);
        assert(t[i].len() == 0);
    }
    let c = v.index.point_candidates(key, v.now);
    assert(Seq::new(v.index.ssts.len(), |i: int| v.index.point_blocks(i, key, v.now)) =~= Seq::<
        Seq<MetaView>,
    >::empty());
    assert(c =~= Seq::<MetaView>::empty());
    assert(c.filter(v.index.bares(key)) =~= Seq::<MetaView>::empty()) by {
        reveal_with_fuel(Seq::filter, 1);
    }
    assert(v.stored_version(key, ts) is None);
}

/// Scans and point reads stay in step where the tables hold the same entries
/// and point reads of them are the same.
proof fn lemma_same_memory(v: EngineView, w: EngineView)
    requires
        v.in_step(),
        w.seqs_below(),
        w.index == v.index,
        w.readers == v.readers,
        w.now == v.now,
        forall|e: Entry| #[trigger] w.mem.all().contains(e) <==> v.mem.all().contains(e),
        forall|key: Seq<u8>, ts: i64| #[trigger] w.point(key, ts) == v.point(key, ts),
    ensures
        w.in_step(),
        forall|range: ScanRangeView, r: RecordView| #[trigger]
            w.range_scan(range).records().contains(r) <==> v.range_scan(range).records().contains(r),
{
    assert(one_per_number(w.mem)) by {
        assert forall|e: Entry, f: Entry|
            #![trigger w.mem.all().contains(e), w.mem.all().contains(f)]
            w.mem.all().contains(e) && w.mem.all().contains(f) && same_version(e, f) && e.seq
                == f.seq implies e == f by {
            assert(v.mem.all().contains(e) && v.mem.all().contains(f));
        }
    }
    assert forall|range: ScanRangeView| #[trigger]
        w.scan_agrees(range) by {
        assert(v.scan_agrees(range));
        lemma_same_scan(v, w, range);
        assert forall|r: RecordView| #[trigger]
            w.range_scan(range).records().contains(r) <==> range.admits(r.key, r.ts) && w.point(
                r.key,
                r.ts,
            ) == Some(r) by {
            assert(w.range_scan(range).records().contains(r) <==> v.range_scan(
                range,
            ).records().contains(r));
            assert(w.point(r.key, r.ts) == v.point(r.key, r.ts));
        }
    }
    assert forall|range: ScanRangeView, r: RecordView| #[trigger]
        w.range_scan(range).records().contains(r) <==> v.range_scan(range).records().contains(r) by {
        assert(v.scan_agrees(range));
        assert(w.scan_agrees(range));
        assert(w.point(r.key, r.ts) == v.point(r.key, r.ts));
    }
}

proof fn lemma_same_scan(v: EngineView, w: EngineView, range: ScanRangeView)
    requires
        one_per_number(v.mem),
        w.index == v.index,
        w.readers == v.readers,
        w.now == v.now,
        forall|e: Entry| #[trigger] w.mem.all().contains(e) <==> v.mem.all().contains(e),
    ensures
        forall|r: RecordView| #[trigger]
            w.range_scan(range).records().contains(r) <==> v.range_scan(range).records().contains(r),
{
    assert forall|r: RecordView| #[trigger]
        w.range_scan(range).records().contains(r) <==> v.range_scan(range).records().contains(r) by {
        lemma_range_scan_shows(v, range, r);
        lemma_range_scan_shows(w, range, r);
        if range.admits(r.key, r.ts) {
            lemma_same_cover(v.mem, w.mem, r.key);
            lemma_same_scan_version(v, w, range, r.key, r.ts);
        }
    }
}

/// Range deletions cover the same where memory holds the same.
pub proof fn lemma_same_cover(a: MemView, b: MemView, key: Seq<u8>)
    requires
        forall|e: Entry| #[trigger] b.all().contains(e) <==> a.all().contains(e),
    ensures
        forall|after: Option<u64>, max_seq: u64| #[trigger]
            b.covers(key, after, max_seq) == a.covers(key, after, max_seq),
{
    assert forall|after: Option<u64>, max_seq: u64| #[trigger]
        b.covers(key, after, max_seq) == a.covers(key, after, max_seq) by {
        lemma_covers_in(a, key, after, max_seq);
        lemma_covers_in(b, key, after, max_seq);
        if a.covers(key, after, max_seq) {
            let e = choose|e: Entry| #[trigger]
                a.all().contains(e) && covers_at(e, key, after, max_seq);
            assert(b.all().contains(e));
        }
        if b.covers(key, after, max_seq) {
            let e = choose|e: Entry| #[trigger]
                b.all().contains(e) && covers_at(e, key, after, max_seq);
            assert(a.all().contains(e));
        }
    }
}

/// Point reads are the same where memory holds the same and finds the same.
pub proof fn lemma_same_point(v: EngineView, w: EngineView, key: Seq<u8>, ts: i64)
    requires
        w.index == v.index,
        w.readers == v.readers,
        w.now == v.now,
        forall|e: Entry| #[trigger] w.mem.all().contains(e) <==> v.mem.all().contains(e),
        best_version(w.mem.tables(), key, ts, v.now, u64::MAX) == best_version(
            v.mem.tables(),
            key,
            ts,
            v.now,
            u64::MAX,
        ),
    ensures
        w.point(key, ts) == v.point(key, ts),
{
    lemma_same_cover(v.mem, w.mem, key);
    assert(w.stored_version(key, ts) == v.stored_version(key, ts));
    lemma_same_decision(
        w.mem,
        v.mem,
        key,
        u64::MAX,
        best_version(v.mem.tables(), key, ts, v.now, u64::MAX),
        v.stored_version(key, ts),
    );
}

/// Numbers tell the tables' newest versions apart.
proof fn lemma_ties_agree(mem: MemView, key: Seq<u8>, ts: i64, max_seq: u64)
    requires
        one_per_number(mem),
    ensures
        ties_agree(mem.tables(), key, ts, max_seq),
{
    let t = mem.tables();
    assert forall|i: int, j: int|
        0 <= i < t.len() && 0 <= j < t.len() && newest(#[trigger] t[i], key, ts, max_seq) is Some
            && newest(#[trigger] t[j], key, ts, max_seq) is Some && newest(
            t[i],
            key,
            ts,
            max_seq,
        )->0.seq == newest(t[j], key, ts, max_seq)->0.seq implies newest(t[i], key, ts, max_seq)
        == newest(t[j], key, ts, max_seq) by {
        lemma_newest(t[i], key, ts, max_seq);
        lemma_newest(t[j], key, ts, max_seq);
        let e = newest(t[i], key, ts, max_seq)->0;
        let f = newest(t[j], key, ts, max_seq)->0;
        lemma_flatten_contains(t, e);
        lemma_flatten_contains(t, f);
        assert(mem.all().contains(e) && mem.all().contains(f));
    }
}

/// Freezing the active table keeps scans and point reads in step, and changes
/// neither.
pub proof fn law_freeze_keeps_reads_in_step(v: EngineView, w: EngineView)
    requires
        v.in_step(),
        v.mem.freezes_to(w.mem),
        w.index == v.index,
        w.readers == v.readers,
        w.now == v.now,
        w.seqs_below(),
    ensures
        w.in_step(),
        forall|key: Seq<u8>, ts: i64| #[trigger] w.point(key, ts) == v.point(key, ts),
        forall|range: ScanRangeView, r: RecordView| #[trigger]
            w.range_scan(range).records().contains(r) <==> v.range_scan(range).records().contains(r),
{
    assert forall|e: Entry| #[trigger] w.mem.all().contains(e) <==> v.mem.all().contains(e) by {
        lemma_freeze_keeps_entries(v.mem, w.mem, e);
    }
    assert forall|key: Seq<u8>, ts: i64| #[trigger] w.point(key, ts) == v.point(key, ts) by {
        lemma_ties_agree(v.mem, key, ts, u64::MAX);
        law_freeze_keeps_point_reads(v.mem, w.mem, key, ts, v.now, u64::MAX);
        lemma_same_point(v, w, key, ts);
    }
    lemma_same_memory(v, w);
}

/// Starting a flush keeps scans and point reads in step, and changes neither.
pub proof fn law_flush_start_keeps_reads_in_step(v: EngineView, w: EngineView)
    requires
        v.in_step(),
        v.mem.frozen.len() > 0,
        w.mem == v.mem.starts_flush(),
        w.index == v.index,
        w.readers == v.readers,
        w.now == v.now,
        w.seqs_below(),
    ensures
        w.in_step(),
        forall|key: Seq<u8>, ts: i64| #[trigger] w.point(key, ts) == v.point(key, ts),
        forall|range: ScanRangeView, r: RecordView| #[trigger]
            w.range_scan(range).records().contains(r) <==> v.range_scan(range).records().contains(r),
{
    assert forall|e: Entry| #[trigger] w.mem.all().contains(e) <==> v.mem.all().contains(e) by {
        lemma_flush_start_keeps_entries(v.mem, e);
    }
    assert forall|key: Seq<u8>, ts: i64| #[trigger] w.point(key, ts) == v.point(key, ts) by {
        lemma_ties_agree(v.mem, key, ts, u64::MAX);
        law_flush_start_keeps_point_reads(v.mem, key, ts, v.now, u64::MAX);
        lemma_same_point(v, w, key, ts);
    }
    lemma_same_memory(v, w);
}

/// A point read gives a record of what was asked for.
pub proof fn lemma_point_is_of_key(v: EngineView, key: Seq<u8>, ts: i64)
    ensures
        v.point(key, ts) is Some ==> v.point(key, ts)->0.key == key && v.point(key, ts)->0.ts == ts,
{
    let t = v.mem.tables();
    lemma_best_version(t, key, ts, v.now, u64::MAX);
    if best_version(t, key, ts, v.now, u64::MAX) is Some {
        let i = choose|i: int| #[trigger]
            offers(t, i, key, ts, v.now, u64::MAX) && newest(
                t[i],
                key,
                ts,
                u64::MAX,
            ) == best_version(t, key, ts, v.now, u64::MAX);
        lemma_newest(t[i], key, ts, u64::MAX);
    } else {
        lemma_hit_is_of_key(
            v.index.point_candidates(key, v.now).filter(v.index.bares(key)),
            v.readers,
            key,
            ts,
            v.now,
        );
    }
}

proof fn lemma_hit_is_of_key(
    blocks: Seq<MetaView>,
    readers: Map<u32, SstReader>,
    key: Seq<u8>,
    ts: i64,
    now: i64,
)
    ensures
        block_hit(blocks, readers, key, ts, now) is Some ==> {
            let e = block_hit(blocks, readers, key, ts, now)->0;
            e.key == key && e.ts == ts
        },
    decreases blocks.len(),
{
    if blocks.len() > 0 {
        lemma_first_hit_is_of_key(
            readable(readers, blocks.first()),
            key,
            ts,
            now,
        );
        lemma_hit_is_of_key(blocks.drop_first(), readers, key, ts, now);
    }
}

proof fn lemma_first_hit_is_of_key(s: Seq<Entry>, key: Seq<u8>, ts: i64, now: i64)
    ensures
        first_hit(s, key, ts, now) is Some ==> {
            let e = first_hit(s, key, ts, now)->0;
            e.key == key && e.ts == ts
        },
    decreases s.len(),
{
    if s.len() > 0 {
        lemma_first_hit_is_of_key(s.drop_first(), key, ts, now);
    }
}

/// Where no expired version stands over a live one, a point read finds in memory
/// the live version with the highest number.
pub proof fn lemma_best_is_newest(v: EngineView, key: Seq<u8>, ts: i64)
    requires
        v.mem.live_on_top(v.now),
    ensures
        match best_version(v.mem.tables(), key, ts, v.now, u64::MAX) {
            Some(e) => is_newest_in(v, key, ts, e),
            None => forall|f: Entry| !#[trigger] is_live_in(v, key, ts, f),
        },
{
    let t = v.mem.tables();
    lemma_best_version(t, key, ts, v.now, u64::MAX);
    let b = best_version(t, key, ts, v.now, u64::MAX);
    assert forall|f: Entry| #[trigger] is_live_in(v, key, ts, f) implies b is Some && f.seq
        <= b->0.seq by {
        lemma_flatten_contains(t, f);
        let i = choose|i: int| 0 <= i < t.len() && (#[trigger] t[i]).contains(f);
        lemma_newest(t[i], key, ts, u64::MAX);
        let k = choose|k: int| 0 <= k < t[i].len() && t[i][k] == f;
        assert(is_version(t[i][k], key, ts, u64::MAX));
        let g = newest(t[i], key, ts, u64::MAX)->0;
        assert(t[i].contains(f) && t[i].contains(g));
        assert(live_on_top(t[i], v.now));
        assert(offers(t, i, key, ts, v.now, u64::MAX));
    }
    if b is Some {
        let i = choose|i: int| #[trigger]
            offers(t, i, key, ts, v.now, u64::MAX) && newest(
                t[i],
                key,
                ts,
                u64::MAX,
            ) == b;
        lemma_newest(t[i], key, ts, u64::MAX);
        lemma_flatten_contains(t, b->0);
        assert(t[i].contains(b->0));
        assert(is_live_in(v, key, ts, b->0));
    }
}

/// Where no expired version stands over a live one in all of memory, none does in
/// a memtable.
pub proof fn lemma_tables_live_on_top(mem: MemView, now: i64)
    requires
        live_on_top(mem.all(), now),
    ensures
        mem.live_on_top(now),
{
    let t = mem.tables();
    assert forall|i: int| 0 <= i < t.len() implies live_on_top(#[trigger] t[i], now) by {
        assert forall|e: Entry, g: Entry|
            #![trigger t[i].contains(e), t[i].contains(g)]
            t[i].contains(e) && t[i].contains(g) && same_version(e, g) && e.seq <= g.seq
                && live_at(e.expire_at, now) implies live_at(g.expire_at, now) by {
            lemma_flatten_contains(t, e);
            lemma_flatten_contains(t, g);
            assert(mem.all().contains(e) && mem.all().contains(g));
        }
    }
}

/// Scans and point reads agree wherever no expired version stands over a live
/// one in a memtable, whatever the time is and whatever has expired.
pub proof fn law_live_on_top_is_in_step(v: EngineView, c: Map<u32, Seq<Entry>>)
    requires
        v.seqs_below(),
        one_per_number(v.mem),
        ssts_hold(v, c),
        v.mem.live_on_top(v.now),
    ensures
        v.in_step(),
{
    assert forall|range: ScanRangeView| #[trigger] v.scan_agrees(range) by {
        assert forall|r: RecordView| #[trigger]
            v.range_scan(range).records().contains(r) <==> range.admits(r.key, r.ts) && v.point(
                r.key,
                r.ts,
            ) == Some(r) by {
            let key = r.key;
            let ts = r.ts;
            lemma_range_scan_shows(v, range, r);
            if range.admits(key, ts) {
                law_scan_filter_is_complete(range, key, ts);
                lemma_scan_finds(v, c, range.filter(), range.times(), key, ts);
                lemma_point_finds(v, c, key, ts);
                let d = bare(c, v.index, key);
                assert forall|k: u32| #[trigger] d.contains_key(k) implies strictly_sorted(d[k]) by {
                    assert(c.contains_key(k));
                    assert(holds_sst(v, k, c[k]));
                }
                lemma_finds_one(
                    d,
                    key,
                    ts,
                    v.now,
                    scan_stored(v, range, key, ts),
                    v.stored_version(key, ts),
                );
                lemma_scan_memory(v, range, key, ts);
                lemma_best_is_newest(v, key, ts);
                let x = scan_memory(v, range, key, ts);
                let y = best_version(v.mem.tables(), key, ts, v.now, u64::MAX);
                assert(x == y) by {
                    if x is Some {
                        assert(is_live_in(v, key, ts, x->0));
                        lemma_one_newest(v, key, ts, x->0, y->0);
                    } else if y is Some {
                        assert(is_live_in(v, key, ts, y->0));
                    }
                }
            }
        }
    }
}

/// Writing any batch, of expired entries too, keeps scans and point reads in
/// step as long as no expired version comes to stand over a live one.
pub proof fn law_any_batch_keeps_reads_in_step(
    v: EngineView,
    c: Map<u32, Seq<Entry>>,
    es: Seq<Entry>,
)
    requires
        v.in_step(),
        ssts_hold(v, c),
        v.next_seq + es.len() <= u64::MAX,
        v.written(sequenced(es, v.next_seq)).mem.live_on_top(v.now),
    ensures
        v.written(sequenced(es, v.next_seq)).in_step(),
        ssts_hold(v.written(sequenced(es, v.next_seq)), c),
{
    let w = v.written(sequenced(es, v.next_seq));
    lemma_written_seqs_below(v, es);
    lemma_batch_numbers(v, es);
    lemma_same_ssts(v, w, c);
    law_live_on_top_is_in_step(w, c);
}

/// Where what is written over a version never expires before it, no expired
/// version ever stands over a live one.
pub proof fn law_longer_lives_stay_on_top(s: Seq<Entry>, now: i64)
    requires
        forall|e: Entry, g: Entry|
            #![trigger s.contains(e), s.contains(g)]
            s.contains(e) && s.contains(g) && same_version(e, g) && e.seq <= g.seq ==> e.expire_at
                <= g.expire_at,
    ensures
        live_on_top(s, now),
{
}

/// An engine whose memory was filled from the log gives the reads of the engine
/// that wrote the log, as long as no expired version stands over a live one.
pub proof fn law_replayed_log_restores_reads(v: EngineView, w: EngineView, log: Seq<Entry>)
    requires
        v.in_step(),
        w.seqs_below(),
        w.mem == (MemView { active: log, ..MemView::empty() }),
        w.index == v.index,
        w.readers == v.readers,
        w.now == v.now,
        forall|e: Entry| #[trigger] log.contains(e) <==> v.mem.all().contains(e),
        live_on_top(log, v.now),
    ensures
        w.in_step(),
        forall|key: Seq<u8>, ts: i64| #[trigger] w.point(key, ts) == v.point(key, ts),
        forall|range: ScanRangeView, r: RecordView| #[trigger]
            w.range_scan(range).records().contains(r) <==> v.range_scan(range).records().contains(r),
{
    assert forall|e: Entry| #[trigger] w.mem.all().contains(e) <==> v.mem.all().contains(e) by {
        let t = w.mem.tables();
        lemma_flatten_contains(t, e);
        assert(t =~= seq![log]);
        assert(log.contains(e) <==> v.mem.all().contains(e));
        if log.contains(e) {
            assert(t[0].contains(e));
        }
    }
    assert(live_on_top(v.mem.all(), v.now)) by {
        assert forall|e: Entry, g: Entry|
            #![trigger v.mem.all().contains(e), v.mem.all().contains(g)]
            v.mem.all().contains(e) && v.mem.all().contains(g) && same_version(e, g) && e.seq
                <= g.seq && live_at(e.expire_at, v.now) implies live_at(g.expire_at, v.now) by {
            assert(log.contains(e) && log.contains(g));
        }
    }
    lemma_tables_live_on_top(v.mem, v.now);
    assert(w.mem.live_on_top(w.now)) by {
        assert(w.mem.tables() =~= seq![log]);
    }
    assert forall|key: Seq<u8>, ts: i64| #[trigger] w.point(key, ts) == v.point(key, ts) by {
        lemma_best_is_newest(v, key, ts);
        lemma_best_is_newest(w, key, ts);
        let a = best_version(v.mem.tables(), key, ts, v.now, u64::MAX);
        let b = best_version(w.mem.tables(), key, ts, v.now, u64::MAX);
        assert forall|e: Entry| #[trigger] is_live_in(v, key, ts, e) <==> is_live_in(w, key, ts, e) by {
            assert(w.mem.all().contains(e) <==> v.mem.all().contains(e));
        }
        assert(a == b) by {
            if a is Some {
                assert(is_live_in(w, key, ts, a->0));
                assert(is_newest_in(v, key, ts, b->0)) by {
                    assert(is_live_in(v, key, ts, b->0));
                    assert forall|f: Entry| #[trigger] is_live_in(v, key, ts, f) implies f.seq
                        <= b->0.seq by {
                        assert(is_live_in(w, key, ts, f));
                    }
                }
                lemma_one_newest(v, key, ts, a->0, b->0);
            } else if b is Some {
                assert(is_live_in(v, key, ts, b->0));
            }
        }
        lemma_same_point(v, w, key, ts);
    }
    lemma_same_memory(v, w);
}

} // verus!
