//! Reading a range: memtables and SST blocks merged into one stream.

use std::collections::HashMap;

use vstd::prelude::*;

use crate::block_meta_index::{metas, BlockMetaIndex, IndexView, MetaView};
use crate::bytes::copy_bytes;
use crate::memtable::{passes, selected};
use crate::memtables::{MemTables, MemView};
use crate::merge::{run_views, MergeView, Merger, Run, RunView};
use crate::order::{
    entry_before, lemma_filter_contains, lemma_stable_sorted, lemma_strictly_sorted_unique,
    same_version, sort_records, sorted_entries, stable_sorted, strictly_sorted, version_sorted,
};
use crate::ranges::{push_span, span_views, spans_in, KeySpan};
use crate::record::{
    entries, is_live, live_at, records_of, time_in_range, Entry, InternalRecord, KeyFilter,
    KeyFilterView, Op, Query, Record, RecordView, ScanRange, ScanRangeView,
};
use crate::sstable::SstReader;

verus! {

broadcast use vstd::std_specs::hash::group_hash_axioms;

/// The entries of `s` that are live.
pub open spec fn live_entries(s: Seq<Entry>, now: i64) -> Seq<Entry> {
    s.filter(|e: Entry| live_at(e.expire_at, now))
}

/// What a scan takes of a block, as far as it takes it: nothing of range
/// deletions and of what has expired. A full scan takes every put; another
/// takes what the filters let through.
pub open spec fn taken(
    e: Entry,
    filter: KeyFilterView,
    times: Option<(i64, i64)>,
    full: bool,
    now: i64,
) -> Option<Entry> {
    if !live_at(e.expire_at, now) || e.op == Op::DeleteRange {
        None
    } else if full {
        if e.op == Op::Delete {
            None
        } else {
            Some(Entry { seq: 0, op: Op::Put, range_end: None, ..e })
        }
    } else if passes(e, filter, times, now) {
        Some(e.unsequenced())
    } else {
        None
    }
}

/// What a scan takes of a block's entries, in their order.
pub open spec fn taken_all(
    s: Seq<Entry>,
    filter: KeyFilterView,
    times: Option<(i64, i64)>,
    full: bool,
    now: i64,
) -> Seq<Entry>
    decreases s.len(),
{
    if s.len() == 0 {
        Seq::empty()
    } else {
        match taken(s.last(), filter, times, full, now) {
            Some(e) => taken_all(s.drop_last(), filter, times, full, now).push(e),
            None => taken_all(s.drop_last(), filter, times, full, now),
        }
    }
}

/// Picks what a scan takes of a block, and notes the key ranges that live range
/// deletions in it delete, whatever the filters are.
pub fn filter_sst_block(
    records: &Vec<InternalRecord>,
    key_filter: &KeyFilter,
    time_range: Option<(i64, i64)>,
    is_full_scan: bool,
    now_us: i64,
    tombstones: &mut Vec<KeySpan>,
) -> (r: Vec<InternalRecord>)
    ensures
        entries(r@) == taken_all(
            entries(records@),
            key_filter@,
            time_range,
            is_full_scan,
            now_us,
        ),
        span_views(final(tombstones)@) == span_views(old(tombstones)@) + spans_in(
            live_entries(entries(records@), now_us),
        ),
{
    let ghost all = entries(records@);
    let ghost noted = span_views(tombstones@);
    let ghost p = |e: Entry| live_at(e.expire_at, now_us);
    let mut filtered: Vec<InternalRecord> = Vec::new();
    let mut i: usize = 0;
    proof {
        assert(all.subrange(0, 0) =~= Seq::<Entry>::empty());
        assert(entries(filtered@) =~= Seq::<Entry>::empty());
        assert(all.subrange(0, 0).filter(p) =~= Seq::<Entry>::empty());
        assert(noted + spans_in(Seq::<Entry>::empty()) =~= noted);
    }
    while i < records.len()
        invariant
            i <= records.len(),
            all == entries(records@),
            noted == span_views(old(tombstones)@),
            p == (|e: Entry| live_at(e.expire_at, now_us)),
            span_views(tombstones@) == noted + spans_in(all.subrange(0, i as int).filter(p)),
            entries(filtered@) == taken_all(
                all.subrange(0, i as int),
                key_filter@,
                time_range,
                is_full_scan,
                now_us,
            ),
        decreases records.len() - i,
    {
        let rec = &records[i];
        let ghost out = entries(filtered@);
        proof {
            let s = all.subrange(0, i + 1);
            assert(s.drop_last() =~= all.subrange(0, i as int));
            assert(s.last() == rec@);
            assert(s =~= all.subrange(0, i as int).push(rec@));
            all.subrange(0, i as int).lemma_filter_push(rec@, p);
            let live = all.subrange(0, i as int).filter(p);
            assert(live.push(rec@).drop_last() =~= live);
        }
        if is_live(rec.expire_at, now_us) {
            if rec.op == Op::DeleteRange {
                if let Some(end) = &rec.range_end {
                    let ghost before = span_views(tombstones@);
                    push_span(tombstones, &rec.key, end);
                    assert(span_views(tombstones@) =~= noted + spans_in(
                        all.subrange(0, i + 1).filter(p),
                    ));
                }
            } else if is_full_scan {
                if rec.op != Op::Delete {
                    let kept = InternalRecord {
                        seq: 0,
                        op: Op::Put,
                        key: copy_bytes(&rec.key),
                        ts: rec.ts,
                        expire_at: rec.expire_at,
                        value: copy_bytes(&rec.value),
                        range_end: None,
                    };
                    filtered.push(kept);
                    assert(entries(filtered@) =~= out.push(kept@));
                }
            } else if key_filter.admits(&rec.key) && time_in_range(rec.ts, time_range) {
                let mut kept = rec.copy();
                kept.seq = 0;
                filtered.push(kept);
                assert(entries(filtered@) =~= out.push(kept@));
            }
        }
        i = i + 1;
    }
    assert(all.subrange(0, all.len() as int) =~= all);
    filtered
}

/// The state of a scan: what is left to merge, and the bounds of the scan.
pub struct ScanView {
    pub merge: MergeView,
    pub range: Option<ScanRangeView>,
}

impl ScanView {
    /// `e` is something to show: a put in range.
    pub open spec fn shows(self, e: Entry) -> bool {
        &&& e.op == Op::Put
        &&& match self.range {
            Some(r) => r.admits(e.key, e.ts),
            None => true,
        }
    }

    /// `e` is the version of its `(key, ts)` to take, and something to show.
    pub open spec fn visible(self, e: Entry) -> bool {
        self.merge.wins(e) && self.shows(e)
    }

    /// `out` is what the scan gives: every visible entry, in rising order.
    pub open spec fn gives(self, out: Seq<Entry>) -> bool {
        &&& strictly_sorted(out)
        &&& forall|e: Entry| #[trigger] out.contains(e) <==> self.visible(e)
    }

    /// The entries that the scan gives.
    pub open spec fn result(self) -> Seq<Entry> {
        choose|out: Seq<Entry>| self.gives(out)
    }

    /// The records that the scan gives.
    pub open spec fn records(self) -> Seq<RecordView> {
        self.result().map_values(|e: Entry| e.record())
    }

    /// `after` is what is left once the first visible entry, `e`, was given.
    pub open spec fn yields(self, e: Entry, after: ScanView) -> bool {
        &&& self.visible(e)
        &&& forall|f: Entry| #[trigger] self.visible(f) && f != e ==> entry_before(e, f)
        &&& forall|f: Entry| #[trigger] after.visible(f) <==> self.visible(f) && f != e
        &&& after.range == self.range
    }
}

/// A scan gives one sequence only.
pub proof fn lemma_scan_result(v: ScanView, out: Seq<Entry>)
    requires
        v.gives(out),
    ensures
        v.result() == out,
{
    let r = v.result();
    assert(v.gives(r));
    assert forall|e: Entry| r.contains(e) <==> #[trigger] out.contains(e) by {
        assert(r.contains(e) <==> v.visible(e));
    }
    lemma_strictly_sorted_unique(r, out);
}

/// The entries that the block `m` holds, where it can be read, but for those
/// that a range deletion in the same SST covers.
pub open spec fn readable(readers: Map<u32, SstReader>, m: MetaView) -> Seq<Entry> {
    if readers.contains_key(m.sst_id) {
        readers[m.sst_id].left_in(m.block_idx)
    } else {
        Seq::empty()
    }
}

/// The run that a scan takes from the memtables: what no later range deletion
/// covers.
pub open spec fn memory_run(
    mem: MemView,
    filter: KeyFilterView,
    times: Option<(i64, i64)>,
    now: i64,
) -> RunView {
    RunView {
        rank: u64::MAX,
        rest: stable_sorted(selected(mem.all(), filter, times, now)).filter(mem.uncovered()),
    }
}

/// What a scan finds in a block.
pub open spec fn block_run(
    readers: Map<u32, SstReader>,
    m: MetaView,
    filter: KeyFilterView,
    times: Option<(i64, i64)>,
    now: i64,
) -> RunView {
    RunView {
        rank: m.sst_id as u64,
        rest: stable_sorted(taken_all(readable(readers, m), filter, times, false, now)),
    }
}

/// Neither memory nor an SST with a higher number than `id` deletes the
/// range around `key`.
pub open spec fn still_there(mem: MemView, index: IndexView, id: u32, key: Seq<u8>) -> bool {
    !mem.covers(key, None, u64::MAX) && !index.covers_above(id, key)
}

/// The run that a scan takes from a block: what no later range deletion covers.
pub open spec fn stored_run(
    mem: MemView,
    index: IndexView,
    readers: Map<u32, SstReader>,
    m: MetaView,
    filter: KeyFilterView,
    times: Option<(i64, i64)>,
    now: i64,
) -> RunView {
    RunView {
        rank: m.sst_id as u64,
        rest: block_run(readers, m, filter, times, now).rest.filter(
            |e: Entry| still_there(mem, index, m.sst_id, e.key),
        ),
    }
}

/// The scan of the memtables and of the blocks that the index does not exclude.
pub open spec fn scan_of(
    mem: MemView,
    index: IndexView,
    readers: Map<u32, SstReader>,
    filter: KeyFilterView,
    times: Option<(i64, i64)>,
    range: Option<ScanRangeView>,
    now: i64,
) -> ScanView {
    ScanView {
        merge: MergeView {
            runs: seq![memory_run(mem, filter, times, now)] + index.candidates(
                filter,
                times,
                now,
            ).map_values(
                |m: MetaView| stored_run(mem, index, readers, m, filter, times, now),
            ),
            last: None,
        },
        range,
    }
}

proof fn lemma_sorted_is_version_sorted(s: Seq<Entry>)
    requires
        sorted_entries(s),
    ensures
        version_sorted(s),
{
}

/// Every reader can be used, and is filed under its number.
pub open spec fn readers_ok(readers: Map<u32, SstReader>) -> bool {
    forall|id: u32| #[trigger]
        readers.contains_key(id) ==> readers[id].well_formed() && readers[id].id() == id
}

/// The records of a block that no range deletion in the same SST covers; none
/// where the block cannot be read.
fn load_block(readers: &HashMap<u32, SstReader>, sst_id: u32, block_idx: u32) -> (r: Vec<
    InternalRecord,
>)
    requires
        readers_ok(readers@),
    ensures
        forall|m: MetaView|
            m.sst_id == sst_id && m.block_idx == block_idx ==> entries(r@) == #[trigger] readable(
                readers@,
                m,
            ),
{
    if let Some(reader) = readers.get(&sst_id) {
        return reader.read_left(block_idx);
    }
    let none: Vec<InternalRecord> = Vec::new();
    assert(entries(none@) =~= Seq::<Entry>::empty());
    none
}

/// Leaving entries out keeps a sequence in order.
pub proof fn lemma_filter_sorted(s: Seq<Entry>, p: spec_fn(Entry) -> bool)
    requires
        version_sorted(s),
    ensures
        version_sorted(s.filter(p)),
    decreases s.len(),
{
    reveal_with_fuel(Seq::filter, 1);
    if s.len() > 0 {
        let t = s.drop_last();
        let f = t.filter(p);
        lemma_filter_sorted(t, p);
        if p(s.last()) {
            let g = s.filter(p);
            assert(g == f.push(s.last()));
            assert forall|i: int, j: int| 0 <= i < j < g.len() implies entry_before(
                #[trigger] g[i],
                #[trigger] g[j],
            ) || same_version(g[i], g[j]) by {
                assert(g[i] == f[i]);
                if j < f.len() {
                    assert(g[j] == f[j]);
                } else {
                    lemma_filter_contains(t, p, f[i]);
                    assert(f.contains(f[i]));
                    let k = choose|k: int| 0 <= k < t.len() && t[k] == f[i];
                    assert(s[k] == t[k]);
                    assert(s[s.len() - 1] == s.last());
                }
            }
        }
    }
}

/// Keeps what no later range deletion in memory covers.
fn drop_covered(records: Vec<InternalRecord>, memtables: &MemTables) -> (r: Vec<InternalRecord>)
    requires
        memtables.well_formed(),
    ensures
        entries(r@) == entries(records@).filter(memtables@.uncovered()),
{
    let ghost all = entries(records@);
    let ghost p = memtables@.uncovered();
    let mut out: Vec<InternalRecord> = Vec::new();
    let mut i: usize = 0;
    assert(all.subrange(0, 0).filter(p) =~= Seq::<Entry>::empty());
    assert(entries(out@) =~= Seq::<Entry>::empty());
    while i < records.len()
        invariant
            i <= records.len(),
            memtables.well_formed(),
            all == entries(records@),
            p == memtables@.uncovered(),
            entries(out@) == all.subrange(0, i as int).filter(p),
        decreases records.len() - i,
    {
        let rec = &records[i];
        let ghost before = entries(out@);
        proof {
            assert(all.subrange(0, i + 1) =~= all.subrange(0, i as int).push(rec@));
            all.subrange(0, i as int).lemma_filter_push(rec@, p);
        }
        if !memtables.covers(&rec.key, Some(rec.seq), u64::MAX) {
            out.push(rec.copy());
            assert(entries(out@) =~= before.push(rec@));
        }
        i = i + 1;
    }
    assert(all.subrange(0, all.len() as int) =~= all);
    out
}

/// Keeps what neither memory nor an SST with a higher number deletes by range.
fn drop_deleted(
    records: Vec<InternalRecord>,
    memtables: &MemTables,
    index: &BlockMetaIndex,
    sst_id: u32,
) -> (r: Vec<InternalRecord>)
    requires
        memtables.well_formed(),
        index.well_formed(),
    ensures
        entries(r@) == entries(records@).filter(
            |e: Entry| still_there(memtables@, index@, sst_id, e.key),
        ),
{
    let ghost all = entries(records@);
    let ghost p = |e: Entry| still_there(memtables@, index@, sst_id, e.key);
    let mut out: Vec<InternalRecord> = Vec::new();
    let mut i: usize = 0;
    assert(all.subrange(0, 0).filter(p) =~= Seq::<Entry>::empty());
    assert(entries(out@) =~= Seq::<Entry>::empty());
    while i < records.len()
        invariant
            i <= records.len(),
            memtables.well_formed(),
            index.well_formed(),
            all == entries(records@),
            p == (|e: Entry| still_there(memtables@, index@, sst_id, e.key)),
            entries(out@) == all.subrange(0, i as int).filter(p),
        decreases records.len() - i,
    {
        let rec = &records[i];
        let ghost before = entries(out@);
        proof {
            assert(all.subrange(0, i + 1) =~= all.subrange(0, i as int).push(rec@));
            all.subrange(0, i as int).lemma_filter_push(rec@, p);
        }
        if !memtables.covers(&rec.key, None, u64::MAX) && !index.covers_above(sst_id, &rec.key) {
            out.push(rec.copy());
            assert(entries(out@) =~= before.push(rec@));
        }
        i = i + 1;
    }
    assert(all.subrange(0, all.len() as int) =~= all);
    out
}

/// Lazy iterator yielding records in `(key, ts)` ascending order.
///
/// Internally a merge over pre-filtered memtable and SST block sources.
/// Records are yielded one at a time.
pub struct ScanIterator {
    merger: Merger,
    range: Option<ScanRange>,
}

impl ScanIterator {
    pub closed spec fn view(&self) -> ScanView {
        ScanView {
            merge: self.merger@,
            range: match self.range {
                Some(r) => Some(r@),
                None => None,
            },
        }
    }

    pub closed spec fn well_formed(&self) -> bool {
        self.merger.well_formed()
    }

    /// Collects the sources of a scan: what the memtables hold, and the blocks
    /// that the index does not exclude. A block that cannot be read is skipped.
    pub fn build(
        query: &Query,
        range: Option<ScanRange>,
        memtables: &MemTables,
        index: &BlockMetaIndex,
        readers: &HashMap<u32, SstReader>,
        now_us: i64,
    ) -> (r: ScanIterator)
        requires
            memtables.well_formed(),
            index.well_formed(),
            readers_ok(readers@),
        ensures
            r.well_formed(),
            r@ == scan_of(
                memtables@,
                index@,
                readers@,
                query.key_filter@,
                query.time_range,
                match range {
                    Some(r) => Some(r@),
                    None => None,
                },
                now_us,
            ),
    {
        let ghost filter = query.key_filter@;
        let ghost times = query.time_range;
        let mem_results = memtables.query(&query.key_filter, query.time_range, now_us);
        let candidates = index.query(&query.key_filter, query.time_range, now_us);
        let ghost blocks = metas(candidates@);
        let ghost block_runs = blocks.map_values(
            |m: MetaView| stored_run(memtables@, index@, readers@, m, filter, times, now_us),
        );

        let ghost unsorted = entries(mem_results@);
        let mem_sorted = sort_records(mem_results);
        proof {
            lemma_stable_sorted(entries(mem_sorted@), unsorted);
            lemma_sorted_is_version_sorted(entries(mem_sorted@));
        }
        let mem_left = drop_covered(mem_sorted, memtables);
        proof {
            lemma_filter_sorted(
                stable_sorted(selected(memtables@.all(), filter, times, now_us)),
                memtables@.uncovered(),
            );
        }
        let mut runs: Vec<Run> = Vec::new();
        runs.push(Run::new(mem_left, u64::MAX));
        let ghost mem_run = memory_run(memtables@, filter, times, now_us);
        // The range deletions in blocks count from the moment the SST is opened.
        let mut noted: Vec<KeySpan> = Vec::new();
        let mut i: usize = 0;
        proof {
            assert(run_views(runs@) =~= seq![mem_run] + block_runs.subrange(0, 0));
        }
        while i < candidates.len()
            invariant
                i <= candidates.len(),
                memtables.well_formed(),
                index.well_formed(),
                readers_ok(readers@),
                filter == query.key_filter@,
                times == query.time_range,
                blocks == metas(candidates@),
                block_runs == blocks.map_values(
                    |m: MetaView| stored_run(memtables@, index@, readers@, m, filter, times, now_us),
                ),
                run_views(runs@) == seq![mem_run] + block_runs.subrange(0, i as int),
                forall|j: int|
                    0 <= j < runs@.len() ==> (#[trigger] runs@[j]).well_formed() && version_sorted(
                        runs@[j]@.rest,
                    ),
            decreases candidates.len() - i,
        {
            let meta = &candidates[i];
            let ghost m = blocks[i as int];
            assert(m == meta@);
            let records = load_block(readers, meta.sst_id, meta.block_idx);
            assert(entries(records@) == readable(readers@, m));
            let filtered = filter_sst_block(
                &records,
                &query.key_filter,
                query.time_range,
                false,
                now_us,
                &mut noted,
            );
            let ghost unsorted = entries(filtered@);
            let sorted = sort_records(filtered);
            proof {
                lemma_stable_sorted(entries(sorted@), unsorted);
                lemma_sorted_is_version_sorted(entries(sorted@));
            }
            let left = drop_deleted(sorted, memtables, index, meta.sst_id);
            proof {
                lemma_filter_sorted(
                    block_run(readers@, m, filter, times, now_us).rest,
                    |e: Entry| still_there(memtables@, index@, m.sst_id, e.key),
                );
            }
            let ghost runs0 = run_views(runs@);
            let run = Run::new(left, meta.sst_id as u64);
            let ghost rv = run@;
            runs.push(run);
            proof {
                assert(run_views(runs@) =~= runs0.push(rv));
                assert(rv == block_runs[i as int]);
                assert(run_views(runs@) =~= seq![mem_run] + block_runs.subrange(0, i + 1));
            }
            i = i + 1;
        }
        proof {
            assert(block_runs.subrange(0, blocks.len() as int) =~= block_runs);
        }
        ScanIterator { merger: Merger::new(runs), range }
    }

    /// Gives the next record.
    pub fn next(&mut self) -> (r: Option<Record>)
        requires
            old(self).well_formed(),
        ensures
            final(self).well_formed(),
            match r {
                Some(rec) => exists|e: Entry|
                    rec@ == e.record() && #[trigger] old(self)@.yields(e, final(self)@),
                None => forall|e: Entry| !#[trigger] old(self)@.visible(e),
            },
            r is None ==> forall|e: Entry| !#[trigger] final(self)@.visible(e),
            r is Some ==> final(self)@.merge.left() < old(self)@.merge.left(),
    {
        let ghost start = self@;
        loop
            invariant
                self.well_formed(),
                start == old(self)@,
                self@.range == start.range,
                self@.merge.left() <= start.merge.left(),
                forall|f: Entry| #[trigger] self@.visible(f) <==> start.visible(f),
            decreases self@.merge.left(),
        {
            let ghost before = self@;
            match self.merger.next_version() {
                None => {
                    proof {
                        assert forall|e: Entry| !#[trigger] start.visible(e) by {
                            assert(before.visible(e) <==> start.visible(e));
                        }
                        assert forall|e: Entry| !#[trigger] self@.visible(e) by {
                            assert(!self@.merge.wins(e));
                        }
                    }
                    return None;
                },
                Some(rec) => {
                    let in_range = match &self.range {
                        Some(r) => r.contains(&rec.key, rec.ts),
                        None => true,
                    };
                    let ghost e = rec@;
                    assert(before.merge.yields(e, self@.merge));
                    if rec.op == Op::Put && in_range {
                        proof {
                            assert(before.visible(e));
                            assert(start.visible(e));
                            assert forall|f: Entry| #[trigger] start.visible(f) && f
                                != e implies entry_before(e, f) by {
                                assert(before.visible(f));
                                assert(before.merge.wins(f));
                            }
                            assert forall|f: Entry| #[trigger] self@.visible(f) <==> start.visible(
                                f,
                            ) && f != e by {
                                assert(before.visible(f) <==> start.visible(f));
                                assert(self@.merge.wins(f) <==> before.merge.wins(f) && f != e);
                            }
                            assert(start.yields(e, self@));
                        }
                        return Some(rec.into_record_owned());
                    }
                    proof {
                        assert(!before.shows(e));
                        assert forall|f: Entry| #[trigger] self@.visible(f) <==> start.visible(f) by {
                            assert(before.visible(f) <==> start.visible(f));
                            assert(self@.merge.wins(f) <==> before.merge.wins(f) && f != e);
                        }
                    }
                },
            }
        }
    }

    /// Gives all records that are left.
    pub fn collect_all(self) -> (r: Vec<Record>)
        requires
            self.well_formed(),
        ensures
            records_of(r@) == self@.records(),
            self@.gives(self@.result()),
    {
        let mut it = self;
        let ghost start = self@;
        let mut out: Vec<Record> = Vec::new();
        let ghost mut shown: Seq<Entry> = Seq::empty();
        assert(records_of(out@) =~= shown.map_values(|e: Entry| e.record()));
        loop
            invariant
                it.well_formed(),
                start == self@,
                records_of(out@) == shown.map_values(|e: Entry| e.record()),
                strictly_sorted(shown),
                forall|e: Entry| #[trigger] it@.visible(e) ==> start.visible(e) && !shown.contains(e),
                forall|e: Entry| #[trigger]
                    start.visible(e) ==> it@.visible(e) || shown.contains(e),
                forall|i: int| 0 <= i < shown.len() ==> start.visible(#[trigger] shown[i]),
                forall|i: int, e: Entry|
                    0 <= i < shown.len() && #[trigger] it@.visible(e) ==> entry_before(
                        #[trigger] shown[i],
                        e,
                    ),
            decreases it@.merge.left(),
        {
            let ghost before = it@;
            match it.next() {
                Some(rec) => {
                    let ghost e = choose|e: Entry|
                        rec@ == e.record() && #[trigger] before.yields(e, it@);
                    let ghost shown0 = shown;
                    let ghost recs = records_of(out@);
                    proof {
                        shown = shown.push(e);
                    }
                    out.push(rec);
                    proof {
                        assert(records_of(out@) =~= recs.push(e.record()));
                        assert(records_of(out@) =~= shown.map_values(|e: Entry| e.record()));
                        assert(before.visible(e));
                        assert forall|i: int, j: int| 0 <= i < j < shown.len() implies entry_before(
                            #[trigger] shown[i],
                            #[trigger] shown[j],
                        ) by {
                            if j == shown0.len() {
                                assert(shown[i] == shown0[i]);
                            } else {
                                assert(shown[i] == shown0[i] && shown[j] == shown0[j]);
                            }
                        }
                        assert forall|f: Entry| shown.contains(f) <==> shown0.contains(f) || f
                            == e by {
                            if shown0.contains(f) {
                                let i = choose|i: int| 0 <= i < shown0.len() && shown0[i] == f;
                                assert(shown[i] == f);
                            }
                            assert(shown[shown0.len() as int] == e);
                        }
                        assert forall|f: Entry| #[trigger] it@.visible(f) implies start.visible(f)
                            && !shown.contains(f) by {
                            assert(before.visible(f));
                        }
                        assert forall|f: Entry| #[trigger] start.visible(f) implies it@.visible(f)
                            || shown.contains(f) by {
                            if before.visible(f) && f != e {
                                assert(it@.visible(f));
                            }
                        }
                        assert forall|i: int, f: Entry|
                            0 <= i < shown.len() && #[trigger] it@.visible(f) implies entry_before(
                            #[trigger] shown[i],
                            f,
                        ) by {
                            assert(before.visible(f) && f != e);
                            if i < shown0.len() {
                                assert(shown[i] == shown0[i]);
                            }
                        }
                    }
                },
                None => {
                    proof {
                        assert forall|f: Entry| #[trigger] start.visible(f) implies shown.contains(
                            f,
                        ) by {
                            assert(!before.visible(f));
                        }
                        assert(start.gives(shown)) by {
                            assert forall|f: Entry| #[trigger] shown.contains(f) <==> start.visible(
                                f,
                            ) by {
                                if shown.contains(f) {
                                    let i = choose|i: int| 0 <= i < shown.len() && shown[i] == f;
                                    assert(start.visible(shown[i]));
                                }
                            }
                        }
                        lemma_scan_result(start, shown);
                    }
                    return out;
                },
            }
        }
    }
}

} // verus!
