//! Compaction: several SSTs merged into one.

use std::collections::HashMap;

use vstd::prelude::*;

use crate::bloom::{at_least_one, holds_keys, BloomFilter, BloomView};
use crate::codec::encoded;
use crate::error::{decimal, decimal_text, string_of, text2, FlowError, FlowErrorView, Result};
use crate::lz4::SURE_BLOCK_BYTES;
use crate::manifest::{
    infos, BlockInfo, BlockInfoView, ManifestState, ManifestView, SstInfo, SstInfoView,
};
use crate::merge::{run_views, MergeView, Merger, Run, RunView};
use crate::order::{
    entry_before, entry_le, lemma_stable_sorted, lemma_strictly_sorted_unique, record_le,
    sort_records, stable_sorted, strictly_sorted, version_sorted,
};
use crate::ranges::{is_masked, push_spans, span_views, KeySpan};
use crate::record::{entries, is_live, live_at, saturate, Entry, InternalRecord, Op};
use crate::scan::{lemma_filter_sorted, live_entries, readers_ok};
use crate::sstable::{
    block_capacity, blocks_fit, chunks, is_sst, keys_of, lemma_chunks_prefix, too_large, SstParts,
    SstReader, SstStreamWriter,
};

verus! {

broadcast use vstd::std_specs::hash::group_hash_axioms;

/// A record that waits in a merge, with the source it came from.
pub struct HeapEntry {
    pub record: InternalRecord,
    pub source: usize,
}

impl HeapEntry {
    /// Whether this record leaves the merge before the other: by key, then by
    /// time, and the higher sequence number first.
    pub fn precedes(&self, other: &HeapEntry) -> (r: bool)
        ensures
            r == !entry_le(other.record@, self.record@),
    {
        !record_le(&other.record, &self.record)
    }
}

/// `a` is smaller than `b`, or of the same size with a lower id.
pub open spec fn size_before(a: (u32, u64), b: (u32, u64)) -> bool {
    a.1 < b.1 || (a.1 == b.1 && a.0 < b.0)
}

/// `sized` lists the active SSTs with their sizes, smallest first, and lower
/// ids first among equal sizes.
pub open spec fn is_by_size(sized: Seq<(u32, u64)>, m: ManifestView) -> bool {
    &&& forall|i: int, j: int|
        0 <= i < j < sized.len() ==> size_before(#[trigger] sized[i], #[trigger] sized[j])
    &&& forall|i: int|
        0 <= i < sized.len() ==> m.active.contains((#[trigger] sized[i]).0)
            && m.sstables.contains_key(sized[i].0) && m.sstables[sized[i].0].bytes == sized[i].1
    &&& forall|id: u32| #[trigger]
        m.active.contains(id) && m.sstables.contains_key(id) ==> sized.contains(
            (id, m.sstables[id].bytes),
        )
}

/// The size up to which an SST is merged with the smallest one.
pub open spec fn tier_limit(sized: Seq<(u32, u64)>) -> int {
    if sized[0].1 == 0 {
        4
    } else {
        sized[0].1 * 4
    }
}

/// How many SSTs, from the smallest on, are merged: those of the smallest
/// one's size tier, and two at least.
pub open spec fn picks(sized: Seq<(u32, u64)>, n: int) -> bool {
    &&& 0 <= n <= sized.len()
    &&& if sized.len() < 2 {
        n == sized.len()
    } else {
        &&& n >= 2
        &&& forall|i: int| 2 <= i < n ==> (#[trigger] sized[i]).1 <= tier_limit(sized)
        &&& n < sized.len() ==> sized[n].1 > tier_limit(sized) || (n == 2 && sized[1].1
            > tier_limit(sized))
    }
}

/// The ids of a list of sized SSTs.
pub open spec fn ids_of(sized: Seq<(u32, u64)>) -> Seq<u32> {
    sized.map_values(|p: (u32, u64)| p.0)
}

/// The active SSTs with their sizes, smallest first.
fn by_size(state: &ManifestState) -> (r: Vec<(u32, u64)>)
    requires
        state@.well_formed(),
    ensures
        is_by_size(r@, state@),
{
    let ghost m = state@;
    let mut out: Vec<(u32, u64)> = Vec::new();
    let mut i: usize = 0;
    while i < state.active_sst_ids.len()
        invariant
            i <= state.active_sst_ids.len(),
            m == state@,
            m.well_formed(),
            forall|a: int, b: int|
                0 <= a < b < out@.len() ==> size_before(#[trigger] out@[a], #[trigger] out@[b]),
            forall|a: int|
                0 <= a < out@.len() ==> m.active.subrange(0, i as int).contains(
                    (#[trigger] out@[a]).0,
                ) && m.sstables.contains_key(out@[a].0) && m.sstables[out@[a].0].bytes
                    == out@[a].1,
            forall|j: int|
                0 <= j < i ==> out@.contains(
                    (#[trigger] m.active[j], m.sstables[m.active[j]].bytes),
                ),
        decreases state.active_sst_ids.len() - i,
    {
        let id: u32 = state.active_sst_ids[i];
        assert(m.active[i as int] == id);
        assert(m.active.contains(id));
        assert(m.sstables.contains_key(id));
        let ghost out0 = out@;
        if let Some(info) = state.sstables.get(&id) {
            let size: u64 = info.bytes;
            assert(m.sstables[id].bytes == size);
            let mut k: usize = 0;
            while k < out.len() && (out[k].1 < size || (out[k].1 == size && out[k].0 < id))
                invariant
                    k <= out.len(),
                    out@ == out0,
                    forall|a: int| 0 <= a < k ==> size_before(#[trigger] out0[a], (id, size)),
                decreases out.len() - k,
            {
                k = k + 1;
            }
            proof {
                if k < out0.len() {
                    assert(out0[k as int].0 != id) by {
                        let s = m.active.subrange(0, i as int);
                        assert(s.contains(out0[k as int].0));
                        let j = choose|j: int| 0 <= j < s.len() && s[j] == out0[k as int].0;
                        assert(m.active[j] != m.active[i as int]);
                    }
                }
            }
            out.insert(k, (id, size));
            proof {
                let t = out@;
                assert forall|a: int, b: int| 0 <= a < b < t.len() implies size_before(
                    #[trigger] t[a],
                    #[trigger] t[b],
                ) by {
                    let x = if a < k {
                        a
                    } else {
                        a - 1
                    };
                    let y = if b < k {
                        b
                    } else {
                        b - 1
                    };
                    if a != k {
                        assert(t[a] == out0[x]);
                    }
                    if b != k {
                        assert(t[b] == out0[y]);
                    }
                    if a == k && y > k {
                        assert(size_before(out0[k as int], out0[y]));
                    }
                }
                let s0 = m.active.subrange(0, i as int);
                let s1 = m.active.subrange(0, i + 1);
                assert forall|a: int| 0 <= a < t.len() implies s1.contains((#[trigger] t[a]).0)
                    && m.sstables.contains_key(t[a].0) && m.sstables[t[a].0].bytes == t[a].1 by {
                    if a == k {
                        assert(s1[i as int] == id);
                    } else {
                        let x = if a < k {
                            a
                        } else {
                            a - 1
                        };
                        assert(t[a] == out0[x]);
                        let j = choose|j: int| 0 <= j < s0.len() && s0[j] == out0[x].0;
                        assert(s1[j] == out0[x].0);
                    }
                }
                assert forall|j: int| 0 <= j < i + 1 implies t.contains(
                    (#[trigger] m.active[j], m.sstables[m.active[j]].bytes),
                ) by {
                    let e = (m.active[j], m.sstables[m.active[j]].bytes);
                    if j < i {
                        let x = choose|x: int| 0 <= x < out0.len() && out0[x] == e;
                        if x < k {
                            assert(t[x] == e);
                        } else {
                            assert(t[x + 1] == e);
                        }
                    } else {
                        assert(t[k as int] == e);
                    }
                }
            }
        }
        i = i + 1;
    }
    proof {
        assert(m.active.subrange(0, m.active.len() as int) =~= m.active);
        assert forall|id: u32| #[trigger]
            m.active.contains(id) && m.sstables.contains_key(id) implies out@.contains(
            (id, m.sstables[id].bytes),
        ) by {
            let j = choose|j: int| 0 <= j < m.active.len() && m.active[j] == id;
            assert(out@.contains((m.active[j], m.sstables[m.active[j]].bytes)));
        }
    }
    out
}

/// Picks the SSTs to merge: those of the smallest one's size tier, and two at least.
pub fn pick_compaction_candidates(state: &ManifestState) -> (r: Vec<u32>)
    requires
        state@.well_formed(),
    ensures
        exists|sized: Seq<(u32, u64)>, n: int| #[trigger]
            picks(sized, n) && is_by_size(sized, state@) && r@ == ids_of(sized.subrange(0, n)),
{
    let sized = by_size(state);
    let n: usize = if sized.len() < 2 {
        sized.len()
    } else {
        let smallest: u64 = sized[0].1;
        let limit: u64 = if smallest == 0 {
            4
        } else if smallest > u64::MAX / 4 {
            u64::MAX
        } else {
            smallest * 4
        };
        let mut k: usize = 1;
        while k < sized.len() && sized[k].1 <= limit
            invariant
                1 <= k <= sized.len(),
                limit == u64::MAX || limit == tier_limit(sized@),
                limit == u64::MAX ==> tier_limit(sized@) >= u64::MAX,
                forall|i: int| 1 <= i < k ==> (#[trigger] sized@[i]).1 <= tier_limit(sized@),
            decreases sized.len() - k,
        {
            k = k + 1;
        }
        if k < 2 {
            2
        } else {
            k
        }
    };
    let mut out: Vec<u32> = Vec::new();
    let mut i: usize = 0;
    assert(out@ =~= ids_of(sized@.subrange(0, 0)));
    while i < n
        invariant
            i <= n <= sized.len(),
            out@ == ids_of(sized@.subrange(0, i as int)),
        decreases n - i,
    {
        out.push(sized[i].0);
        assert(out@ =~= ids_of(sized@.subrange(0, i + 1)));
        i = i + 1;
    }
    assert(picks(sized@, n as int));
    out
}

/// Holds of the numbers that are not below all those picked.
pub open spec fn from_lowest(picked: Seq<u32>) -> spec_fn(u32) -> bool {
    |id: u32| exists|i: int| 0 <= i < picked.len() && #[trigger] picked[i] <= id
}

/// The active SSTs that are merged: from the lowest number picked on, so that
/// the new SST, which gets the highest number, is newer than all that stay.
pub open spec fn widened(active: Seq<u32>, picked: Seq<u32>) -> Seq<u32> {
    active.filter(from_lowest(picked))
}

/// Whether a number is not below all those picked.
fn is_from_lowest(picked: &Vec<u32>, id: u32) -> (r: bool)
    ensures
        r == from_lowest(picked@)(id),
{
    let mut i: usize = 0;
    while i < picked.len()
        invariant
            i <= picked.len(),
            forall|j: int| 0 <= j < i ==> #[trigger] picked@[j] > id,
        decreases picked.len() - i,
    {
        if picked[i] <= id {
            return true;
        }
        i = i + 1;
    }
    false
}

fn widen(state: &ManifestState, picked: &Vec<u32>) -> (r: Vec<u32>)
    ensures
        r@ == widened(state@.active, picked@),
{
    let ghost all = state@.active;
    let ghost p = from_lowest(picked@);
    let mut out: Vec<u32> = Vec::new();
    let mut i: usize = 0;
    assert(out@ =~= all.subrange(0, 0).filter(p));
    while i < state.active_sst_ids.len()
        invariant
            i <= state.active_sst_ids.len(),
            all == state@.active,
            p == from_lowest(picked@),
            out@ == all.subrange(0, i as int).filter(p),
        decreases state.active_sst_ids.len() - i,
    {
        let id: u32 = state.active_sst_ids[i];
        proof {
            assert(all[i as int] == id);
            assert(all.subrange(0, i + 1) =~= all.subrange(0, i as int).push(id));
            all.subrange(0, i as int).lemma_filter_push(id, p);
        }
        if is_from_lowest(picked, id) {
            out.push(id);
        }
        i = i + 1;
    }
    assert(all.subrange(0, all.len() as int) =~= all);
    out
}

/// The key ranges that the SSTs delete from older ones.
pub open spec fn ranges_of(ids: Seq<u32>, m: ManifestView) -> Seq<(Seq<u8>, Seq<u8>)>
    decreases ids.len(),
{
    if ids.len() == 0 {
        Seq::empty()
    } else if m.sstables.contains_key(ids.last()) {
        ranges_of(ids.drop_last(), m) + m.sstables[ids.last()].ranges
    } else {
        ranges_of(ids.drop_last(), m)
    }
}

fn gather_ranges(ids: &Vec<u32>, state: &ManifestState) -> (r: Vec<KeySpan>)
    ensures
        span_views(r@) == ranges_of(ids@, state@),
{
    let mut out: Vec<KeySpan> = Vec::new();
    let mut i: usize = 0;
    assert(span_views(out@) =~= Seq::<(Seq<u8>, Seq<u8>)>::empty());
    while i < ids.len()
        invariant
            i <= ids.len(),
            span_views(out@) == ranges_of(ids@.subrange(0, i as int), state@),
        decreases ids.len() - i,
    {
        assert(ids@.subrange(0, i + 1).drop_last() =~= ids@.subrange(0, i as int));
        if let Some(info) = state.sstables.get(&ids[i]) {
            assert(state@.sstables[ids@[i as int]] == info@);
            push_spans(&mut out, &info.ranges);
        }
        i = i + 1;
    }
    assert(ids@.subrange(0, ids@.len() as int) =~= ids@);
    out
}

/// Whether an SST with a higher number than `id` deletes the key.
fn covered_above(state: &ManifestState, id: u32, key: &[u8]) -> (r: bool)
    requires
        state@.well_formed(),
    ensures
        r == state@.covers_above(id, key@),
{
    let ghost m = state@;
    let mut i: usize = 0;
    while i < state.active_sst_ids.len()
        invariant
            i <= state.active_sst_ids.len(),
            m == state@,
            m.well_formed(),
            forall|k: int|
                0 <= k < i && #[trigger] m.active[k] > id ==> !m.deletes(m.active[k], key@),
        decreases state.active_sst_ids.len() - i,
    {
        let j: u32 = state.active_sst_ids[i];
        assert(m.active[i as int] == j);
        if j > id {
            if let Some(info) = state.sstables.get(&j) {
                assert(m.sstables[j] == info@);
                if is_masked(&info.ranges, key) {
                    assert(m.deletes(j, key@));
                    return true;
                }
            }
        }
        i = i + 1;
    }
    proof {
        assert forall|j: u32| j > id implies !#[trigger] m.deletes(j, key@) by {
            if m.deletes(j, key@) {
                assert(m.active.contains(j));
                let k = choose|k: int| 0 <= k < m.active.len() && m.active[k] == j;
                assert(m.active[k] > id);
            }
        }
    }
    false
}

/// Keeps what no SST with a higher number than `id` deletes by range.
fn drop_covered(records: Vec<InternalRecord>, state: &ManifestState, id: u32) -> (r: Vec<
    InternalRecord,
>)
    requires
        state@.well_formed(),
    ensures
        entries(r@) == entries(records@).filter(|e: Entry| !state@.covers_above(id, e.key)),
{
    let ghost all = entries(records@);
    let ghost p = |e: Entry| !state@.covers_above(id, e.key);
    let mut out: Vec<InternalRecord> = Vec::new();
    let mut i: usize = 0;
    assert(all.subrange(0, 0).filter(p) =~= Seq::<Entry>::empty());
    assert(entries(out@) =~= Seq::<Entry>::empty());
    while i < records.len()
        invariant
            i <= records.len(),
            state@.well_formed(),
            all == entries(records@),
            p == (|e: Entry| !state@.covers_above(id, e.key)),
            entries(out@) == all.subrange(0, i as int).filter(p),
        decreases records.len() - i,
    {
        let rec = &records[i];
        let ghost before = entries(out@);
        proof {
            assert(all.subrange(0, i + 1) =~= all.subrange(0, i as int).push(rec@));
            all.subrange(0, i as int).lemma_filter_push(rec@, p);
        }
        if !covered_above(state, id, &rec.key) {
            out.push(rec.copy());
            assert(entries(out@) =~= before.push(rec@));
        }
        i = i + 1;
    }
    assert(all.subrange(0, all.len() as int) =~= all);
    out
}

/// The live entries of block `k` that no range deletion in the same SST covers;
/// none where it cannot be read.
pub open spec fn live_block(reader: SstReader, k: u32, now: i64) -> Seq<Entry> {
    live_entries(reader.left_in(k), now)
}

/// The live entries of the first `n` blocks, one block after the other.
pub open spec fn live_blocks(reader: SstReader, n: u32, now: i64) -> Seq<Entry>
    decreases n,
{
    if n == 0 {
        Seq::empty()
    } else {
        live_blocks(reader, (n - 1) as u32, now) + live_block(reader, (n - 1) as u32, now)
    }
}

/// The number of blocks that a reader counts.
pub open spec fn block_total(reader: SstReader) -> u32 {
    reader.starts().len() as u32
}

/// The run that an SST contributes to a compaction: its live entries that no
/// SST with a higher number deletes by range.
pub open spec fn sst_run(reader: SstReader, m: ManifestView, now: i64) -> RunView {
    RunView {
        rank: reader.id() as u64,
        rest: stable_sorted(live_blocks(reader, block_total(reader), now)).filter(
            |e: Entry| !m.covers_above(reader.id(), e.key),
        ),
    }
}

/// The runs that the SSTs contribute, as far as they are there and not empty.
pub open spec fn sst_runs(
    ids: Seq<u32>,
    readers: Map<u32, SstReader>,
    m: ManifestView,
    now: i64,
) -> Seq<RunView>
    decreases ids.len(),
{
    if ids.len() == 0 {
        Seq::empty()
    } else {
        let before = sst_runs(ids.drop_last(), readers, m, now);
        if readers.contains_key(ids.last()) && block_total(readers[ids.last()]) != 0 {
            before.push(sst_run(readers[ids.last()], m, now))
        } else {
            before
        }
    }
}

/// Every SST has a reader.
pub open spec fn all_open(ids: Seq<u32>, readers: Map<u32, SstReader>) -> bool {
    forall|i: int| 0 <= i < ids.len() ==> readers.contains_key(#[trigger] ids[i])
}

/// The SST at `k` is the first without a reader.
pub open spec fn first_unopened(ids: Seq<u32>, readers: Map<u32, SstReader>, k: int) -> bool {
    &&& 0 <= k < ids.len()
    &&& !readers.contains_key(ids[k])
    &&& all_open(ids.subrange(0, k), readers)
}

pub open spec fn unopened(id: u32) -> FlowErrorView {
    FlowErrorView::Corruption { file: "sst_"@ + decimal(id as nat), msg: "cannot be opened"@ }
}

/// Finds the first SST without a reader.
fn find_unopened(ids: &Vec<u32>, readers: &HashMap<u32, SstReader>) -> (r: Option<FlowError>)
    ensures
        match r {
            Some(e) => exists|k: int| #[trigger]
                first_unopened(ids@, readers@, k) && e@ == unopened(ids@[k]),
            None => all_open(ids@, readers@),
        },
        r is Some ==> !all_open(ids@, readers@),
{
    let mut i: usize = 0;
    while i < ids.len()
        invariant
            i <= ids.len(),
            forall|j: int| 0 <= j < i ==> readers@.contains_key(#[trigger] ids@[j]),
        decreases ids.len() - i,
    {
        if readers.get(&ids[i]).is_none() {
            assert(first_unopened(ids@, readers@, i as int));
            return Some(
                FlowError::Corruption {
                    file: text2("sst_", &decimal_text(ids[i] as u64)),
                    msg: string_of("cannot be opened"),
                },
            );
        }
        i = i + 1;
    }
    None
}

/// Reads the live records of an SST. A block that cannot be read is skipped.
fn load_live(reader: &SstReader, now_us: i64) -> (r: Vec<InternalRecord>)
    requires
        reader.well_formed(),
    ensures
        entries(r@) == live_blocks(*reader, block_total(*reader), now_us),
{
    let count: u32 = reader.block_count();
    let ghost p = |e: Entry| live_at(e.expire_at, now_us);
    let mut out: Vec<InternalRecord> = Vec::new();
    let mut k: u32 = 0;
    assert(entries(out@) =~= live_blocks(*reader, 0, now_us));
    while k < count
        invariant
            k <= count,
            reader.well_formed(),
            p == (|e: Entry| live_at(e.expire_at, now_us)),
            entries(out@) == live_blocks(*reader, k, now_us),
        decreases count - k,
    {
        let ghost before = entries(out@);
        let records = reader.read_left(k);
        let ghost all = entries(records@);
        let mut i: usize = 0;
        assert(all.subrange(0, 0).filter(p) =~= Seq::<Entry>::empty());
        assert(before + Seq::<Entry>::empty() =~= before);
        while i < records.len()
            invariant
                i <= records.len(),
                all == entries(records@),
                p == (|e: Entry| live_at(e.expire_at, now_us)),
                entries(out@) == before + all.subrange(0, i as int).filter(p),
            decreases records.len() - i,
        {
            let ghost so_far = entries(out@);
            proof {
                assert(all.subrange(0, i + 1) =~= all.subrange(0, i as int).push(all[i as int]));
                all.subrange(0, i as int).lemma_filter_push(all[i as int], p);
                assert(all[i as int] == records@[i as int]@);
            }
            if is_live(records[i].expire_at, now_us) {
                out.push(records[i].copy());
                assert(entries(out@) =~= so_far.push(all[i as int]));
                assert(entries(out@) =~= before + all.subrange(0, i + 1).filter(p));
            }
            i = i + 1;
        }
        assert(all.subrange(0, all.len() as int) =~= all);
        k = k + 1;
    }
    out
}

/// A compaction keeps `e`: a put, and where older SSTs stay a deletion too.
pub open spec fn is_kept(e: Entry, deletions: bool) -> bool {
    e.op == Op::Put || (deletions && e.op == Op::Delete)
}

/// `out` holds what wins the merge and is kept, in rising order.
pub open spec fn is_merged(out: Seq<Entry>, v: MergeView, deletions: bool) -> bool {
    &&& strictly_sorted(out)
    &&& forall|e: Entry| #[trigger] out.contains(e) <==> v.wins(e) && is_kept(e, deletions)
}

/// What wins the merge of the runs and is kept, in rising order.
pub open spec fn merged(runs: Seq<RunView>, deletions: bool) -> Seq<Entry> {
    choose|out: Seq<Entry>| is_merged(out, MergeView { runs, last: None }, deletions)
}

pub proof fn lemma_merged(out: Seq<Entry>, runs: Seq<RunView>, deletions: bool)
    requires
        is_merged(out, MergeView { runs, last: None }, deletions),
    ensures
        merged(runs, deletions) == out,
{
    let v = MergeView { runs, last: None };
    let r = merged(runs, deletions);
    assert(is_merged(r, v, deletions));
    assert forall|e: Entry| r.contains(e) <==> #[trigger] out.contains(e) by {
        assert(r.contains(e) <==> v.wins(e) && is_kept(e, deletions));
    }
    lemma_strictly_sorted_unique(r, out);
}

/// Merges runs and keeps the puts, and the deletions where these are asked for.
fn merge_runs(runs: Vec<Run>, deletions: bool) -> (r: Vec<InternalRecord>)
    requires
        forall|i: int|
            0 <= i < runs@.len() ==> (#[trigger] runs@[i]).well_formed() && version_sorted(
                runs@[i]@.rest,
            ),
    ensures
        is_merged(entries(r@), MergeView { runs: run_views(runs@), last: None }, deletions),
        entries(r@) == merged(run_views(runs@), deletions),
{
    let ghost start = MergeView { runs: run_views(runs@), last: None };
    let mut merger = Merger::new(runs);
    let mut out: Vec<InternalRecord> = Vec::new();
    loop
        invariant
            merger.well_formed(),
            start == (MergeView { runs: run_views(runs@), last: None }),
            strictly_sorted(entries(out@)),
            forall|i: int|
                0 <= i < out@.len() ==> start.wins(#[trigger] entries(out@)[i]) && is_kept(
                    entries(out@)[i],
                    deletions,
                ),
            forall|e: Entry| #[trigger] merger@.wins(e) ==> start.wins(e),
            forall|e: Entry| #[trigger]
                start.wins(e) && is_kept(e, deletions) ==> merger@.wins(e) || entries(out@).contains(e),
            forall|i: int, e: Entry|
                0 <= i < out@.len() && #[trigger] merger@.wins(e) ==> entry_before(
                    #[trigger] entries(out@)[i],
                    e,
                ),
        decreases merger@.left(),
    {
        let ghost before = merger@;
        let ghost out0 = entries(out@);
        match merger.next_version() {
            Some(rec) => {
                let ghost e = rec@;
                let put = rec.op == Op::Put || (deletions && rec.op == Op::Delete);
                if put {
                    out.push(rec);
                    assert(entries(out@) =~= out0.push(e));
                }
                proof {
                    let out1 = entries(out@);
                    assert forall|f: Entry| #[trigger] merger@.wins(f) implies start.wins(f) by {
                        assert(before.wins(f));
                    }
                    assert(before.wins(e));
                    if put {
                        assert forall|i: int, j: int| 0 <= i < j < out1.len() implies entry_before(
                            #[trigger] out1[i],
                            #[trigger] out1[j],
                        ) by {
                            if j == out0.len() {
                                assert(out1[i] == out0[i]);
                            } else {
                                assert(out1[i] == out0[i] && out1[j] == out0[j]);
                            }
                        }
                        assert(out1[out0.len() as int] == e);
                    }
                    assert forall|f: Entry| #[trigger] start.wins(f) && is_kept(f, deletions) implies merger@.wins(
                        f,
                    ) || out1.contains(f) by {
                        if out0.contains(f) {
                            let i = choose|i: int| 0 <= i < out0.len() && out0[i] == f;
                            assert(out1[i] == f);
                        } else {
                            assert(before.wins(f));
                            if f != e {
                                assert(merger@.wins(f));
                            }
                        }
                    }
                    assert forall|i: int, f: Entry|
                        0 <= i < out1.len() && #[trigger] merger@.wins(f) implies entry_before(
                        #[trigger] out1[i],
                        f,
                    ) by {
                        assert(before.wins(f) && f != e);
                        if i < out0.len() {
                            assert(out1[i] == out0[i]);
                        }
                    }
                }
            },
            None => {
                proof {
                    let out1 = entries(out@);
                    assert forall|f: Entry| #[trigger] out1.contains(f) <==> start.wins(f)
                        && is_kept(f, deletions) by {
                        if out1.contains(f) {
                            let i = choose|i: int| 0 <= i < out1.len() && out1[i] == f;
                            assert(start.wins(out1[i]));
                        }
                        if start.wins(f) && is_kept(f, deletions) {
                            assert(!before.wins(f));
                        }
                    }
                    lemma_merged(out1, run_views(runs@), deletions);
                }
                return out;
            },
        }
    }
}

/// The largest and smallest values in an SST's description are those of its
/// blocks; one that deletes key ranges never expires as a whole.
pub open spec fn sums_up(info: SstInfoView, blocks: Seq<BlockInfoView>) -> bool {
    &&& forall|i: int|
        0 <= i < blocks.len() ==> {
            let b = #[trigger] blocks[i];
            &&& info.min_ts <= b.min_ts
            &&& b.max_ts <= info.max_ts
            &&& info.min_expire <= b.min_expire
            &&& b.max_expire <= info.max_expire
        }
    &&& info.ranges.len() > 0 ==> info.max_expire == i64::MAX
    &&& if blocks.len() == 0 {
        info.min_ts == 0 && info.max_ts == 0 && info.min_expire == 0 && (info.ranges.len() == 0
            ==> info.max_expire == 0)
    } else {
        &&& exists|i: int| 0 <= i < blocks.len() && (#[trigger] blocks[i]).min_ts == info.min_ts
        &&& exists|i: int| 0 <= i < blocks.len() && (#[trigger] blocks[i]).max_ts == info.max_ts
        &&& exists|i: int|
            0 <= i < blocks.len() && (#[trigger] blocks[i]).min_expire == info.min_expire
        &&& info.ranges.len() == 0 ==> exists|i: int|
            0 <= i < blocks.len() && (#[trigger] blocks[i]).max_expire == info.max_expire
    }
}

/// Describes an SST by its blocks.
pub fn sum_up(
    id: u32,
    records: u64,
    bytes: u64,
    blocks: &Vec<BlockInfo>,
    bloom: Option<BloomFilter>,
    ranges: Vec<KeySpan>,
) -> (r: SstInfo)
    ensures
        sums_up(r@, infos(blocks@)),
        r.id == id,
        r.records == records,
        r.bytes == bytes,
        r.bloom == bloom,
        r.ranges == ranges,
{
    let mut info = SstInfo {
        id,
        records,
        bytes,
        min_ts: 0,
        max_ts: 0,
        min_expire: 0,
        max_expire: 0,
        bloom,
        ranges,
    };
    let ghost all = infos(blocks@);
    if blocks.len() > 0 {
        info.min_ts = blocks[0].min_ts;
        info.max_ts = blocks[0].max_ts;
        info.min_expire = blocks[0].min_expire;
        info.max_expire = blocks[0].max_expire;
        let mut i: usize = 1;
        let ghost mut w: (int, int, int, int) = (0, 0, 0, 0);
        assert(all[0] == blocks@[0]@);
        while i < blocks.len()
            invariant
                1 <= i <= blocks.len(),
                all == infos(blocks@),
                info.id == id,
                info.records == records,
                info.bytes == bytes,
                info.bloom == bloom,
                info.ranges == ranges,
                0 <= w.0 < i,
                0 <= w.1 < i,
                0 <= w.2 < i,
                0 <= w.3 < i,
                all[w.0].min_ts == info.min_ts,
                all[w.1].max_ts == info.max_ts,
                all[w.2].min_expire == info.min_expire,
                all[w.3].max_expire == info.max_expire,
                forall|j: int|
                    0 <= j < i ==> {
                        let b = #[trigger] all[j];
                        &&& info.min_ts <= b.min_ts
                        &&& b.max_ts <= info.max_ts
                        &&& info.min_expire <= b.min_expire
                        &&& b.max_expire <= info.max_expire
                    },
            decreases blocks.len() - i,
        {
            let b = &blocks[i];
            assert(all[i as int] == b@);
            if b.min_ts < info.min_ts {
                info.min_ts = b.min_ts;
                proof {
                    w.0 = i as int;
                }
            }
            if b.max_ts > info.max_ts {
                info.max_ts = b.max_ts;
                proof {
                    w.1 = i as int;
                }
            }
            if b.min_expire < info.min_expire {
                info.min_expire = b.min_expire;
                proof {
                    w.2 = i as int;
                }
            }
            if b.max_expire > info.max_expire {
                info.max_expire = b.max_expire;
                proof {
                    w.3 = i as int;
                }
            }
            i = i + 1;
        }
        assert(all[w.0].min_ts == info@.min_ts);
        assert(all[w.1].max_ts == info@.max_ts);
        assert(all[w.2].min_expire == info@.min_expire);
        assert(all[w.3].max_expire == info@.max_expire);
    }
    if info.ranges.len() > 0 {
        info.max_expire = i64::MAX;
    }
    info
}

/// An SST that is to be written.
pub struct NewSst {
    pub info: SstInfo,
    pub blocks: Vec<BlockInfo>,
    pub data: Vec<u8>,
}

/// The outcome of a compaction: the SSTs that go, and the one that comes in
/// their place, if anything is left of them.
pub struct CompactionPlan {
    pub removed: Vec<u32>,
    pub added: Option<NewSst>,
}

/// The number of records that the SSTs are known to hold, as far as it fits.
pub open spec fn known_records(ids: Seq<u32>, m: ManifestView) -> usize
    decreases ids.len(),
{
    if ids.len() == 0 {
        0
    } else {
        let before = known_records(ids.drop_last(), m);
        if m.sstables.contains_key(ids.last()) {
            saturate(before + m.sstables[ids.last()].records)
        } else {
            before
        }
    }
}

fn count_records(ids: &Vec<u32>, state: &ManifestState) -> (r: usize)
    ensures
        r == known_records(ids@, state@),
{
    let mut total: usize = 0;
    let mut i: usize = 0;
    assert(ids@.subrange(0, 0) =~= Seq::<u32>::empty());
    while i < ids.len()
        invariant
            i <= ids.len(),
            total == known_records(ids@.subrange(0, i as int), state@),
        decreases ids.len() - i,
    {
        assert(ids@.subrange(0, i + 1).drop_last() =~= ids@.subrange(0, i as int));
        if let Some(info) = state.sstables.get(&ids[i]) {
            let n: u64 = info.records;
            assert(state@.sstables[ids@[i as int]].records == n);
            if n > (usize::MAX - total) as u64 {
                total = usize::MAX;
            } else {
                total = total + n as usize;
            }
        }
        i = i + 1;
    }
    assert(ids@.subrange(0, ids@.len() as int) =~= ids@);
    total
}

/// Merges SSTs of one size tier.
pub struct CompactionRunner {
    pub block_size: usize,
    pub bloom_bits_per_key: usize,
    pub compaction_threshold: usize,
}

impl CompactionRunner {
    pub fn new(block_size: usize, bloom_bits_per_key: usize, compaction_threshold: usize) -> (r:
        CompactionRunner)
        ensures
            r.block_size == block_size,
            r.bloom_bits_per_key == bloom_bits_per_key,
            r.compaction_threshold == compaction_threshold,
    {
        CompactionRunner { block_size, bloom_bits_per_key, compaction_threshold }
    }

    /// Whether there are enough SSTs for a compaction.
    pub fn should_compact(&self, state: &ManifestState) -> (r: bool)
        ensures
            r == (state@.active.len() >= self.compaction_threshold),
    {
        state.active_sst_ids.len() >= self.compaction_threshold
    }

    /// `new` holds the entries `out`, and deletes the key ranges from older SSTs.
    pub open spec fn holds(
        self,
        new: NewSst,
        id: u32,
        out: Seq<Entry>,
        ranges: Seq<(Seq<u8>, Seq<u8>)>,
        estimate: usize,
    ) -> bool {
        &&& is_sst(out, block_capacity(self.block_size), infos(new.blocks@), new.data@)
        &&& sums_up(new.info@, infos(new.blocks@))
        &&& new.info@.ranges == ranges
        &&& new.info.id == id
        &&& new.info.records == out.len()
        &&& new.info.bytes == new.data@.len()
        &&& new.info.bloom is Some
        &&& holds_keys(
            BloomView::blank(at_least_one(estimate as int), self.bloom_bits_per_key as int),
            keys_of(out),
            new.info.bloom->0@,
        )
        &&& new.info.bloom->0.well_formed()
    }

    /// What a compaction of the SSTs `ids` comes to: an error where one of them
    /// cannot be opened. Deletions and deleted key ranges stay as long as older
    /// SSTs do.
    pub open spec fn comes_to(
        self,
        ids: Seq<u32>,
        state: ManifestView,
        readers: Map<u32, SstReader>,
        new_id: u32,
        now: i64,
        r: Result<Option<CompactionPlan>>,
    ) -> bool {
        let runs = sst_runs(ids, readers, state, now);
        let all_ranges = ranges_of(ids, state);
        let older = ids.len() < state.active.len();
        let out = merged(runs, older);
        let ranges = if older {
            all_ranges
        } else {
            Seq::empty()
        };
        let wanted = state.active.len() >= self.compaction_threshold && ids.len() > 0;
        let due = wanted && (runs.len() > 0 || all_ranges.len() > 0);
        if wanted && !all_open(ids, readers) {
            r matches Err(e) && exists|k: int| #[trigger]
                first_unopened(ids, readers, k) && e@ == unopened(ids[k])
        } else {
            match r {
                Ok(None) => !due,
                Ok(Some(plan)) => {
                    &&& due
                    &&& plan.removed@ == ids
                    &&& is_merged(out, MergeView { runs, last: None }, older)
                    &&& match plan.added {
                        Some(new) => (out.len() > 0 || ranges.len() > 0) && self.holds(
                            new,
                            new_id,
                            out,
                            ranges,
                            known_records(ids, state),
                        ),
                        None => out.len() == 0 && ranges.len() == 0,
                    }
                },
                Err(e) => {
                    &&& due
                    &&& is_merged(out, MergeView { runs, last: None }, older)
                    &&& !blocks_fit(chunks(out, block_capacity(self.block_size)))
                    &&& e@ == too_large()
                },
            }
        }
    }

    /// Merges the SSTs of the smallest size tier, and those with higher numbers,
    /// into one. Of several versions of one `(key, ts)` the one in the SST with
    /// the highest id stays, unless a later range deletion covers it; expired
    /// records go, and deletions too where no older SST stays. Fails where one of
    /// the SSTs cannot be opened.
    pub fn run(
        &self,
        state: &ManifestState,
        readers: &HashMap<u32, SstReader>,
        new_id: u32,
        now_us: i64,
    ) -> (r: Result<Option<CompactionPlan>>)
        requires
            state@.well_formed(),
            readers_ok(readers@),
        ensures
            exists|sized: Seq<(u32, u64)>, n: int| #[trigger]
                picks(sized, n) && is_by_size(sized, state@) && self.comes_to(
                    widened(state@.active, ids_of(sized.subrange(0, n))),
                    state@,
                    readers@,
                    new_id,
                    now_us,
                    r,
                ),
    {
        let picked = pick_compaction_candidates(state);
        let ghost (sized, n) = choose|sized: Seq<(u32, u64)>, n: int| #[trigger]
            picks(sized, n) && is_by_size(sized, state@) && picked@ == ids_of(sized.subrange(0, n));
        let candidates = widen(state, &picked);
        let ghost ids = candidates@;
        let ghost older = ids.len() < state@.active.len();
        if !self.should_compact(state) || candidates.len() == 0 {
            let none: Result<Option<CompactionPlan>> = Ok(None);
            assert(self.comes_to(ids, state@, readers@, new_id, now_us, none));
            return none;
        }
        if let Some(e) = find_unopened(&candidates, readers) {
            let failed: Result<Option<CompactionPlan>> = Err(e);
            assert(self.comes_to(ids, state@, readers@, new_id, now_us, failed));
            return failed;
        }
        let mut runs: Vec<Run> = Vec::new();
        let mut i: usize = 0;
        proof {
            assert(ids.subrange(0, 0) =~= Seq::<u32>::empty());
            assert(run_views(runs@) =~= Seq::<RunView>::empty());
        }
        while i < candidates.len()
            invariant
                i <= candidates.len(),
                ids == candidates@,
                state@.well_formed(),
                readers_ok(readers@),
                run_views(runs@) == sst_runs(ids.subrange(0, i as int), readers@, state@, now_us),
                forall|j: int|
                    0 <= j < runs@.len() ==> (#[trigger] runs@[j]).well_formed() && version_sorted(
                        runs@[j]@.rest,
                    ),
            decreases candidates.len() - i,
        {
            let id: u32 = candidates[i];
            assert(ids.subrange(0, i + 1).drop_last() =~= ids.subrange(0, i as int));
            if let Some(reader) = readers.get(&id) {
                assert(readers@.contains_key(id));
                if reader.block_count() != 0 {
                    let records = load_live(reader, now_us);
                    let ghost unsorted = entries(records@);
                    let sorted = sort_records(records);
                    proof {
                        lemma_stable_sorted(entries(sorted@), unsorted);
                        lemma_filter_sorted(
                            entries(sorted@),
                            |e: Entry| !state@.covers_above(id, e.key),
                        );
                    }
                    let left = drop_covered(sorted, state, id);
                    let ghost before = run_views(runs@);
                    let run = Run::new(left, id as u64);
                    let ghost rv = run@;
                    runs.push(run);
                    assert(run_views(runs@) =~= before.push(rv));
                }
            }
            i = i + 1;
        }
        assert(ids.subrange(0, ids.len() as int) =~= ids);
        let gathered = gather_ranges(&candidates, state);
        if runs.len() == 0 && gathered.len() == 0 {
            let none: Result<Option<CompactionPlan>> = Ok(None);
            assert(self.comes_to(ids, state@, readers@, new_id, now_us, none));
            return none;
        }
        let keep = candidates.len() < state.active_sst_ids.len();
        let ranges: Vec<KeySpan> = if keep {
            gathered
        } else {
            Vec::new()
        };
        assert(!older ==> span_views(ranges@) =~= Seq::<(Seq<u8>, Seq<u8>)>::empty());
        let merged = merge_runs(runs, keep);
        let ghost out = entries(merged@);
        if merged.len() == 0 && ranges.len() == 0 {
            let plan: Result<Option<CompactionPlan>> = Ok(
                Some(CompactionPlan { removed: candidates, added: None }),
            );
            assert(self.comes_to(ids, state@, readers@, new_id, now_us, plan));
            return plan;
        }
        let estimate = count_records(&candidates, state);
        let r: Result<Option<CompactionPlan>> = match self.write_all(&merged, estimate) {
            Ok((data, total, blocks, bloom)) => {
                let info = sum_up(new_id, merged.len() as u64, total, &blocks, Some(bloom), ranges);
                Ok(
                    Some(
                        CompactionPlan {
                            removed: candidates,
                            added: Some(NewSst { info, blocks, data }),
                        },
                    ),
                )
            },
            Err(e) => Err(e),
        };
        assert(self.comes_to(ids, state@, readers@, new_id, now_us, r));
        r
    }

    /// Writes the merged records as one SST.
    fn write_all(&self, merged: &Vec<InternalRecord>, estimate: usize) -> (r: Result<SstParts>)
        ensures
            match r {
                Ok((data, total, block_infos, bloom)) => {
                    let out = entries(merged@);
                    let cap = block_capacity(self.block_size);
                    &&& is_sst(out, cap, infos(block_infos@), data@)
                    &&& total == data@.len()
                    &&& bloom.well_formed()
                    &&& holds_keys(
                        BloomView::blank(
                            at_least_one(estimate as int),
                            self.bloom_bits_per_key as int,
                        ),
                        keys_of(out),
                        bloom@,
                    )
                },
                Err(e) => e@ == too_large() && !blocks_fit(
                    chunks(entries(merged@), block_capacity(self.block_size)),
                ),
            },
    {
        let ghost out = entries(merged@);
        let ghost cap = block_capacity(self.block_size);
        let mut writer = match SstStreamWriter::new(
            self.block_size,
            estimate,
            self.bloom_bits_per_key,
        ) {
            Ok(w) => w,
            Err(e) => {
                return Err(e);
            },
        };
        let mut i: usize = 0;
        assert(out.subrange(0, 0) =~= Seq::<Entry>::empty());
        while i < merged.len()
            invariant
                i <= merged.len(),
                out == entries(merged@),
                cap == block_capacity(self.block_size),
                writer.well_formed(),
                writer.capacity() == cap,
                writer.blank_bloom() == BloomView::blank(
                    at_least_one(estimate as int),
                    self.bloom_bits_per_key as int,
                ),
                writer.contents() == out.subrange(0, i as int),
            decreases merged.len() - i,
        {
            let ghost before = writer;
            proof {
                before.lemma_shape();
                assert(out.subrange(0, i as int).push(out[i as int]) =~= out.subrange(0, i + 1));
            }
            match writer.write_record(&merged[i]) {
                Ok(_) => {},
                Err(e) => {
                    proof {
                        assert(out =~= before.complete().flatten() + before.pending().push(
                            out[i as int],
                        ) + out.subrange(i + 1, out.len() as int));
                        lemma_block_too_large(
                            before.complete(),
                            before.pending().push(out[i as int]),
                            out,
                            out.subrange(i + 1, out.len() as int),
                            cap,
                        );
                    }
                    return Err(e);
                },
            }
            i = i + 1;
        }
        assert(out.subrange(0, out.len() as int) =~= out);
        proof {
            writer.lemma_shape();
            if encoded(writer.pending()).len() > SURE_BLOCK_BYTES {
                assert(writer.pending().len() > 0);
                lemma_last_block_too_large(writer.complete(), writer.pending(), out, cap);
            }
        }
        writer.finish()
    }
}

/// A full block that is too large is one of the blocks of the whole.
proof fn lemma_block_too_large(
    full: Seq<Seq<Entry>>,
    block: Seq<Entry>,
    out: Seq<Entry>,
    rest: Seq<Entry>,
    cap: int,
)
    requires
        cap > 0,
        forall|i: int| 0 <= i < full.len() ==> (#[trigger] full[i]).len() == cap,
        block.len() == cap,
        out == full.flatten() + block + rest,
        encoded(block).len() > SURE_BLOCK_BYTES,
    ensures
        !blocks_fit(chunks(out, cap)),
{
    let all = full.push(block);
    full.lemma_flatten_push(block);
    lemma_chunks_prefix(all, rest, cap);
    assert(chunks(out, cap)[full.len() as int] == block);
}

/// A last block that is too large is one of the blocks of the whole.
proof fn lemma_last_block_too_large(
    full: Seq<Seq<Entry>>,
    block: Seq<Entry>,
    out: Seq<Entry>,
    cap: int,
)
    requires
        cap > 0,
        forall|i: int| 0 <= i < full.len() ==> (#[trigger] full[i]).len() == cap,
        0 < block.len() <= cap,
        out == full.flatten() + block,
        encoded(block).len() > SURE_BLOCK_BYTES,
    ensures
        !blocks_fit(chunks(out, cap)),
{
    lemma_chunks_prefix(full, block, cap);
    assert(chunks(out, cap)[full.len() as int] == block);
}

} // verus!
