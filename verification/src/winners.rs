//! Which version of a `(key, ts)` a merge takes, run by run.

use vstd::prelude::*;

use crate::block_meta_index::{IndexView, MetaView};
use crate::engine::EngineView;
use crate::engine_laws::{lemma_first_stays, lemma_one_winner};
use crate::memtable::selected;
use crate::memtables::MemView;
use crate::merge::{MergeView, RunView};
use crate::order::{
    entry_before, entry_le, lemma_before_asymmetric, lemma_filter_contains, lemma_sort_contains,
    lemma_stable_sort_exists, same_version, stable_sorted,
};
use crate::ranges::{covered, covers_at};
use crate::record::{Entry, KeyFilterView, Op, RecordView, ScanRangeView};
use crate::scan::{
    block_run, memory_run, readable, scan_of, still_there, stored_run, taken, taken_all, ScanView,
};
use crate::scan_laws::{lemma_scan_records, tops};
use crate::sstable::SstReader;

verus! {

/// The first entry of `s` for `(key, ts)`.
pub open spec fn first_for(s: Seq<Entry>, key: Seq<u8>, ts: i64) -> Option<Entry>
    decreases s.len(),
{
    if s.len() == 0 {
        None
    } else if s.first().key == key && s.first().ts == ts {
        Some(s.first())
    } else {
        first_for(s.drop_first(), key, ts)
    }
}

/// The entry that a merge of the runs takes for `(key, ts)`, and the rank of
/// its run: of the runs that have one, the first of the highest rank.
pub open spec fn winner(runs: Seq<RunView>, key: Seq<u8>, ts: i64) -> Option<(u64, Entry)>
    decreases runs.len(),
{
    if runs.len() == 0 {
        None
    } else {
        let before = winner(runs.drop_last(), key, ts);
        match first_for(runs.last().rest, key, ts) {
            Some(e) => if before is Some && (before->0).0 >= runs.last().rank {
                before
            } else {
                Some((runs.last().rank, e))
            },
            None => before,
        }
    }
}

/// Where the first entry for `(key, ts)` stands.
pub proof fn lemma_first_for(s: Seq<Entry>, key: Seq<u8>, ts: i64) -> (p: int)
    ensures
        match first_for(s, key, ts) {
            Some(e) => {
                &&& 0 <= p < s.len()
                &&& s[p] == e
                &&& e.key == key
                &&& e.ts == ts
                &&& forall|q: int| 0 <= q < p ==> !same_version(#[trigger] s[q], e)
            },
            None => forall|q: int|
                0 <= q < s.len() ==> !((#[trigger] s[q]).key == key && s[q].ts == ts),
        },
    decreases s.len(),
{
    if s.len() == 0 {
        0
    } else if s.first().key == key && s.first().ts == ts {
        0
    } else {
        let t = s.drop_first();
        let p = lemma_first_for(t, key, ts);
        match first_for(t, key, ts) {
            Some(e) => {
                assert(s[p + 1] == t[p]);
                assert forall|q: int| 0 <= q < p + 1 implies !same_version(#[trigger] s[q], e) by {
                    if q > 0 {
                        assert(t[q - 1] == s[q]);
                    }
                }
            },
            None => {
                assert forall|q: int| 0 <= q < s.len() implies !((#[trigger] s[q]).key == key
                    && s[q].ts == ts) by {
                    if q > 0 {
                        assert(t[q - 1] == s[q]);
                    }
                }
            },
        }
        p + 1
    }
}

/// The run has an entry for `(key, ts)`.
pub open spec fn has_version(s: Seq<Entry>, key: Seq<u8>, ts: i64) -> bool {
    first_for(s, key, ts) is Some
}

/// Where the winner stands.
pub proof fn lemma_winner(runs: Seq<RunView>, key: Seq<u8>, ts: i64) -> (i: int)
    ensures
        match winner(runs, key, ts) {
            Some((r, e)) => {
                &&& 0 <= i < runs.len()
                &&& runs[i].rank == r
                &&& first_for(runs[i].rest, key, ts) == Some(e)
                &&& forall|j: int|
                    0 <= j < runs.len() && has_version((#[trigger] runs[j]).rest, key, ts)
                        ==> runs[j].rank < r || (runs[j].rank == r && j >= i)
            },
            None => forall|j: int|
                0 <= j < runs.len() ==> !has_version((#[trigger] runs[j]).rest, key, ts),
        },
    decreases runs.len(),
{
    if runs.len() == 0 {
        0
    } else {
        let t = runs.drop_last();
        let n = runs.len() - 1;
        let i = lemma_winner(t, key, ts);
        assert forall|j: int| 0 <= j < n implies #[trigger] runs[j] == t[j] by {}
        if winner(runs, key, ts) == winner(t, key, ts) && winner(t, key, ts) is Some {
            assert(runs[i] == t[i]);
            i
        } else {
            n
        }
    }
}

/// What wins a merge is the winner.
pub proof fn lemma_wins(runs: Seq<RunView>, e: Entry)
    ensures
        (MergeView { runs, last: None }).wins(e) <==> winner(runs, e.key, e.ts) is Some && (winner(
            runs,
            e.key,
            e.ts,
        )->0).1 == e,
{
    let v = MergeView { runs, last: None };
    let i = lemma_winner(runs, e.key, e.ts);
    match winner(runs, e.key, e.ts) {
        Some((r, f)) => {
            let p = lemma_first_for(runs[i].rest, e.key, e.ts);
            assert(v.wins_at(i, p, f)) by {
                assert forall|j: int, q: int|
                    0 <= j < runs.len() && v.outranks(j, i) && 0 <= q
                        < runs[j].rest.len() implies !same_version(
                    #[trigger] runs[j].rest[q],
                    f,
                ) by {
                    let z = lemma_first_for(runs[j].rest, e.key, e.ts);
                    assert(!has_version(runs[j].rest, e.key, e.ts));
                }
            }
            assert(v.wins(f));
            if v.wins(e) {
                lemma_one_winner(v, e, f);
            }
        },
        None => {
            if v.wins(e) {
                let (j, q) = choose|j: int, q: int| #[trigger] v.wins_at(j, q, e);
                let z = lemma_first_for(runs[j].rest, e.key, e.ts);
                assert(!has_version(runs[j].rest, e.key, e.ts));
                assert(runs[j].rest[q] == e);
            }
        },
    }
}

/// A first run of the highest rank decides where it has an entry.
pub proof fn lemma_first_run_decides(first: RunView, runs: Seq<RunView>, key: Seq<u8>, ts: i64)
    requires
        forall|i: int| 0 <= i < runs.len() ==> (#[trigger] runs[i]).rank <= first.rank,
    ensures
        winner(seq![first] + runs, key, ts) == match first_for(first.rest, key, ts) {
            Some(e) => Some((first.rank, e)),
            None => winner(runs, key, ts),
        },
    decreases runs.len(),
{
    let all = seq![first] + runs;
    if runs.len() == 0 {
        assert(all.drop_last() =~= Seq::<RunView>::empty());
        assert(all.last() == first);
        assert(winner(all.drop_last(), key, ts) is None);
    } else {
        let t = runs.drop_last();
        assert(all.drop_last() =~= seq![first] + t);
        assert(all.last() == runs.last());
        assert(runs[runs.len() - 1].rank <= first.rank);
        assert forall|i: int| 0 <= i < t.len() implies (#[trigger] t[i]).rank <= first.rank by {
            assert(t[i] == runs[i]);
        }
        lemma_first_run_decides(first, t, key, ts);
    }
}

/// What a scan gives of a range is what wins there.
pub proof fn lemma_scan_shows(v: ScanView, range: ScanRangeView, r: RecordView)
    requires
        v.range == Some(range),
        v.merge.last is None,
    ensures
        v.records().contains(r) <==> range.admits(r.key, r.ts) && shows_record(
            winner(v.merge.runs, r.key, r.ts),
            r,
        ),
{
    lemma_scan_records(v, r);
    let w = winner(v.merge.runs, r.key, r.ts);
    assert(v.merge == (MergeView { runs: v.merge.runs, last: None }));
    if v.records().contains(r) {
        let e = choose|e: Entry| #[trigger] v.visible(e) && e.record() == r;
        assert(e.key == r.key && e.ts == r.ts);
        lemma_wins(v.merge.runs, e);
    }
    if range.admits(r.key, r.ts) && shows_record(w, r) {
        let e = (w->0).1;
        assert(e.key == r.key && e.ts == r.ts);
        lemma_wins(v.merge.runs, e);
        assert(v.visible(e));
    }
}

/// The winner is a put of the record.
pub open spec fn shows_record(w: Option<(u64, Entry)>, r: RecordView) -> bool {
    w is Some && (w->0).1.op == Op::Put && (w->0).1.record() == r
}

/// The winner among the blocks that a scan reads.
pub open spec fn block_winner(
    blocks: Seq<MetaView>,
    readers: Map<u32, SstReader>,
    filter: KeyFilterView,
    times: Option<(i64, i64)>,
    now: i64,
    key: Seq<u8>,
    ts: i64,
) -> Option<(u64, Entry)> {
    winner(
        blocks.map_values(|m: MetaView| block_run(readers, m, filter, times, now)),
        key,
        ts,
    )
}

/// One block more.
pub proof fn lemma_block_winner_push(
    blocks: Seq<MetaView>,
    m: MetaView,
    readers: Map<u32, SstReader>,
    filter: KeyFilterView,
    times: Option<(i64, i64)>,
    now: i64,
    key: Seq<u8>,
    ts: i64,
)
    ensures
        block_winner(blocks.push(m), readers, filter, times, now, key, ts) == {
            let before = block_winner(blocks, readers, filter, times, now, key, ts);
            match first_for(block_run(readers, m, filter, times, now).rest, key, ts) {
                Some(e) => if before is Some && (before->0).0 >= m.sst_id {
                    before
                } else {
                    Some((m.sst_id as u64, e))
                },
                None => before,
            }
        },
{
    let h = |m: MetaView| block_run(readers, m, filter, times, now);
    let runs = blocks.push(m).map_values(h);
    assert(runs.drop_last() =~= blocks.map_values(h));
    assert(runs.last() == block_run(readers, m, filter, times, now));
}

/// A winner among blocks is of a block's rank.
pub proof fn lemma_block_winner_rank(
    blocks: Seq<MetaView>,
    readers: Map<u32, SstReader>,
    filter: KeyFilterView,
    times: Option<(i64, i64)>,
    now: i64,
    key: Seq<u8>,
    ts: i64,
) -> (i: int)
    ensures
        match block_winner(blocks, readers, filter, times, now, key, ts) {
            Some((r, e)) => {
                &&& 0 <= i < blocks.len()
                &&& blocks[i].sst_id == r
                &&& first_for(block_run(readers, blocks[i], filter, times, now).rest, key, ts)
                    == Some(e)
            },
            None => forall|j: int|
                0 <= j < blocks.len() ==> !has_version(
                    block_run(readers, #[trigger] blocks[j], filter, times, now).rest,
                    key,
                    ts,
                ),
        },
{
    let h = |m: MetaView| block_run(readers, m, filter, times, now);
    let runs = blocks.map_values(h);
    let i = lemma_winner(runs, key, ts);
    if winner(runs, key, ts) is None {
        assert forall|j: int| 0 <= j < blocks.len() implies !has_version(
            block_run(readers, #[trigger] blocks[j], filter, times, now).rest,
            key,
            ts,
        ) by {
            assert(runs[j] == h(blocks[j]));
        }
    } else {
        assert(runs[i] == h(blocks[i]));
    }
    i
}

/// Filtering by conditions that agree on what is there gives the same.
pub proof fn lemma_filter_agrees<T>(s: Seq<T>, p: spec_fn(T) -> bool, q: spec_fn(T) -> bool)
    requires
        forall|i: int| 0 <= i < s.len() ==> (p(#[trigger] s[i]) <==> q(s[i])),
    ensures
        s.filter(p) == s.filter(q),
    decreases s.len(),
{
    reveal_with_fuel(Seq::filter, 1);
    if s.len() > 0 {
        let t = s.drop_last();
        let x = s.last();
        assert(s =~= t.push(x));
        assert forall|i: int| 0 <= i < t.len() implies (p(#[trigger] t[i]) <==> q(t[i])) by {
            assert(t[i] == s[i]);
        }
        assert(p(s[s.len() - 1]) <==> q(s[s.len() - 1]));
        lemma_filter_agrees(t, p, q);
        t.lemma_filter_push(x, p);
        t.lemma_filter_push(x, q);
    }
}

/// What a scan takes of a block comes from the block.
pub proof fn lemma_taken_all(
    s: Seq<Entry>,
    filter: KeyFilterView,
    times: Option<(i64, i64)>,
    now: i64,
    e: Entry,
)
    ensures
        taken_all(s, filter, times, false, now).contains(e) <==> exists|i: int|
            0 <= i < s.len() && taken(#[trigger] s[i], filter, times, false, now) == Some(e),
    decreases s.len(),
{
    let out = taken_all(s, filter, times, false, now);
    if s.len() > 0 {
        let t = s.drop_last();
        let before = taken_all(t, filter, times, false, now);
        let n = s.len() - 1;
        lemma_taken_all(t, filter, times, now, e);
        if out.contains(e) {
            let k = choose|k: int| 0 <= k < out.len() && out[k] == e;
            if k < before.len() {
                assert(before[k] == e);
                let i = choose|i: int|
                    0 <= i < t.len() && taken(#[trigger] t[i], filter, times, false, now) == Some(e);
                assert(s[i] == t[i]);
            } else {
                assert(taken(s[n], filter, times, false, now) == Some(e));
            }
        }
        if exists|i: int|
            0 <= i < s.len() && taken(#[trigger] s[i], filter, times, false, now) == Some(e) {
            let i = choose|i: int|
                0 <= i < s.len() && taken(#[trigger] s[i], filter, times, false, now) == Some(e);
            if i < n {
                assert(t[i] == s[i]);
                let k = choose|k: int| 0 <= k < before.len() && before[k] == e;
                assert(out[k] == e);
            } else {
                assert(out[out.len() - 1] == e);
            }
        }
    }
}

/// What stands in the run of a block.
pub proof fn lemma_block_run(
    readers: Map<u32, SstReader>,
    m: MetaView,
    filter: KeyFilterView,
    times: Option<(i64, i64)>,
    now: i64,
    e: Entry,
)
    ensures
        block_run(readers, m, filter, times, now).rest.contains(e) <==> exists|i: int|
            0 <= i < readable(readers, m).len() && taken(
                #[trigger] readable(readers, m)[i],
                filter,
                times,
                false,
                now,
            ) == Some(e),
{
    let s = taken_all(readable(readers, m), filter, times, false, now);
    lemma_stable_sort_exists(s);
    lemma_sort_contains(stable_sorted(s), s, e);
    lemma_taken_all(readable(readers, m), filter, times, now, e);
}

/// The first of a sorted selection for `(key, ts)` has the highest number.
pub proof fn lemma_first_of_sorted(sel: Seq<Entry>, key: Seq<u8>, ts: i64)
    ensures
        match first_for(stable_sorted(sel), key, ts) {
            Some(e) => tops(sel, e) && e.key == key && e.ts == ts,
            None => forall|e: Entry| #[trigger] sel.contains(e) ==> !(e.key == key && e.ts == ts),
        },
{
    let rest = stable_sorted(sel);
    lemma_stable_sort_exists(sel);
    let p = lemma_first_for(rest, key, ts);
    assert forall|e: Entry| #[trigger] sel.contains(e) <==> rest.contains(e) by {
        lemma_sort_contains(rest, sel, e);
    }
    match first_for(rest, key, ts) {
        Some(e) => {
            assert(rest.contains(e));
            assert forall|f: Entry| #[trigger] sel.contains(f) && same_version(f, e) implies f.seq
                <= e.seq by {
                assert(rest.contains(f));
                let k = choose|k: int| 0 <= k < rest.len() && rest[k] == f;
                if k < p {
                    assert(!same_version(rest[k], e));
                } else if k > p {
                    assert(entry_le(rest[p], rest[k]));
                    if entry_before(e, f) {
                        lemma_before_asymmetric(e, f);
                    }
                }
            }
        },
        None => {
            assert forall|e: Entry| #[trigger] sel.contains(e) implies !(e.key == key && e.ts == ts) by {
                assert(rest.contains(e));
                let k = choose|k: int| 0 <= k < rest.len() && rest[k] == e;
                assert(!(rest[k].key == key && rest[k].ts == ts));
            }
        },
    }
}

/// Leaving out by key alone leaves the first entry for a key, or none.
proof fn lemma_first_by_key(s: Seq<Entry>, p: spec_fn(Entry) -> bool, key: Seq<u8>, ts: i64, stays: bool)
    requires
        forall|e: Entry| e.key == key ==> #[trigger] p(e) == stays,
    ensures
        first_for(s.filter(p), key, ts) == if stays {
            first_for(s, key, ts)
        } else {
            None
        },
    decreases s.len(),
{
    if s.len() == 0 {
        reveal_with_fuel(Seq::filter, 1);
    } else {
        let x = s.first();
        let t = s.drop_first();
        assert(s =~= seq![x] + t);
        Seq::filter_distributes_over_add(seq![x], t, p);
        lemma_first_by_key(t, p, key, ts, stays);
        reveal_with_fuel(Seq::filter, 2);
        assert(seq![x].drop_last() =~= Seq::<Entry>::empty());
        if p(x) {
            assert(seq![x].filter(p) =~= seq![x]);
            assert(s.filter(p).first() == x);
            assert(s.filter(p).drop_first() =~= t.filter(p));
        } else {
            assert(seq![x].filter(p) =~= Seq::<Entry>::empty());
            assert(s.filter(p) =~= t.filter(p));
        }
    }
}

/// A range deletion that came after an entry came after every earlier one.
pub proof fn lemma_covered_earlier(mem: MemView, key: Seq<u8>, a: u64, b: u64)
    requires
        mem.covers(key, Some(a), u64::MAX),
        b <= a,
    ensures
        mem.covers(key, Some(b), u64::MAX),
        mem.covers(key, None, u64::MAX),
{
    let t = mem.tables();
    let i = choose|i: int| 0 <= i < t.len() && covered(#[trigger] t[i], key, Some(a), u64::MAX);
    let j = choose|j: int|
        0 <= j < t[i].len() && covers_at(#[trigger] t[i][j], key, Some(a), u64::MAX);
    assert(covers_at(t[i][j], key, Some(b), u64::MAX));
    assert(covers_at(t[i][j], key, None, u64::MAX));
    assert(covered(t[i], key, Some(b), u64::MAX));
    assert(covered(t[i], key, None, u64::MAX));
}

/// What the memory run of a scan has of `(key, ts)`: the newest version, unless
/// a later range deletion covers it.
proof fn lemma_memory_first(mem: MemView, sel: Seq<Entry>, key: Seq<u8>, ts: i64)
    ensures
        first_for(stable_sorted(sel).filter(mem.uncovered()), key, ts) == match first_for(
            stable_sorted(sel),
            key,
            ts,
        ) {
            Some(e) => if mem.covers(key, Some(e.seq), u64::MAX) {
                None
            } else {
                Some(e)
            },
            None => None,
        },
{
    let s = stable_sorted(sel);
    let p = mem.uncovered();
    let f = s.filter(p);
    lemma_first_of_sorted(sel, key, ts);
    lemma_stable_sort_exists(sel);
    let at = lemma_first_for(s, key, ts);
    let got = lemma_first_for(f, key, ts);
    if first_for(f, key, ts) is Some {
        let g = first_for(f, key, ts)->0;
        assert(f.contains(g));
        lemma_filter_contains(s, p, g);
        let k = choose|k: int| 0 <= k < s.len() && s[k] == g;
        assert(s[k].key == key && s[k].ts == ts);
        let e = first_for(s, key, ts)->0;
        lemma_sort_contains(s, sel, g);
        assert(g.seq <= e.seq);
        if mem.covers(key, Some(e.seq), u64::MAX) {
            lemma_covered_earlier(mem, key, e.seq, g.seq);
        }
    }
    match first_for(s, key, ts) {
        Some(e) => {
            if !mem.covers(key, Some(e.seq), u64::MAX) {
                assert(p(s[at]));
                let spot = lemma_first_stays(s, p, at);
                assert(f[spot] == e);
                lemma_first_at(f, key, ts, spot);
            }
        },
        None => {},
    }
}

/// The first for `(key, ts)` is the one before which there is none.
proof fn lemma_first_at(s: Seq<Entry>, key: Seq<u8>, ts: i64, at: int)
    requires
        0 <= at < s.len(),
        s[at].key == key,
        s[at].ts == ts,
        forall|q: int| 0 <= q < at ==> !same_version(#[trigger] s[q], s[at]),
    ensures
        first_for(s, key, ts) == Some(s[at]),
    decreases at,
{
    if at > 0 {
        let t = s.drop_first();
        assert(t[at - 1] == s[at]);
        assert(!same_version(s[0], s[at]));
        assert forall|q: int| 0 <= q < at - 1 implies !same_version(#[trigger] t[q], t[at - 1]) by {
            assert(t[q] == s[q + 1]);
        }
        lemma_first_at(t, key, ts, at - 1);
    }
}

/// The winner among the blocks as a scan reads them: none where memory deletes
/// the key by range, else the winner among those from which no later SST does.
proof fn lemma_stored_winner(
    mem: MemView,
    index: IndexView,
    blocks: Seq<MetaView>,
    readers: Map<u32, SstReader>,
    filter: KeyFilterView,
    times: Option<(i64, i64)>,
    now: i64,
    key: Seq<u8>,
    ts: i64,
)
    ensures
        winner(
            blocks.map_values(
                |m: MetaView| stored_run(mem, index, readers, m, filter, times, now),
            ),
            key,
            ts,
        ) == if mem.covers(key, None, u64::MAX) {
            None
        } else {
            block_winner(
                blocks.filter(index.bares(key)),
                readers,
                filter,
                times,
                now,
                key,
                ts,
            )
        },
    decreases blocks.len(),
{
    let h = |m: MetaView| stored_run(mem, index, readers, m, filter, times, now);
    let p = index.bares(key);
    if blocks.len() == 0 {
        reveal_with_fuel(Seq::filter, 1);
    } else {
        let t = blocks.drop_last();
        let m = blocks.last();
        assert(blocks =~= t.push(m));
        lemma_stored_winner(mem, index, t, readers, filter, times, now, key, ts);
        t.lemma_filter_push(m, p);
        lemma_block_winner_push(t.filter(p), m, readers, filter, times, now, key, ts);
        let runs = blocks.map_values(h);
        assert(runs.drop_last() =~= t.map_values(h));
        assert(runs.last() == h(m));
        let q = |e: Entry| still_there(mem, index, m.sst_id, e.key);
        lemma_first_by_key(
            block_run(readers, m, filter, times, now).rest,
            q,
            key,
            ts,
            still_there(mem, index, m.sst_id, key),
        );
    }
}

/// The winner of a scan: what counts of what memory has and what the blocks have.
pub proof fn lemma_scan_winner(
    mem: MemView,
    index: IndexView,
    readers: Map<u32, SstReader>,
    filter: KeyFilterView,
    times: Option<(i64, i64)>,
    range: Option<ScanRangeView>,
    now: i64,
    key: Seq<u8>,
    ts: i64,
)
    ensures
        entry_of(
            winner(scan_of(mem, index, readers, filter, times, range, now).merge.runs, key, ts),
        ) == mem.decide(
            key,
            u64::MAX,
            first_for(stable_sorted(selected(mem.all(), filter, times, now)), key, ts),
            entry_of(
                block_winner(
                    index.candidates(filter, times, now).filter(index.bares(key)),
                    readers,
                    filter,
                    times,
                    now,
                    key,
                    ts,
                ),
            ),
        ),
{
    let blocks = index.candidates(filter, times, now);
    let h = |m: MetaView| stored_run(mem, index, readers, m, filter, times, now);
    let runs = blocks.map_values(h);
    let first = memory_run(mem, filter, times, now);
    let sel = selected(mem.all(), filter, times, now);
    assert forall|i: int| 0 <= i < runs.len() implies (#[trigger] runs[i]).rank <= first.rank by {}
    lemma_first_run_decides(first, runs, key, ts);
    lemma_memory_first(mem, sel, key, ts);
    lemma_stored_winner(mem, index, blocks, readers, filter, times, now, key, ts);
    assert(scan_of(mem, index, readers, filter, times, range, now).merge.runs == seq![first]
        + runs);
    match first_for(stable_sorted(sel), key, ts) {
        Some(e) => {
            if mem.covers(key, Some(e.seq), u64::MAX) {
                lemma_covered_earlier(mem, key, e.seq, e.seq);
            }
        },
        None => {},
    }
}

/// The entry of a winner.
pub open spec fn entry_of(w: Option<(u64, Entry)>) -> Option<Entry> {
    match w {
        Some((_, e)) => Some(e),
        None => None,
    }
}

/// What a scan of a range gives of a record is what counts of its `(key, ts)`.
pub proof fn lemma_range_scan_shows(v: EngineView, range: ScanRangeView, r: RecordView)
    ensures
        v.range_scan(range).records().contains(r) <==> range.admits(r.key, r.ts) && shows_entry(
            scan_version(v, range, r.key, r.ts),
            r,
        ),
{
    let sc = v.range_scan(range);
    lemma_scan_shows(sc, range, r);
    lemma_scan_winner(
        v.mem,
        v.index,
        v.readers,
        range.filter(),
        range.times(),
        Some(range),
        v.now,
        r.key,
        r.ts,
    );
}

/// What a scan of a range finds in the SSTs of `(key, ts)`.
pub open spec fn scan_stored(v: EngineView, range: ScanRangeView, key: Seq<u8>, ts: i64) -> Option<
    Entry,
> {
    entry_of(
        block_winner(
            v.index.candidates(range.filter(), range.times(), v.now).filter(v.index.bares(key)),
            v.readers,
            range.filter(),
            range.times(),
            v.now,
            key,
            ts,
        ),
    )
}

/// What a scan of a range finds in memory of `(key, ts)`.
pub open spec fn scan_memory(v: EngineView, range: ScanRangeView, key: Seq<u8>, ts: i64) -> Option<
    Entry,
> {
    first_for(
        stable_sorted(selected(v.mem.all(), range.filter(), range.times(), v.now)),
        key,
        ts,
    )
}

/// The version of `(key, ts)` that counts in a scan of a range.
pub open spec fn scan_version(v: EngineView, range: ScanRangeView, key: Seq<u8>, ts: i64) -> Option<
    Entry,
> {
    v.mem.decide(
        key,
        u64::MAX,
        scan_memory(v, range, key, ts),
        scan_stored(v, range, key, ts),
    )
}

/// What counts is a put of the record.
pub open spec fn shows_entry(e: Option<Entry>, r: RecordView) -> bool {
    e is Some && e->0.op == Op::Put && e->0.record() == r
}

} // verus!
