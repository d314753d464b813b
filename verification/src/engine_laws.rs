//! What holds of the engine as a whole: what reads give back of writes.

use vstd::prelude::*;

use crate::engine::{sequenced, shown, EngineView};
use crate::memtable::{is_version, lemma_newest, newest, passes, selected};
use crate::memtables::{best_version, lemma_best_version, lemma_flatten_contains, offers, MemView};
use crate::merge::MergeView;
use crate::order::{
    entry_before, entry_le, lemma_before_asymmetric, lemma_filter_contains, lemma_sort_contains,
    lemma_stable_sort_exists, same_version, stable_sorted,
};
use crate::ranges::{covered, covers, covers_at};
use crate::record::{live_at, Entry, KeyFilterView, Op, ScanRangeView};
use crate::scan::{block_run, memory_run, still_there, ScanView};

verus! {

/// `es` are entries numbered in turn from the state's next number on.
pub open spec fn numbered_from(es: Seq<Entry>, base: u64) -> bool {
    forall|i: int| 0 <= i < es.len() ==> (#[trigger] es[i]).seq == base + i
}

/// No entry of `es` after position `i` has the `(key, ts)` of the one at `i`.
pub open spec fn last_of_version(es: Seq<Entry>, i: int) -> bool {
    forall|j: int| i < j < es.len() ==> !same_version(#[trigger] es[j], es[i])
}

/// The newest version in the active memtable after a write.
proof fn lemma_newest_written(active: Seq<Entry>, es: Seq<Entry>, base: u64, i: int, max_seq: u64)
    requires
        0 <= i < es.len(),
        numbered_from(es, base),
        last_of_version(es, i),
        es[i].seq <= max_seq,
        forall|j: int| 0 <= j < active.len() ==> (#[trigger] active[j]).seq < base,
    ensures
        newest(active + es, es[i].key, es[i].ts, max_seq) == Some(es[i]),
{
    let e = es[i];
    let s = active + es;
    lemma_newest(s, e.key, e.ts, max_seq);
    let k = active.len() + i;
    assert(s[k] == e);
    assert(is_version(s[k], e.key, e.ts, max_seq));
    let f = newest(s, e.key, e.ts, max_seq)->0;
    let j = choose|j: int| 0 <= j < s.len() && s[j] == f;
    if j < active.len() {
        assert(active[j] == f);
    } else {
        let m = j - active.len();
        assert(es[m] == f);
        assert(es[m].seq == base + m);
        assert(es[i].seq == base + i);
        if m > i {
            assert(!same_version(es[m], es[i]));
        }
    }
}

/// Where a range deletion in memory comes from after a write.
pub proof fn lemma_written_covers(
    v: EngineView,
    es: Seq<Entry>,
    key: Seq<u8>,
    after: Option<u64>,
    max_seq: u64,
)
    ensures
        v.written(es).mem.covers(key, after, max_seq) <==> v.mem.covers(key, after, max_seq)
            || covered(es, key, after, max_seq),
{
    let t0 = v.mem.tables();
    let t1 = v.written(es).mem.tables();
    let a = v.mem.active;
    assert(t1[0] == a + es);
    assert(t0[0] == a);
    assert forall|i: int| 1 <= i < t0.len() implies t1[i] == #[trigger] t0[i] by {}
    if v.mem.covers(key, after, max_seq) {
        let i = choose|i: int|
            0 <= i < t0.len() && covered(#[trigger] t0[i], key, after, max_seq);
        if i == 0 {
            let j = choose|j: int| 0 <= j < a.len() && covers_at(#[trigger] a[j], key, after, max_seq);
            assert(covers_at(t1[0][j], key, after, max_seq));
            assert(covered(t1[0], key, after, max_seq));
        } else {
            assert(covered(t1[i], key, after, max_seq));
        }
    }
    if covered(es, key, after, max_seq) {
        let j = choose|j: int| 0 <= j < es.len() && covers_at(#[trigger] es[j], key, after, max_seq);
        assert(t1[0][a.len() + j] == es[j]);
        assert(covered(t1[0], key, after, max_seq));
    }
    if v.written(es).mem.covers(key, after, max_seq) {
        let i = choose|i: int|
            0 <= i < t1.len() && covered(#[trigger] t1[i], key, after, max_seq);
        if i == 0 {
            let j = choose|j: int|
                0 <= j < t1[0].len() && covers_at(#[trigger] t1[0][j], key, after, max_seq);
            if j < a.len() {
                assert(covers_at(a[j], key, after, max_seq));
                assert(covered(t0[0], key, after, max_seq));
            } else {
                assert(covers_at(es[j - a.len()], key, after, max_seq));
            }
        } else {
            assert(covered(t0[i], key, after, max_seq));
        }
    }
}

/// Nothing in memory was written after the next number.
pub proof fn lemma_nothing_later(v: EngineView, key: Seq<u8>, after: u64, max_seq: u64)
    requires
        v.seqs_below(),
        after >= v.next_seq,
    ensures
        !v.mem.covers(key, Some(after), max_seq),
{
    let t = v.mem.tables();
    if v.mem.covers(key, Some(after), max_seq) {
        let i = choose|i: int|
            0 <= i < t.len() && covered(#[trigger] t[i], key, Some(after), max_seq);
        let j = choose|j: int|
            0 <= j < t[i].len() && covers_at(#[trigger] t[i][j], key, Some(after), max_seq);
        assert(t[i][j].seq < v.next_seq);
    }
}

/// A write is what the next point read of its `(key, ts)` goes by, unless a
/// range deletion follows in the same batch: a put gives its record, a deletion
/// gives nothing.
pub proof fn law_point_read_gives_last_write(v: EngineView, es: Seq<Entry>, i: int)
    requires
        v.seqs_below(),
        numbered_from(es, v.next_seq),
        v.next_seq + es.len() <= u64::MAX,
        0 <= i < es.len(),
        last_of_version(es, i),
        !covered(es, es[i].key, Some(es[i].seq), u64::MAX),
        live_at(es[i].expire_at, v.now),
    ensures
        v.written(es).version(es[i].key, es[i].ts, u64::MAX) == Some(es[i]),
        v.written(es).point(es[i].key, es[i].ts) == shown(es[i]),
{
    let w = v.written(es);
    let e = es[i];
    let t0 = v.mem.tables();
    let t1 = w.mem.tables();
    assert(t1[0] == v.mem.active + es);
    assert forall|j: int| 0 <= j < v.mem.active.len() implies (#[trigger] v.mem.active[j]).seq
        < v.next_seq by {
        assert(t0[0][j] == v.mem.active[j]);
    }
    lemma_newest_written(v.mem.active, es, v.next_seq, i, u64::MAX);
    lemma_written_covers(v, es, e.key, Some(e.seq), u64::MAX);
    assert(e.seq == v.next_seq + i);
    lemma_nothing_later(v, e.key, e.seq, u64::MAX);
    lemma_best_version(t1, e.key, e.ts, w.now, u64::MAX);
    assert(offers(t1, 0, e.key, e.ts, w.now, u64::MAX));
    let b = best_version(t1, e.key, e.ts, w.now, u64::MAX)->0;
    let k = choose|k: int| #[trigger]
        offers(t1, k, e.key, e.ts, w.now, u64::MAX) && newest(t1[k], e.key, e.ts, u64::MAX)
            == Some(b);
    if k != 0 {
        assert(t1[k] == t0[k]);
        lemma_newest(t0[k], e.key, e.ts, u64::MAX);
        let j = choose|j: int| 0 <= j < t0[k].len() && t0[k][j] == b;
        assert(t0[k][j].seq < v.next_seq);
    }
}

proof fn lemma_newest_unaffected(
    active: Seq<Entry>,
    es: Seq<Entry>,
    key: Seq<u8>,
    ts: i64,
    max_seq: u64,
)
    requires
        forall|i: int| 0 <= i < es.len() ==> !is_version(#[trigger] es[i], key, ts, max_seq),
    ensures
        newest(active + es, key, ts, max_seq) == newest(active, key, ts, max_seq),
    decreases es.len(),
{
    if es.len() == 0 {
        assert(active + es =~= active);
    } else {
        let s = active + es;
        assert(s.drop_last() =~= active + es.drop_last());
        assert(s.last() == es[es.len() - 1]);
        assert forall|i: int| 0 <= i < es.drop_last().len() implies !is_version(
            #[trigger] es.drop_last()[i],
            key,
            ts,
            max_seq,
        ) by {
            assert(es.drop_last()[i] == es[i]);
        }
        lemma_newest_unaffected(active, es.drop_last(), key, ts, max_seq);
    }
}

/// One table more or less recent: the best version is the same where every
/// table's newest version is.
proof fn lemma_same_newest(
    a: Seq<Seq<Entry>>,
    b: Seq<Seq<Entry>>,
    key: Seq<u8>,
    ts: i64,
    now: i64,
    max_seq: u64,
)
    requires
        a.len() == b.len(),
        forall|i: int|
            0 <= i < a.len() ==> newest(#[trigger] a[i], key, ts, max_seq) == newest(
                b[i],
                key,
                ts,
                max_seq,
            ),
    ensures
        best_version(a, key, ts, now, max_seq) == best_version(b, key, ts, now, max_seq),
    decreases a.len(),
{
    if a.len() > 0 {
        let s = a.drop_last();
        let t = b.drop_last();
        assert forall|i: int| 0 <= i < s.len() implies newest(#[trigger] s[i], key, ts, max_seq)
            == newest(t[i], key, ts, max_seq) by {
            assert(s[i] == a[i] && t[i] == b[i]);
        }
        lemma_same_newest(s, t, key, ts, now, max_seq);
        assert(newest(a[a.len() - 1], key, ts, max_seq) == newest(b[b.len() - 1], key, ts, max_seq));
    }
}

/// What the decision in memory goes by is the same, where coverage is.
pub proof fn lemma_same_decision(
    a: MemView,
    b: MemView,
    key: Seq<u8>,
    max_seq: u64,
    hit: Option<Entry>,
    below: Option<Entry>,
)
    requires
        forall|after: Option<u64>| #[trigger]
            a.covers(key, after, max_seq) == b.covers(key, after, max_seq),
    ensures
        a.decide(key, max_seq, hit, below) == b.decide(key, max_seq, hit, below),
{
    if hit is Some {
        assert(a.covers(key, Some(hit->0.seq), max_seq) == b.covers(key, Some(hit->0.seq), max_seq));
    }
    assert(a.covers(key, None, max_seq) == b.covers(key, None, max_seq));
}

/// A write changes no point read of another `(key, ts)` whose key it does not
/// delete by range.
pub proof fn law_write_leaves_other_versions(v: EngineView, es: Seq<Entry>, key: Seq<u8>, ts: i64)
    requires
        forall|i: int| 0 <= i < es.len() ==> !((#[trigger] es[i]).key == key && es[i].ts == ts),
        !covered(es, key, None, u64::MAX),
    ensures
        v.written(es).version(key, ts, u64::MAX) == v.version(key, ts, u64::MAX),
        v.written(es).point(key, ts) == v.point(key, ts),
{
    let w = v.written(es);
    let t0 = v.mem.tables();
    let t1 = w.mem.tables();
    lemma_newest_unaffected(v.mem.active, es, key, ts, u64::MAX);
    assert forall|i: int| 0 <= i < t1.len() implies newest(#[trigger] t1[i], key, ts, u64::MAX)
        == newest(t0[i], key, ts, u64::MAX) by {
        if i > 0 {
            assert(t1[i] == t0[i]);
        }
    }
    lemma_same_newest(t1, t0, key, ts, v.now, u64::MAX);
    assert forall|after: Option<u64>| #[trigger]
        w.mem.covers(key, after, u64::MAX) == v.mem.covers(key, after, u64::MAX) by {
        lemma_written_covers(v, es, key, after, u64::MAX);
        lemma_not_covered(es, key, after, u64::MAX);
    }
    lemma_same_decision(
        w.mem,
        v.mem,
        key,
        u64::MAX,
        best_version(t0, key, ts, v.now, u64::MAX),
        v.stored_version(key, ts),
    );
    assert(w.stored_version(key, ts) == v.stored_version(key, ts));
}

/// What covers no key at all covers none after a number either.
pub proof fn lemma_not_covered(es: Seq<Entry>, key: Seq<u8>, after: Option<u64>, max_seq: u64)
    requires
        !covered(es, key, None, u64::MAX),
    ensures
        !covered(es, key, after, max_seq),
{
    if covered(es, key, after, max_seq) {
        let j = choose|j: int| 0 <= j < es.len() && covers_at(#[trigger] es[j], key, after, max_seq);
        assert(covers_at(es[j], key, None, u64::MAX));
    }
}

/// A read as of an earlier write does not see what is written later.
pub proof fn law_snapshot_reads_are_repeatable(
    v: EngineView,
    es: Seq<Entry>,
    key: Seq<u8>,
    ts: i64,
    max_seq: u64,
)
    requires
        numbered_from(es, v.next_seq),
        max_seq < v.next_seq,
    ensures
        v.written(es).point_at(key, ts, max_seq) == v.point_at(key, ts, max_seq),
{
    let w = v.written(es);
    let t0 = v.mem.tables();
    let t1 = w.mem.tables();
    lemma_newest_unaffected(v.mem.active, es, key, ts, max_seq);
    assert forall|i: int| 0 <= i < t1.len() implies newest(#[trigger] t1[i], key, ts, max_seq)
        == newest(t0[i], key, ts, max_seq) by {
        if i > 0 {
            assert(t1[i] == t0[i]);
        }
    }
    lemma_same_newest(t1, t0, key, ts, v.now, max_seq);
    assert forall|after: Option<u64>| #[trigger]
        w.mem.covers(key, after, max_seq) == v.mem.covers(key, after, max_seq) by {
        lemma_written_covers(v, es, key, after, max_seq);
        assert(!covered(es, key, after, max_seq)) by {
            assert forall|j: int| 0 <= j < es.len() implies !covers_at(
                #[trigger] es[j],
                key,
                after,
                max_seq,
            ) by {
                assert(es[j].seq == v.next_seq + j);
            }
        }
    }
    lemma_same_decision(
        w.mem,
        v.mem,
        key,
        max_seq,
        best_version(t0, key, ts, v.now, max_seq),
        v.stored_version(key, ts),
    );
    assert(w.stored_version(key, ts) == v.stored_version(key, ts));
}

/// A read as of the last write is the plain read.
pub proof fn law_current_snapshot_sees_everything(v: EngineView, key: Seq<u8>, ts: i64, max_seq: u64)
    requires
        v.seqs_below(),
        max_seq + 1 >= v.next_seq,
    ensures
        v.point_at(key, ts, max_seq) == v.point(key, ts),
{
    let t = v.mem.tables();
    assert forall|i: int| 0 <= i < t.len() implies newest(#[trigger] t[i], key, ts, max_seq)
        == newest(t[i], key, ts, u64::MAX) by {
        assert forall|j: int| 0 <= j < t[i].len() implies (#[trigger] t[i][j]).seq <= max_seq by {
            assert(t[i][j].seq < v.next_seq);
        }
        lemma_newest_bound(t[i], key, ts, max_seq);
    }
    lemma_same_newest_bounds(t, key, ts, v.now, max_seq);
    assert forall|after: Option<u64>| #[trigger]
        v.mem.covers(key, after, max_seq) == v.mem.covers(key, after, u64::MAX) by {
        assert forall|i: int| 0 <= i < t.len() implies covered(
            #[trigger] t[i],
            key,
            after,
            max_seq,
        ) == covered(t[i], key, after, u64::MAX) by {
            assert forall|j: int| 0 <= j < t[i].len() implies covers_at(
                #[trigger] t[i][j],
                key,
                after,
                max_seq,
            ) == covers_at(t[i][j], key, after, u64::MAX) by {
                assert(t[i][j].seq < v.next_seq);
            }
        }
    }
    let hit = best_version(t, key, ts, v.now, u64::MAX);
    assert(v.mem.covers(key, None, max_seq) == v.mem.covers(key, None, u64::MAX));
    if hit is Some {
        assert(v.mem.covers(key, Some(hit->0.seq), max_seq) == v.mem.covers(
            key,
            Some(hit->0.seq),
            u64::MAX,
        ));
    }
}

proof fn lemma_newest_bound(s: Seq<Entry>, key: Seq<u8>, ts: i64, max_seq: u64)
    requires
        forall|j: int| 0 <= j < s.len() ==> (#[trigger] s[j]).seq <= max_seq,
    ensures
        newest(s, key, ts, max_seq) == newest(s, key, ts, u64::MAX),
    decreases s.len(),
{
    if s.len() > 0 {
        let t = s.drop_last();
        assert forall|j: int| 0 <= j < t.len() implies (#[trigger] t[j]).seq <= max_seq by {
            assert(t[j] == s[j]);
        }
        assert(s[s.len() - 1].seq <= max_seq);
        lemma_newest_bound(t, key, ts, max_seq);
    }
}

proof fn lemma_same_newest_bounds(
    a: Seq<Seq<Entry>>,
    key: Seq<u8>,
    ts: i64,
    now: i64,
    max_seq: u64,
)
    requires
        forall|i: int|
            0 <= i < a.len() ==> newest(#[trigger] a[i], key, ts, max_seq) == newest(
                a[i],
                key,
                ts,
                u64::MAX,
            ),
    ensures
        best_version(a, key, ts, now, max_seq) == best_version(a, key, ts, now, u64::MAX),
    decreases a.len(),
{
    if a.len() > 0 {
        let s = a.drop_last();
        assert forall|i: int| 0 <= i < s.len() implies newest(#[trigger] s[i], key, ts, max_seq)
            == newest(s[i], key, ts, u64::MAX) by {
            assert(s[i] == a[i]);
        }
        lemma_same_newest_bounds(s, key, ts, now, max_seq);
        assert(newest(a[a.len() - 1], key, ts, max_seq) == newest(
            a[a.len() - 1],
            key,
            ts,
            u64::MAX,
        ));
    }
}

/// At most one version of a `(key, ts)` wins a merge.
pub proof fn lemma_one_winner(v: MergeView, e: Entry, f: Entry)
    requires
        v.wins(e),
        v.wins(f),
        same_version(e, f),
    ensures
        e == f,
{
    let (i, p) = choose|i: int, p: int| #[trigger] v.wins_at(i, p, e);
    let (j, q) = choose|j: int, q: int| #[trigger] v.wins_at(j, q, f);
    if i == j {
        if p < q {
            assert(!same_version(v.runs[j].rest[p], f));
        } else if q < p {
            assert(!same_version(v.runs[i].rest[q], e));
        }
    } else if v.outranks(i, j) {
        assert(!same_version(v.runs[i].rest[p], f));
    } else {
        assert(v.outranks(j, i));
        assert(!same_version(v.runs[j].rest[q], e));
    }
}

/// What was written last is in memory after a write.
pub proof fn lemma_written_in_memory(v: EngineView, es: Seq<Entry>, f: Entry)
    ensures
        v.written(es).mem.all().contains(f) <==> v.mem.all().contains(f) || es.contains(f),
{
    let t0 = v.mem.tables();
    let t1 = v.written(es).mem.tables();
    lemma_flatten_contains(t0, f);
    lemma_flatten_contains(t1, f);
    assert(t1[0] == v.mem.active + es);
    assert(t0[0] == v.mem.active);
    if exists|i: int| 0 <= i < t0.len() && (#[trigger] t0[i]).contains(f) {
        let i = choose|i: int| 0 <= i < t0.len() && (#[trigger] t0[i]).contains(f);
        if i == 0 {
            let k = choose|k: int| 0 <= k < t0[0].len() && t0[0][k] == f;
            assert(t1[0][k] == f);
            assert(t1[0].contains(f));
        } else {
            assert(t1[i] == t0[i]);
        }
    }
    if es.contains(f) {
        let k = choose|k: int| 0 <= k < es.len() && es[k] == f;
        assert(t1[0][v.mem.active.len() + k] == f);
        assert(t1[0].contains(f));
    }
    if exists|i: int| 0 <= i < t1.len() && (#[trigger] t1[i]).contains(f) {
        let i = choose|i: int| 0 <= i < t1.len() && (#[trigger] t1[i]).contains(f);
        if i == 0 {
            let k = choose|k: int| 0 <= k < t1[0].len() && t1[0][k] == f;
            if k < v.mem.active.len() {
                assert(t0[0][k] == f);
                assert(t0[0].contains(f));
            } else {
                assert(es[k - v.mem.active.len()] == f);
            }
        } else {
            assert(t0[i] == t1[i]);
        }
    }
}

pub proof fn lemma_memory_seqs(v: EngineView, f: Entry)
    requires
        v.seqs_below(),
        v.mem.all().contains(f),
    ensures
        f.seq < v.next_seq,
{
    let t = v.mem.tables();
    lemma_flatten_contains(t, f);
    let i = choose|i: int| 0 <= i < t.len() && (#[trigger] t[i]).contains(f);
    let j = choose|j: int| 0 <= j < t[i].len() && t[i][j] == f;
    assert(t[i][j].seq < v.next_seq);
}

/// A write is the version of its `(key, ts)` that every scan goes by whose
/// filters let it through, unless a range deletion follows in the same batch: a
/// put is shown, and nothing else of that `(key, ts)` is.
pub proof fn law_scan_goes_by_last_write(
    v: EngineView,
    es: Seq<Entry>,
    i: int,
    filter: KeyFilterView,
    times: Option<(i64, i64)>,
    range: Option<ScanRangeView>,
)
    requires
        v.seqs_below(),
        numbered_from(es, v.next_seq),
        v.next_seq + es.len() <= u64::MAX,
        0 <= i < es.len(),
        last_of_version(es, i),
        passes(es[i], filter, times, v.now),
        !covered(es, es[i].key, Some(es[i].seq), u64::MAX),
    ensures
        v.written(es).scan(filter, times, range).merge.wins(es[i]),
        v.written(es).scan(filter, times, range).visible(es[i]) <==> v.written(es).scan(
            filter,
            times,
            range,
        ).shows(es[i]),
        forall|f: Entry| #[trigger]
            v.written(es).scan(filter, times, range).visible(f) && same_version(es[i], f) ==> f
                == es[i],
{
    let w = v.written(es);
    let e = es[i];
    let sc = w.scan(filter, times, range);
    let m = sc.merge;
    let p = |x: Entry| passes(x, filter, times, w.now);
    let sel = selected(w.mem.all(), filter, times, w.now);
    let rest = stable_sorted(sel);
    lemma_stable_sort_exists(sel);
    assert(m.runs[0] == memory_run(w.mem, filter, times, w.now));
    let un = w.mem.uncovered();
    assert(m.runs[0].rest == rest.filter(un));
    assert(un(e)) by {
        lemma_written_covers(v, es, e.key, Some(e.seq), u64::MAX);
        assert(e.seq == v.next_seq + i);
        lemma_nothing_later(v, e.key, e.seq, u64::MAX);
    }
    assert(es.contains(e));
    lemma_written_in_memory(v, es, e);
    lemma_filter_contains(w.mem.all(), p, e);
    lemma_sort_contains(rest, sel, e);
    let at = choose|at: int| 0 <= at < rest.len() && rest[at] == e;
    let first = lemma_first_of_version(rest, at);
    let f = rest[first];
    // The first version in the run has the highest sequence number, and only
    // the last write has it.
    assert(f == e) by {
        assert(rest.contains(f));
        lemma_sort_contains(rest, sel, f);
        lemma_filter_contains(w.mem.all(), p, f);
        lemma_written_in_memory(v, es, f);
        if first < at {
            assert(entry_le(rest[first], rest[at]));
            if entry_before(f, e) {
                lemma_before_asymmetric(f, e);
            }
            assert(f.seq >= e.seq);
            if v.mem.all().contains(f) {
                lemma_memory_seqs(v, f);
                assert(es[i].seq == v.next_seq + i);
            } else {
                let j = choose|j: int| 0 <= j < es.len() && es[j] == f;
                assert(es[j].seq == v.next_seq + j);
                assert(es[i].seq == v.next_seq + i);
                if j > i {
                    assert(!same_version(es[j], es[i]));
                }
            }
        }
    }
    let spot = lemma_first_stays(rest, un, first);
    assert(m.wins_at(0, spot, e)) by {
        assert forall|j: int, q: int|
            0 <= j < m.runs.len() && m.outranks(j, 0) && 0 <= q < m.runs[j].rest.len() implies !same_version(
            #[trigger] m.runs[j].rest[q],
            e,
        ) by {
            assert(m.runs[0].rank == u64::MAX);
        }
    }
    assert forall|g: Entry| #[trigger] sc.visible(g) && same_version(e, g) implies g == e by {
        lemma_one_winner(m, e, g);
    }
}

/// Where the first of a `(key, ts)` stands once others were left out.
pub proof fn lemma_first_stays(s: Seq<Entry>, p: spec_fn(Entry) -> bool, first: int) -> (at: int)
    requires
        0 <= first < s.len(),
        p(s[first]),
        forall|q: int| 0 <= q < first ==> !same_version(#[trigger] s[q], s[first]),
    ensures
        0 <= at < s.filter(p).len(),
        s.filter(p)[at] == s[first],
        forall|q: int| 0 <= q < at ==> !same_version(#[trigger] s.filter(p)[q], s[first]),
{
    let a = s.subrange(0, first);
    let b = s.subrange(first + 1, s.len() as int);
    let one = seq![s[first]];
    assert(s =~= a + one + b);
    Seq::filter_distributes_over_add(a + one, b, p);
    Seq::filter_distributes_over_add(a, one, p);
    assert(one.filter(p) =~= one) by {
        reveal_with_fuel(Seq::filter, 2);
        assert(one.drop_last() =~= Seq::<Entry>::empty());
    }
    let f = a.filter(p);
    assert(s.filter(p) == f + one + b.filter(p));
    assert(s.filter(p)[f.len() as int] == s[first]);
    assert forall|q: int| 0 <= q < f.len() implies !same_version(#[trigger] s.filter(p)[q], s[first]) by {
        assert(s.filter(p)[q] == f[q]);
        assert(f.contains(f[q]));
        lemma_filter_contains(a, p, f[q]);
        let k = choose|k: int| 0 <= k < a.len() && a[k] == f[q];
        assert(s[k] == a[k]);
    }
    f.len() as int
}

/// The first position that holds a version of what stands at `at`.
pub proof fn lemma_first_of_version(s: Seq<Entry>, at: int) -> (first: int)
    requires
        0 <= at < s.len(),
    ensures
        0 <= first <= at,
        same_version(s[first], s[at]),
        forall|q: int| 0 <= q < first ==> !same_version(#[trigger] s[q], s[at]),
    decreases at,
{
    if exists|q: int| 0 <= q < at && same_version(#[trigger] s[q], s[at]) {
        let q = choose|q: int| 0 <= q < at && same_version(#[trigger] s[q], s[at]);
        let first = lemma_first_of_version(s, q);
        assert forall|x: int| 0 <= x < first implies !same_version(#[trigger] s[x], s[at]) by {
            assert(!same_version(s[x], s[q]));
        }
        first
    } else {
        at
    }
}

/// After a range deletion no point read and no scan gives a key of the deleted
/// range, unless it was written again later in the same batch.
pub proof fn law_range_deletion_hides_its_keys(
    v: EngineView,
    es: Seq<Entry>,
    i: int,
    key: Seq<u8>,
)
    requires
        v.seqs_below(),
        numbered_from(es, v.next_seq),
        0 <= i < es.len(),
        covers(es[i], key),
        forall|j: int| i < j < es.len() ==> (#[trigger] es[j]).key != key,
    ensures
        forall|ts: i64| (#[trigger] v.written(es).point(key, ts)) is None,
        forall|
            filter: KeyFilterView,
            times: Option<(i64, i64)>,
            range: Option<ScanRangeView>,
            f: Entry,
        | #[trigger]
            v.written(es).scan(filter, times, range).visible(f) ==> f.key != key,
{
    let w = v.written(es);
    let d = es[i];
    assert(d.seq == v.next_seq + i);
    assert forall|after: u64| after < d.seq implies #[trigger] w.mem.covers(
        key,
        Some(after),
        u64::MAX,
    ) by {
        lemma_written_covers(v, es, key, Some(after), u64::MAX);
        assert(covers_at(es[i], key, Some(after), u64::MAX));
    }
    assert(w.mem.covers(key, None, u64::MAX)) by {
        lemma_written_covers(v, es, key, None, u64::MAX);
        assert(covers_at(es[i], key, None, u64::MAX));
    }
    assert forall|g: Entry| #[trigger] w.mem.all().contains(g) && g.key == key && g.op
        == Op::Put implies g.seq < d.seq by {
        lemma_written_in_memory(v, es, g);
        if v.mem.all().contains(g) {
            lemma_memory_seqs(v, g);
        } else {
            let j = choose|j: int| 0 <= j < es.len() && es[j] == g;
            assert(es[j].seq == v.next_seq + j);
        }
    }
    assert forall|ts: i64| (#[trigger] w.point(key, ts)) is None by {
        let t = w.mem.tables();
        lemma_best_version(t, key, ts, w.now, u64::MAX);
        let b = best_version(t, key, ts, w.now, u64::MAX);
        if b is Some {
            let k = choose|k: int| #[trigger]
                offers(t, k, key, ts, w.now, u64::MAX) && newest(t[k], key, ts, u64::MAX) == b;
            lemma_newest(t[k], key, ts, u64::MAX);
            lemma_flatten_contains(t, b->0);
            assert(w.mem.all().contains(b->0));
            if b->0.op == Op::Put {
                assert(w.mem.covers(key, Some(b->0.seq), u64::MAX));
            }
        }
    }
    assert forall|
        filter: KeyFilterView,
        times: Option<(i64, i64)>,
        range: Option<ScanRangeView>,
        f: Entry,
    | #[trigger] w.scan(filter, times, range).visible(f) implies f.key != key by {
        let m = w.scan(filter, times, range).merge;
        if f.key == key {
            let (r, q) = choose|r: int, q: int| #[trigger] m.wins_at(r, q, f);
            assert(m.runs[r].rest.contains(f));
            if r == 0 {
                let sel = selected(w.mem.all(), filter, times, w.now);
                let p = |x: Entry| passes(x, filter, times, w.now);
                lemma_filter_contains(stable_sorted(sel), w.mem.uncovered(), f);
                lemma_stable_sort_exists(sel);
                lemma_sort_contains(stable_sorted(sel), sel, f);
                lemma_filter_contains(w.mem.all(), p, f);
                assert(w.mem.covers(key, Some(f.seq), u64::MAX));
            } else {
                let c = w.index.candidates(filter, times, w.now)[r - 1];
                let z = |e: Entry| still_there(w.mem, w.index, c.sst_id, e.key);
                lemma_filter_contains(block_run(w.readers, c, filter, times, w.now).rest, z, f);
            }
        }
    }
}

/// Two records that a scan gives are of different `(key, ts)`, and the earlier
/// one is the smaller.
pub proof fn law_scan_is_ascending(s: ScanView, out: Seq<Entry>, i: int, j: int)
    requires
        s.gives(out),
        0 <= i < j < out.len(),
    ensures
        entry_before(out[i], out[j]),
        !same_version(out[i], out[j]),
{
    lemma_before_asymmetric(out[i], out[j]);
}

/// The last entry of `es` for `(key, ts)`.
pub open spec fn last_for(es: Seq<Entry>, key: Seq<u8>, ts: i64) -> Option<Entry>
    decreases es.len(),
{
    if es.len() == 0 {
        None
    } else if es.last().key == key && es.last().ts == ts {
        Some(es.last())
    } else {
        last_for(es.drop_last(), key, ts)
    }
}

/// Where the last entry for `(key, ts)` stands.
pub proof fn lemma_last_for(es: Seq<Entry>, key: Seq<u8>, ts: i64) -> (i: int)
    ensures
        match last_for(es, key, ts) {
            Some(e) => {
                &&& 0 <= i < es.len()
                &&& es[i] == e
                &&& e.key == key
                &&& e.ts == ts
                &&& forall|j: int| i < j < es.len() ==> !((#[trigger] es[j]).key == key && es[j].ts == ts)
            },
            None => forall|j: int| 0 <= j < es.len() ==> !((#[trigger] es[j]).key == key && es[j].ts == ts),
        },
    decreases es.len(),
{
    if es.len() == 0 {
        0
    } else if es.last().key == key && es.last().ts == ts {
        es.len() - 1
    } else {
        let t = es.drop_last();
        let i = lemma_last_for(t, key, ts);
        match last_for(t, key, ts) {
            Some(e) => {
                assert(es[i] == t[i]);
                assert forall|j: int| i < j < es.len() implies !((#[trigger] es[j]).key == key
                    && es[j].ts == ts) by {
                    if j < t.len() {
                        assert(t[j] == es[j]);
                    }
                }
            },
            None => {
                assert forall|j: int| 0 <= j < es.len() implies !((#[trigger] es[j]).key == key
                    && es[j].ts == ts) by {
                    if j < t.len() {
                        assert(t[j] == es[j]);
                    }
                }
            },
        }
        i
    }
}

/// The last entry of two batches in a row: that of the second, else that of the first.
pub proof fn lemma_last_for_add(a: Seq<Entry>, b: Seq<Entry>, key: Seq<u8>, ts: i64)
    ensures
        last_for(a + b, key, ts) == match last_for(b, key, ts) {
            Some(e) => Some(e),
            None => last_for(a, key, ts),
        },
    decreases b.len(),
{
    if b.len() == 0 {
        assert(a + b =~= a);
    } else {
        assert((a + b).drop_last() =~= a + b.drop_last());
        assert((a + b).last() == b.last());
        lemma_last_for_add(a, b.drop_last(), key, ts);
    }
}

/// A range deletion of the batch covers `key`, and no entry of the batch for
/// `(key, ts)` comes after it.
pub open spec fn deletes_last(es: Seq<Entry>, key: Seq<u8>, ts: i64) -> bool {
    exists|i: int| 0 <= i < es.len() && #[trigger] covers(es[i], key) && ends_with(es, i, key, ts)
}

/// No entry after position `i` is for `(key, ts)`.
pub open spec fn ends_with(es: Seq<Entry>, i: int, key: Seq<u8>, ts: i64) -> bool {
    forall|j: int| i < j < es.len() ==> !((#[trigger] es[j]).key == key && es[j].ts == ts)
}

/// A point read after a batch whose last word on the key is a range deletion.
pub proof fn lemma_deleted_last(v: EngineView, n: Seq<Entry>, i: int, key: Seq<u8>, ts: i64)
    requires
        v.seqs_below(),
        numbered_from(n, v.next_seq),
        0 <= i < n.len(),
        covers(n[i], key),
        ends_with(n, i, key, ts),
    ensures
        v.written(n).point(key, ts) is None,
        v.written(n).mem.covers(key, None, u64::MAX),
        forall|f: Entry| #[trigger]
            v.written(n).mem.all().contains(f) && f.key == key && f.ts == ts && f.op == Op::Put
                ==> v.written(n).mem.covers(key, Some(f.seq), u64::MAX),
{
    let w = v.written(n);
    let t = w.mem.tables();
    let b = best_version(t, key, ts, w.now, u64::MAX);
    assert(n[i].seq == v.next_seq + i);
    lemma_written_covers(v, n, key, None, u64::MAX);
    assert(covers_at(n[i], key, None, u64::MAX));
    assert forall|f: Entry| #[trigger]
        w.mem.all().contains(f) && f.key == key && f.ts == ts && f.op == Op::Put implies w.mem.covers(
        key,
        Some(f.seq),
        u64::MAX,
    ) by {
        lemma_written_in_memory(v, n, f);
        if v.mem.all().contains(f) {
            lemma_memory_seqs(v, f);
        } else {
            let j = choose|j: int| 0 <= j < n.len() && n[j] == f;
            assert(n[j].seq == v.next_seq + j);
        }
        lemma_written_covers(v, n, key, Some(f.seq), u64::MAX);
        assert(covers_at(n[i], key, Some(f.seq), u64::MAX));
    }
    lemma_best_version(t, key, ts, w.now, u64::MAX);
    if b is Some {
        let k = choose|k: int| #[trigger]
            offers(t, k, key, ts, w.now, u64::MAX) && newest(t[k], key, ts, u64::MAX) == b;
        lemma_newest(t[k], key, ts, u64::MAX);
        lemma_flatten_contains(t, b->0);
        assert(w.mem.all().contains(b->0));
    }
}

/// A batch as a whole decides the point reads that follow: the last entry for a
/// `(key, ts)` or range deletion over its key counts, where it has not expired,
/// and what the batch does not mention reads as before.
pub proof fn law_batch_decides_point_reads(v: EngineView, es: Seq<Entry>, key: Seq<u8>, ts: i64)
    requires
        v.seqs_below(),
        v.next_seq + es.len() <= u64::MAX,
        last_for(es, key, ts) is Some ==> live_at(last_for(es, key, ts)->0.expire_at, v.now),
    ensures
        v.written(sequenced(es, v.next_seq)).point(key, ts) == if deletes_last(es, key, ts) {
            None
        } else {
            match last_for(es, key, ts) {
                Some(e) => shown(e),
                None => v.point(key, ts),
            }
        },
{
    let n = sequenced(es, v.next_seq);
    let i = lemma_last_for(es, key, ts);
    if deletes_last(es, key, ts) {
        let d = choose|d: int|
            0 <= d < es.len() && #[trigger] covers(es[d], key) && ends_with(es, d, key, ts);
        assert(ends_with(n, d, key, ts)) by {
            assert forall|j: int| d < j < n.len() implies !((#[trigger] n[j]).key == key && n[j].ts
                == ts) by {
                assert(!(es[j].key == key && es[j].ts == ts));
            }
        }
        lemma_deleted_last(v, n, d, key, ts);
    } else {
        match last_for(es, key, ts) {
        Some(e) => {
            assert forall|j: int| i < j < n.len() implies !same_version(#[trigger] n[j], n[i]) by {
                assert(!(es[j].key == key && es[j].ts == ts));
            }
            assert(live_at(es[i].expire_at, v.now));
            lemma_not_deleted_after(v, es, i, key, ts);
            law_point_read_gives_last_write(v, n, i);
        },
        None => {
            assert forall|j: int| 0 <= j < n.len() implies !((#[trigger] n[j]).key == key && n[j].ts
                == ts) by {
                assert(!(es[j].key == key && es[j].ts == ts));
            }
            lemma_not_deleted_at_all(v, es, key, ts);
            law_write_leaves_other_versions(v, n, key, ts);
        },
        }
    }
}

/// After the last entry for `(key, ts)` no range deletion of the batch covers the key.
pub proof fn lemma_not_deleted_after(v: EngineView, es: Seq<Entry>, i: int, key: Seq<u8>, ts: i64)
    requires
        v.next_seq + es.len() <= u64::MAX,
        !deletes_last(es, key, ts),
        0 <= i < es.len(),
        ends_with(es, i, key, ts),
    ensures
        ({
            let n = sequenced(es, v.next_seq);
            !covered(n, key, Some(n[i].seq), u64::MAX)
        }),
{
    let n = sequenced(es, v.next_seq);
    assert forall|j: int| 0 <= j < n.len() implies !covers_at(
        #[trigger] n[j],
        key,
        Some(n[i].seq),
        u64::MAX,
    ) by {
        assert(n[j].seq == v.next_seq + j);
        if j > i && covers(n[j], key) {
            assert(covers(es[j], key));
            assert(ends_with(es, j, key, ts));
        }
    }
}

/// Where the batch has no entry for `(key, ts)`, no range deletion covers the key.
pub proof fn lemma_not_deleted_at_all(v: EngineView, es: Seq<Entry>, key: Seq<u8>, ts: i64)
    requires
        !deletes_last(es, key, ts),
        ends_with(es, -1, key, ts),
    ensures
        !covered(sequenced(es, v.next_seq), key, None, u64::MAX),
{
    let n = sequenced(es, v.next_seq);
    assert forall|j: int| 0 <= j < n.len() implies !covers_at(
        #[trigger] n[j],
        key,
        None,
        u64::MAX,
    ) by {
        if covers(n[j], key) {
            assert(covers(es[j], key));
            assert(ends_with(es, j, key, ts));
        }
    }
}

/// After a batch too, every entry in memory was numbered before the next one.
pub proof fn lemma_written_seqs_below(v: EngineView, es: Seq<Entry>)
    requires
        v.seqs_below(),
        v.next_seq + es.len() <= u64::MAX,
    ensures
        v.written(sequenced(es, v.next_seq)).seqs_below(),
{
    let n = sequenced(es, v.next_seq);
    let w = v.written(n);
    assert forall|i: int, j: int|
        0 <= i < w.mem.tables().len() && 0 <= j < w.mem.tables()[i].len() implies (
    #[trigger] w.mem.tables()[i][j]).seq < w.next_seq by {
        if i == 0 {
            assert(w.mem.tables()[0] == v.mem.active + n);
            if j < v.mem.active.len() {
                assert(v.mem.tables()[0][j] == v.mem.active[j]);
            } else {
                assert(n[j - v.mem.active.len()].seq == v.next_seq + (j - v.mem.active.len()));
            }
        } else {
            assert(w.mem.tables()[i] == v.mem.tables()[i]);
            assert(v.mem.tables()[i][j].seq < v.next_seq);
        }
    }
}

} // verus!
