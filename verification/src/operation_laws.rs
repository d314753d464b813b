//! What the operations of an engine do, in terms of the keys and times that
//! they are given.

use vstd::prelude::*;
use vstd::utf8::encode_utf8;

use crate::bytes::{
    has_prefix, incremented, lemma_lex_asymmetric, lemma_lex_irreflexive, lemma_prefix_range,
    lex_le, lex_lt, prefix_successor,
};
use crate::engine::{sequenced, Engine, EngineView};
use crate::engine_laws::{
    deletes_last, ends_with, last_for, law_batch_decides_point_reads, law_scan_is_ascending,
};
use crate::memtable::{passes, selected};
use crate::order::{
    lemma_filter_contains, lemma_sort_contains, lemma_stable_sort_exists, stable_sorted,
};
use crate::ranges::covers;
use crate::read_laws::lemma_point_is_of_key;
use crate::record::{Bound, Entry, KeyFilterView, Op, RecordView, ScanRangeView};
use crate::scan::{memory_run, readable, still_there, stored_run, taken, taken_all};
use crate::scan_laws::{lemma_scan_has_result, lemma_scan_records};
use crate::winners::lemma_taken_all;

verus! {

/// A string begins with another one exactly where something can be put behind
/// the other to make it.
pub proof fn law_prefix_is_a_beginning(s: Seq<u8>, p: Seq<u8>)
    ensures
        has_prefix(s, p) <==> exists|rest: Seq<u8>| s == #[trigger] (p + rest),
{
    if has_prefix(s, p) {
        assert(s =~= p + s.skip(p.len() as int));
    }
    if exists|rest: Seq<u8>| s == #[trigger] (p + rest) {
        let rest = choose|rest: Seq<u8>| s == #[trigger] (p + rest);
        assert(s.subrange(0, p.len() as int) =~= p);
    }
}

/// A range deletion removes every version of the keys from its start to before
/// its end, and leaves all others as they are.
pub proof fn law_range_deletion_removes_the_range(
    v: EngineView,
    start: Seq<u8>,
    end: Seq<u8>,
    key: Seq<u8>,
    ts: i64,
)
    requires
        v.seqs_below(),
        v.next_seq < u64::MAX,
        lex_lt(start, end),
    ensures
        ({
            let after = v.written(seq![Entry::range_deletion(start, end, v.next_seq)]);
            after.point(key, ts) == if lex_le(start, key) && lex_lt(key, end) {
                None
            } else {
                v.point(key, ts)
            }
        }),
{
    let es = seq![Entry::range_deletion(start, end, v.next_seq)];
    assert(sequenced(es, v.next_seq) =~= es);
    law_batch_decides_point_reads(v, es, key, ts);
    if lex_le(start, key) && lex_lt(key, end) {
        assert(covers(es[0], key));
        assert(ends_with(es, 0, key, ts));
    } else {
        assert(!deletes_last(es, key, ts)) by {
            if deletes_last(es, key, ts) {
                let i = choose|i: int|
                    0 <= i < es.len() && #[trigger] covers(es[i], key) && ends_with(es, i, key, ts);
                assert(i == 0);
            }
        }
        lemma_lex_irreflexive(start);
        assert(es.drop_last() =~= Seq::<Entry>::empty());
        assert(last_for(es.drop_last(), key, ts) is None);
        assert(es.last() == es[0]);
        if key == start {
            assert(lex_le(start, key) && lex_lt(key, end));
        }
        assert(last_for(es, key, ts) is None);
    }
}

/// The versions that a list of deletions names.
pub open spec fn names_version(keys_ts: Seq<(String, i64)>, key: Seq<u8>, ts: i64) -> bool {
    exists|i: int|
        0 <= i < keys_ts.len() && encode_utf8((#[trigger] keys_ts[i]).0@) == key && keys_ts[i].1
            == ts
}

/// What the last of a list of deletions for a version is.
proof fn lemma_last_deletion(keys_ts: Seq<(String, i64)>, base: u64, n: nat, key: Seq<u8>, ts: i64)
    requires
        n <= keys_ts.len(),
    ensures
        match last_for(Engine::deletions(keys_ts, base).take(n as int), key, ts) {
            Some(e) => e.op == Op::Delete && e.expire_at == i64::MAX && names_version(
                keys_ts,
                key,
                ts,
            ),
            None => forall|i: int|
                0 <= i < n ==> !(encode_utf8((#[trigger] keys_ts[i]).0@) == key && keys_ts[i].1
                    == ts),
        },
    decreases n,
{
    let es = Engine::deletions(keys_ts, base);
    if n > 0 {
        let t = es.take(n as int);
        lemma_last_deletion(keys_ts, base, (n - 1) as nat, key, ts);
        assert(t.drop_last() =~= es.take(n - 1));
        assert(t.last() == es[n - 1]);
        assert(encode_utf8(keys_ts[n - 1].0@) == es[n - 1].key && keys_ts[n - 1].1 == es[n - 1].ts);
    }
}

/// A batch of deletions removes every version that it names, and leaves all
/// others as they are.
pub proof fn law_deletions_remove_what_they_name(
    v: EngineView,
    keys_ts: Seq<(String, i64)>,
    key: Seq<u8>,
    ts: i64,
)
    requires
        v.seqs_below(),
        v.next_seq + keys_ts.len() <= u64::MAX,
    ensures
        v.written(Engine::deletions(keys_ts, v.next_seq)).point(key, ts) == if names_version(
            keys_ts,
            key,
            ts,
        ) {
            None
        } else {
            v.point(key, ts)
        },
{
    let es = Engine::deletions(keys_ts, v.next_seq);
    assert(sequenced(es, v.next_seq) =~= es);
    lemma_last_deletion(keys_ts, v.next_seq, keys_ts.len(), key, ts);
    assert(es.take(keys_ts.len() as int) =~= es);
    law_batch_decides_point_reads(v, es, key, ts);
    assert(!deletes_last(es, key, ts)) by {
        if deletes_last(es, key, ts) {
            let i = choose|i: int|
                0 <= i < es.len() && #[trigger] covers(es[i], key) && ends_with(es, i, key, ts);
            assert(es[i].op == Op::Delete);
        }
    }
}

/// What a scan takes passes its filters.
proof fn lemma_winner_passes(
    v: EngineView,
    filter: KeyFilterView,
    times: Option<(i64, i64)>,
    range: Option<ScanRangeView>,
    e: Entry,
)
    requires
        v.scan(filter, times, range).merge.wins(e),
    ensures
        passes(e, filter, times, v.now),
{
    let m = v.scan(filter, times, range).merge;
    let (i, k) = choose|i: int, k: int| #[trigger] m.wins_at(i, k, e);
    assert(m.runs[i].rest.contains(e));
    let p = |x: Entry| passes(x, filter, times, v.now);
    if i == 0 {
        let sel = selected(v.mem.all(), filter, times, v.now);
        assert(m.runs[0] == memory_run(v.mem, filter, times, v.now));
        lemma_filter_contains(stable_sorted(sel), v.mem.uncovered(), e);
        lemma_stable_sort_exists(sel);
        lemma_sort_contains(stable_sorted(sel), sel, e);
        lemma_filter_contains(v.mem.all(), p, e);
    } else {
        let metas = v.index.candidates(filter, times, v.now);
        let b = metas[i - 1];
        let run = stored_run(v.mem, v.index, v.readers, b, filter, times, v.now);
        assert(m.runs[i] == run);
        let all = taken_all(readable(v.readers, b), filter, times, false, v.now);
        let q = |x: Entry|
            still_there(v.mem, v.index, b.sst_id, x.key);
        lemma_filter_contains(stable_sorted(all), q, e);
        lemma_stable_sort_exists(all);
        lemma_sort_contains(stable_sorted(all), all, e);
        lemma_taken_all(readable(v.readers, b), filter, times, v.now, e);
        let s = readable(v.readers, b);
        let j = choose|j: int|
            0 <= j < s.len() && taken(#[trigger] s[j], filter, times, false, v.now) == Some(e);
        assert(passes(s[j], filter, times, v.now));
    }
}

/// The range that a query asks for.
spec fn asked(filter: KeyFilterView, times: Option<(i64, i64)>) -> ScanRangeView {
    let keys = match filter {
        KeyFilterView::Prefix(p) => ScanRangeView::of_prefix(p),
        KeyFilterView::Range { start, end } => ScanRangeView {
            key_start: Bound::Included(start),
            key_end: Bound::Included(end),
            ts_start: Bound::Unbounded,
            ts_end: Bound::Unbounded,
        },
        KeyFilterView::All => ScanRangeView {
            key_start: Bound::Unbounded,
            key_end: Bound::Unbounded,
            ts_start: Bound::Unbounded,
            ts_end: Bound::Unbounded,
        },
    };
    match times {
        Some((a, b)) => ScanRangeView { ts_start: Bound::Included(a), ts_end: Bound::Included(b), ..keys },
        None => keys,
    }
}

/// A query gives a record exactly where the record is what is read of its
/// `(key, ts)`, its key begins with the prefix, or lies between the two keys,
/// both included, and its time lies between the two times, both included.
pub proof fn law_query_gives_what_is_asked_for(
    v: EngineView,
    filter: KeyFilterView,
    times: Option<(i64, i64)>,
    r: RecordView,
)
    requires
        v.in_step(),
    ensures
        v.query(filter, times).contains(r) <==> v.point(r.key, r.ts) == Some(r) && (match filter {
            KeyFilterView::Prefix(p) => exists|rest: Seq<u8>| r.key == #[trigger] (p + rest),
            KeyFilterView::Range { start, end } => lex_le(start, r.key) && lex_le(r.key, end),
            KeyFilterView::All => true,
        }) && (match times {
            Some((from, to)) => from <= r.ts && r.ts <= to,
            None => true,
        }),
{
    let range = asked(filter, times);
    let one = v.scan(filter, times, None);
    let two = v.range_scan(range);
    assert(range.filter() == filter);
    assert(range.times() == times);
    assert(two == v.scan(filter, times, Some(range)));
    assert(one.merge == two.merge);
    if let KeyFilterView::Prefix(p) = filter {
        law_prefix_is_a_beginning(r.key, p);
    }
    assert forall|e: Entry| #[trigger] one.visible(e) <==> two.visible(e) by {
        if one.visible(e) {
            lemma_winner_passes(v, filter, times, None, e);
        }
    }
    lemma_scan_records(one, r);
    lemma_scan_records(two, r);
    if one.records().contains(r) {
        let e = choose|e: Entry| #[trigger] one.visible(e) && e.record() == r;
        assert(two.visible(e));
    }
    if two.records().contains(r) {
        let e = choose|e: Entry| #[trigger] two.visible(e) && e.record() == r;
        assert(one.visible(e));
    }
    assert(v.scan_agrees(range));
}

/// A query gives its records in the order of their keys, and those of one key
/// in the order of their times.
pub proof fn law_query_is_ascending(
    v: EngineView,
    filter: KeyFilterView,
    times: Option<(i64, i64)>,
    i: int,
    j: int,
)
    requires
        0 <= i < j < v.query(filter, times).len(),
    ensures
        lex_lt(v.query(filter, times)[i].key, v.query(filter, times)[j].key) || (v.query(
            filter,
            times,
        )[i].key == v.query(filter, times)[j].key && v.query(filter, times)[i].ts < v.query(
            filter,
            times,
        )[j].ts),
{
    let s = v.scan(filter, times, None);
    lemma_scan_has_result(s);
    law_scan_is_ascending(s, s.result(), i, j);
}

/// The last record of the query for one key alone is the one with the greatest
/// time of those that are read of the key; there is none where nothing is read
/// of it.
pub proof fn law_last_of_a_key_is_its_latest(v: EngineView, key: Seq<u8>)
    requires
        v.in_step(),
    ensures
        ({
            let all = v.query(KeyFilterView::Range { start: key, end: key }, None);
            &&& all.len() == 0 ==> forall|ts: i64| (#[trigger] v.point(key, ts)) is None
            &&& all.len() > 0 ==> {
                &&& all.last().key == key
                &&& v.point(key, all.last().ts) == Some(all.last())
                &&& forall|ts: i64| (#[trigger] v.point(key, ts)) is Some ==> ts <= all.last().ts
            }
        }),
{
    let filter = KeyFilterView::Range { start: key, end: key };
    let all = v.query(filter, None);
    assert forall|r: RecordView| #[trigger] all.contains(r) <==> v.point(r.key, r.ts) == Some(r)
        && r.key == key by {
        law_query_gives_what_is_asked_for(v, filter, None, r);
        if lex_lt(key, r.key) {
            lemma_lex_asymmetric(key, r.key);
        }
        if lex_lt(r.key, key) {
            lemma_lex_asymmetric(r.key, key);
        }
    }
    assert forall|ts: i64| (#[trigger] v.point(key, ts)) is Some implies all.len() > 0 && ts
        <= all.last().ts by {
        let r = v.point(key, ts)->0;
        lemma_point_is_of_key(v, key, ts);
        assert(all.contains(r));
        let i = choose|i: int| 0 <= i < all.len() && all[i] == r;
        if i < all.len() - 1 {
            law_query_is_ascending(v, filter, None, i, all.len() - 1);
            assert(all.contains(all[all.len() - 1]));
            lemma_lex_irreflexive(key);
        }
    }
    if all.len() > 0 {
        assert(all.contains(all[all.len() - 1]));
    }
}

/// A scan of a range gives a record exactly where the record is what is read of
/// its `(key, ts)` and both lie on the right side of all bounds: an included
/// bound itself counts, an excluded one does not. (Of the range of a prefix the
/// end may not be a bound of that kind, where no byte string follows all that
/// begin with it.)
pub proof fn law_scan_gives_what_is_in_bounds(v: EngineView, range: ScanRangeView, r: RecordView)
    requires
        v.in_step(),
        range.key_start matches Bound::Included(s) ==> prefix_successor(s) is Some
            || range.key_end != Bound::Excluded(incremented(s)),
    ensures
        v.range_scan(range).records().contains(r) <==> v.point(r.key, r.ts) == Some(r)
            && (match range.key_start {
            Bound::Included(s) => lex_le(s, r.key),
            Bound::Excluded(s) => lex_lt(s, r.key),
            Bound::Unbounded => true,
        }) && (match range.key_end {
            Bound::Included(e) => lex_le(r.key, e),
            Bound::Excluded(e) => lex_lt(r.key, e),
            Bound::Unbounded => true,
        }) && (match range.ts_start {
            Bound::Included(s) => s <= r.ts,
            Bound::Excluded(s) => s < r.ts,
            Bound::Unbounded => true,
        }) && (match range.ts_end {
            Bound::Included(e) => r.ts <= e,
            Bound::Excluded(e) => r.ts < e,
            Bound::Unbounded => true,
        }),
{
    assert(v.scan_agrees(range));
    if let Bound::Included(s) = range.key_start {
        if range.key_end == Bound::Excluded(incremented(s)) {
            lemma_prefix_range(s, r.key);
        }
    }
}

/// A scan of a prefix gives a record exactly where the record is what is read of
/// its `(key, ts)` and its key begins with the prefix.
pub proof fn law_prefix_scan_gives_what_begins_with_it(v: EngineView, p: Seq<u8>, r: RecordView)
    requires
        v.in_step(),
    ensures
        v.range_scan(ScanRangeView::of_prefix(p)).records().contains(r) <==> v.point(r.key, r.ts)
            == Some(r) && exists|rest: Seq<u8>| r.key == #[trigger] (p + rest),
{
    assert(v.scan_agrees(ScanRangeView::of_prefix(p)));
    law_prefix_is_a_beginning(r.key, p);
}

} // verus!
