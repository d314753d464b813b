//! What a scan gives.

use vstd::prelude::*;

use crate::engine_laws::lemma_one_winner;
use crate::memtables::lemma_flatten_contains;
use crate::merge::RunView;
use crate::order::{
    entry_before, lemma_before_total, lemma_before_transitive, same_version, strictly_sorted,
};
use crate::record::{Entry, RecordView};
use crate::scan::ScanView;

verus! {

/// One entry more, put in its place.
proof fn lemma_insert(s: Seq<Entry>, x: Entry) -> (out: Seq<Entry>)
    requires
        strictly_sorted(s),
        forall|i: int| 0 <= i < s.len() ==> !same_version(#[trigger] s[i], x),
    ensures
        strictly_sorted(out),
        forall|e: Entry| #[trigger] out.contains(e) <==> s.contains(e) || e == x,
    decreases s.len(),
{
    if s.len() == 0 {
        let out = seq![x];
        assert(out[0] == x);
        out
    } else {
        lemma_before_total(s.last(), x);
        assert(!same_version(s[s.len() - 1], x));
        if entry_before(s.last(), x) {
            let out = s.push(x);
            assert forall|i: int, j: int| 0 <= i < j < out.len() implies entry_before(
                #[trigger] out[i],
                #[trigger] out[j],
            ) by {
                if j == s.len() && i < s.len() - 1 {
                    assert(entry_before(s[i], s[s.len() - 1]));
                    lemma_before_transitive(s[i], s.last(), x);
                }
            }
            assert forall|e: Entry| #[trigger] out.contains(e) <==> s.contains(e) || e == x by {
                assert(out[s.len() as int] == x);
                if s.contains(e) {
                    let i = choose|i: int| 0 <= i < s.len() && s[i] == e;
                    assert(out[i] == e);
                }
            }
            out
        } else {
            let t = s.drop_last();
            assert forall|i: int| 0 <= i < t.len() implies !same_version(#[trigger] t[i], x) by {
                assert(s[i] == t[i]);
            }
            assert(strictly_sorted(t)) by {
                assert forall|i: int, j: int| 0 <= i < j < t.len() implies entry_before(
                    #[trigger] t[i],
                    #[trigger] t[j],
                ) by {
                    assert(s[i] == t[i] && s[j] == t[j]);
                }
            }
            let u = lemma_insert(t, x);
            let out = u.push(s.last());
            assert forall|i: int, j: int| 0 <= i < j < out.len() implies entry_before(
                #[trigger] out[i],
                #[trigger] out[j],
            ) by {
                if j == u.len() {
                    assert(u.contains(u[i]));
                    if t.contains(u[i]) {
                        let k = choose|k: int| 0 <= k < t.len() && t[k] == u[i];
                        assert(s[k] == t[k]);
                        assert(entry_before(s[k], s[s.len() - 1]));
                    }
                }
            }
            assert forall|e: Entry| #[trigger] out.contains(e) <==> s.contains(e) || e == x by {
                if u.contains(e) {
                    let i = choose|i: int| 0 <= i < u.len() && u[i] == e;
                    assert(out[i] == e);
                }
                assert(out[u.len() as int] == s.last());
                if t.contains(e) {
                    let i = choose|i: int| 0 <= i < t.len() && t[i] == e;
                    assert(s[i] == e);
                }
                if s.contains(e) {
                    let i = choose|i: int| 0 <= i < s.len() && s[i] == e;
                    if i < t.len() {
                        assert(t[i] == e);
                    }
                }
                if out.contains(e) {
                    let i = choose|i: int| 0 <= i < out.len() && out[i] == e;
                    if i < u.len() {
                        assert(u[i] == e);
                    }
                }
            }
            out
        }
    }
}

/// The entries of `s` with a property, in rising order.
proof fn lemma_in_order(s: Seq<Entry>, p: spec_fn(Entry) -> bool) -> (out: Seq<Entry>)
    requires
        forall|e: Entry, f: Entry|
            #![trigger p(e), p(f)]
            p(e) && p(f) && same_version(e, f) ==> e == f,
    ensures
        strictly_sorted(out),
        forall|e: Entry| #[trigger] out.contains(e) <==> s.contains(e) && p(e),
    decreases s.len(),
{
    if s.len() == 0 {
        Seq::empty()
    } else {
        let t = s.drop_last();
        let x = s.last();
        let prev = lemma_in_order(t, p);
        assert forall|e: Entry| #[trigger] s.contains(e) <==> t.contains(e) || e == x by {
            assert(s[s.len() - 1] == x);
            if t.contains(e) {
                let i = choose|i: int| 0 <= i < t.len() && t[i] == e;
                assert(s[i] == e);
            }
            if s.contains(e) {
                let i = choose|i: int| 0 <= i < s.len() && s[i] == e;
                if i < t.len() {
                    assert(t[i] == e);
                }
            }
        }
        if p(x) && !prev.contains(x) {
            assert forall|i: int| 0 <= i < prev.len() implies !same_version(#[trigger] prev[i], x) by {
                assert(prev.contains(prev[i]));
                assert(p(prev[i]));
            }
            lemma_insert(prev, x)
        } else {
            prev
        }
    }
}

/// Every scan has a result.
pub proof fn lemma_scan_has_result(v: ScanView)
    ensures
        v.gives(v.result()),
{
    let rests = v.merge.runs.map_values(|r: RunView| r.rest);
    let all = rests.flatten();
    let p = |e: Entry| v.visible(e);
    assert forall|e: Entry, f: Entry|
        #![trigger p(e), p(f)]
        p(e) && p(f) && same_version(e, f) implies e == f by {
        lemma_one_winner(v.merge, e, f);
    }
    let out = lemma_in_order(all, p);
    assert forall|e: Entry| #[trigger] out.contains(e) <==> v.visible(e) by {
        if v.visible(e) {
            let (i, k) = choose|i: int, k: int| #[trigger] v.merge.wins_at(i, k, e);
            assert(rests[i][k] == e);
            assert(rests[i].contains(e));
            lemma_flatten_contains(rests, e);
        }
        assert(p(e) == v.visible(e));
    }
    assert(v.gives(out));
}

/// The records of a scan are those of its visible entries.
pub proof fn lemma_scan_records(v: ScanView, r: RecordView)
    ensures
        v.records().contains(r) <==> exists|e: Entry| #[trigger] v.visible(e) && e.record() == r,
{
    lemma_scan_has_result(v);
    let out = v.result();
    if v.records().contains(r) {
        let i = choose|i: int| 0 <= i < v.records().len() && v.records()[i] == r;
        assert(out.contains(out[i]));
        assert(v.visible(out[i]));
    }
    if exists|e: Entry| #[trigger] v.visible(e) && e.record() == r {
        let e = choose|e: Entry| #[trigger] v.visible(e) && e.record() == r;
        assert(out.contains(e));
        let i = choose|i: int| 0 <= i < out.len() && out[i] == e;
        assert(v.records()[i] == r);
    }
}

/// `e` is of the highest number of its `(key, ts)` in `s`.
pub open spec fn tops(s: Seq<Entry>, e: Entry) -> bool {
    s.contains(e) && forall|f: Entry| #[trigger] s.contains(f) && same_version(f, e) ==> f.seq <= e.seq
}

} // verus!
