//! The order in which versions are stored and read: by key, then by time, and
//! among entries of one `(key, ts)` the highest sequence number first.

use vstd::prelude::*;

use crate::bytes::{
    compare_bytes, lemma_lex_asymmetric, lemma_lex_total, lemma_lex_transitive, lex_lt, Order,
};
use crate::record::{entries, Entry, InternalRecord};

verus! {

/// `(k1, t1)` comes before `(k2, t2)`.
pub open spec fn version_lt(k1: Seq<u8>, t1: i64, k2: Seq<u8>, t2: i64) -> bool {
    lex_lt(k1, k2) || (k1 == k2 && t1 < t2)
}

/// Two entries are versions of one `(key, ts)`.
pub open spec fn same_version(a: Entry, b: Entry) -> bool {
    a.key == b.key && a.ts == b.ts
}

/// `a` belongs to an earlier `(key, ts)` than `b`.
pub open spec fn entry_before(a: Entry, b: Entry) -> bool {
    version_lt(a.key, a.ts, b.key, b.ts)
}

/// `a` may stand before `b` in sorted order.
pub open spec fn entry_le(a: Entry, b: Entry) -> bool {
    entry_before(a, b) || (same_version(a, b) && a.seq >= b.seq)
}

/// Neither of two entries has to stand before the other.
pub open spec fn same_rank(a: Entry, b: Entry) -> bool {
    same_version(a, b) && a.seq == b.seq
}

pub open spec fn sorted_entries(s: Seq<Entry>) -> bool {
    forall|i: int, j: int| 0 <= i < j < s.len() ==> entry_le(#[trigger] s[i], #[trigger] s[j])
}

/// In strictly ascending `(key, ts)` order, so that no version occurs twice.
pub open spec fn strictly_sorted(s: Seq<Entry>) -> bool {
    forall|i: int, j: int| 0 <= i < j < s.len() ==> entry_before(#[trigger] s[i], #[trigger] s[j])
}

/// The entries of `s` that rank with `x`.
pub open spec fn ranked_with(s: Seq<Entry>, x: Entry) -> Seq<Entry> {
    s.filter(|e: Entry| same_rank(e, x))
}

/// `out` holds the entries of `input` in sorted order, and entries of one rank
/// in the order in which `input` has them.
pub open spec fn is_stable_sort(out: Seq<Entry>, input: Seq<Entry>) -> bool {
    &&& out.len() == input.len()
    &&& sorted_entries(out)
    &&& forall|x: Entry| #[trigger] ranked_with(out, x) == ranked_with(input, x)
}

pub proof fn lemma_before_transitive(a: Entry, b: Entry, c: Entry)
    requires
        entry_before(a, b),
        entry_before(b, c),
    ensures
        entry_before(a, c),
{
    if lex_lt(a.key, b.key) && lex_lt(b.key, c.key) {
        lemma_lex_transitive(a.key, b.key, c.key);
    }
}

pub proof fn lemma_before_asymmetric(a: Entry, b: Entry)
    requires
        entry_before(a, b),
    ensures
        !entry_before(b, a),
        !same_version(a, b),
{
    if lex_lt(a.key, b.key) {
        lemma_lex_asymmetric(a.key, b.key);
    } else if lex_lt(b.key, a.key) {
        lemma_lex_asymmetric(b.key, a.key);
    }
}

pub proof fn lemma_before_total(a: Entry, b: Entry)
    ensures
        entry_before(a, b) || same_version(a, b) || entry_before(b, a),
{
    lemma_lex_total(a.key, b.key);
}

pub proof fn lemma_le_transitive(a: Entry, b: Entry, c: Entry)
    requires
        entry_le(a, b),
        entry_le(b, c),
    ensures
        entry_le(a, c),
        entry_before(a, b) || entry_before(b, c) ==> entry_before(a, c),
{
    if entry_before(a, b) && entry_before(b, c) {
        lemma_before_transitive(a, b, c);
    }
}

pub proof fn lemma_le_total(a: Entry, b: Entry)
    ensures
        entry_le(a, b) || entry_le(b, a),
{
    lemma_before_total(a, b);
}

/// A sort neither loses nor invents an entry.
pub proof fn lemma_sort_contains(out: Seq<Entry>, input: Seq<Entry>, e: Entry)
    requires
        is_stable_sort(out, input),
    ensures
        out.contains(e) <==> input.contains(e),
{
    assert(ranked_with(out, e) == ranked_with(input, e));
    let p = |f: Entry| same_rank(f, e);
    lemma_filter_contains(out, p, e);
    lemma_filter_contains(input, p, e);
}

/// A filtered sequence holds what the whole holds and the filter lets through.
pub proof fn lemma_filter_contains<T>(s: Seq<T>, p: spec_fn(T) -> bool, e: T)
    ensures
        s.filter(p).contains(e) <==> s.contains(e) && p(e),
{
    broadcast use Seq::lemma_filter_contains_rev;

    if s.contains(e) && p(e) {
        let i = choose|i: int| 0 <= i < s.len() && s[i] == e;
        s.lemma_filter_contains(p, i);
    }
    if s.filter(p).contains(e) {
        let i = choose|i: int| 0 <= i < s.filter(p).len() && s.filter(p)[i] == e;
        s.lemma_filter_pred(p, i);
    }
}

/// Compares `(key, ts)` pairs.
pub fn compare_versions(k1: &[u8], t1: i64, k2: &[u8], t2: i64) -> (r: Order)
    ensures
        r == Order::Less <==> version_lt(k1@, t1, k2@, t2),
        r == Order::Equal <==> k1@ == k2@ && t1 == t2,
        r == Order::Greater <==> version_lt(k2@, t2, k1@, t1),
{
    proof {
        if lex_lt(k1@, k2@) {
            lemma_lex_asymmetric(k1@, k2@);
        }
        if lex_lt(k2@, k1@) {
            lemma_lex_asymmetric(k2@, k1@);
        }
    }
    match compare_bytes(k1, k2) {
        Order::Less => Order::Less,
        Order::Greater => Order::Greater,
        Order::Equal => if t1 < t2 {
            Order::Less
        } else if t2 < t1 {
            Order::Greater
        } else {
            Order::Equal
        },
    }
}

/// Whether `a` may stand before `b` in sorted order.
pub fn record_le(a: &InternalRecord, b: &InternalRecord) -> (r: bool)
    ensures
        r == entry_le(a@, b@),
{
    proof {
        if entry_before(a@, b@) {
            lemma_before_asymmetric(a@, b@);
        }
        if entry_before(b@, a@) {
            lemma_before_asymmetric(b@, a@);
        }
    }
    match compare_versions(&a.key, a.ts, &b.key, b.ts) {
        Order::Less => true,
        Order::Greater => false,
        Order::Equal => a.seq >= b.seq,
    }
}

proof fn lemma_ranked_add(a: Seq<Entry>, b: Seq<Entry>, x: Entry)
    ensures
        ranked_with(a + b, x) == ranked_with(a, x) + ranked_with(b, x),
{
    Seq::filter_distributes_over_add(a, b, |e: Entry| same_rank(e, x));
}

proof fn lemma_ranked_one(e: Entry, x: Entry)
    ensures
        ranked_with(seq![e], x) == if same_rank(e, x) {
            seq![e]
        } else {
            Seq::empty()
        },
{
    reveal_with_fuel(Seq::filter, 2);
    assert(seq![e].drop_last() =~= Seq::<Entry>::empty());
    if same_rank(e, x) {
        assert(ranked_with(seq![e], x) =~= seq![e]);
    }
}

proof fn lemma_ranked_none(s: Seq<Entry>, x: Entry)
    requires
        forall|i: int| 0 <= i < s.len() ==> !same_rank(#[trigger] s[i], x),
    ensures
        ranked_with(s, x) == Seq::<Entry>::empty(),
{
    s.lemma_all_neg_filter_empty(|e: Entry| same_rank(e, x));
    assert(ranked_with(s, x) =~= Seq::<Entry>::empty());
}

/// The last entry of the left run moves in front of the merged tail.
proof fn lemma_move_left(a: Seq<Entry>, b: Seq<Entry>, tail: Seq<Entry>, x: Entry)
    requires
        a.len() > 0,
        sorted_entries(b),
        b.len() > 0 ==> !entry_le(a.last(), b.last()),
    ensures
        ranked_with(a, x) + ranked_with(b, x) + ranked_with(tail, x) == ranked_with(
            a.drop_last(),
            x,
        ) + ranked_with(b, x) + ranked_with(seq![a.last()] + tail, x),
{
    let e = a.last();
    assert(a =~= a.drop_last() + seq![e]);
    lemma_ranked_add(a.drop_last(), seq![e], x);
    lemma_ranked_add(seq![e], tail, x);
    lemma_ranked_one(e, x);
    if same_rank(e, x) {
        assert forall|i: int| 0 <= i < b.len() implies !same_rank(#[trigger] b[i], x) by {
            if same_rank(b[i], x) {
                if i < b.len() - 1 {
                    assert(entry_le(b[i], b[b.len() - 1]));
                    assert(entry_le(e, b[i]));
                    lemma_le_transitive(e, b[i], b.last());
                }
            }
        }
        lemma_ranked_none(b, x);
    }
    assert(ranked_with(a, x) + ranked_with(b, x) + ranked_with(tail, x) =~= ranked_with(
        a.drop_last(),
        x,
    ) + ranked_with(b, x) + ranked_with(seq![e] + tail, x));
}

/// The last entry of the right run moves in front of the merged tail.
proof fn lemma_move_right(a: Seq<Entry>, b: Seq<Entry>, tail: Seq<Entry>, x: Entry)
    requires
        b.len() > 0,
    ensures
        ranked_with(a, x) + ranked_with(b, x) + ranked_with(tail, x) == ranked_with(a, x)
            + ranked_with(b.drop_last(), x) + ranked_with(seq![b.last()] + tail, x),
{
    let e = b.last();
    assert(b =~= b.drop_last() + seq![e]);
    lemma_ranked_add(b.drop_last(), seq![e], x);
    lemma_ranked_add(seq![e], tail, x);
    assert(ranked_with(a, x) + ranked_with(b, x) + ranked_with(tail, x) =~= ranked_with(a, x)
        + ranked_with(b.drop_last(), x) + ranked_with(seq![e] + tail, x));
}

proof fn lemma_sorted_prepend(e: Entry, tail: Seq<Entry>)
    requires
        sorted_entries(tail),
        forall|i: int| 0 <= i < tail.len() ==> entry_le(e, #[trigger] tail[i]),
    ensures
        sorted_entries(seq![e] + tail),
{
    let t = seq![e] + tail;
    assert forall|i: int, j: int| 0 <= i < j < t.len() implies entry_le(
        #[trigger] t[i],
        #[trigger] t[j],
    ) by {
        assert(t[j] == tail[j - 1]);
        if i > 0 {
            assert(t[i] == tail[i - 1]);
        }
    }
}

/// Turns a vector around.
fn reversed(v: Vec<InternalRecord>) -> (r: Vec<InternalRecord>)
    ensures
        entries(r@) == entries(v@).reverse(),
{
    let mut v = v;
    let ghost v0 = v@;
    let mut r: Vec<InternalRecord> = Vec::new();
    while v.len() > 0
        invariant
            v@.len() + r@.len() == v0.len(),
            v@ == v0.subrange(0, v@.len() as int),
            forall|i: int| 0 <= i < r@.len() ==> r@[i] == v0[v0.len() - 1 - i],
        decreases v.len(),
    {
        let e = v.pop();
        if let Some(e) = e {
            r.push(e);
        }
        assert(v@ =~= v0.subrange(0, v@.len() as int));
    }
    assert(entries(r@) =~= entries(v0).reverse());
    r
}

/// Merges two sorted runs. Among entries of one rank those of `a` come first.
fn merge_runs(a: Vec<InternalRecord>, b: Vec<InternalRecord>) -> (r: Vec<InternalRecord>)
    requires
        sorted_entries(entries(a@)),
        sorted_entries(entries(b@)),
    ensures
        is_stable_sort(entries(r@), entries(a@) + entries(b@)),
{
    let ghost a0 = entries(a@);
    let ghost b0 = entries(b@);
    let mut a = a;
    let mut b = b;
    let mut rev: Vec<InternalRecord> = Vec::new();
    let ghost mut tail: Seq<Entry> = Seq::empty();
    assert(entries(rev@).reverse() =~= tail);
    while a.len() > 0 || b.len() > 0
        invariant
            a@.len() + b@.len() + tail.len() == a0.len() + b0.len(),
            tail == entries(rev@).reverse(),
            sorted_entries(entries(a@)),
            sorted_entries(entries(b@)),
            sorted_entries(tail),
            forall|i: int, j: int|
                0 <= i < a@.len() && 0 <= j < tail.len() ==> entry_le(
                    #[trigger] entries(a@)[i],
                    #[trigger] tail[j],
                ),
            forall|i: int, j: int|
                0 <= i < b@.len() && 0 <= j < tail.len() ==> entry_le(
                    #[trigger] entries(b@)[i],
                    #[trigger] tail[j],
                ),
            forall|x: Entry|
                #![trigger ranked_with(tail, x)]
                ranked_with(entries(a@), x) + ranked_with(entries(b@), x) + ranked_with(tail, x)
                    == ranked_with(a0, x) + ranked_with(b0, x),
        decreases a.len() + b.len(),
    {
        let from_left: bool = if a.len() == 0 {
            false
        } else if b.len() == 0 {
            true
        } else {
            !record_le(&a[a.len() - 1], &b[b.len() - 1])
        };
        let ghost ea = entries(a@);
        let ghost eb = entries(b@);
        let ghost t = tail;
        if from_left {
            proof {
                if eb.len() > 0 {
                    lemma_le_total(ea.last(), eb.last());
                    assert forall|i: int| 0 <= i < eb.len() implies entry_le(
                        #[trigger] eb[i],
                        ea.last(),
                    ) by {
                        if i < eb.len() - 1 {
                            assert(entry_le(eb[i], eb[eb.len() - 1]));
                            lemma_le_transitive(eb[i], eb.last(), ea.last());
                        }
                    }
                }
                assert forall|x: Entry|
                    #![trigger ranked_with(seq![ea.last()] + t, x)]
                    ranked_with(ea.drop_last(), x) + ranked_with(eb, x) + ranked_with(
                        seq![ea.last()] + t,
                        x,
                    ) == ranked_with(a0, x) + ranked_with(b0, x) by {
                    lemma_move_left(ea, eb, t, x);
                    let old_tail = ranked_with(t, x);
                }
                lemma_sorted_prepend(ea.last(), t);
                tail = seq![ea.last()] + t;
            }
            let e = a.pop();
            if let Some(e) = e {
                rev.push(e);
            }
            assert(entries(a@) =~= ea.drop_last());
            assert(tail =~= entries(rev@).reverse());
        } else {
            proof {
                if ea.len() > 0 {
                    assert(entry_le(ea.last(), eb.last()));
                    assert forall|i: int| 0 <= i < ea.len() implies entry_le(
                        #[trigger] ea[i],
                        eb.last(),
                    ) by {
                        if i < ea.len() - 1 {
                            assert(entry_le(ea[i], ea[ea.len() - 1]));
                            lemma_le_transitive(ea[i], ea.last(), eb.last());
                        }
                    }
                }
                assert forall|x: Entry|
                    #![trigger ranked_with(seq![eb.last()] + t, x)]
                    ranked_with(ea, x) + ranked_with(eb.drop_last(), x) + ranked_with(
                        seq![eb.last()] + t,
                        x,
                    ) == ranked_with(a0, x) + ranked_with(b0, x) by {
                    lemma_move_right(ea, eb, t, x);
                    let old_tail = ranked_with(t, x);
                }
                lemma_sorted_prepend(eb.last(), t);
                tail = seq![eb.last()] + t;
            }
            let e = b.pop();
            if let Some(e) = e {
                rev.push(e);
            }
            assert(entries(b@) =~= eb.drop_last());
            assert(tail =~= entries(rev@).reverse());
        }
    }
    proof {
        assert forall|x: Entry| #[trigger] ranked_with(tail, x) == ranked_with(a0 + b0, x) by {
            lemma_ranked_add(a0, b0, x);
            lemma_ranked_none(entries(a@), x);
            lemma_ranked_none(entries(b@), x);
            assert(ranked_with(tail, x) =~= ranked_with(entries(a@), x) + ranked_with(
                entries(b@),
                x,
            ) + ranked_with(tail, x));
        }
    }
    reversed(rev)
}

/// Sorts records by key, then by time, then by falling sequence number.
/// Records that agree in all three keep their order.
pub fn sort_records(v: Vec<InternalRecord>) -> (r: Vec<InternalRecord>)
    ensures
        is_stable_sort(entries(r@), entries(v@)),
    decreases v.len(),
{
    if v.len() <= 1 {
        return v;
    }
    let ghost v0 = entries(v@);
    let mut left = v;
    let mid: usize = left.len() / 2;
    let right = left.split_off(mid);
    let ghost l0 = entries(left@);
    let ghost r0 = entries(right@);
    assert(v0 =~= l0 + r0);
    let left = sort_records(left);
    let right = sort_records(right);
    let merged = merge_runs(left, right);
    proof {
        assert forall|x: Entry| #[trigger] ranked_with(entries(merged@), x) == ranked_with(
            v0,
            x,
        ) by {
            lemma_ranked_add(l0, r0, x);
            lemma_ranked_add(entries(left@), entries(right@), x);
            assert(ranked_with(entries(left@), x) == ranked_with(l0, x));
            assert(ranked_with(entries(right@), x) == ranked_with(r0, x));
        }
    }
    merged
}

/// No entry stands before one of an earlier `(key, ts)`.
pub open spec fn version_sorted(s: Seq<Entry>) -> bool {
    forall|i: int, j: int|
        0 <= i < j < s.len() ==> entry_before(#[trigger] s[i], #[trigger] s[j]) || same_version(
            s[i],
            s[j],
        )
}

proof fn lemma_ranked_first(s: Seq<Entry>)
    requires
        s.len() > 0,
    ensures
        forall|x: Entry|
            #![trigger ranked_with(s, x)]
            ranked_with(s, x) == if same_rank(s.first(), x) {
                seq![s.first()] + ranked_with(s.drop_first(), x)
            } else {
                ranked_with(s.drop_first(), x)
            },
{
    assert forall|x: Entry|
        #![trigger ranked_with(s, x)]
        ranked_with(s, x) == if same_rank(s.first(), x) {
            seq![s.first()] + ranked_with(s.drop_first(), x)
        } else {
            ranked_with(s.drop_first(), x)
        } by {
        assert(s =~= seq![s.first()] + s.drop_first());
        lemma_ranked_add(seq![s.first()], s.drop_first(), x);
        lemma_ranked_one(s.first(), x);
        assert(Seq::<Entry>::empty() + ranked_with(s.drop_first(), x) =~= ranked_with(
            s.drop_first(),
            x,
        ));
    }
}

/// Sorted sequences with the same entries of each rank, in the same order, are equal.
proof fn lemma_sorted_unique(a: Seq<Entry>, b: Seq<Entry>)
    requires
        sorted_entries(a),
        sorted_entries(b),
        a.len() == b.len(),
        forall|x: Entry| #[trigger] ranked_with(a, x) == ranked_with(b, x),
    ensures
        a == b,
    decreases a.len(),
{
    if a.len() == 0 {
        assert(a =~= b);
    } else {
        let x = a.first();
        let y = b.first();
        lemma_ranked_first(a);
        lemma_ranked_first(b);
        assert(ranked_with(a, x).first() == x);
        assert(ranked_with(b, y).first() == y);
        assert(ranked_with(b, x).len() > 0);
        assert(ranked_with(a, y).len() > 0) by {
            assert(ranked_with(a, y) == ranked_with(b, y));
        }
        assert(entry_le(y, x)) by {
            let p = |e: Entry| same_rank(e, x);
            lemma_filter_contains(b, p, x);
            assert(ranked_with(b, x)[0] == x);
            assert(b.contains(x));
            let i = choose|i: int| 0 <= i < b.len() && b[i] == x;
            if i > 0 {
                assert(entry_le(b[0], b[i]));
            }
        }
        assert(entry_le(x, y)) by {
            let p = |e: Entry| same_rank(e, y);
            lemma_filter_contains(a, p, y);
            assert(ranked_with(a, y)[0] == y);
            assert(a.contains(y));
            let i = choose|i: int| 0 <= i < a.len() && a[i] == y;
            if i > 0 {
                assert(entry_le(a[0], a[i]));
            }
        }
        if entry_before(x, y) {
            lemma_before_asymmetric(x, y);
        }
        if entry_before(y, x) {
            lemma_before_asymmetric(y, x);
        }
        assert(same_rank(x, y));
        assert(ranked_with(b, x).first() == y) by {
            assert(same_rank(y, x));
        }
        assert(x == y);
        let s = a.drop_first();
        let t = b.drop_first();
        assert forall|z: Entry| #[trigger] ranked_with(s, z) == ranked_with(t, z) by {
            assert(ranked_with(a, z) == ranked_with(b, z));
            if same_rank(x, z) {
                assert(ranked_with(s, z) =~= ranked_with(a, z).drop_first());
                assert(ranked_with(t, z) =~= ranked_with(b, z).drop_first());
            }
        }
        assert forall|i: int, j: int| 0 <= i < j < s.len() implies entry_le(
            #[trigger] s[i],
            #[trigger] s[j],
        ) by {
            assert(s[i] == a[i + 1] && s[j] == a[j + 1]);
        }
        assert forall|i: int, j: int| 0 <= i < j < t.len() implies entry_le(
            #[trigger] t[i],
            #[trigger] t[j],
        ) by {
            assert(t[i] == b[i + 1] && t[j] == b[j + 1]);
        }
        lemma_sorted_unique(s, t);
        assert(a =~= seq![x] + s);
        assert(b =~= seq![y] + t);
    }
}

/// The entries in sorted order; those of one rank keep their order.
pub open spec fn stable_sorted(s: Seq<Entry>) -> Seq<Entry> {
    choose|t: Seq<Entry>| is_stable_sort(t, s)
}

/// How many entries of a sorted sequence, from the front, may stand before `x`.
spec fn rank_in(s: Seq<Entry>, x: Entry) -> int
    decreases s.len(),
{
    if s.len() == 0 || !entry_le(s.first(), x) {
        0
    } else {
        1 + rank_in(s.drop_first(), x)
    }
}

proof fn lemma_rank_in(s: Seq<Entry>, x: Entry)
    requires
        sorted_entries(s),
    ensures
        0 <= rank_in(s, x) <= s.len(),
        forall|i: int| 0 <= i < rank_in(s, x) ==> entry_le(#[trigger] s[i], x),
        forall|i: int| rank_in(s, x) <= i < s.len() ==> !entry_le(#[trigger] s[i], x),
    decreases s.len(),
{
    if s.len() > 0 {
        let t = s.drop_first();
        assert forall|i: int, j: int| 0 <= i < j < t.len() implies entry_le(
            #[trigger] t[i],
            #[trigger] t[j],
        ) by {
            assert(t[i] == s[i + 1] && t[j] == s[j + 1]);
        }
        lemma_rank_in(t, x);
        if entry_le(s.first(), x) {
            assert forall|i: int| 0 <= i < rank_in(s, x) implies entry_le(#[trigger] s[i], x) by {
                if i > 0 {
                    assert(t[i - 1] == s[i]);
                }
            }
            assert forall|i: int| rank_in(s, x) <= i < s.len() implies !entry_le(
                #[trigger] s[i],
                x,
            ) by {
                assert(t[i - 1] == s[i]);
            }
        } else {
            assert forall|i: int| 0 <= i < s.len() implies !entry_le(#[trigger] s[i], x) by {
                if i > 0 && entry_le(s[i], x) {
                    assert(entry_le(s[0], s[i]));
                    lemma_le_transitive(s[0], s[i], x);
                }
            }
        }
    }
}

/// Every sequence has a stable sort.
pub proof fn lemma_stable_sort_exists(s: Seq<Entry>)
    ensures
        is_stable_sort(stable_sorted(s), s),
    decreases s.len(),
{
    if s.len() == 0 {
        assert(is_stable_sort(s, s));
    } else {
        let r = s.drop_last();
        let x = s.last();
        lemma_stable_sort_exists(r);
        let t = stable_sorted(r);
        lemma_rank_in(t, x);
        let p = rank_in(t, x);
        let a = t.subrange(0, p);
        let b = t.subrange(p, t.len() as int);
        let u = a + seq![x] + b;
        assert forall|i: int, j: int| 0 <= i < j < u.len() implies entry_le(
            #[trigger] u[i],
            #[trigger] u[j],
        ) by {
            if i < p && j < p {
                assert(u[i] == t[i] && u[j] == t[j]);
            } else if i < p && j == p {
                assert(u[i] == t[i]);
            } else if i < p {
                assert(u[i] == t[i] && u[j] == t[j - 1]);
            } else if i == p {
                assert(u[j] == t[j - 1]);
                lemma_le_total(x, t[j - 1]);
            } else {
                assert(u[i] == t[i - 1] && u[j] == t[j - 1]);
            }
        }
        assert(t =~= a + b);
        assert(s =~= r + seq![x]);
        assert forall|y: Entry| #[trigger] ranked_with(u, y) == ranked_with(s, y) by {
            lemma_ranked_add(a + seq![x], b, y);
            lemma_ranked_add(a, seq![x], y);
            lemma_ranked_add(a, b, y);
            lemma_ranked_add(r, seq![x], y);
            lemma_ranked_one(x, y);
            assert(ranked_with(t, y) == ranked_with(r, y));
            if same_rank(x, y) {
                assert forall|i: int| 0 <= i < b.len() implies !same_rank(#[trigger] b[i], y) by {
                    assert(b[i] == t[p + i]);
                }
                lemma_ranked_none(b, y);
                assert(ranked_with(u, y) =~= ranked_with(s, y));
            } else {
                assert(ranked_with(u, y) =~= ranked_with(s, y));
            }
        }
        assert(is_stable_sort(u, s));
    }
}

/// There is only one stable sort of a sequence.
pub proof fn lemma_stable_sorted(t: Seq<Entry>, s: Seq<Entry>)
    requires
        is_stable_sort(t, s),
    ensures
        stable_sorted(s) == t,
{
    let u = stable_sorted(s);
    assert(is_stable_sort(u, s));
    assert forall|x: Entry| #[trigger] ranked_with(u, x) == ranked_with(t, x) by {
        assert(ranked_with(t, x) == ranked_with(s, x));
    }
    lemma_sorted_unique(u, t);
}

/// Strictly sorted sequences with the same entries are equal.
pub proof fn lemma_strictly_sorted_unique(a: Seq<Entry>, b: Seq<Entry>)
    requires
        strictly_sorted(a),
        strictly_sorted(b),
        forall|e: Entry| a.contains(e) <==> #[trigger] b.contains(e),
    ensures
        a == b,
    decreases a.len(),
{
    if a.len() == 0 {
        if b.len() > 0 {
            assert(b.contains(b[0]));
        }
        assert(a =~= b);
    } else {
        assert(a.contains(a[0]));
        assert(b.contains(a[0]));
        let i = choose|i: int| 0 <= i < b.len() && b[i] == a[0];
        assert(b.contains(b[0]));
        assert(a.contains(b[0]));
        let j = choose|j: int| 0 <= j < a.len() && a[j] == b[0];
        if i > 0 {
            assert(entry_before(b[0], b[i]));
            if j > 0 {
                assert(entry_before(a[0], a[j]));
                lemma_before_asymmetric(a[0], b[0]);
            } else {
                lemma_before_asymmetric(b[0], b[i]);
            }
        }
        let s = a.drop_first();
        let t = b.drop_first();
        assert forall|k: int, l: int| 0 <= k < l < s.len() implies entry_before(
            #[trigger] s[k],
            #[trigger] s[l],
        ) by {
            assert(s[k] == a[k + 1] && s[l] == a[l + 1]);
        }
        assert forall|k: int, l: int| 0 <= k < l < t.len() implies entry_before(
            #[trigger] t[k],
            #[trigger] t[l],
        ) by {
            assert(t[k] == b[k + 1] && t[l] == b[l + 1]);
        }
        assert forall|e: Entry| s.contains(e) <==> #[trigger] t.contains(e) by {
            if s.contains(e) {
                let k = choose|k: int| 0 <= k < s.len() && s[k] == e;
                assert(a[k + 1] == e);
                assert(b.contains(e));
                let l = choose|l: int| 0 <= l < b.len() && b[l] == e;
                if l == 0 {
                    assert(entry_before(a[0], a[k + 1]));
                    lemma_before_asymmetric(a[0], a[k + 1]);
                }
                assert(t[l - 1] == e);
            }
            if t.contains(e) {
                let k = choose|k: int| 0 <= k < t.len() && t[k] == e;
                assert(b[k + 1] == e);
                assert(b.contains(e));
                assert(a.contains(e));
                let l = choose|l: int| 0 <= l < a.len() && a[l] == e;
                if l == 0 {
                    assert(entry_before(b[0], b[k + 1]));
                    lemma_before_asymmetric(b[0], b[k + 1]);
                }
                assert(s[l - 1] == e);
            }
        }
        lemma_strictly_sorted_unique(s, t);
        assert(a =~= seq![a[0]] + s);
        assert(b =~= seq![b[0]] + t);
    }
}

} // verus!
