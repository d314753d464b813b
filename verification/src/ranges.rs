//! Range deletions: which keys they cover, and which writes they come after.

use vstd::prelude::*;

use crate::bytes::{bytes_eq, bytes_le, bytes_lt, copy_bytes, lex_le, lex_lt};
use crate::record::{entries, Entry, InternalRecord, Op};

verus! {

/// The key range that a range deletion covers: from the first key up to the second.
pub type KeySpan = (Vec<u8>, Vec<u8>);

pub open spec fn span_view(t: KeySpan) -> (Seq<u8>, Seq<u8>) {
    (t.0@, t.1@)
}

pub open spec fn span_views(s: Seq<KeySpan>) -> Seq<(Seq<u8>, Seq<u8>)> {
    s.map_values(|t: KeySpan| span_view(t))
}

/// One of the key ranges covers `key`.
pub open spec fn masked(spans: Seq<(Seq<u8>, Seq<u8>)>, key: Seq<u8>) -> bool {
    exists|i: int|
        0 <= i < spans.len() && lex_le((#[trigger] spans[i]).0, key) && lex_lt(key, spans[i].1)
}

/// `e` is a range deletion with an end.
pub open spec fn is_span(e: Entry) -> bool {
    e.op == Op::DeleteRange && e.range_end is Some
}

/// `e` is a range deletion that covers `key`.
pub open spec fn covers(e: Entry, key: Seq<u8>) -> bool {
    is_span(e) && lex_le(e.key, key) && lex_lt(key, e.range_end->0)
}

/// The number comes after the one given; any does where none is given.
pub open spec fn is_after(seq: u64, after: Option<u64>) -> bool {
    after is None || seq > after->0
}

/// `e` is a range deletion that covers `key`, written after `after` and no
/// later than `max_seq`.
pub open spec fn covers_at(e: Entry, key: Seq<u8>, after: Option<u64>, max_seq: u64) -> bool {
    covers(e, key) && is_after(e.seq, after) && e.seq <= max_seq
}

/// `s` holds a range deletion that covers `key`, written after `after` and no
/// later than `max_seq`.
pub open spec fn covered(s: Seq<Entry>, key: Seq<u8>, after: Option<u64>, max_seq: u64) -> bool {
    exists|i: int| 0 <= i < s.len() && covers_at(#[trigger] s[i], key, after, max_seq)
}

/// A range deletion has an end, and deletes something.
pub open spec fn is_proper(e: Entry) -> bool {
    e.op == Op::DeleteRange ==> e.range_end is Some && lex_lt(e.key, e.range_end->0)
}

/// The key ranges of the range deletions in `s`.
pub open spec fn spans_in(s: Seq<Entry>) -> Seq<(Seq<u8>, Seq<u8>)>
    decreases s.len(),
{
    if s.len() == 0 {
        Seq::empty()
    } else if is_span(s.last()) {
        spans_in(s.drop_last()).push((s.last().key, s.last().range_end->0))
    } else {
        spans_in(s.drop_last())
    }
}

/// The key ranges of a sequence cover what its range deletions cover.
pub proof fn lemma_spans_cover(s: Seq<Entry>, key: Seq<u8>)
    ensures
        masked(spans_in(s), key) <==> covered(s, key, None, u64::MAX),
    decreases s.len(),
{
    if s.len() > 0 {
        let t = s.drop_last();
        let a = spans_in(t);
        let b = spans_in(s);
        lemma_spans_cover(t, key);
        if masked(b, key) {
            let i = choose|i: int|
                0 <= i < b.len() && lex_le((#[trigger] b[i]).0, key) && lex_lt(key, b[i].1);
            if i < a.len() {
                assert(a[i] == b[i]);
                let j = choose|j: int| 0 <= j < t.len() && covers_at(#[trigger] t[j], key, None, u64::MAX);
                assert(s[j] == t[j]);
            } else {
                assert(covers_at(s[s.len() - 1], key, None, u64::MAX));
            }
        }
        if covered(s, key, None, u64::MAX) {
            let j = choose|j: int| 0 <= j < s.len() && covers_at(#[trigger] s[j], key, None, u64::MAX);
            if j < t.len() {
                assert(t[j] == s[j]);
                let i = choose|i: int|
                    0 <= i < a.len() && lex_le((#[trigger] a[i]).0, key) && lex_lt(key, a[i].1);
                assert(b[i] == a[i]);
            } else {
                assert(b[a.len() as int] == (s[j].key, s[j].range_end->0));
            }
        }
    }
}

/// Whether the record is a range deletion that covers `key`.
pub fn record_covers(rec: &InternalRecord, key: &[u8]) -> (r: bool)
    ensures
        r == covers(rec@, key@),
{
    if rec.op != Op::DeleteRange {
        return false;
    }
    match &rec.range_end {
        Some(end) => bytes_le(&rec.key, key) && bytes_lt(key, end),
        None => false,
    }
}

/// Whether one of the key ranges covers `key`.
pub fn is_masked(spans: &Vec<KeySpan>, key: &[u8]) -> (r: bool)
    ensures
        r == masked(span_views(spans@), key@),
{
    let ghost all = span_views(spans@);
    let mut i: usize = 0;
    while i < spans.len()
        invariant
            i <= spans.len(),
            all == span_views(spans@),
            forall|j: int|
                0 <= j < i ==> !(lex_le((#[trigger] all[j]).0, key@) && lex_lt(key@, all[j].1)),
        decreases spans.len() - i,
    {
        let t = &spans[i];
        assert(all[i as int] == span_view(*t));
        if bytes_le(&t.0, key) && bytes_lt(key, &t.1) {
            return true;
        }
        i = i + 1;
    }
    false
}

pub fn push_span(spans: &mut Vec<KeySpan>, start: &[u8], end: &[u8])
    ensures
        span_views(final(spans)@) == span_views(old(spans)@).push((start@, end@)),
{
    let ghost before = span_views(spans@);
    spans.push((copy_bytes(start), copy_bytes(end)));
    assert(span_views(spans@) =~= before.push((start@, end@)));
}

/// Appends copies of key ranges.
pub fn push_spans(out: &mut Vec<KeySpan>, spans: &Vec<KeySpan>)
    ensures
        span_views(final(out)@) == span_views(old(out)@) + span_views(spans@),
{
    let ghost start = span_views(out@);
    let ghost all = span_views(spans@);
    let mut i: usize = 0;
    assert(start + all.subrange(0, 0) =~= start);
    while i < spans.len()
        invariant
            i <= spans.len(),
            start == span_views(old(out)@),
            all == span_views(spans@),
            span_views(out@) == start + all.subrange(0, i as int),
        decreases spans.len() - i,
    {
        push_span(out, &spans[i].0, &spans[i].1);
        assert(all[i as int] == span_view(spans@[i as int]));
        assert(start + all.subrange(0, i + 1) =~= (start + all.subrange(0, i as int)).push(
            all[i as int],
        ));
        i = i + 1;
    }
    assert(all.subrange(0, all.len() as int) =~= all);
}

/// Whether the key ranges are the same, in the same order.
pub fn spans_eq(a: &Vec<KeySpan>, b: &Vec<KeySpan>) -> (r: bool)
    ensures
        r == (span_views(a@) == span_views(b@)),
{
    let ghost x = span_views(a@);
    let ghost y = span_views(b@);
    if a.len() != b.len() {
        assert(x.len() != y.len());
        return false;
    }
    let mut i: usize = 0;
    while i < a.len()
        invariant
            i <= a.len(),
            a.len() == b.len(),
            x == span_views(a@),
            y == span_views(b@),
            forall|j: int| 0 <= j < i ==> #[trigger] x[j] == y[j],
        decreases a.len() - i,
    {
        assert(x[i as int] == span_view(a@[i as int]));
        assert(y[i as int] == span_view(b@[i as int]));
        if !bytes_eq(&a[i].0, &b[i].0) || !bytes_eq(&a[i].1, &b[i].1) {
            assert(x[i as int] != y[i as int]);
            return false;
        }
        i = i + 1;
    }
    assert(x =~= y);
    true
}

/// Equal key ranges.
pub fn copy_spans(spans: &Vec<KeySpan>) -> (r: Vec<KeySpan>)
    ensures
        span_views(r@) == span_views(spans@),
{
    let mut out: Vec<KeySpan> = Vec::new();
    assert(span_views(out@) =~= Seq::<(Seq<u8>, Seq<u8>)>::empty());
    push_spans(&mut out, spans);
    assert(Seq::<(Seq<u8>, Seq<u8>)>::empty() + span_views(spans@) =~= span_views(spans@));
    out
}

/// The key ranges of the range deletions among `records`.
pub fn collect_spans(records: &Vec<InternalRecord>) -> (r: Vec<KeySpan>)
    ensures
        span_views(r@) == spans_in(entries(records@)),
{
    let ghost all = entries(records@);
    let mut spans: Vec<KeySpan> = Vec::new();
    let mut i: usize = 0;
    assert(all.subrange(0, 0) =~= Seq::<Entry>::empty());
    assert(span_views(spans@) =~= Seq::<(Seq<u8>, Seq<u8>)>::empty());
    while i < records.len()
        invariant
            i <= records.len(),
            all == entries(records@),
            span_views(spans@) == spans_in(all.subrange(0, i as int)),
        decreases records.len() - i,
    {
        let rec = &records[i];
        proof {
            let s = all.subrange(0, i + 1);
            assert(s.drop_last() =~= all.subrange(0, i as int));
            assert(s.last() == rec@);
        }
        if rec.op == Op::DeleteRange {
            if let Some(end) = &rec.range_end {
                push_span(&mut spans, &rec.key, end);
            }
        }
        i = i + 1;
    }
    assert(all.subrange(0, all.len() as int) =~= all);
    spans
}

} // verus!
