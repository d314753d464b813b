//! Tables of recent writes, in memory.

use std::collections::HashMap;

use vstd::prelude::*;

use crate::bloom::{fnv, fnv_hash};
use crate::bytes::{bytes_eq, bytes_le, bytes_start_with, i64_bits, i64_to_bits};
use crate::order::{is_stable_sort, lemma_sort_contains, ranked_with, same_rank, sort_records};
use crate::ranges::{covered, covers, covers_at, is_span, record_covers};
use crate::record::{
    entries, entries_of_refs, entry_size, in_time_range, is_live, live_at, saturate, time_in_range,
    Entry, InternalRecord, KeyFilterView, Op,
};

verus! {

broadcast use vstd::std_specs::hash::group_hash_axioms;

/// `e` is a version of `(key, ts)` written at `max_seq` or before.
pub open spec fn is_version(e: Entry, key: Seq<u8>, ts: i64, max_seq: u64) -> bool {
    e.key == key && e.ts == ts && e.seq <= max_seq
}

/// The version of `(key, ts)` with the highest sequence number up to `max_seq`,
/// and among equal ones the last.
pub open spec fn newest(s: Seq<Entry>, key: Seq<u8>, ts: i64, max_seq: u64) -> Option<Entry>
    decreases s.len(),
{
    if s.len() == 0 {
        None
    } else {
        let rest = newest(s.drop_last(), key, ts, max_seq);
        if is_version(s.last(), key, ts, max_seq) && (rest is None || rest->0.seq
            <= s.last().seq) {
            Some(s.last())
        } else {
            rest
        }
    }
}

/// `e` is a put of `key` that can be read at `now`.
pub open spec fn is_live_put(e: Entry, key: Seq<u8>, now: i64) -> bool {
    e.key == key && live_at(e.expire_at, now) && e.op == Op::Put
}

/// `a` is not later than `b`.
pub open spec fn not_later(a: Entry, b: Entry) -> bool {
    a.ts < b.ts || (a.ts == b.ts && a.seq <= b.seq)
}

/// `d` is a later deletion of `e`: of its `(key, ts)`, or of a range that
/// covers its key.
pub open spec fn removes(d: Entry, e: Entry) -> bool {
    d.seq > e.seq && ((d.op == Op::Delete && d.key == e.key && d.ts == e.ts) || covers(d, e.key))
}

/// A later entry of `s` deletes `e`.
pub open spec fn removed(s: Seq<Entry>, e: Entry) -> bool {
    exists|i: int| 0 <= i < s.len() && removes(#[trigger] s[i], e)
}

/// Of the entries of `s` that stand, the live put of `key` with the highest
/// time, then the highest sequence number, and among equal ones the last.
pub open spec fn latest_of(
    s: Seq<Entry>,
    stands: spec_fn(Entry) -> bool,
    key: Seq<u8>,
    now: i64,
) -> Option<Entry>
    decreases s.len(),
{
    if s.len() == 0 {
        None
    } else {
        let rest = latest_of(s.drop_last(), stands, key, now);
        if is_live_put(s.last(), key, now) && stands(s.last()) && (rest is None || not_later(
            rest->0,
            s.last(),
        )) {
            Some(s.last())
        } else {
            rest
        }
    }
}

/// The latest live put of `key` in `s` that no later entry deletes.
pub open spec fn latest(s: Seq<Entry>, key: Seq<u8>, now: i64) -> Option<Entry> {
    latest_of(s, |e: Entry| !removed(s, e), key, now)
}

/// The entries that a query lets through: by key, by time, and still live.
pub open spec fn selected(
    s: Seq<Entry>,
    filter: KeyFilterView,
    times: Option<(i64, i64)>,
    now: i64,
) -> Seq<Entry> {
    s.filter(|e: Entry| passes(e, filter, times, now))
}

pub open spec fn passes(
    e: Entry,
    filter: KeyFilterView,
    times: Option<(i64, i64)>,
    now: i64,
) -> bool {
    filter.admits(e.key) && in_time_range(e.ts, times) && live_at(e.expire_at, now)
}

/// What [`newest`] gives is a version, and no version is newer.
pub proof fn lemma_newest(s: Seq<Entry>, key: Seq<u8>, ts: i64, max_seq: u64)
    ensures
        newest(s, key, ts, max_seq) is None <==> forall|i: int|
            0 <= i < s.len() ==> !is_version(#[trigger] s[i], key, ts, max_seq),
        newest(s, key, ts, max_seq) is Some ==> {
            let e = newest(s, key, ts, max_seq)->0;
            &&& s.contains(e)
            &&& is_version(e, key, ts, max_seq)
            &&& forall|i: int|
                0 <= i < s.len() && is_version(#[trigger] s[i], key, ts, max_seq) ==> s[i].seq
                    <= e.seq
        },
    decreases s.len(),
{
    if s.len() > 0 {
        let t = s.drop_last();
        lemma_newest(t, key, ts, max_seq);
        assert forall|i: int| 0 <= i < t.len() implies s[i] == #[trigger] t[i] by {}
        assert(s[s.len() - 1] == s.last());
        if newest(t, key, ts, max_seq) is Some {
            let e = newest(t, key, ts, max_seq)->0;
            let i = choose|i: int| 0 <= i < t.len() && t[i] == e;
            assert(s[i] == e);
        }
        if newest(s, key, ts, max_seq) is None {
            assert forall|i: int| 0 <= i < s.len() implies !is_version(
                #[trigger] s[i],
                key,
                ts,
                max_seq,
            ) by {
                if i < t.len() {
                    assert(t[i] == s[i]);
                }
            }
        } else {
            let e = newest(s, key, ts, max_seq)->0;
            assert forall|i: int|
                0 <= i < s.len() && is_version(#[trigger] s[i], key, ts, max_seq) implies s[i].seq
                <= e.seq by {
                if i < t.len() {
                    assert(t[i] == s[i]);
                }
            }
        }
    }
}

/// A version that no other outranks, neither by sequence number nor by coming
/// later, is the newest one.
proof fn lemma_newest_at(s: Seq<Entry>, key: Seq<u8>, ts: i64, max_seq: u64, i: int)
    requires
        0 <= i < s.len(),
        is_version(s[i], key, ts, max_seq),
        forall|j: int|
            0 <= j < s.len() && is_version(#[trigger] s[j], key, ts, max_seq) ==> s[j].seq
                < s[i].seq || (s[j].seq == s[i].seq && j <= i),
    ensures
        newest(s, key, ts, max_seq) == Some(s[i]),
    decreases s.len(),
{
    let t = s.drop_last();
    assert(s.last() == s[s.len() - 1]);
    if i == s.len() - 1 {
        lemma_newest(t, key, ts, max_seq);
        if newest(t, key, ts, max_seq) is Some {
            let e = newest(t, key, ts, max_seq)->0;
            let j = choose|j: int| 0 <= j < t.len() && t[j] == e;
            assert(s[j] == e);
        }
    } else {
        assert forall|j: int| 0 <= j < t.len() && is_version(#[trigger] t[j], key, ts, max_seq) implies
            t[j].seq < t[i].seq || (t[j].seq == t[i].seq && j <= i) by {
            assert(s[j] == t[j]);
        }
        lemma_newest_at(t, key, ts, max_seq, i);
    }
}

/// The newest version is the last of its rank.
proof fn lemma_newest_is_last_of_rank(s: Seq<Entry>, key: Seq<u8>, ts: i64, max_seq: u64)
    requires
        newest(s, key, ts, max_seq) is Some,
    ensures
        ranked_with(s, newest(s, key, ts, max_seq)->0).len() > 0,
        ranked_with(s, newest(s, key, ts, max_seq)->0).last() == newest(s, key, ts, max_seq)->0,
    decreases s.len(),
{
    let e = newest(s, key, ts, max_seq)->0;
    let t = s.drop_last();
    reveal_with_fuel(Seq::filter, 1);
    lemma_newest(s, key, ts, max_seq);
    if same_rank(s.last(), e) {
        assert(is_version(s.last(), key, ts, max_seq));
        assert(newest(s, key, ts, max_seq) == Some(s.last())) by {
            if newest(t, key, ts, max_seq) is Some {
                lemma_newest(t, key, ts, max_seq);
                let f = newest(t, key, ts, max_seq)->0;
                let j = choose|j: int| 0 <= j < t.len() && t[j] == f;
                assert(s[j] == f);
            }
        }
    } else {
        assert(newest(t, key, ts, max_seq) == Some(e));
        lemma_newest_is_last_of_rank(t, key, ts, max_seq);
    }
}

/// Sorting a table changes no point read.
pub proof fn lemma_sort_keeps_newest(
    out: Seq<Entry>,
    input: Seq<Entry>,
    key: Seq<u8>,
    ts: i64,
    max_seq: u64,
)
    requires
        is_stable_sort(out, input),
    ensures
        newest(out, key, ts, max_seq) == newest(input, key, ts, max_seq),
{
    lemma_newest(out, key, ts, max_seq);
    lemma_newest(input, key, ts, max_seq);
    let a = newest(out, key, ts, max_seq);
    let b = newest(input, key, ts, max_seq);
    if a is Some {
        lemma_sort_contains(out, input, a->0);
        let i = choose|i: int| 0 <= i < input.len() && input[i] == a->0;
        assert(is_version(input[i], key, ts, max_seq));
    }
    if b is Some {
        lemma_sort_contains(out, input, b->0);
        let i = choose|i: int| 0 <= i < out.len() && out[i] == b->0;
        assert(is_version(out[i], key, ts, max_seq));
    }
    if a is Some && b is Some {
        let i = choose|i: int| 0 <= i < input.len() && input[i] == a->0;
        let j = choose|j: int| 0 <= j < out.len() && out[j] == b->0;
        assert(a->0.seq == b->0.seq);
        lemma_newest_is_last_of_rank(out, key, ts, max_seq);
        lemma_newest_is_last_of_rank(input, key, ts, max_seq);
        assert(ranked_with(input, a->0) =~= ranked_with(input, b->0)) by {
            assert((|e: Entry| same_rank(e, a->0)) =~= (|e: Entry| same_rank(e, b->0)));
        }
        assert(ranked_with(out, a->0) == ranked_with(input, a->0));
    }
}

/// A borrowed key filter.
enum KeyTest<'a> {
    Prefix(&'a [u8]),
    Range(&'a [u8], &'a [u8]),
    Any,
}

impl<'a> KeyTest<'a> {
    spec fn filter(self) -> KeyFilterView {
        match self {
            KeyTest::Prefix(p) => KeyFilterView::Prefix(p@),
            KeyTest::Range(s, e) => KeyFilterView::Range { start: s@, end: e@ },
            KeyTest::Any => KeyFilterView::All,
        }
    }

    fn admits(&self, key: &[u8]) -> (r: bool)
        ensures
            r == self.filter().admits(key@),
    {
        match self {
            KeyTest::Prefix(p) => bytes_start_with(key, p),
            KeyTest::Range(s, e) => bytes_le(s, key) && bytes_le(key, e),
            KeyTest::Any => true,
        }
    }
}

/// The bucket of the point index that `(key, ts)` falls into.
spec fn point_hash(key: Seq<u8>, ts: i64) -> u64 {
    fnv(i64_bits(ts) as u64, key)
}

fn bucket_of(key: &[u8], ts: i64) -> (h: u64)
    ensures
        h == point_hash(key@, ts),
{
    fnv_hash(i64_to_bits(ts), key)
}

/// A single memtable backed by a vector of records.
///
/// The active memtable is unsorted, for O(1) writes, and has a side index by
/// (key, ts) for point lookups. Range and prefix queries scan the vector.
///
/// On freeze the vector is sorted and the side index is dropped.
pub struct MemTable {
    records: Vec<InternalRecord>,
    point_index: HashMap<u64, Vec<usize>>,
    indexed: bool,
    ranges: Vec<usize>,
    bytes: usize,
}

impl View for MemTable {
    type V = Seq<Entry>;

    closed spec fn view(&self) -> Seq<Entry> {
        entries(self.records@)
    }
}

/// The positions of the range deletions.
fn range_positions(records: &Vec<InternalRecord>) -> (r: Vec<usize>)
    ensures
        forall|j: int| 0 <= j < r@.len() ==> #[trigger] r@[j] < records@.len(),
        forall|i: int|
            0 <= i < records@.len() && is_span(#[trigger] records@[i]@) ==> r@.contains(i as usize),
{
    let mut out: Vec<usize> = Vec::new();
    let mut i: usize = 0;
    while i < records.len()
        invariant
            i <= records.len(),
            forall|j: int| 0 <= j < out@.len() ==> #[trigger] out@[j] < i,
            forall|k: int|
                0 <= k < i && is_span(#[trigger] records@[k]@) ==> out@.contains(k as usize),
        decreases records.len() - i,
    {
        let ghost before = out@;
        if records[i].op == Op::DeleteRange {
            out.push(i);
        }
        proof {
            assert forall|k: int| 0 <= k < i + 1 && is_span(#[trigger] records@[k]@) implies out@.contains(
                k as usize,
            ) by {
                if k < i {
                    let j = choose|j: int| 0 <= j < before.len() && before[j] == k as usize;
                    assert(out@[j] == k as usize);
                } else {
                    assert(out@[before.len() as int] == k as usize);
                }
            }
        }
        i = i + 1;
    }
    out
}

impl MemTable {
    /// Every position in the point index is one of the table, and while the
    /// index is in use it leads to every record. The positions of the range
    /// deletions are known.
    pub closed spec fn well_formed(self) -> bool {
        &&& forall|j: int|
            0 <= j < self.ranges@.len() ==> #[trigger] self.ranges@[j] < self.records@.len()
        &&& forall|i: int|
            0 <= i < self.records@.len() && is_span(#[trigger] self.records@[i]@)
                ==> self.ranges@.contains(i as usize)
        &&& forall|h: u64, j: int|
            self.point_index@.contains_key(h) && 0 <= j < self.point_index@[h]@.len()
                ==> #[trigger] self.point_index@[h]@[j] < self.records@.len()
        &&& self.indexed ==> forall|i: int|
            0 <= i < self.records@.len() ==> self.leads_to(#[trigger] self.records@[i]@, i)
    }

    spec fn leads_to(self, e: Entry, i: int) -> bool {
        let h = point_hash(e.key, e.ts);
        self.point_index@.contains_key(h) && self.point_index@[h]@.contains(i as usize)
    }

    /// The number of bytes that the records are taken to occupy.
    pub closed spec fn size(self) -> usize {
        self.bytes
    }

    pub fn new() -> (r: MemTable)
        ensures
            r.well_formed(),
            r@ == Seq::<Entry>::empty(),
            r.size() == 0,
    {
        let t = MemTable {
            records: Vec::new(),
            point_index: HashMap::new(),
            indexed: true,
            ranges: Vec::new(),
            bytes: 0,
        };
        assert(t@ =~= Seq::<Entry>::empty());
        t
    }

    pub fn insert(&mut self, rec: InternalRecord)
        requires
            old(self).well_formed(),
        ensures
            final(self).well_formed(),
            final(self)@ == old(self)@.push(rec@),
            final(self).size() == saturate(old(self).size() + entry_size(rec@)),
    {
        let ghost before = *self;
        let ghost e = rec@;
        let ghost n = self.records@.len() as int;
        self.bytes = self.bytes.saturating_add(rec.estimated_size());
        if rec.op == Op::DeleteRange {
            self.ranges.push(self.records.len());
        }
        proof {
            assert forall|i: int| 0 <= i < n && is_span(#[trigger] before.records@[i]@) implies self.ranges@.contains(
                i as usize,
            ) by {
                let j = choose|j: int|
                    0 <= j < before.ranges@.len() && before.ranges@[j] == i as usize;
                assert(self.ranges@[j] == i as usize);
            }
            if is_span(e) {
                assert(self.ranges@[before.ranges@.len() as int] == n as usize);
            }
        }
        if self.indexed {
            let h = bucket_of(&rec.key, rec.ts);
            let mut bucket: Vec<usize> = match self.point_index.remove(&h) {
                Some(b) => b,
                None => Vec::new(),
            };
            let ghost old_bucket = bucket@;
            bucket.push(self.records.len());
            let ghost new_bucket = bucket@;
            self.point_index.insert(h, bucket);
            self.records.push(rec);
            proof {
                assert forall|g: u64, j: int|
                    self.point_index@.contains_key(g) && 0 <= j < self.point_index@[g]@.len() implies
                    #[trigger] self.point_index@[g]@[j] < self.records@.len() by {
                    if g == h {
                        if j < old_bucket.len() {
                            assert(before.point_index@[g]@[j] < n);
                        }
                    } else {
                        assert(before.point_index@[g]@[j] < n);
                    }
                }
                assert forall|i: int| 0 <= i < self.records@.len() implies self.leads_to(
                    #[trigger] self.records@[i]@,
                    i,
                ) by {
                    if i == n {
                        assert(new_bucket[old_bucket.len() as int] == i as usize);
                    } else {
                        let f = before.records@[i]@;
                        assert(before.leads_to(f, i));
                        let g = point_hash(f.key, f.ts);
                        if g == h {
                            let j = choose|j: int|
                                0 <= j < old_bucket.len() && old_bucket[j] == i as usize;
                            assert(new_bucket[j] == i as usize);
                        }
                    }
                }
            }
        } else {
            self.records.push(rec);
            proof {
                assert forall|g: u64, j: int|
                    self.point_index@.contains_key(g) && 0 <= j < self.point_index@[g]@.len() implies
                    #[trigger] self.point_index@[g]@[j] < self.records@.len() by {
                    assert(before.point_index@[g]@[j] < n);
                }
            }
        }
        proof {
            assert forall|j: int| 0 <= j < self.ranges@.len() implies #[trigger] self.ranges@[j]
                < self.records@.len() by {
                if j < before.ranges@.len() {
                    assert(self.ranges@[j] == before.ranges@[j]);
                }
            }
            assert forall|i: int|
                0 <= i < self.records@.len() && is_span(#[trigger] self.records@[i]@) implies self.ranges@.contains(
                i as usize,
            ) by {
                if i < n {
                    assert(self.records@[i] == before.records@[i]);
                }
            }
        }
        assert(self@ =~= before@.push(e));
    }

    /// Whether a range deletion covers the key that was written after `after`
    /// and no later than `max_seq`.
    pub fn covers(&self, key: &[u8], after: Option<u64>, max_seq: u64) -> (r: bool)
        requires
            self.well_formed(),
        ensures
            r == covered(self@, key@, after, max_seq),
    {
        let count: usize = self.records.len();
        assert(count == self@.len());
        let mut j: usize = 0;
        while j < self.ranges.len()
            invariant
                j <= self.ranges.len(),
                self.well_formed(),
                forall|k: int|
                    0 <= k < j ==> !covers_at(
                        self@[#[trigger] self.ranges@[k] as int],
                        key@,
                        after,
                        max_seq,
                    ),
            decreases self.ranges.len() - j,
        {
            let at: usize = self.ranges[j];
            assert(self.ranges@[j as int] < self.records@.len());
            let rec = &self.records[at];
            assert(self@[at as int] == rec@);
            let later = match after {
                Some(seq) => rec.seq > seq,
                None => true,
            };
            if later && rec.seq <= max_seq && record_covers(rec, key) {
                assert(covers_at(self@[at as int], key@, after, max_seq));
                return true;
            }
            j = j + 1;
        }
        proof {
            assert forall|i: int| 0 <= i < self@.len() implies !covers_at(
                #[trigger] self@[i],
                key@,
                after,
                max_seq,
            ) by {
                if is_span(self@[i]) {
                    assert(is_span(self.records@[i]@));
                    let k = choose|k: int|
                        0 <= k < self.ranges@.len() && self.ranges@[k] == i as usize;
                    assert(i as usize as int == i);
                    assert(self@[self.ranges@[k] as int] == self@[i]);
                }
            }
        }
        false
    }

    /// The record at a position.
    pub fn at(&self, i: usize) -> (r: &InternalRecord)
        requires
            i < self@.len(),
        ensures
            r@ == self@[i as int],
    {
        &self.records[i]
    }

    /// Whether a later record of the table deletes `rec`.
    pub fn deletes(&self, rec: &InternalRecord) -> (r: bool)
        ensures
            r == removed(self@, rec@),
    {
        let mut i: usize = 0;
        while i < self.records.len()
            invariant
                i <= self.records.len(),
                forall|j: int| 0 <= j < i ==> !removes(#[trigger] self@[j], rec@),
            decreases self.records.len() - i,
        {
            let d = &self.records[i];
            assert(self@[i as int] == d@);
            if d.seq > rec.seq {
                if d.op == Op::Delete && d.ts == rec.ts && bytes_eq(&d.key, &rec.key) {
                    assert(removes(self@[i as int], rec@));
                    return true;
                }
                if record_covers(d, &rec.key) {
                    assert(removes(self@[i as int], rec@));
                    return true;
                }
            }
            i = i + 1;
        }
        false
    }

    /// Gets the record with the highest seq for a given (key, ts).
    /// Uses the side index in the active table. Falls back to a linear scan
    /// when there is none (after sorting).
    pub fn get(&self, key: &[u8], ts: i64) -> (r: Option<&InternalRecord>)
        requires
            self.well_formed(),
        ensures
            match r {
                Some(rec) => newest(self@, key@, ts, u64::MAX) == Some(rec@),
                None => newest(self@, key@, ts, u64::MAX) is None,
            },
    {
        if !self.indexed {
            return self.get_with_max_seq(key, ts, u64::MAX);
        }
        let count: usize = self.records.len();
        assert(count == self@.len());
        let h = bucket_of(key, ts);
        match self.point_index.get(&h) {
            Some(bucket) => {
                let mut best: Option<usize> = None;
                let mut j: usize = 0;
                while j < bucket.len()
                    invariant
                        j <= bucket.len(),
                        self.well_formed(),
                        self.point_index@.contains_key(h),
                        *bucket == self.point_index@[h],
                        match best {
                            Some(b) => {
                                &&& b < self.records@.len()
                                &&& is_version(self@[b as int], key@, ts, u64::MAX)
                                &&& forall|i: int|
                                    0 <= i < j && is_version(
                                        self@[#[trigger] bucket@[i] as int],
                                        key@,
                                        ts,
                                        u64::MAX,
                                    ) ==> self@[bucket@[i] as int].seq < self@[b as int].seq || (
                                    self@[bucket@[i] as int].seq == self@[b as int].seq
                                        && bucket@[i] <= b)
                            },
                            None => forall|i: int|
                                0 <= i < j ==> !is_version(
                                    self@[#[trigger] bucket@[i] as int],
                                    key@,
                                    ts,
                                    u64::MAX,
                                ),
                        },
                    decreases bucket.len() - j,
                {
                    let at: usize = bucket[j];
                    assert(self.point_index@[h]@[j as int] < self.records@.len());
                    let rec = &self.records[at];
                    assert(self@[at as int] == rec@);
                    if rec.ts == ts && bytes_eq(&rec.key, key) {
                        let better = match best {
                            Some(b) => self.records[b].seq < rec.seq || (self.records[b].seq
                                == rec.seq && b <= at),
                            None => true,
                        };
                        if better {
                            best = Some(at);
                        }
                    }
                    j = j + 1;
                }
                match best {
                    Some(b) => {
                        proof {
                            assert forall|i: int|
                                0 <= i < self@.len() && is_version(
                                    #[trigger] self@[i],
                                    key@,
                                    ts,
                                    u64::MAX,
                                ) implies self@[i].seq < self@[b as int].seq || (self@[i].seq
                                == self@[b as int].seq && i <= b) by {
                                assert(self.leads_to(self.records@[i]@, i));
                                let k = choose|k: int|
                                    0 <= k < bucket@.len() && bucket@[k] == i as usize;
                                assert(self@[bucket@[k] as int] == self@[i]);
                            }
                            lemma_newest_at(self@, key@, ts, u64::MAX, b as int);
                        }
                        Some(&self.records[b])
                    },
                    None => {
                        proof {
                            lemma_newest(self@, key@, ts, u64::MAX);
                            assert forall|i: int| 0 <= i < self@.len() implies !is_version(
                                #[trigger] self@[i],
                                key@,
                                ts,
                                u64::MAX,
                            ) by {
                                if is_version(self@[i], key@, ts, u64::MAX) {
                                    assert(self.leads_to(self.records@[i]@, i));
                                    let k = choose|k: int|
                                        0 <= k < bucket@.len() && bucket@[k] == i as usize;
                                    assert(self@[bucket@[k] as int] == self@[i]);
                                }
                            }
                        }
                        None
                    },
                }
            },
            None => {
                proof {
                    lemma_newest(self@, key@, ts, u64::MAX);
                    assert forall|i: int| 0 <= i < self@.len() implies !is_version(
                        #[trigger] self@[i],
                        key@,
                        ts,
                        u64::MAX,
                    ) by {
                        assert(self.leads_to(self.records@[i]@, i));
                    }
                }
                None
            },
        }
    }

    /// Finds the latest (highest ts, highest seq) non-deleted record for a key.
    pub fn get_latest(&self, key: &[u8], now_us: i64) -> (r: Option<&InternalRecord>)
        ensures
            match r {
                Some(rec) => latest(self@, key@, now_us) == Some(rec@),
                None => latest(self@, key@, now_us) is None,
            },
    {
        let mut best: Option<usize> = None;
        let mut i: usize = 0;
        let ghost p = |e: Entry| !removed(self@, e);
        assert(self@.subrange(0, 0) =~= Seq::<Entry>::empty());
        while i < self.records.len()
            invariant
                i <= self.records.len(),
                p == (|e: Entry| !removed(self@, e)),
                match best {
                    Some(b) => b < i && latest_of(self@.subrange(0, i as int), p, key@, now_us) == Some(
                        self@[b as int],
                    ),
                    None => latest_of(self@.subrange(0, i as int), p, key@, now_us) is None,
                },
            decreases self.records.len() - i,
        {
            let rec = &self.records[i];
            let ghost s = self@.subrange(0, i + 1);
            assert(s.drop_last() =~= self@.subrange(0, i as int));
            assert(s.last() == rec@);
            if is_live(rec.expire_at, now_us) && rec.op == Op::Put && bytes_eq(&rec.key, key)
                && !self.deletes(rec) {
                let better = match best {
                    Some(b) => self.records[b].ts < rec.ts || (self.records[b].ts == rec.ts
                        && self.records[b].seq <= rec.seq),
                    None => true,
                };
                if better {
                    best = Some(i);
                }
            }
            i = i + 1;
        }
        assert(self@.subrange(0, self@.len() as int) =~= self@);
        match best {
            Some(b) => Some(&self.records[b]),
            None => None,
        }
    }

    /// Gets the highest-seq record for (key, ts) with seq <= max_seq.
    /// Used for MVCC snapshot reads.
    pub fn get_with_max_seq(&self, key: &[u8], ts: i64, max_seq: u64) -> (r: Option<
        &InternalRecord,
    >)
        ensures
            match r {
                Some(rec) => newest(self@, key@, ts, max_seq) == Some(rec@),
                None => newest(self@, key@, ts, max_seq) is None,
            },
    {
        let mut best: Option<usize> = None;
        let mut i: usize = 0;
        assert(self@.subrange(0, 0) =~= Seq::<Entry>::empty());
        while i < self.records.len()
            invariant
                i <= self.records.len(),
                match best {
                    Some(b) => b < i && newest(self@.subrange(0, i as int), key@, ts, max_seq)
                        == Some(self@[b as int]),
                    None => newest(self@.subrange(0, i as int), key@, ts, max_seq) is None,
                },
            decreases self.records.len() - i,
        {
            let rec = &self.records[i];
            let ghost s = self@.subrange(0, i + 1);
            assert(s.drop_last() =~= self@.subrange(0, i as int));
            assert(s.last() == rec@);
            if rec.ts == ts && rec.seq <= max_seq && bytes_eq(&rec.key, key) {
                let better = match best {
                    Some(b) => self.records[b].seq <= rec.seq,
                    None => true,
                };
                if better {
                    best = Some(i);
                }
            }
            i = i + 1;
        }
        assert(self@.subrange(0, self@.len() as int) =~= self@);
        match best {
            Some(b) => Some(&self.records[b]),
            None => None,
        }
    }

    /// The records that pass the tests, in the table's order.
    fn select(&self, test: KeyTest, times: Option<(i64, i64)>, now_us: i64) -> (r: Vec<
        &InternalRecord,
    >)
        ensures
            entries_of_refs(r@) == selected(self@, test.filter(), times, now_us),
    {
        let mut out: Vec<&InternalRecord> = Vec::new();
        let mut i: usize = 0;
        let ghost p = |e: Entry| passes(e, test.filter(), times, now_us);
        assert(self@.subrange(0, 0) =~= Seq::<Entry>::empty());
        assert(entries_of_refs(out@) =~= Seq::<Entry>::empty());
        assert(Seq::<Entry>::empty().filter(p) =~= Seq::<Entry>::empty());
        while i < self.records.len()
            invariant
                i <= self.records.len(),
                p == (|e: Entry| passes(e, test.filter(), times, now_us)),
                entries_of_refs(out@) == self@.subrange(0, i as int).filter(p),
            decreases self.records.len() - i,
        {
            let rec = &self.records[i];
            let ghost before = entries_of_refs(out@);
            proof {
                assert(self@.subrange(0, i + 1) =~= self@.subrange(0, i as int).push(rec@));
                self@.subrange(0, i as int).lemma_filter_push(rec@, p);
            }
            if is_live(rec.expire_at, now_us) && time_in_range(rec.ts, times) && test.admits(
                &rec.key,
            ) {
                out.push(rec);
                assert(entries_of_refs(out@) =~= before.push(rec@));
            }
            i = i + 1;
        }
        assert(self@.subrange(0, self@.len() as int) =~= self@);
        out
    }

    pub fn query_prefix(&self, key: &[u8], now_us: i64) -> (r: Vec<&InternalRecord>)
        ensures
            entries_of_refs(r@) == selected(self@, KeyFilterView::Prefix(key@), None, now_us),
    {
        self.select(KeyTest::Prefix(key), None, now_us)
    }

    pub fn query_key_range(&self, start_key: &[u8], end_key: &[u8], now_us: i64) -> (r: Vec<
        &InternalRecord,
    >)
        ensures
            entries_of_refs(r@) == selected(
                self@,
                KeyFilterView::Range { start: start_key@, end: end_key@ },
                None,
                now_us,
            ),
    {
        self.select(KeyTest::Range(start_key, end_key), None, now_us)
    }

    pub fn query_time_range(&self, ts_start: i64, ts_end: i64, now_us: i64) -> (r: Vec<
        &InternalRecord,
    >)
        ensures
            entries_of_refs(r@) == selected(
                self@,
                KeyFilterView::All,
                Some((ts_start, ts_end)),
                now_us,
            ),
    {
        self.select(KeyTest::Any, Some((ts_start, ts_end)), now_us)
    }

    pub fn query_prefix_time_range(
        &self,
        key: &[u8],
        ts_start: i64,
        ts_end: i64,
        now_us: i64,
    ) -> (r: Vec<&InternalRecord>)
        ensures
            entries_of_refs(r@) == selected(
                self@,
                KeyFilterView::Prefix(key@),
                Some((ts_start, ts_end)),
                now_us,
            ),
    {
        self.select(KeyTest::Prefix(key), Some((ts_start, ts_end)), now_us)
    }

    pub fn query_key_time_range(
        &self,
        start_key: &[u8],
        end_key: &[u8],
        ts_start: i64,
        ts_end: i64,
        now_us: i64,
    ) -> (r: Vec<&InternalRecord>)
        ensures
            entries_of_refs(r@) == selected(
                self@,
                KeyFilterView::Range { start: start_key@, end: end_key@ },
                Some((ts_start, ts_end)),
                now_us,
            ),
    {
        self.select(KeyTest::Range(start_key, end_key), Some((ts_start, ts_end)), now_us)
    }

    pub fn is_empty(&self) -> (r: bool)
        ensures
            r == (self@.len() == 0),
    {
        self.records.len() == 0
    }

    pub fn len(&self) -> (r: usize)
        ensures
            r == self@.len(),
    {
        self.records.len()
    }

    pub fn bytes(&self) -> (r: usize)
        ensures
            r == self.size(),
    {
        self.bytes
    }

    /// Sorts the records by (key, ts) with the highest seq first.
    /// Drops the point index: subsequent calls to `get()` scan the table.
    pub fn sort(&mut self)
        ensures
            final(self).well_formed(),
            is_stable_sort(final(self)@, old(self)@),
            final(self).size() == old(self).size(),
    {
        let mut records: Vec<InternalRecord> = Vec::new();
        core::mem::swap(&mut records, &mut self.records);
        self.records = sort_records(records);
        self.point_index = HashMap::new();
        self.ranges = range_positions(&self.records);
        self.indexed = false;
    }

    /// The records in table order (call `sort()` first for sorted order).
    pub fn iter_sorted(&self) -> (r: &Vec<InternalRecord>)
        ensures
            entries(r@) == self@,
    {
        &self.records
    }
}

} // verus!
