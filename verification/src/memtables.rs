//! The active memtable together with those that wait for their flush.

use vstd::prelude::*;

use crate::bytes::bytes_eq;
use crate::memtable::{
    latest_of, lemma_newest, lemma_sort_keeps_newest, newest, passes, removed, selected, MemTable,
};
use crate::order::{is_stable_sort, lemma_filter_contains, lemma_sort_contains};
use crate::ranges::covered;
use crate::record::{
    entries, entries_of_refs, entry_size, is_live, live_at, saturate, Entry, InternalRecord,
    KeyFilter, KeyFilterView, Op,
};

verus! {

/// The tables of a sequence, each as its entries.
pub open spec fn table_views(s: Seq<MemTable>) -> Seq<Seq<Entry>> {
    s.map_values(|t: MemTable| t@)
}

/// Over all tables, the newest live version of `(key, ts)` up to `max_seq`.
/// A table whose newest version has expired contributes none.
pub open spec fn best_version(
    tables: Seq<Seq<Entry>>,
    key: Seq<u8>,
    ts: i64,
    now: i64,
    max_seq: u64,
) -> Option<Entry>
    decreases tables.len(),
{
    if tables.len() == 0 {
        None
    } else {
        let rest = best_version(tables.drop_last(), key, ts, now, max_seq);
        let c = newest(tables.last(), key, ts, max_seq);
        if c is Some && live_at(c->0.expire_at, now) && (rest is None || rest->0.seq < c->0.seq) {
            c
        } else {
            rest
        }
    }
}

/// The state of the memtables: the entries of each table.
pub struct MemView {
    pub active: Seq<Entry>,
    pub frozen: Seq<Seq<Entry>>,
    pub flushing: Seq<Seq<Entry>>,
}

impl MemView {
    /// All tables: the active one, the frozen ones and those being flushed.
    pub open spec fn tables(self) -> Seq<Seq<Entry>> {
        seq![self.active] + self.frozen + self.flushing
    }

    /// The entries of all tables.
    pub open spec fn all(self) -> Seq<Entry> {
        self.tables().flatten()
    }

    /// A range deletion in memory covers `key` that was written after `after`
    /// and no later than `max_seq`.
    pub open spec fn covers(self, key: Seq<u8>, after: Option<u64>, max_seq: u64) -> bool {
        exists|i: int|
            0 <= i < self.tables().len() && covered(#[trigger] self.tables()[i], key, after, max_seq)
    }

    /// Holds of what no later range deletion in memory covers.
    pub open spec fn uncovered(self) -> spec_fn(Entry) -> bool {
        |e: Entry| !self.covers(e.key, Some(e.seq), u64::MAX)
    }

    /// A later entry in memory deletes `e`.
    pub open spec fn removes(self, e: Entry) -> bool {
        exists|i: int| 0 <= i < self.tables().len() && removed(#[trigger] self.tables()[i], e)
    }

    /// Holds of what no later entry in memory deletes.
    pub open spec fn stands(self) -> spec_fn(Entry) -> bool {
        |e: Entry| !self.removes(e)
    }

    /// The latest live put of `key` in memory that no later entry deletes.
    pub open spec fn latest(self, key: Seq<u8>, now: i64) -> Option<Entry> {
        latest_of(self.all(), self.stands(), key, now)
    }

    /// What counts of a key, of a version found in memory and one found below:
    /// the one in memory, else the one below; and nothing where a range
    /// deletion in memory came later.
    pub open spec fn decide(
        self,
        key: Seq<u8>,
        max_seq: u64,
        hit: Option<Entry>,
        below: Option<Entry>,
    ) -> Option<Entry> {
        match hit {
            Some(e) => if self.covers(key, Some(e.seq), max_seq) {
                None
            } else {
                Some(e)
            },
            None => if self.covers(key, None, max_seq) {
                None
            } else {
                below
            },
        }
    }

    pub open spec fn empty() -> MemView {
        MemView { active: Seq::empty(), frozen: Seq::empty(), flushing: Seq::empty() }
    }

    /// `after` is this state with the active table moved to the frozen ones, sorted.
    pub open spec fn freezes_to(self, after: MemView) -> bool {
        &&& after.active == Seq::<Entry>::empty()
        &&& after.frozen.len() == self.frozen.len() + 1
        &&& after.frozen.drop_last() == self.frozen
        &&& is_stable_sort(after.frozen.last(), self.active)
        &&& after.flushing == self.flushing
    }

    /// This state with the oldest frozen table moved to those being flushed.
    pub open spec fn starts_flush(self) -> MemView {
        MemView {
            active: self.active,
            frozen: self.frozen.drop_first(),
            flushing: self.flushing.push(self.frozen.first()),
        }
    }

    /// This state without the oldest table that is being flushed.
    pub open spec fn completes_flush(self) -> MemView {
        if self.flushing.len() == 0 {
            self
        } else {
            MemView {
                active: self.active,
                frozen: self.frozen,
                flushing: self.flushing.drop_first(),
            }
        }
    }
}

/// The size of a table of `size` bytes once the entries are added.
pub open spec fn grown_size(size: usize, s: Seq<Entry>) -> usize
    decreases s.len(),
{
    if s.len() == 0 {
        size
    } else {
        saturate(grown_size(size, s.drop_last()) + entry_size(s.last()))
    }
}

/// The memtables of an engine. Frozen tables wait for their flush, oldest
/// first; a table stays readable while its flush runs.
pub struct MemTables {
    active: MemTable,
    frozen: Vec<MemTable>,
    flushing: Vec<MemTable>,
    max_frozen: usize,
    memtable_size_limit: usize,
}

impl View for MemTables {
    type V = MemView;

    closed spec fn view(&self) -> MemView {
        MemView {
            active: self.active@,
            frozen: table_views(self.frozen@),
            flushing: table_views(self.flushing@),
        }
    }
}

/// Appends copies of the records that `refs` points to.
fn push_copies(out: &mut Vec<InternalRecord>, refs: &Vec<&InternalRecord>)
    ensures
        entries(final(out)@) == entries(old(out)@) + entries_of_refs(refs@),
{
    let ghost start = entries(out@);
    let mut i: usize = 0;
    assert(entries(out@) =~= start + entries_of_refs(refs@).subrange(0, 0));
    while i < refs.len()
        invariant
            i <= refs.len(),
            start == entries(old(out)@),
            entries(out@) == start + entries_of_refs(refs@).subrange(0, i as int),
        decreases refs.len() - i,
    {
        let ghost before = entries(out@);
        out.push(refs[i].copy());
        assert(entries(out@) =~= before.push(refs@[i as int]@));
        assert(entries(out@) =~= start + entries_of_refs(refs@).subrange(0, i + 1));
        i = i + 1;
    }
    assert(entries_of_refs(refs@).subrange(0, refs@.len() as int) =~= entries_of_refs(refs@));
}

/// Copies of all records.
pub fn copy_records(v: &Vec<InternalRecord>) -> (r: Vec<InternalRecord>)
    ensures
        entries(r@) == entries(v@),
{
    let mut out: Vec<InternalRecord> = Vec::new();
    let mut i: usize = 0;
    assert(entries(out@) =~= entries(v@).subrange(0, 0));
    while i < v.len()
        invariant
            i <= v.len(),
            entries(out@) == entries(v@).subrange(0, i as int),
        decreases v.len() - i,
    {
        let ghost before = entries(out@);
        out.push(v[i].copy());
        assert(entries(out@) =~= before.push(v@[i as int]@));
        assert(entries(out@) =~= entries(v@).subrange(0, i + 1));
        i = i + 1;
    }
    assert(entries(v@).subrange(0, v@.len() as int) =~= entries(v@));
    out
}

impl MemTables {
    pub closed spec fn well_formed(self) -> bool {
        &&& self.active.well_formed()
        &&& forall|i: int| 0 <= i < self.frozen@.len() ==> (#[trigger] self.frozen@[i]).well_formed()
        &&& forall|i: int|
            0 <= i < self.flushing@.len() ==> (#[trigger] self.flushing@[i]).well_formed()
    }

    /// How many bytes the active table is taken to hold.
    pub closed spec fn active_size(self) -> usize {
        self.active.size()
    }

    /// The number of frozen tables at which writers have to wait.
    pub closed spec fn frozen_limit(self) -> usize {
        self.max_frozen
    }

    /// The size at which the active table is to be flushed.
    pub closed spec fn size_limit(self) -> usize {
        self.memtable_size_limit
    }

    pub open spec fn same_limits(self, other: MemTables) -> bool {
        self.frozen_limit() == other.frozen_limit() && self.size_limit() == other.size_limit()
    }

    pub fn new(max_frozen: usize, memtable_size_limit: usize) -> (r: MemTables)
        ensures
            r.well_formed(),
            r@ == MemView::empty(),
            r.active_size() == 0,
            r.frozen_limit() == max_frozen,
            r.size_limit() == memtable_size_limit,
    {
        let t = MemTables {
            active: MemTable::new(),
            frozen: Vec::new(),
            flushing: Vec::new(),
            max_frozen,
            memtable_size_limit,
        };
        assert(t@.frozen =~= Seq::<Seq<Entry>>::empty());
        assert(t@.flushing =~= Seq::<Seq<Entry>>::empty());
        t
    }

    pub fn insert(&mut self, rec: InternalRecord)
        requires
            old(self).well_formed(),
        ensures
            final(self).well_formed(),
            final(self)@ == (MemView { active: old(self)@.active.push(rec@), ..old(self)@ }),
            final(self).active_size() == saturate(old(self).active_size() + entry_size(rec@)),
            final(self).same_limits(*old(self)),
    {
        self.active.insert(rec);
    }

    /// Inserts the records of a batch, in order.
    pub fn insert_batch(&mut self, batch: &Vec<InternalRecord>)
        requires
            old(self).well_formed(),
        ensures
            final(self).well_formed(),
            final(self)@ == (MemView {
                active: old(self)@.active + entries(batch@),
                ..old(self)@
            }),
            final(self).active_size() == grown_size(old(self).active_size(), entries(batch@)),
            final(self).same_limits(*old(self)),
    {
        let mut i: usize = 0;
        let ghost start = self@;
        assert(entries(batch@).subrange(0, 0) =~= Seq::<Entry>::empty());
        assert(self@.active =~= start.active + entries(batch@).subrange(0, 0));
        while i < batch.len()
            invariant
                i <= batch.len(),
                self.well_formed(),
                self.same_limits(*old(self)),
                start == old(self)@,
                self.active_size() == grown_size(
                    old(self).active_size(),
                    entries(batch@).subrange(0, i as int),
                ),
                self@ == (MemView {
                    active: start.active + entries(batch@).subrange(0, i as int),
                    ..start
                }),
            decreases batch.len() - i,
        {
            self.insert(batch[i].copy());
            assert(entries(batch@).subrange(0, i + 1).drop_last() =~= entries(batch@).subrange(
                0,
                i as int,
            ));
            assert(self@.active =~= start.active + entries(batch@).subrange(0, i + 1));
            i = i + 1;
        }
        assert(entries(batch@).subrange(0, batch@.len() as int) =~= entries(batch@));
    }

    pub fn should_flush(&self) -> (r: bool)
        ensures
            r == (self.active_size() >= self.size_limit()),
    {
        self.active.bytes() >= self.memtable_size_limit
    }

    pub fn frozen_is_full(&self) -> (r: bool)
        ensures
            r == (self@.frozen.len() >= self.frozen_limit()),
    {
        self.frozen.len() >= self.max_frozen
    }

    /// Returns true when frozen tables have piled up past `max_frozen`,
    /// indicating that flush can't keep up with writes.  The write path
    /// should apply backpressure (block or error) in this case.
    pub fn frozen_backpressure(&self) -> (r: bool)
        ensures
            r == (self@.frozen.len() >= self.frozen_limit()),
    {
        self.frozen.len() >= self.max_frozen
    }

    /// Moves the active table, sorted, to the frozen ones. Returns false and
    /// does nothing where it is empty.
    pub fn freeze(&mut self) -> (r: bool)
        requires
            old(self).well_formed(),
        ensures
            final(self).well_formed(),
            final(self).same_limits(*old(self)),
            r == (old(self)@.active.len() > 0),
            r ==> old(self)@.freezes_to(final(self)@) && final(self).active_size() == 0,
            !r ==> *final(self) == *old(self),
    {
        if self.active.is_empty() {
            return false;
        }
        let ghost before = *self;
        let mut old_active = MemTable::new();
        core::mem::swap(&mut old_active, &mut self.active);
        old_active.sort();
        let ghost sorted = old_active@;
        self.frozen.push(old_active);
        proof {
            assert(self@.frozen =~= before@.frozen.push(sorted));
            assert(self@.frozen.drop_last() =~= before@.frozen);
        }
        true
    }

    /// Takes the oldest frozen table away.
    pub fn pop_frozen(&mut self) -> (r: Option<MemTable>)
        requires
            old(self).well_formed(),
        ensures
            final(self).well_formed(),
            final(self).same_limits(*old(self)),
            final(self).active_size() == old(self).active_size(),
            match r {
                Some(t) => old(self)@.frozen.len() > 0 && t@ == old(self)@.frozen.first()
                    && t.well_formed() && final(self)@ == (MemView {
                    frozen: old(self)@.frozen.drop_first(),
                    ..old(self)@
                }),
                None => old(self)@.frozen.len() == 0 && *final(self) == *old(self),
            },
    {
        if self.frozen.len() == 0 {
            return None;
        }
        let ghost before = *self;
        let t = self.frozen.remove(0);
        proof {
            assert(self@.frozen =~= before@.frozen.drop_first());
        }
        Some(t)
    }

    /// Moves the oldest frozen memtable into the *flushing*
    /// list (still queryable by readers) and returns its sorted records
    /// for SST writing.  Call [`MemTables::complete_flush`] once the SST has been
    /// registered in the index so the memtable is finally dropped.
    pub fn pop_frozen_to_flushing(&mut self) -> (r: Option<Vec<InternalRecord>>)
        requires
            old(self).well_formed(),
        ensures
            final(self).well_formed(),
            final(self).same_limits(*old(self)),
            final(self).active_size() == old(self).active_size(),
            match r {
                Some(records) => old(self)@.frozen.len() > 0 && entries(records@) == old(
                    self,
                )@.frozen.first() && final(self)@ == old(self)@.starts_flush(),
                None => old(self)@.frozen.len() == 0 && *final(self) == *old(self),
            },
    {
        if self.frozen.len() == 0 {
            return None;
        }
        let ghost before = *self;
        let t = self.frozen.remove(0);
        let records = copy_records(t.iter_sorted());
        self.flushing.push(t);
        proof {
            assert(self@.frozen =~= before@.frozen.drop_first());
            assert(self@.flushing =~= before@.flushing.push(before@.frozen.first()));
        }
        Some(records)
    }

    /// Puts the table whose flush was started last back in front of the frozen
    /// ones. Called where its SST could not be made.
    pub fn abort_flush(&mut self)
        requires
            old(self).well_formed(),
        ensures
            final(self).well_formed(),
            final(self).same_limits(*old(self)),
            final(self).active_size() == old(self).active_size(),
            final(self)@ == if old(self)@.flushing.len() == 0 {
                old(self)@
            } else {
                MemView {
                    active: old(self)@.active,
                    frozen: seq![old(self)@.flushing.last()] + old(self)@.frozen,
                    flushing: old(self)@.flushing.drop_last(),
                }
            },
    {
        let ghost before = *self;
        if let Some(t) = self.flushing.pop() {
            self.frozen.insert(0, t);
            proof {
                assert(self@.frozen =~= seq![before@.flushing.last()] + before@.frozen);
                assert(self@.flushing =~= before@.flushing.drop_last());
                assert forall|i: int| 0 <= i < self.frozen@.len() implies (
                #[trigger] self.frozen@[i]).well_formed() by {
                    if i > 0 {
                        assert(self.frozen@[i] == before.frozen@[i - 1]);
                    } else {
                        assert(self.frozen@[0] == before.flushing@[before.flushing@.len() - 1]);
                    }
                }
            }
        }
    }

    /// Removes the oldest flushing memtable.  Called after the SST has
    /// been durably written and registered in the block-meta index.
    pub fn complete_flush(&mut self)
        requires
            old(self).well_formed(),
        ensures
            final(self).well_formed(),
            final(self).same_limits(*old(self)),
            final(self).active_size() == old(self).active_size(),
            final(self)@ == old(self)@.completes_flush(),
    {
        if self.flushing.len() > 0 {
            let ghost before = *self;
            let _done = self.flushing.remove(0);
            proof {
                assert(self@.flushing =~= before@.flushing.drop_first());
            }
        }
    }

    /// The number of records in the active table, and the bytes they occupy.
    pub fn active_stats(&self) -> (r: (usize, usize))
        ensures
            r.0 == self@.active.len(),
            r.1 == self.active_size(),
    {
        (self.active.len(), self.active.bytes())
    }

    pub fn frozen_count(&self) -> (r: usize)
        ensures
            r == self@.frozen.len(),
    {
        self.frozen.len()
    }

    /// The live records of all tables that pass the filter and the time range.
    pub fn query(&self, filter: &KeyFilter, times: Option<(i64, i64)>, now_us: i64) -> (r: Vec<
        InternalRecord,
    >)
        ensures
            entries(r@) == selected(self@.all(), filter@, times, now_us),
    {
        match (filter, times) {
            (KeyFilter::Prefix(p), None) => self.query_prefix(p, now_us),
            (KeyFilter::Prefix(p), Some((a, b))) => self.query_prefix_time_range(p, a, b, now_us),
            (KeyFilter::Range { start, end }, None) => self.query_key_range(start, end, now_us),
            (KeyFilter::Range { start, end }, Some((a, b))) => self.query_key_time_range(
                start,
                end,
                a,
                b,
                now_us,
            ),
            (KeyFilter::All, Some((a, b))) => self.query_time_range(a, b, now_us),
            (KeyFilter::All, None) => {
                let empty: Vec<u8> = Vec::new();
                proof {
                    assert(selected(self@.all(), KeyFilterView::Prefix(empty@), None, now_us)
                        == selected(self@.all(), KeyFilterView::All, None, now_us)) by {
                        lemma_empty_prefix_admits_all();
                        assert((|e: Entry|
                            passes(e, KeyFilterView::Prefix(Seq::<u8>::empty()), None, now_us))
                            =~= (|e: Entry| passes(e, KeyFilterView::All, None, now_us)));
                    }
                }
                self.query_prefix(&empty, now_us)
            },
        }
    }

    pub fn query_prefix(&self, key: &[u8], now_us: i64) -> (r: Vec<InternalRecord>)
        ensures
            entries(r@) == selected(self@.all(), KeyFilterView::Prefix(key@), None, now_us),
    {
        let ghost p = |e: Entry| passes(e, KeyFilterView::Prefix(key@), None, now_us);
        let mut out: Vec<InternalRecord> = Vec::new();
        push_copies(&mut out, &self.active.query_prefix(key, now_us));
        proof {
            lemma_step_first(self@, p, entries(out@));
        }
        let mut i: usize = 0;
        while i < self.frozen.len()
            invariant
                i <= self.frozen.len(),
                p == (|e: Entry| passes(e, KeyFilterView::Prefix(key@), None, now_us)),
                entries(out@) == self@.tables().subrange(0, 1 + i).flatten().filter(p),
            decreases self.frozen.len() - i,
        {
            let ghost before = entries(out@);
            push_copies(&mut out, &self.frozen[i].query_prefix(key, now_us));
            proof {
                lemma_step(self@.tables(), 1 + i, p, before, entries(out@));
            }
            i = i + 1;
        }
        let n: usize = i;
        i = 0;
        while i < self.flushing.len()
            invariant
                i <= self.flushing.len(),
                n == self.frozen.len(),
                p == (|e: Entry| passes(e, KeyFilterView::Prefix(key@), None, now_us)),
                entries(out@) == self@.tables().subrange(0, 1 + n + i).flatten().filter(p),
            decreases self.flushing.len() - i,
        {
            let ghost before = entries(out@);
            push_copies(&mut out, &self.flushing[i].query_prefix(key, now_us));
            proof {
                lemma_step(self@.tables(), 1 + n + i, p, before, entries(out@));
            }
            i = i + 1;
        }
        assert(self@.tables().subrange(0, 1 + n + i) =~= self@.tables());
        out
    }

    pub fn query_key_range(&self, start_key: &[u8], end_key: &[u8], now_us: i64) -> (r: Vec<InternalRecord>)
        ensures
            entries(r@) == selected(self@.all(), KeyFilterView::Range { start: start_key@, end: end_key@ }, None, now_us),
    {
        let ghost p = |e: Entry| passes(e, KeyFilterView::Range { start: start_key@, end: end_key@ }, None, now_us);
        let mut out: Vec<InternalRecord> = Vec::new();
        push_copies(&mut out, &self.active.query_key_range(start_key, end_key, now_us));
        proof {
            lemma_step_first(self@, p, entries(out@));
        }
        let mut i: usize = 0;
        while i < self.frozen.len()
            invariant
                i <= self.frozen.len(),
                p == (|e: Entry| passes(e, KeyFilterView::Range { start: start_key@, end: end_key@ }, None, now_us)),
                entries(out@) == self@.tables().subrange(0, 1 + i).flatten().filter(p),
            decreases self.frozen.len() - i,
        {
            let ghost before = entries(out@);
            push_copies(&mut out, &self.frozen[i].query_key_range(start_key, end_key, now_us));
            proof {
                lemma_step(self@.tables(), 1 + i, p, before, entries(out@));
            }
            i = i + 1;
        }
        let n: usize = i;
        i = 0;
        while i < self.flushing.len()
            invariant
                i <= self.flushing.len(),
                n == self.frozen.len(),
                p == (|e: Entry| passes(e, KeyFilterView::Range { start: start_key@, end: end_key@ }, None, now_us)),
                entries(out@) == self@.tables().subrange(0, 1 + n + i).flatten().filter(p),
            decreases self.flushing.len() - i,
        {
            let ghost before = entries(out@);
            push_copies(&mut out, &self.flushing[i].query_key_range(start_key, end_key, now_us));
            proof {
                lemma_step(self@.tables(), 1 + n + i, p, before, entries(out@));
            }
            i = i + 1;
        }
        assert(self@.tables().subrange(0, 1 + n + i) =~= self@.tables());
        out
    }

    pub fn query_time_range(&self, ts_start: i64, ts_end: i64, now_us: i64) -> (r: Vec<InternalRecord>)
        ensures
            entries(r@) == selected(self@.all(), KeyFilterView::All, Some((ts_start, ts_end)), now_us),
    {
        let ghost p = |e: Entry| passes(e, KeyFilterView::All, Some((ts_start, ts_end)), now_us);
        let mut out: Vec<InternalRecord> = Vec::new();
        push_copies(&mut out, &self.active.query_time_range(ts_start, ts_end, now_us));
        proof {
            lemma_step_first(self@, p, entries(out@));
        }
        let mut i: usize = 0;
        while i < self.frozen.len()
            invariant
                i <= self.frozen.len(),
                p == (|e: Entry| passes(e, KeyFilterView::All, Some((ts_start, ts_end)), now_us)),
                entries(out@) == self@.tables().subrange(0, 1 + i).flatten().filter(p),
            decreases self.frozen.len() - i,
        {
            let ghost before = entries(out@);
            push_copies(&mut out, &self.frozen[i].query_time_range(ts_start, ts_end, now_us));
            proof {
                lemma_step(self@.tables(), 1 + i, p, before, entries(out@));
            }
            i = i + 1;
        }
        let n: usize = i;
        i = 0;
        while i < self.flushing.len()
            invariant
                i <= self.flushing.len(),
                n == self.frozen.len(),
                p == (|e: Entry| passes(e, KeyFilterView::All, Some((ts_start, ts_end)), now_us)),
                entries(out@) == self@.tables().subrange(0, 1 + n + i).flatten().filter(p),
            decreases self.flushing.len() - i,
        {
            let ghost before = entries(out@);
            push_copies(&mut out, &self.flushing[i].query_time_range(ts_start, ts_end, now_us));
            proof {
                lemma_step(self@.tables(), 1 + n + i, p, before, entries(out@));
            }
            i = i + 1;
        }
        assert(self@.tables().subrange(0, 1 + n + i) =~= self@.tables());
        out
    }

    pub fn query_prefix_time_range(&self, key: &[u8], ts_start: i64, ts_end: i64, now_us: i64) -> (r: Vec<InternalRecord>)
        ensures
            entries(r@) == selected(self@.all(), KeyFilterView::Prefix(key@), Some((ts_start, ts_end)), now_us),
    {
        let ghost p = |e: Entry| passes(e, KeyFilterView::Prefix(key@), Some((ts_start, ts_end)), now_us);
        let mut out: Vec<InternalRecord> = Vec::new();
        push_copies(&mut out, &self.active.query_prefix_time_range(key, ts_start, ts_end, now_us));
        proof {
            lemma_step_first(self@, p, entries(out@));
        }
        let mut i: usize = 0;
        while i < self.frozen.len()
            invariant
                i <= self.frozen.len(),
                p == (|e: Entry| passes(e, KeyFilterView::Prefix(key@), Some((ts_start, ts_end)), now_us)),
                entries(out@) == self@.tables().subrange(0, 1 + i).flatten().filter(p),
            decreases self.frozen.len() - i,
        {
            let ghost before = entries(out@);
            push_copies(&mut out, &self.frozen[i].query_prefix_time_range(key, ts_start, ts_end, now_us));
            proof {
                lemma_step(self@.tables(), 1 + i, p, before, entries(out@));
            }
            i = i + 1;
        }
        let n: usize = i;
        i = 0;
        while i < self.flushing.len()
            invariant
                i <= self.flushing.len(),
                n == self.frozen.len(),
                p == (|e: Entry| passes(e, KeyFilterView::Prefix(key@), Some((ts_start, ts_end)), now_us)),
                entries(out@) == self@.tables().subrange(0, 1 + n + i).flatten().filter(p),
            decreases self.flushing.len() - i,
        {
            let ghost before = entries(out@);
            push_copies(&mut out, &self.flushing[i].query_prefix_time_range(key, ts_start, ts_end, now_us));
            proof {
                lemma_step(self@.tables(), 1 + n + i, p, before, entries(out@));
            }
            i = i + 1;
        }
        assert(self@.tables().subrange(0, 1 + n + i) =~= self@.tables());
        out
    }

    pub fn query_key_time_range(&self, start_key: &[u8], end_key: &[u8], ts_start: i64, ts_end: i64, now_us: i64) -> (r: Vec<InternalRecord>)
        ensures
            entries(r@) == selected(self@.all(), KeyFilterView::Range { start: start_key@, end: end_key@ }, Some((ts_start, ts_end)), now_us),
    {
        let ghost p = |e: Entry| passes(e, KeyFilterView::Range { start: start_key@, end: end_key@ }, Some((ts_start, ts_end)), now_us);
        let mut out: Vec<InternalRecord> = Vec::new();
        push_copies(&mut out, &self.active.query_key_time_range(start_key, end_key, ts_start, ts_end, now_us));
        proof {
            lemma_step_first(self@, p, entries(out@));
        }
        let mut i: usize = 0;
        while i < self.frozen.len()
            invariant
                i <= self.frozen.len(),
                p == (|e: Entry| passes(e, KeyFilterView::Range { start: start_key@, end: end_key@ }, Some((ts_start, ts_end)), now_us)),
                entries(out@) == self@.tables().subrange(0, 1 + i).flatten().filter(p),
            decreases self.frozen.len() - i,
        {
            let ghost before = entries(out@);
            push_copies(&mut out, &self.frozen[i].query_key_time_range(start_key, end_key, ts_start, ts_end, now_us));
            proof {
                lemma_step(self@.tables(), 1 + i, p, before, entries(out@));
            }
            i = i + 1;
        }
        let n: usize = i;
        i = 0;
        while i < self.flushing.len()
            invariant
                i <= self.flushing.len(),
                n == self.frozen.len(),
                p == (|e: Entry| passes(e, KeyFilterView::Range { start: start_key@, end: end_key@ }, Some((ts_start, ts_end)), now_us)),
                entries(out@) == self@.tables().subrange(0, 1 + n + i).flatten().filter(p),
            decreases self.flushing.len() - i,
        {
            let ghost before = entries(out@);
            push_copies(&mut out, &self.flushing[i].query_key_time_range(start_key, end_key, ts_start, ts_end, now_us));
            proof {
                lemma_step(self@.tables(), 1 + n + i, p, before, entries(out@));
            }
            i = i + 1;
        }
        assert(self@.tables().subrange(0, 1 + n + i) =~= self@.tables());
        out
    }

    /// Gets the newest record for (key, ts), unless it has expired.
    pub fn get(&self, key: &[u8], ts: i64, now_us: i64) -> (r: Option<InternalRecord>)
        requires
            self.well_formed(),
        ensures
            match r {
                Some(rec) => best_version(self@.tables(), key@, ts, now_us, u64::MAX) == Some(rec@),
                None => best_version(self@.tables(), key@, ts, now_us, u64::MAX) is None,
            },
    {
        let mut best: Option<&InternalRecord> = None;
        let ghost tables = self@.tables();
        reveal_with_fuel(best_version, 2);
        if let Some(rec) = self.active.get(key, ts) {
            if is_live(rec.expire_at, now_us) {
                best = Some(rec);
            }
        }
        proof {
            assert(tables.subrange(0, 1).drop_last() =~= Seq::<Seq<Entry>>::empty());
            assert(tables.subrange(0, 1).last() == self@.active);
        }
        let mut i: usize = 0;
        while i < self.frozen.len()
            invariant
                i <= self.frozen.len(),
                self.well_formed(),
                tables == self@.tables(),
                match best {
                    Some(rec) => best_version(
                        tables.subrange(0, 1 + i),
                        key@,
                        ts,
                        now_us,
                        u64::MAX,
                    ) == Some(rec@),
                    None => best_version(tables.subrange(0, 1 + i), key@, ts, now_us, u64::MAX) is None,
                },
            decreases self.frozen.len() - i,
        {
            proof {
                assert(tables.subrange(0, 2 + i).drop_last() =~= tables.subrange(0, 1 + i));
                assert(tables.subrange(0, 2 + i).last() == self.frozen@[i as int]@);
            }
            if let Some(rec) = self.frozen[i].get(key, ts) {
                if is_live(rec.expire_at, now_us) && newer_than(rec, best) {
                    best = Some(rec);
                }
            }
            i = i + 1;
        }
        let n: usize = i;
        i = 0;
        while i < self.flushing.len()
            invariant
                i <= self.flushing.len(),
                n == self.frozen.len(),
                self.well_formed(),
                tables == self@.tables(),
                match best {
                    Some(rec) => best_version(
                        tables.subrange(0, 1 + n + i),
                        key@,
                        ts,
                        now_us,
                        u64::MAX,
                    ) == Some(rec@),
                    None => best_version(
                        tables.subrange(0, 1 + n + i),
                        key@,
                        ts,
                        now_us,
                        u64::MAX,
                    ) is None,
                },
            decreases self.flushing.len() - i,
        {
            proof {
                assert(tables.subrange(0, 2 + n + i).drop_last() =~= tables.subrange(0, 1 + n + i));
                assert(tables.subrange(0, 2 + n + i).last() == self.flushing@[i as int]@);
            }
            if let Some(rec) = self.flushing[i].get(key, ts) {
                if is_live(rec.expire_at, now_us) && newer_than(rec, best) {
                    best = Some(rec);
                }
            }
            i = i + 1;
        }
        assert(tables.subrange(0, 1 + n + i) =~= tables);
        match best {
            Some(rec) => Some(rec.copy()),
            None => None,
        }
    }

    /// MVCC point read: highest-seq record for (key, ts) with seq <= max_seq.
    pub fn get_seq(&self, key: &[u8], ts: i64, now_us: i64, max_seq: u64) -> (r: Option<
        InternalRecord,
    >)
        ensures
            match r {
                Some(rec) => best_version(self@.tables(), key@, ts, now_us, max_seq) == Some(rec@),
                None => best_version(self@.tables(), key@, ts, now_us, max_seq) is None,
            },
    {
        let mut best: Option<&InternalRecord> = None;
        let ghost tables = self@.tables();
        reveal_with_fuel(best_version, 2);
        if let Some(rec) = self.active.get_with_max_seq(key, ts, max_seq) {
            if is_live(rec.expire_at, now_us) {
                best = Some(rec);
            }
        }
        proof {
            assert(tables.subrange(0, 1).drop_last() =~= Seq::<Seq<Entry>>::empty());
            assert(tables.subrange(0, 1).last() == self@.active);
        }
        let mut i: usize = 0;
        while i < self.frozen.len()
            invariant
                i <= self.frozen.len(),
                tables == self@.tables(),
                match best {
                    Some(rec) => best_version(tables.subrange(0, 1 + i), key@, ts, now_us, max_seq)
                        == Some(rec@),
                    None => best_version(tables.subrange(0, 1 + i), key@, ts, now_us, max_seq) is None,
                },
            decreases self.frozen.len() - i,
        {
            proof {
                assert(tables.subrange(0, 2 + i).drop_last() =~= tables.subrange(0, 1 + i));
                assert(tables.subrange(0, 2 + i).last() == self.frozen@[i as int]@);
            }
            if let Some(rec) = self.frozen[i].get_with_max_seq(key, ts, max_seq) {
                if is_live(rec.expire_at, now_us) && newer_than(rec, best) {
                    best = Some(rec);
                }
            }
            i = i + 1;
        }
        let n: usize = i;
        i = 0;
        while i < self.flushing.len()
            invariant
                i <= self.flushing.len(),
                n == self.frozen.len(),
                tables == self@.tables(),
                match best {
                    Some(rec) => best_version(
                        tables.subrange(0, 1 + n + i),
                        key@,
                        ts,
                        now_us,
                        max_seq,
                    ) == Some(rec@),
                    None => best_version(
                        tables.subrange(0, 1 + n + i),
                        key@,
                        ts,
                        now_us,
                        max_seq,
                    ) is None,
                },
            decreases self.flushing.len() - i,
        {
            proof {
                assert(tables.subrange(0, 2 + n + i).drop_last() =~= tables.subrange(0, 1 + n + i));
                assert(tables.subrange(0, 2 + n + i).last() == self.flushing@[i as int]@);
            }
            if let Some(rec) = self.flushing[i].get_with_max_seq(key, ts, max_seq) {
                if is_live(rec.expire_at, now_us) && newer_than(rec, best) {
                    best = Some(rec);
                }
            }
            i = i + 1;
        }
        assert(tables.subrange(0, 1 + n + i) =~= tables);
        match best {
            Some(rec) => Some(rec.copy()),
            None => None,
        }
    }

    /// Whether a range deletion in memory covers the key that was written after
    /// `after` and no later than `max_seq`.
    pub fn covers(&self, key: &[u8], after: Option<u64>, max_seq: u64) -> (r: bool)
        requires
            self.well_formed(),
        ensures
            r == self@.covers(key@, after, max_seq),
    {
        let ghost tables = self@.tables();
        if self.active.covers(key, after, max_seq) {
            assert(covered(tables[0], key@, after, max_seq));
            return true;
        }
        let mut i: usize = 0;
        while i < self.frozen.len()
            invariant
                i <= self.frozen.len(),
                self.well_formed(),
                tables == self@.tables(),
                forall|k: int|
                    0 <= k < 1 + i ==> !covered(#[trigger] tables[k], key@, after, max_seq),
            decreases self.frozen.len() - i,
        {
            assert(tables[1 + i] == self.frozen@[i as int]@);
            if self.frozen[i].covers(key, after, max_seq) {
                assert(covered(tables[1 + i], key@, after, max_seq));
                return true;
            }
            i = i + 1;
        }
        let n: usize = i;
        i = 0;
        while i < self.flushing.len()
            invariant
                i <= self.flushing.len(),
                n == self.frozen.len(),
                self.well_formed(),
                tables == self@.tables(),
                forall|k: int|
                    0 <= k < 1 + n + i ==> !covered(#[trigger] tables[k], key@, after, max_seq),
            decreases self.flushing.len() - i,
        {
            assert(tables[1 + n + i] == self.flushing@[i as int]@);
            if self.flushing[i].covers(key, after, max_seq) {
                assert(covered(tables[1 + n + i], key@, after, max_seq));
                return true;
            }
            i = i + 1;
        }
        false
    }

    /// Whether a later record in memory deletes `rec`.
    fn deletes(&self, rec: &InternalRecord) -> (r: bool)
        ensures
            r == self@.removes(rec@),
    {
        let ghost tables = self@.tables();
        if self.active.deletes(rec) {
            assert(removed(tables[0], rec@));
            return true;
        }
        let mut i: usize = 0;
        while i < self.frozen.len()
            invariant
                i <= self.frozen.len(),
                tables == self@.tables(),
                forall|k: int| 0 <= k < 1 + i ==> !removed(#[trigger] tables[k], rec@),
            decreases self.frozen.len() - i,
        {
            assert(tables[1 + i] == self.frozen@[i as int]@);
            if self.frozen[i].deletes(rec) {
                assert(removed(tables[1 + i], rec@));
                return true;
            }
            i = i + 1;
        }
        let n: usize = i;
        i = 0;
        while i < self.flushing.len()
            invariant
                i <= self.flushing.len(),
                n == self.frozen.len(),
                tables == self@.tables(),
                forall|k: int| 0 <= k < 1 + n + i ==> !removed(#[trigger] tables[k], rec@),
            decreases self.flushing.len() - i,
        {
            assert(tables[1 + n + i] == self.flushing@[i as int]@);
            if self.flushing[i].deletes(rec) {
                assert(removed(tables[1 + n + i], rec@));
                return true;
            }
            i = i + 1;
        }
        false
    }

    /// The latest of what was found so far and of what `table` has.
    fn latest_with<'a>(
        &self,
        table: &'a MemTable,
        key: &[u8],
        now_us: i64,
        best: Option<&'a InternalRecord>,
        Ghost(done): Ghost<Seq<Entry>>,
    ) -> (r: Option<&'a InternalRecord>)
        requires
            is_view_of(best, latest_of(done, self@.stands(), key@, now_us)),
        ensures
            is_view_of(r, latest_of(done + table@, self@.stands(), key@, now_us)),
    {
        let mut best = best;
        let mut i: usize = 0;
        assert(done + table@.subrange(0, 0) =~= done);
        while i < table.len()
            invariant
                i <= table@.len(),
                is_view_of(
                    best,
                    latest_of(
                        done + table@.subrange(0, i as int),
                        self@.stands(),
                        key@,
                        now_us,
                    ),
                ),
            decreases table@.len() - i,
        {
            let rec = table.at(i);
            let ghost s = done + table@.subrange(0, i + 1);
            assert(s.drop_last() =~= done + table@.subrange(0, i as int));
            assert(s.last() == rec@);
            if is_live(rec.expire_at, now_us) && rec.op == Op::Put && bytes_eq(&rec.key, key)
                && !self.deletes(rec) {
                let better = match best {
                    Some(b) => b.ts < rec.ts || (b.ts == rec.ts && b.seq <= rec.seq),
                    None => true,
                };
                if better {
                    best = Some(rec);
                }
            }
            i = i + 1;
        }
        assert(table@.subrange(0, table@.len() as int) =~= table@);
        best
    }

    /// Finds the latest (highest ts, highest seq) record for a key that was
    /// neither deleted nor has expired.
    pub fn get_latest(&self, key: &[u8], now_us: i64) -> (r: Option<InternalRecord>)
        ensures
            match r {
                Some(rec) => self@.latest(key@, now_us) == Some(rec@),
                None => self@.latest(key@, now_us) is None,
            },
    {
        let ghost tables = self@.tables();
        let mut best: Option<&InternalRecord> = self.latest_with(
            &self.active,
            key,
            now_us,
            None,
            Ghost(Seq::empty()),
        );
        proof {
            let one = tables.subrange(0, 1);
            assert(one =~= seq![self@.active]);
            one.lemma_flatten_singleton();
            assert(Seq::<Entry>::empty() + self@.active =~= self@.active);
        }
        let mut i: usize = 0;
        while i < self.frozen.len()
            invariant
                i <= self.frozen.len(),
                tables == self@.tables(),
                is_view_of(
                    best,
                    latest_of(tables.subrange(0, 1 + i).flatten(), self@.stands(), key@, now_us),
                ),
            decreases self.frozen.len() - i,
        {
            let ghost done = tables.subrange(0, 1 + i);
            proof {
                assert(tables[1 + i] == self.frozen@[i as int]@);
                assert(tables.subrange(0, 2 + i) =~= done.push(tables[1 + i]));
                done.lemma_flatten_push(tables[1 + i]);
            }
            best = self.latest_with(&self.frozen[i], key, now_us, best, Ghost(done.flatten()));
            i = i + 1;
        }
        let n: usize = i;
        i = 0;
        while i < self.flushing.len()
            invariant
                i <= self.flushing.len(),
                n == self.frozen.len(),
                tables == self@.tables(),
                is_view_of(
                    best,
                    latest_of(
                        tables.subrange(0, 1 + n + i).flatten(),
                        self@.stands(),
                        key@,
                        now_us,
                    ),
                ),
            decreases self.flushing.len() - i,
        {
            let ghost done = tables.subrange(0, 1 + n + i);
            proof {
                assert(tables[1 + n + i] == self.flushing@[i as int]@);
                assert(tables.subrange(0, 2 + n + i) =~= done.push(tables[1 + n + i]));
                done.lemma_flatten_push(tables[1 + n + i]);
            }
            best = self.latest_with(&self.flushing[i], key, now_us, best, Ghost(done.flatten()));
            i = i + 1;
        }
        assert(tables.subrange(0, 1 + n + i) =~= tables);
        match best {
            Some(rec) => Some(rec.copy()),
            None => None,
        }
    }
}

/// `e` is what `rec` holds.
spec fn is_view_of(rec: Option<&InternalRecord>, e: Option<Entry>) -> bool {
    match rec {
        Some(r) => e == Some(r@),
        None => e is None,
    }
}

fn newer_than(rec: &InternalRecord, best: Option<&InternalRecord>) -> (r: bool)
    ensures
        r == (best is None || best->0@.seq < rec@.seq),
{
    match best {
        Some(b) => b.seq < rec.seq,
        None => true,
    }
}

pub proof fn lemma_empty_prefix_admits_all()
    ensures
        forall|k: Seq<u8>| #[trigger] KeyFilterView::Prefix(Seq::<u8>::empty()).admits(k),
{
    assert forall|k: Seq<u8>| #[trigger] KeyFilterView::Prefix(Seq::<u8>::empty()).admits(k) by {
        assert(k.subrange(0, 0) =~= Seq::<u8>::empty());
    }
}

proof fn lemma_step_first(m: MemView, p: spec_fn(Entry) -> bool, out: Seq<Entry>)
    requires
        out == m.active.filter(p) || out == Seq::<Entry>::empty() + m.active.filter(p),
    ensures
        out == m.tables().subrange(0, 1).flatten().filter(p),
{
    let one = m.tables().subrange(0, 1);
    assert(one =~= seq![m.active]);
    one.lemma_flatten_singleton();
    assert(Seq::<Entry>::empty() + m.active.filter(p) =~= m.active.filter(p));
}

/// One more table adds what it lets through.
proof fn lemma_step(
    tables: Seq<Seq<Entry>>,
    i: int,
    p: spec_fn(Entry) -> bool,
    before: Seq<Entry>,
    after: Seq<Entry>,
)
    requires
        0 <= i < tables.len(),
        before == tables.subrange(0, i).flatten().filter(p),
        after == before + tables[i].filter(p),
    ensures
        after == tables.subrange(0, i + 1).flatten().filter(p),
{
    assert(tables.subrange(0, i + 1) =~= tables.subrange(0, i).push(tables[i]));
    tables.subrange(0, i).lemma_flatten_push(tables[i]);
    Seq::filter_distributes_over_add(tables.subrange(0, i).flatten(), tables[i], p);
}

/// A concatenation holds what one of its parts holds.
pub proof fn lemma_flatten_contains<T>(s: Seq<Seq<T>>, e: T)
    ensures
        s.flatten().contains(e) <==> exists|i: int| 0 <= i < s.len() && (#[trigger] s[i]).contains(
            e,
        ),
    decreases s.len(),
{
    if s.len() > 0 {
        let rest = s.drop_first();
        lemma_flatten_contains(rest, e);
        let f = s.flatten();
        assert(f == s[0] + rest.flatten());
        if f.contains(e) {
            let k = choose|k: int| 0 <= k < f.len() && f[k] == e;
            if k < s[0].len() {
                assert(s[0][k] == e);
                assert(s[0].contains(e));
            } else {
                assert(rest.flatten()[k - s[0].len()] == e);
                let i = choose|i: int| 0 <= i < rest.len() && (#[trigger] rest[i]).contains(e);
                assert(s[i + 1] == rest[i]);
            }
        }
        if exists|i: int| 0 <= i < s.len() && (#[trigger] s[i]).contains(e) {
            let i = choose|i: int| 0 <= i < s.len() && (#[trigger] s[i]).contains(e);
            if i == 0 {
                let k = choose|k: int| 0 <= k < s[0].len() && s[0][k] == e;
                assert(f[k] == e);
            } else {
                assert(rest[i - 1] == s[i]);
                let k = choose|k: int| 0 <= k < rest.flatten().len() && rest.flatten()[k] == e;
                assert(f[s[0].len() + k] == e);
            }
        }
    }
}

/// `tables[i]` offers a live version.
pub open spec fn offers(
    tables: Seq<Seq<Entry>>,
    i: int,
    key: Seq<u8>,
    ts: i64,
    now: i64,
    max_seq: u64,
) -> bool {
    let c = newest(tables[i], key, ts, max_seq);
    0 <= i < tables.len() && c is Some && live_at(c->0.expire_at, now)
}

/// What [`best_version`] gives is offered by a table, and no table offers a
/// newer one.
pub proof fn lemma_best_version(
    tables: Seq<Seq<Entry>>,
    key: Seq<u8>,
    ts: i64,
    now: i64,
    max_seq: u64,
)
    ensures
        match best_version(tables, key, ts, now, max_seq) {
            Some(e) => {
                &&& exists|i: int| #[trigger]
                    offers(tables, i, key, ts, now, max_seq) && newest(tables[i], key, ts, max_seq)
                        == Some(e)
                &&& forall|i: int| #[trigger]
                    offers(tables, i, key, ts, now, max_seq) ==> newest(
                        tables[i],
                        key,
                        ts,
                        max_seq,
                    )->0.seq <= e.seq
            },
            None => forall|i: int| !#[trigger] offers(tables, i, key, ts, now, max_seq),
        },
    decreases tables.len(),
{
    if tables.len() > 0 {
        let t = tables.drop_last();
        let n = tables.len() - 1;
        lemma_best_version(t, key, ts, now, max_seq);
        assert forall|i: int| i != n implies offers(tables, i, key, ts, now, max_seq) == offers(
            t,
            i,
            key,
            ts,
            now,
            max_seq,
        ) by {
            if 0 <= i < n {
                assert(t[i] == tables[i]);
            }
        }
        match best_version(tables, key, ts, now, max_seq) {
            Some(e) => {
                if offers(tables, n, key, ts, now, max_seq) && newest(
                    tables[n],
                    key,
                    ts,
                    max_seq,
                ) == Some(e) {
                } else {
                    let i = choose|i: int| #[trigger]
                        offers(t, i, key, ts, now, max_seq) && newest(t[i], key, ts, max_seq)
                            == Some(e);
                    assert(offers(tables, i, key, ts, now, max_seq));
                }
                assert forall|i: int| #[trigger] offers(
                    tables,
                    i,
                    key,
                    ts,
                    now,
                    max_seq,
                ) implies newest(tables[i], key, ts, max_seq)->0.seq <= e.seq by {
                    if i != n {
                        assert(offers(t, i, key, ts, now, max_seq));
                    }
                }
            },
            None => {
                assert forall|i: int| !#[trigger] offers(tables, i, key, ts, now, max_seq) by {
                    if offers(tables, i, key, ts, now, max_seq) && i != n {
                        assert(offers(t, i, key, ts, now, max_seq));
                    }
                }
            },
        }
    }
}

/// Where two tables' newest versions of `(key, ts)` share a sequence number,
/// they are the same entry.
pub open spec fn ties_agree(tables: Seq<Seq<Entry>>, key: Seq<u8>, ts: i64, max_seq: u64) -> bool {
    forall|i: int, j: int|
        0 <= i < tables.len() && 0 <= j < tables.len() && newest(
            #[trigger] tables[i],
            key,
            ts,
            max_seq,
        ) is Some && newest(#[trigger] tables[j], key, ts, max_seq) is Some && newest(
            tables[i],
            key,
            ts,
            max_seq,
        )->0.seq == newest(tables[j], key, ts, max_seq)->0.seq ==> newest(
            tables[i],
            key,
            ts,
            max_seq,
        ) == newest(tables[j], key, ts, max_seq)
}

/// Tables that offer the same versions give the same point read, whatever
/// their order.
proof fn lemma_same_offers(
    a: Seq<Seq<Entry>>,
    b: Seq<Seq<Entry>>,
    f: spec_fn(int) -> int,
    g: spec_fn(int) -> int,
    key: Seq<u8>,
    ts: i64,
    now: i64,
    max_seq: u64,
)
    requires
        ties_agree(a, key, ts, max_seq),
        forall|i: int|
            0 <= i < a.len() && newest(#[trigger] a[i], key, ts, max_seq) is Some ==> 0 <= f(i)
                < b.len() && newest(b[f(i)], key, ts, max_seq) == newest(a[i], key, ts, max_seq),
        forall|j: int|
            0 <= j < b.len() && newest(#[trigger] b[j], key, ts, max_seq) is Some ==> 0 <= g(j)
                < a.len() && newest(a[g(j)], key, ts, max_seq) == newest(b[j], key, ts, max_seq),
    ensures
        best_version(a, key, ts, now, max_seq) == best_version(b, key, ts, now, max_seq),
{
    lemma_best_version(a, key, ts, now, max_seq);
    lemma_best_version(b, key, ts, now, max_seq);
    let x = best_version(a, key, ts, now, max_seq);
    let y = best_version(b, key, ts, now, max_seq);
    if x is Some {
        let i = choose|i: int| #[trigger]
            offers(a, i, key, ts, now, max_seq) && newest(a[i], key, ts, max_seq) == x;
        assert(offers(b, f(i), key, ts, now, max_seq));
    }
    if y is Some {
        let j = choose|j: int| #[trigger]
            offers(b, j, key, ts, now, max_seq) && newest(b[j], key, ts, max_seq) == y;
        assert(offers(a, g(j), key, ts, now, max_seq));
        let i = choose|i: int| #[trigger]
            offers(a, i, key, ts, now, max_seq) && newest(a[i], key, ts, max_seq) == x;
        assert(offers(b, f(i), key, ts, now, max_seq));
        assert(newest(a[i], key, ts, max_seq)->0.seq == newest(a[g(j)], key, ts, max_seq)->0.seq);
    }
}

/// Freezing the active table changes no point read.
pub proof fn law_freeze_keeps_point_reads(
    before: MemView,
    after: MemView,
    key: Seq<u8>,
    ts: i64,
    now: i64,
    max_seq: u64,
)
    requires
        before.freezes_to(after),
        ties_agree(before.tables(), key, ts, max_seq),
    ensures
        best_version(after.tables(), key, ts, now, max_seq) == best_version(
            before.tables(),
            key,
            ts,
            now,
            max_seq,
        ),
{
    let a = before.tables();
    let b = after.tables();
    let n = before.frozen.len() as int;
    lemma_sort_keeps_newest(after.frozen.last(), before.active, key, ts, max_seq);
    lemma_newest(after.active, key, ts, max_seq);
    let f = |i: int|
        if i == 0 {
            n + 1
        } else if i <= n {
            i
        } else {
            i + 1
        };
    let g = |j: int|
        if j == n + 1 {
            0
        } else if j <= n {
            j
        } else {
            j - 1
        };
    assert forall|i: int| 0 <= i < n implies after.frozen[i] == #[trigger] before.frozen[i] by {
        assert(after.frozen.drop_last()[i] == after.frozen[i]);
    }
    assert(b[n + 1] == after.frozen.last());
    lemma_same_offers(a, b, f, g, key, ts, now, max_seq);
}

/// Starting a flush changes no point read.
pub proof fn law_flush_start_keeps_point_reads(
    before: MemView,
    key: Seq<u8>,
    ts: i64,
    now: i64,
    max_seq: u64,
)
    requires
        before.frozen.len() > 0,
        ties_agree(before.tables(), key, ts, max_seq),
    ensures
        best_version(before.starts_flush().tables(), key, ts, now, max_seq) == best_version(
            before.tables(),
            key,
            ts,
            now,
            max_seq,
        ),
{
    let a = before.tables();
    let b = before.starts_flush().tables();
    let last = a.len() - 1;
    let f = |i: int|
        if i == 0 {
            0
        } else if i == 1 {
            last
        } else {
            i - 1
        };
    let g = |j: int|
        if j == 0 {
            0
        } else if j == last {
            1
        } else {
            j + 1
        };
    lemma_same_offers(a, b, f, g, key, ts, now, max_seq);
}

/// Freezing the active table neither drops an entry nor adds one.
pub proof fn lemma_freeze_keeps_entries(before: MemView, after: MemView, e: Entry)
    requires
        before.freezes_to(after),
    ensures
        after.all().contains(e) <==> before.all().contains(e),
{
    let a = before.tables();
    let b = after.tables();
    let n = before.frozen.len() as int;
    lemma_flatten_contains(a, e);
    lemma_flatten_contains(b, e);
    lemma_sort_contains(after.frozen.last(), before.active, e);
    assert forall|i: int| 0 <= i < n implies after.frozen[i] == #[trigger] before.frozen[i] by {
        assert(after.frozen.drop_last()[i] == after.frozen[i]);
    }
    assert(b[n + 1] == after.frozen.last());
    if exists|i: int| 0 <= i < a.len() && (#[trigger] a[i]).contains(e) {
        let i = choose|i: int| 0 <= i < a.len() && (#[trigger] a[i]).contains(e);
        let j = if i == 0 {
            n + 1
        } else if i <= n {
            i
        } else {
            i + 1
        };
        assert(b[j].contains(e));
    }
    if exists|j: int| 0 <= j < b.len() && (#[trigger] b[j]).contains(e) {
        let j = choose|j: int| 0 <= j < b.len() && (#[trigger] b[j]).contains(e);
        let i = if j == n + 1 {
            0
        } else if j <= n {
            j
        } else {
            j - 1
        };
        assert(a[i].contains(e));
    }
}

/// Freezing the active table neither hides an entry from a query nor adds one.
pub proof fn law_freeze_keeps_queries(
    before: MemView,
    after: MemView,
    filter: KeyFilterView,
    times: Option<(i64, i64)>,
    now: i64,
    e: Entry,
)
    requires
        before.freezes_to(after),
    ensures
        selected(after.all(), filter, times, now).contains(e) <==> selected(
            before.all(),
            filter,
            times,
            now,
        ).contains(e),
{
    let p = |x: Entry| passes(x, filter, times, now);
    lemma_filter_contains(before.all(), p, e);
    lemma_filter_contains(after.all(), p, e);
    lemma_freeze_keeps_entries(before, after, e);
}

/// Starting a flush neither drops an entry nor adds one.
pub proof fn lemma_flush_start_keeps_entries(before: MemView, e: Entry)
    requires
        before.frozen.len() > 0,
    ensures
        before.starts_flush().all().contains(e) <==> before.all().contains(e),
{
    let a = before.tables();
    let b = before.starts_flush().tables();
    let last = a.len() - 1;
    lemma_flatten_contains(a, e);
    lemma_flatten_contains(b, e);
    if exists|i: int| 0 <= i < a.len() && (#[trigger] a[i]).contains(e) {
        let i = choose|i: int| 0 <= i < a.len() && (#[trigger] a[i]).contains(e);
        let j = if i == 0 {
            0
        } else if i == 1 {
            last
        } else {
            i - 1
        };
        assert(b[j] == a[i]);
    }
    if exists|j: int| 0 <= j < b.len() && (#[trigger] b[j]).contains(e) {
        let j = choose|j: int| 0 <= j < b.len() && (#[trigger] b[j]).contains(e);
        let i = if j == 0 {
            0
        } else if j == last {
            1
        } else {
            j + 1
        };
        assert(a[i] == b[j]);
    }
}
/// Starting a flush neither hides an entry from a query nor adds one.
pub proof fn law_flush_start_keeps_queries(
    before: MemView,
    filter: KeyFilterView,
    times: Option<(i64, i64)>,
    now: i64,
    e: Entry,
)
    requires
        before.frozen.len() > 0,
    ensures
        selected(before.starts_flush().all(), filter, times, now).contains(e) <==> selected(
            before.all(),
            filter,
            times,
            now,
        ).contains(e),
{
    let p = |x: Entry| passes(x, filter, times, now);
    lemma_filter_contains(before.all(), p, e);
    lemma_filter_contains(before.starts_flush().all(), p, e);
    lemma_flush_start_keeps_entries(before, e);
}

} // verus!
