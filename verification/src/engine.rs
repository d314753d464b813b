//! The engine: writes go to memtables, memtables are flushed to SSTs, and
//! reads merge both.

use std::collections::HashMap;

use vstd::prelude::*;
use vstd::utf8::encode_utf8;

use crate::block_meta_index::{bucket_of, metas, BlockMetaIndex, IndexView, MetaView};
use crate::bloom::{
    at_least_one, holds_keys, key_views, BloomFilter, BloomView, CURRENT_HASH_VERSION,
};
use crate::bytes::{bits_i64, bytes_eq, bytes_lt, copy_bytes, i64_from_bits, lex_lt, str_bytes};
use crate::compaction::{
    ids_of, is_by_size, picks, sum_up, sums_up, widened, CompactionPlan, CompactionRunner, NewSst,
};
use crate::error::{
    signed_decimal, signed_decimal_text, string_of, text2, text3, FlowError, FlowErrorView, Result,
};
use crate::manifest::{
    block_lists, entry_views, infos, sst_infos, BlockInfo, EntryView, Manifest, ManifestEntry,
    ManifestState, ManifestView, SNAPSHOT_THRESHOLD, SstInfo, SstInfoView,
};
use crate::memtables::{best_version, grown_size, MemTables, MemView};
use crate::order::{lemma_sort_contains, same_version};
use crate::ranges::{
    collect_spans, copy_spans, covered, covers_at, is_span, push_spans, record_covers, spans_eq,
    spans_in,
};
use crate::record::{
    entries, is_live, live_at, records_of, saturate, Bound, Config, Entry, InternalRecord,
    KeyFilterView, Op, Query, ReadOptions, Record, RecordView, ScanRange, ScanRangeView,
};
use crate::scan::{readable, readers_ok, scan_of, ScanIterator, ScanView};
use crate::sstable::{
    block_capacity, block_starts, blocks_fit, chunks, is_sst, key_runs, spans_of_sst, too_large,
    SstReader, SstWriter,
};
use crate::stats::{bytes_in_ssts, total_sst_bytes, EngineStats, StatsCounters};

verus! {

broadcast use vstd::std_specs::hash::group_hash_axioms;

/// `n`, or the nearest `i64`.
pub open spec fn clamp_i64(n: int) -> i64 {
    if n > i64::MAX {
        i64::MAX
    } else if n < i64::MIN {
        i64::MIN
    } else {
        n as i64
    }
}

/// When something written for `ts` expires under a time to live in seconds.
pub open spec fn expire_after(ts: i64, ttl_secs: u64) -> i64 {
    clamp_i64(ts + clamp_i64(bits_i64(ttl_secs as nat) * 1_000_000))
}

fn clamped(n: i128) -> (r: i64)
    ensures
        r == clamp_i64(n as int),
{
    if n > i64::MAX as i128 {
        i64::MAX
    } else if n < i64::MIN as i128 {
        i64::MIN
    } else {
        n as i64
    }
}

fn expiry(ts: i64, ttl_secs: u64) -> (r: i64)
    ensures
        r == expire_after(ts, ttl_secs),
{
    let t = i64_from_bits(ttl_secs);
    let span = clamped(t as i128 * 1_000_000);
    clamped(ts as i128 + span as i128)
}

/// The time to live that applies: the one given, else the engine's.
pub open spec fn ttl_or(ttl_secs: Option<u64>, default_ttl: Option<u64>) -> Option<u64> {
    match ttl_secs {
        Some(t) => Some(t),
        None => default_ttl,
    }
}

/// A record as it is written: its expiry set by the time to live, if there is one.
pub open spec fn aged(rec: RecordView, ttl: Option<u64>) -> RecordView {
    RecordView {
        expire_at: match ttl {
            Some(t) => expire_after(rec.ts, t),
            None => rec.expire_at,
        },
        ..rec
    }
}

/// The entries that a batch of records is written as.
pub open spec fn stamped(recs: Seq<RecordView>, ttl: Option<u64>, base: u64) -> Seq<Entry> {
    Seq::new(recs.len(), |i: int| Entry::put(aged(recs[i], ttl), (base + i) as u64))
}

/// The entries with sequence numbers from `base` on.
pub open spec fn sequenced(s: Seq<Entry>, base: u64) -> Seq<Entry> {
    Seq::new(s.len(), |i: int| Entry { seq: (base + i) as u64, ..s[i] })
}

/// What a reader gets of an entry: the record of a put, nothing of a deletion.
pub open spec fn shown(e: Entry) -> Option<RecordView> {
    if e.op == Op::Put {
        Some(e.record())
    } else {
        None
    }
}

/// `e` is a live version of `(key, ts)`.
pub open spec fn is_hit(e: Entry, key: Seq<u8>, ts: i64, now: i64) -> bool {
    e.key == key && e.ts == ts && live_at(e.expire_at, now)
}

/// The first live version of `(key, ts)` in a block.
pub open spec fn first_hit(s: Seq<Entry>, key: Seq<u8>, ts: i64, now: i64) -> Option<Entry>
    decreases s.len(),
{
    if s.len() == 0 {
        None
    } else if is_hit(s.first(), key, ts, now) {
        Some(s.first())
    } else {
        first_hit(s.drop_first(), key, ts, now)
    }
}

/// The first live version of `(key, ts)` in a list of blocks.
pub open spec fn block_hit(
    blocks: Seq<MetaView>,
    readers: Map<u32, SstReader>,
    key: Seq<u8>,
    ts: i64,
    now: i64,
) -> Option<Entry>
    decreases blocks.len(),
{
    if blocks.len() == 0 {
        None
    } else {
        match first_hit(readable(readers, blocks.first()), key, ts, now) {
            Some(e) => Some(e),
            None => block_hit(blocks.drop_first(), readers, key, ts, now),
        }
    }
}

/// The state of an engine.
pub struct EngineView {
    pub mem: MemView,
    pub index: IndexView,
    pub readers: Map<u32, SstReader>,
    pub manifest: ManifestView,
    pub mem_bytes: usize,
    pub next_seq: u64,
    pub now: i64,
}

impl EngineView {
    /// The state of an engine with nothing in it.
    pub open spec fn fresh() -> EngineView {
        EngineView {
            mem: MemView::empty(),
            index: IndexView::empty(),
            readers: Map::empty(),
            manifest: ManifestView::empty(),
            mem_bytes: 0,
            next_seq: 1_000_000,
            now: 0,
        }
    }

    /// The version of `(key, ts)` in the SSTs: the first in those from which no
    /// later one deletes the key, of which the one with the highest number comes
    /// first.
    pub open spec fn stored_version(self, key: Seq<u8>, ts: i64) -> Option<Entry> {
        block_hit(
            self.index.point_candidates(key, self.now).filter(self.index.bares(key)),
            self.readers,
            key,
            ts,
            self.now,
        )
    }

    /// The version of `(key, ts)` that counts, of those written up to
    /// `max_seq` or already flushed: the newest in memory, else the one in the
    /// SSTs, unless a later range deletion covers the key.
    pub open spec fn version(self, key: Seq<u8>, ts: i64, max_seq: u64) -> Option<Entry> {
        self.mem.decide(
            key,
            max_seq,
            best_version(self.mem.tables(), key, ts, self.now, max_seq),
            self.stored_version(key, ts),
        )
    }

    /// What a point read of `(key, ts)` gives, as of `max_seq`.
    pub open spec fn point_at(self, key: Seq<u8>, ts: i64, max_seq: u64) -> Option<RecordView> {
        match self.version(key, ts, max_seq) {
            Some(e) => shown(e),
            None => None,
        }
    }

    /// What a point read of `(key, ts)` gives.
    pub open spec fn point(self, key: Seq<u8>, ts: i64) -> Option<RecordView> {
        self.point_at(key, ts, u64::MAX)
    }

    /// The scan that a query makes.
    pub open spec fn scan(
        self,
        filter: KeyFilterView,
        times: Option<(i64, i64)>,
        range: Option<ScanRangeView>,
    ) -> ScanView {
        scan_of(
            self.mem,
            self.index,
            self.readers,
            filter,
            times,
            range,
            self.now,
        )
    }

    /// The records that a query gives.
    pub open spec fn query(self, filter: KeyFilterView, times: Option<(i64, i64)>) -> Seq<
        RecordView,
    > {
        self.scan(filter, times, None).records()
    }

    /// The scan of a range.
    pub open spec fn range_scan(self, range: ScanRangeView) -> ScanView {
        self.scan(range.filter(), range.times(), Some(range))
    }

    /// The state after entries were written.
    pub open spec fn written(self, es: Seq<Entry>) -> EngineView {
        EngineView {
            mem: MemView { active: self.mem.active + es, ..self.mem },
            mem_bytes: grown_size(self.mem_bytes, es),
            next_seq: (self.next_seq + es.len()) as u64,
            ..self
        }
    }

    /// Every entry in memory was numbered before the next one.
    pub open spec fn seqs_below(self) -> bool {
        forall|i: int, j: int|
            0 <= i < self.mem.tables().len() && 0 <= j < self.mem.tables()[i].len() ==> (
            #[trigger] self.mem.tables()[i][j]).seq < self.next_seq
    }
}

pub open spec fn no_more_seqs() -> FlowErrorView {
    FlowErrorView::Other("sequence numbers exhausted"@)
}

/// The engine. It is given the time, and its state is in memory: what is to be
/// made durable is handed out, and what was is handed in when it starts.
pub struct Engine {
    config: Config,
    next_seq: u64,
    now_us: i64,
    memtables: MemTables,
    index: BlockMetaIndex,
    manifest: Manifest,
    readers: HashMap<u32, SstReader>,
    unlogged: Vec<InternalRecord>,
}

impl View for Engine {
    type V = EngineView;

    closed spec fn view(&self) -> EngineView {
        EngineView {
            mem: self.memtables@,
            index: self.index@,
            readers: self.readers@,
            manifest: self.manifest@,
            mem_bytes: self.memtables.active_size(),
            next_seq: self.next_seq,
            now: self.now_us,
        }
    }
}

impl Engine {
    pub closed spec fn settings(self) -> Config {
        self.config
    }

    /// The entries that were written since they were last taken for the log.
    pub closed spec fn pending_log(self) -> Seq<Entry> {
        entries(self.unlogged@)
    }

    /// The number of entries in the manifest's log since its last snapshot.
    pub closed spec fn logged_changes(self) -> usize {
        self.manifest.appended()
    }

    pub closed spec fn well_formed(self) -> bool {
        &&& self.config.is_valid()
        &&& self.memtables.well_formed()
        &&& self.index.well_formed()
        &&& self.manifest@.well_formed()
        &&& readers_ok(self.readers@)
        &&& self@.seqs_below()
        &&& self.memtables.size_limit() == saturate(self.config.memtable_size_mb * 1_048_576)
        &&& self.memtables.frozen_limit() == self.config.max_frozen_memtables
        &&& self.index.bucket_width() == self.config.time_bucket_secs * 1_000_000
    }

    /// Nothing but the state of the engine has changed.
    pub open spec fn same_setup(self, other: Engine) -> bool {
        self.settings() == other.settings()
    }

    /// Sets the time that reads go by.
    pub fn set_time(&mut self, now_us: i64)
        requires
            old(self).well_formed(),
        ensures
            final(self).well_formed(),
            final(self)@ == (EngineView { now: now_us, ..old(self)@ }),
            final(self).same_setup(*old(self)),
            final(self).pending_log() == old(self).pending_log(),
    {
        self.now_us = now_us;
    }

    pub fn config(&self) -> (r: &Config)
        ensures
            *r == self.settings(),
    {
        &self.config
    }

    /// The time that reads go by.
    pub fn now(&self) -> (r: i64)
        ensures
            r == self@.now,
    {
        self.now_us
    }

    /// The number of the last write.
    pub fn last_seq(&self) -> (r: u64)
        ensures
            r == if self@.next_seq == 0 {
                0
            } else {
                (self@.next_seq - 1) as u64
            },
    {
        if self.next_seq == 0 {
            0
        } else {
            self.next_seq - 1
        }
    }

    /// Takes the entries that are to be logged.
    pub fn take_unlogged(&mut self) -> (r: Vec<InternalRecord>)
        requires
            old(self).well_formed(),
        ensures
            final(self).well_formed(),
            final(self)@ == old(self)@,
            final(self).same_setup(*old(self)),
            entries(r@) == old(self).pending_log(),
            final(self).pending_log() == Seq::<Entry>::empty(),
    {
        let mut out: Vec<InternalRecord> = Vec::new();
        core::mem::swap(&mut out, &mut self.unlogged);
        assert(self.pending_log() =~= Seq::<Entry>::empty());
        out
    }

    /// Whether `n` more writes can be numbered.
    fn has_seqs(&self, n: usize) -> (r: bool)
        ensures
            r == (self@.next_seq + n <= u64::MAX),
    {
        n as u64 <= u64::MAX - self.next_seq
    }

    /// Puts numbered records into the active memtable and queues them for the log.
    fn do_write(&mut self, records: Vec<InternalRecord>)
        requires
            old(self).well_formed(),
            old(self)@.next_seq + records@.len() <= u64::MAX,
            forall|i: int|
                0 <= i < records@.len() ==> (#[trigger] entries(records@)[i]).seq == old(
                    self,
                )@.next_seq + i,
        ensures
            final(self).well_formed(),
            final(self)@ == old(self)@.written(entries(records@)),
            final(self).same_setup(*old(self)),
            final(self).pending_log() == old(self).pending_log() + entries(records@),
    {
        let ghost before = self@;
        let ghost log = self.pending_log();
        let ghost es = entries(records@);
        let n: u64 = records.len() as u64;
        self.memtables.insert_batch(&records);
        self.next_seq = self.next_seq + n;
        let mut records = records;
        self.unlogged.append(&mut records);
        proof {
            assert(self.pending_log() =~= log + es);
            let t0 = before.mem.tables();
            let t1 = self@.mem.tables();
            assert forall|i: int, j: int| 0 <= i < t1.len() && 0 <= j < t1[i].len() implies (
            #[trigger] t1[i][j]).seq < self@.next_seq by {
                if i == 0 {
                    assert(t1[0] == before.mem.active + es);
                    assert(t0[0] == before.mem.active);
                    if j < t0[0].len() {
                        assert(t1[0][j] == t0[0][j]);
                    } else {
                        assert(t1[0][j] == es[j - t0[0].len()]);
                    }
                } else {
                    assert(t1[i] == t0[i]);
                    assert(t0[i][j].seq < before.next_seq);
                }
            }
        }
    }

    /// Writes a batch of records using the engine's default TTL.
    ///
    /// This is a borrowed-input variant: the caller retains ownership of `batch`.
    pub fn write_batch(&mut self, batch: &[Record]) -> (r: Result<()>)
        requires
            old(self).well_formed(),
        ensures
            final(self).well_formed(),
            final(self).same_setup(*old(self)),
            old(self).writes(records_of(batch@), None, *final(self), r),
    {
        self.write_batch_ttl(batch, None)
    }

    /// `r` and the state `after` are what writing the records comes to: they
    /// are written if numbers are left for all, else nothing is.
    pub open spec fn writes(
        self,
        recs: Seq<RecordView>,
        ttl_secs: Option<u64>,
        after: Engine,
        r: Result<()>,
    ) -> bool {
        let es = stamped(
            recs,
            ttl_or(ttl_secs, self.settings().default_ttl_secs),
            self@.next_seq,
        );
        self.appends(es, after, r)
    }

    /// `r` and the state `after` are what writing the entries comes to.
    pub open spec fn appends(self, es: Seq<Entry>, after: Engine, r: Result<()>) -> bool {
        if self@.next_seq + es.len() <= u64::MAX {
            &&& r is Ok
            &&& after@ == self@.written(es)
            &&& after.pending_log() == self.pending_log() + es
        } else {
            &&& r is Err
            &&& r->Err_0@ == no_more_seqs()
            &&& after@ == self@
            &&& after.pending_log() == self.pending_log()
        }
    }

    /// Writes a batch of records (owned input, no TTL override).
    ///
    /// Equivalent to `write_batch` but takes ownership of the `Vec`.
    pub fn write_batch_owned(&mut self, batch: Vec<Record>) -> (r: Result<()>)
        requires
            old(self).well_formed(),
        ensures
            final(self).well_formed(),
            final(self).same_setup(*old(self)),
            old(self).writes(records_of(batch@), None, *final(self), r),
    {
        self.write_batch_owned_ttl(batch, None)
    }

    /// Writes a batch of records (owned input) with a TTL of its own.
    pub fn write_batch_owned_ttl(&mut self, batch: Vec<Record>, ttl_secs: Option<u64>) -> (r: Result<
        (),
    >)
        requires
            old(self).well_formed(),
        ensures
            final(self).well_formed(),
            final(self).same_setup(*old(self)),
            old(self).writes(records_of(batch@), ttl_secs, *final(self), r),
    {
        self.write_batch_ttl(&batch, ttl_secs)
    }

    /// Writes a batch synchronously. Nothing runs in the background here, so
    /// this is the same as [`Engine::write_batch_owned`].
    pub fn write_batch_sync(&mut self, batch: Vec<Record>) -> (r: Result<()>)
        requires
            old(self).well_formed(),
        ensures
            final(self).well_formed(),
            final(self).same_setup(*old(self)),
            old(self).writes(records_of(batch@), None, *final(self), r),
    {
        self.write_batch_ttl(&batch, None)
    }

    /// The entries that a batch is written as.
    fn convert_records(&self, batch: &[Record], ttl_secs: Option<u64>) -> (r: Vec<InternalRecord>)
        requires
            self@.next_seq + batch@.len() <= u64::MAX,
        ensures
            entries(r@) == stamped(
                records_of(batch@),
                ttl_or(ttl_secs, self.settings().default_ttl_secs),
                self@.next_seq,
            ),
    {
        let ttl = match ttl_secs {
            Some(t) => Some(t),
            None => self.config.default_ttl_secs,
        };
        let ghost want = stamped(records_of(batch@), ttl, self@.next_seq);
        let mut out: Vec<InternalRecord> = Vec::new();
        let mut i: usize = 0;
        assert(entries(out@) =~= want.subrange(0, 0));
        while i < batch.len()
            invariant
                i <= batch.len(),
                self@.next_seq + batch@.len() <= u64::MAX,
                want == stamped(records_of(batch@), ttl, self@.next_seq),
                entries(out@) == want.subrange(0, i as int),
            decreases batch.len() - i,
        {
            let rec = &batch[i];
            let ghost before = entries(out@);
            let mut irec = InternalRecord::from_record(rec, self.next_seq + i as u64);
            if let Some(t) = ttl {
                irec.expire_at = expiry(rec.ts, t);
            }
            out.push(irec);
            proof {
                assert(records_of(batch@)[i as int] == rec@);
                assert(entries(out@) =~= before.push(irec@));
                assert(irec@ == want[i as int]);
                assert(entries(out@) =~= want.subrange(0, i + 1));
            }
            i = i + 1;
        }
        assert(want.subrange(0, want.len() as int) =~= want);
        out
    }

    /// Writes a batch of records whose expiry is set by `ttl_secs`, else by the
    /// engine's default TTL, else as the records say.
    pub fn write_batch_ttl(&mut self, batch: &[Record], ttl_secs: Option<u64>) -> (r: Result<()>)
        requires
            old(self).well_formed(),
        ensures
            final(self).well_formed(),
            final(self).same_setup(*old(self)),
            old(self).writes(records_of(batch@), ttl_secs, *final(self), r),
    {
        if !self.has_seqs(batch.len()) {
            return Err(FlowError::Other(string_of("sequence numbers exhausted")));
        }
        let records = self.convert_records(batch, ttl_secs);
        assert(entries(records@).len() == batch@.len());
        self.do_write(records);
        Ok(())
    }

    /// Writes a batch of [`InternalRecord`]s (puts, deletes, range-deletes)
    /// atomically. Sequence numbers are assigned automatically. This is the
    /// primitive used by the document layer for atomic multi-key updates
    /// (document + secondary-index maintenance).
    pub fn write_internal(&mut self, records: Vec<InternalRecord>) -> (r: Result<()>)
        requires
            old(self).well_formed(),
        ensures
            final(self).well_formed(),
            final(self).same_setup(*old(self)),
            old(self).appends(
                sequenced(entries(records@), old(self)@.next_seq),
                *final(self),
                r,
            ),
    {
        if !self.has_seqs(records.len()) {
            return Err(FlowError::Other(string_of("sequence numbers exhausted")));
        }
        let base: u64 = self.next_seq;
        let ghost want = sequenced(entries(records@), base);
        let mut out: Vec<InternalRecord> = Vec::new();
        let mut i: usize = 0;
        assert(entries(out@) =~= want.subrange(0, 0));
        while i < records.len()
            invariant
                i <= records.len(),
                base + records@.len() <= u64::MAX,
                want == sequenced(entries(records@), base),
                entries(out@) == want.subrange(0, i as int),
            decreases records.len() - i,
        {
            let ghost before = entries(out@);
            let mut rec = records[i].copy();
            rec.seq = base + i as u64;
            out.push(rec);
            proof {
                assert(entries(records@)[i as int] == records@[i as int]@);
                assert(entries(out@) =~= before.push(rec@));
                assert(entries(out@) =~= want.subrange(0, i + 1));
            }
            i = i + 1;
        }
        assert(want.subrange(0, want.len() as int) =~= want);
        self.do_write(out);
        Ok(())
    }
}

/// Finds the first live version of `(key, ts)` in a block.
fn find_in_records(records: &Vec<InternalRecord>, key: &[u8], ts: i64, now_us: i64) -> (r: Option<
    usize,
>)
    ensures
        match r {
            Some(i) => i < records@.len() && first_hit(entries(records@), key@, ts, now_us) == Some(
                records@[i as int]@,
            ),
            None => first_hit(entries(records@), key@, ts, now_us) is None,
        },
{
    let ghost all = entries(records@);
    let mut i: usize = 0;
    assert(all.subrange(0, all.len() as int) =~= all);
    while i < records.len()
        invariant
            i <= records.len(),
            all == entries(records@),
            first_hit(all, key@, ts, now_us) == first_hit(
                all.subrange(i as int, all.len() as int),
                key@,
                ts,
                now_us,
            ),
        decreases records.len() - i,
    {
        let rec = &records[i];
        let ghost rest = all.subrange(i as int, all.len() as int);
        assert(rest.first() == rec@);
        assert(rest.drop_first() =~= all.subrange(i + 1, all.len() as int));
        if rec.ts == ts && is_live(rec.expire_at, now_us) && bytes_eq(&rec.key, key) {
            return Some(i);
        }
        i = i + 1;
    }
    None
}

impl Engine {
    /// Searches a block for a live version of `(key, ts)`. A block that cannot
    /// be read has none.
    fn block_search(&self, key: &[u8], ts: i64, sst_id: u32, block_idx: u32) -> (r: Option<
        InternalRecord,
    >)
        requires
            self.well_formed(),
        ensures
            forall|m: MetaView|
                m.sst_id == sst_id && m.block_idx == block_idx ==> match r {
                    Some(rec) => first_hit(
                        #[trigger] readable(self@.readers, m),
                        key@,
                        ts,
                        self@.now,
                    ) == Some(rec@),
                    None => first_hit(readable(self@.readers, m), key@, ts, self@.now) is None,
                },
    {
        if let Some(reader) = self.readers.get(&sst_id) {
            let records = reader.read_left(block_idx);
            return match find_in_records(&records, key, ts, self.now_us) {
                Some(i) => Some(records[i].copy()),
                None => None,
            };
        }
        None
    }

    /// The version of `(key, ts)` in the SSTs.
    fn sst_version(&self, key: &[u8], ts: i64) -> (r: Option<InternalRecord>)
        requires
            self.well_formed(),
        ensures
            match r {
                Some(rec) => self@.stored_version(key@, ts) == Some(rec@),
                None => self@.stored_version(key@, ts) is None,
            },
    {
        let candidates = self.index.query_point(key, self.now_us);
        let ghost all = metas(candidates@);
        let ghost p = self@.index.bares(key@);
        let mut i: usize = 0;
        assert(all.subrange(0, all.len() as int) =~= all);
        while i < candidates.len()
            invariant
                i <= candidates.len(),
                self.well_formed(),
                all == metas(candidates@),
                p == self@.index.bares(key@),
                all == self@.index.point_candidates(key@, self@.now),
                self@.stored_version(key@, ts) == block_hit(
                    all.subrange(i as int, all.len() as int).filter(p),
                    self@.readers,
                    key@,
                    ts,
                    self@.now,
                ),
            decreases candidates.len() - i,
        {
            let meta = &candidates[i];
            let ghost rest = all.subrange(i as int, all.len() as int);
            let ghost tail = all.subrange(i + 1, all.len() as int);
            proof {
                assert(rest =~= seq![meta@] + tail);
                Seq::filter_distributes_over_add(seq![meta@], tail, p);
                reveal_with_fuel(Seq::filter, 2);
                assert(seq![meta@].drop_last() =~= Seq::<MetaView>::empty());
                if p(meta@) {
                    assert(seq![meta@].filter(p) =~= seq![meta@]);
                    assert(rest.filter(p).first() == meta@);
                    assert(rest.filter(p).drop_first() =~= tail.filter(p));
                } else {
                    assert(seq![meta@].filter(p) =~= Seq::<MetaView>::empty());
                    assert(rest.filter(p) =~= tail.filter(p));
                }
            }
            if !self.index.covers_above(meta.sst_id, key) {
                let found = self.block_search(key, ts, meta.sst_id, meta.block_idx);
                let ghost here = readable(self@.readers, meta@);
                if found.is_some() {
                    return found;
                }
            }
            i = i + 1;
        }
        proof {
            reveal_with_fuel(Seq::filter, 1);
        }
        None
    }

    /// What is shown of what counts.
    fn decided(&self, key: &[u8], ts: i64, max_seq: u64, hit: Option<InternalRecord>) -> (r: Option<
        Record,
    >)
        requires
            self.well_formed(),
            match hit {
                Some(rec) => best_version(self@.mem.tables(), key@, ts, self@.now, max_seq) == Some(
                    rec@,
                ),
                None => best_version(self@.mem.tables(), key@, ts, self@.now, max_seq) is None,
            },
        ensures
            match r {
                Some(rec) => self@.point_at(key@, ts, max_seq) == Some(rec@),
                None => self@.point_at(key@, ts, max_seq) is None,
            },
    {
        let after = match &hit {
            Some(rec) => Some(rec.seq),
            None => None,
        };
        if self.memtables.covers(key, after, max_seq) {
            return None;
        }
        let found = match hit {
            Some(rec) => Some(rec),
            None => self.sst_version(key, ts),
        };
        match found {
            Some(rec) => if rec.op == Op::Put {
                Some(rec.into_record_owned())
            } else {
                None
            },
            None => None,
        }
    }

    /// Point lookup for a byte key at a given `ts`, as of the write numbered
    /// `max_seq`. What has been flushed is always seen.
    pub fn get_bytes_seq(&self, key: &[u8], ts: i64, max_seq: u64) -> (r: Option<Record>)
        requires
            self.well_formed(),
        ensures
            match r {
                Some(rec) => self@.point_at(key@, ts, max_seq) == Some(rec@),
                None => self@.point_at(key@, ts, max_seq) is None,
            },
    {
        let hit = self.memtables.get_seq(key, ts, self.now_us, max_seq);
        self.decided(key, ts, max_seq, hit)
    }

    /// Point lookup for a byte key at a given `ts`. Used by the document layer,
    /// where keys are binary composite keys that may not be valid UTF-8.
    pub fn get_bytes(&self, key: &[u8], ts: i64) -> (r: Option<Record>)
        requires
            self.well_formed(),
        ensures
            match r {
                Some(rec) => self@.point(key@, ts) == Some(rec@),
                None => self@.point(key@, ts) is None,
            },
    {
        let hit = self.memtables.get(key, ts, self.now_us);
        self.decided(key, ts, u64::MAX, hit)
    }

    /// Gets the record of a text key at a given `ts`.
    pub fn get_sync(&self, key: &str, ts: i64) -> (r: Option<Record>)
        requires
            self.well_formed(),
        ensures
            match r {
                Some(rec) => self@.point(encode_utf8(key@), ts) == Some(rec@),
                None => self@.point(encode_utf8(key@), ts) is None,
            },
    {
        self.get_bytes(key.as_bytes(), ts)
    }

    /// Gets the record of a text key at a given `ts`.
    pub fn get(&self, key: &str, ts: i64) -> (r: Result<Option<Record>>)
        requires
            self.well_formed(),
        ensures
            r is Ok,
            match r->Ok_0 {
                Some(rec) => self@.point(encode_utf8(key@), ts) == Some(rec@),
                None => self@.point(encode_utf8(key@), ts) is None,
            },
    {
        Ok(self.get_sync(key, ts))
    }

    /// The records that a query matches, in `(key, ts)` ascending order.
    pub fn query(&self, query: Query) -> (r: Result<Vec<Record>>)
        requires
            self.well_formed(),
        ensures
            r is Ok,
            records_of(r->Ok_0@) == self@.query(query.key_filter@, query.time_range),
            self@.scan(query.key_filter@, query.time_range, None).gives(
                self@.scan(query.key_filter@, query.time_range, None).result(),
            ),
    {
        let iter = ScanIterator::build(
            &query,
            None,
            &self.memtables,
            &self.index,
            &self.readers,
            self.now_us,
        );
        Ok(iter.collect_all())
    }

    pub fn query_by_prefix(&self, key: &str) -> (r: Result<Vec<Record>>)
        requires
            self.well_formed(),
        ensures
            r is Ok,
            records_of(r->Ok_0@) == self@.query(KeyFilterView::Prefix(encode_utf8(key@)), None),
    {
        self.query(Query::prefix(key))
    }

    pub fn query_by_key_range(&self, start: &str, end: &str) -> (r: Result<Vec<Record>>)
        requires
            self.well_formed(),
        ensures
            r is Ok,
            records_of(r->Ok_0@) == self@.query(
                KeyFilterView::Range { start: encode_utf8(start@), end: encode_utf8(end@) },
                None,
            ),
    {
        self.query(Query::key_range(start, end))
    }

    pub fn query_time_range(&self, start: i64, end: i64) -> (r: Result<Vec<Record>>)
        requires
            self.well_formed(),
        ensures
            r is Ok,
            records_of(r->Ok_0@) == self@.query(KeyFilterView::All, Some((start, end))),
    {
        self.query(Query::time_range(start, end))
    }

    pub fn query_prefix_time_range(&self, key: &str, start: i64, end: i64) -> (r: Result<
        Vec<Record>,
    >)
        requires
            self.well_formed(),
        ensures
            r is Ok,
            records_of(r->Ok_0@) == self@.query(
                KeyFilterView::Prefix(encode_utf8(key@)),
                Some((start, end)),
            ),
    {
        self.query(Query::prefix_time_range(key, start, end))
    }

    pub fn query_key_time_range(&self, start_key: &str, end_key: &str, start: i64, end: i64) -> (r:
        Result<Vec<Record>>)
        requires
            self.well_formed(),
        ensures
            r is Ok,
            records_of(r->Ok_0@) == self@.query(
                KeyFilterView::Range { start: encode_utf8(start_key@), end: encode_utf8(end_key@) },
                Some((start, end)),
            ),
    {
        self.query(Query::key_time_range(start_key, end_key, start, end))
    }

    /// Lazy iterator scan with default `ReadOptions`.
    pub fn scan(&self, range: ScanRange) -> (r: Result<ScanIterator>)
        requires
            self.well_formed(),
        ensures
            r is Ok,
            r->Ok_0.well_formed(),
            r->Ok_0@ == self@.range_scan(range@),
    {
        self.scan_opt(range, &ReadOptions::default())
    }

    /// Lazy iterator scan with caller-provided `ReadOptions`.
    pub fn scan_opt(&self, range: ScanRange, _opts: &ReadOptions) -> (r: Result<ScanIterator>)
        requires
            self.well_formed(),
        ensures
            r is Ok,
            r->Ok_0.well_formed(),
            r->Ok_0@ == self@.range_scan(range@),
    {
        let (key_filter, time_range) = range.to_query_params();
        let q = Query { key_filter, time_range };
        Ok(
            ScanIterator::build(
                &q,
                Some(range),
                &self.memtables,
                &self.index,
                &self.readers,
                self.now_us,
            ),
        )
    }

    /// The records of a scan.
    pub fn scan_all(&self, range: ScanRange) -> (r: Vec<Record>)
        requires
            self.well_formed(),
        ensures
            records_of(r@) == self@.range_scan(range@).records(),
            self@.range_scan(range@).gives(self@.range_scan(range@).result()),
    {
        let (key_filter, time_range) = range.to_query_params();
        let q = Query { key_filter, time_range };
        ScanIterator::build(
            &q,
            Some(range),
            &self.memtables,
            &self.index,
            &self.readers,
            self.now_us,
        ).collect_all()
    }

    /// Convenience: prefix scan returning a lazy iterator.
    pub fn scan_prefix(&self, prefix: &str) -> (r: Result<ScanIterator>)
        requires
            self.well_formed(),
        ensures
            r is Ok,
            r->Ok_0.well_formed(),
            r->Ok_0@ == self@.range_scan(ScanRangeView::of_prefix(encode_utf8(prefix@))),
    {
        self.scan(ScanRange::prefix(prefix))
    }

    /// Convenience: prefix + time-range scan returning a lazy iterator.
    pub fn scan_prefix_time_range(&self, prefix: &str, ts_start: i64, ts_end: i64) -> (r: Result<
        ScanIterator,
    >)
        requires
            self.well_formed(),
        ensures
            r is Ok,
            r->Ok_0.well_formed(),
            r->Ok_0@ == self@.range_scan(
                ScanRangeView {
                    ts_start: Bound::Included(ts_start),
                    ts_end: Bound::Included(ts_end),
                    ..ScanRangeView::of_prefix(encode_utf8(prefix@))
                },
            ),
    {
        self.scan(ScanRange::prefix_time_range(prefix, ts_start, ts_end))
    }

    /// Gets the latest record for a given key (highest `ts`): the last that a
    /// query for exactly this key gives.
    pub fn get_latest(&self, key: &str) -> (r: Result<Option<Record>>)
        requires
            self.well_formed(),
        ensures
            r is Ok,
            ({
                let k = encode_utf8(key@);
                let all = self@.query(KeyFilterView::Range { start: k, end: k }, None);
                match r->Ok_0 {
                    Some(rec) => all.len() > 0 && rec@ == all.last(),
                    None => all.len() == 0,
                }
            }),
    {
        let q = Query::key_range(key, key);
        match self.query(q) {
            Ok(records) => {
                let mut records = records;
                let ghost all = records@;
                let last = records.pop();
                proof {
                    if all.len() > 0 {
                        assert(records_of(all).last() == all.last()@);
                    }
                }
                Ok(last)
            },
            Err(e) => Err(e),
        }
    }

    /// The entries that delete the given versions.
    pub open spec fn deletions(keys_ts: Seq<(String, i64)>, base: u64) -> Seq<Entry> {
        Seq::new(
            keys_ts.len(),
            |i: int|
                Entry::deletion(encode_utf8(keys_ts[i].0@), keys_ts[i].1, (base + i) as u64),
        )
    }

    /// Deletes `(key, ts)` versions.
    pub fn delete_batch(&mut self, keys_ts: &[(String, i64)]) -> (r: Result<()>)
        requires
            old(self).well_formed(),
        ensures
            final(self).well_formed(),
            final(self).same_setup(*old(self)),
            old(self).appends(
                Engine::deletions(keys_ts@, old(self)@.next_seq),
                *final(self),
                r,
            ),
    {
        if !self.has_seqs(keys_ts.len()) {
            return Err(FlowError::Other(string_of("sequence numbers exhausted")));
        }
        let base: u64 = self.next_seq;
        let ghost want = Engine::deletions(keys_ts@, base);
        let mut out: Vec<InternalRecord> = Vec::new();
        let mut i: usize = 0;
        assert(entries(out@) =~= want.subrange(0, 0));
        while i < keys_ts.len()
            invariant
                i <= keys_ts.len(),
                base + keys_ts@.len() <= u64::MAX,
                want == Engine::deletions(keys_ts@, base),
                entries(out@) == want.subrange(0, i as int),
            decreases keys_ts.len() - i,
        {
            let ghost before = entries(out@);
            let rec = InternalRecord::delete(
                str_bytes(keys_ts[i].0.as_str()),
                keys_ts[i].1,
                base + i as u64,
            );
            let ghost e = rec@;
            out.push(rec);
            proof {
                assert(entries(out@) =~= before.push(e));
                assert(e == want[i as int]);
                assert(entries(out@) =~= want.subrange(0, i + 1));
            }
            i = i + 1;
        }
        assert(want.subrange(0, want.len() as int) =~= want);
        assert(entries(out@).len() == keys_ts@.len());
        self.do_write(out);
        Ok(())
    }

    /// Deletes all records with keys in `[start_key, end_key)`. Where the end
    /// does not come after the start there is nothing to delete.
    pub fn delete_range(&mut self, start_key: &str, end_key: &str) -> (r: Result<()>)
        requires
            old(self).well_formed(),
        ensures
            final(self).well_formed(),
            final(self).same_setup(*old(self)),
            old(self).appends(
                if lex_lt(encode_utf8(start_key@), encode_utf8(end_key@)) {
                    seq![
                        Entry::range_deletion(
                            encode_utf8(start_key@),
                            encode_utf8(end_key@),
                            old(self)@.next_seq,
                        ),
                    ]
                } else {
                    Seq::empty()
                },
                *final(self),
                r,
            ),
    {
        if !bytes_lt(start_key.as_bytes(), end_key.as_bytes()) {
            proof {
                assert(self@.mem.active + Seq::<Entry>::empty() =~= self@.mem.active);
                assert(self@ == self@.written(Seq::<Entry>::empty()));
                assert(self.pending_log() + Seq::<Entry>::empty() =~= self.pending_log());
            }
            return Ok(());
        }
        if !self.has_seqs(1) {
            return Err(FlowError::Other(string_of("sequence numbers exhausted")));
        }
        let rec = InternalRecord::delete_range(
            str_bytes(start_key),
            str_bytes(end_key),
            self.next_seq,
        );
        let ghost e = rec@;
        let mut batch: Vec<InternalRecord> = Vec::new();
        batch.push(rec);
        assert(entries(batch@) =~= seq![e]);
        self.do_write(batch);
        Ok(())
    }

    /// The record that a patch makes of an existing one.
    pub open spec fn patched(
        rec: RecordView,
        new_value: Option<Seq<u8>>,
        new_ttl_secs: Option<u64>,
    ) -> RecordView {
        RecordView {
            value: match new_value {
                Some(v) => v,
                None => rec.value,
            },
            expire_at: match new_ttl_secs {
                Some(t) => expire_after(rec.ts, t),
                None => rec.expire_at,
            },
            ..rec
        }
    }

    /// Read-modify-write of a single record by key+ts. Without a new time to
    /// live the record expires when it did.
    ///
    /// Returns an error if the record does not exist.
    pub fn patch_record(
        &mut self,
        key: &str,
        ts: i64,
        new_value: Option<Vec<u8>>,
        new_ttl_secs: Option<u64>,
    ) -> (r: Result<Record>)
        requires
            old(self).well_formed(),
        ensures
            final(self).well_formed(),
            final(self).same_setup(*old(self)),
            match old(self)@.point(encode_utf8(key@), ts) {
                Some(rec) => {
                    let p = Engine::patched(
                        rec,
                        match new_value {
                            Some(v) => Some(v@),
                            None => None,
                        },
                        new_ttl_secs,
                    );
                    let es = stamped(seq![p], None, old(self)@.next_seq);
                    if old(self)@.next_seq < u64::MAX {
                        &&& r is Ok
                        &&& r->Ok_0@ == p
                        &&& final(self)@ == old(self)@.written(es)
                        &&& final(self).pending_log() == old(self).pending_log() + es
                    } else {
                        &&& r is Err
                        &&& r->Err_0@ == no_more_seqs()
                        &&& final(self)@ == old(self)@
                        &&& final(self).pending_log() == old(self).pending_log()
                    }
                },
                None => {
                    &&& r is Err
                    &&& r->Err_0@ == FlowErrorView::Other(
                        "record not found: key="@ + key@ + ", ts="@ + signed_decimal(ts as int),
                    )
                    &&& final(self)@ == old(self)@
                    &&& final(self).pending_log() == old(self).pending_log()
                },
            },
    {
        let existing = self.get_sync(key, ts);
        let mut rec = match existing {
            Some(rec) => rec,
            None => {
                let head = text3("record not found: key=", key, ", ts=");
                return Err(FlowError::Other(text2(&head, &signed_decimal_text(ts))));
            },
        };
        if let Some(v) = new_value {
            rec.value = v;
        }
        if let Some(ttl) = new_ttl_secs {
            rec.expire_at = expiry(rec.ts, ttl);
        }
        let copy = rec.copy();
        let put = InternalRecord {
            seq: 0,
            op: Op::Put,
            key: copy.key,
            ts: copy.ts,
            expire_at: copy.expire_at,
            value: copy.value,
            range_end: None,
        };
        let mut batch: Vec<InternalRecord> = Vec::new();
        batch.push(put);
        proof {
            assert(entries(batch@) =~= seq![put@]);
            assert(sequenced(entries(batch@), self@.next_seq) =~= stamped(
                seq![rec@],
                None,
                self@.next_seq,
            ));
        }
        match self.write_internal(batch) {
            Ok(_) => Ok(rec),
            Err(e) => Err(e),
        }
    }
}

/// An SST as it was found on disk.
pub struct SstFile {
    pub id: u32,
    pub data: Vec<u8>,
}

/// What was found on disk when an engine starts: the manifest's state, the
/// SSTs, and the logged records that were not flushed.
pub struct Recovered {
    pub manifest: ManifestState,
    pub ssts: Vec<SstFile>,
    pub wal: Vec<InternalRecord>,
}

/// The index over the first `k` active SSTs of a manifest, with the filters as
/// they were stored.
pub open spec fn index_of(m: ManifestView, k: int) -> IndexView
    decreases k,
{
    if k <= 0 {
        IndexView::empty()
    } else {
        let id = m.active[k - 1];
        let before = index_of(m, k - 1);
        if m.sstables.contains_key(id) && m.block_infos.contains_key(id) {
            before.with_sst(id, m.block_infos[id], m.sstables[id])
        } else {
            before
        }
    }
}

fn build_index(state: &ManifestState, time_bucket_secs: u64) -> (r: BlockMetaIndex)
    requires
        0 < time_bucket_secs,
        time_bucket_secs * 1_000_000 <= i64::MAX,
    ensures
        r.well_formed(),
        r@ == index_of(state@, state@.active.len() as int),
        r.bucket_width() == time_bucket_secs * 1_000_000,
{
    let mut index = BlockMetaIndex::new(time_bucket_secs);
    let mut i: usize = 0;
    while i < state.active_sst_ids.len()
        invariant
            i <= state.active_sst_ids.len(),
            index.well_formed(),
            index.bucket_width() == time_bucket_secs * 1_000_000,
            index@ == index_of(state@, i as int),
        decreases state.active_sst_ids.len() - i,
    {
        let id: u32 = state.active_sst_ids[i];
        assert(state@.active[i as int] == id);
        if let Some(info) = state.sstables.get(&id) {
            if let Some(blocks) = state.block_infos.get(&id) {
                index.add_sst(id, blocks);
                if let Some(bloom) = &info.bloom {
                    index.set_bloom(id, bloom.copy());
                }
                index.set_ranges(id, copy_spans(&info.ranges));
            }
        }
        i = i + 1;
    }
    index
}

/// The file at `i` is an SST numbered `id` that can be read.
pub open spec fn usable_file(files: Seq<SstFile>, i: int, id: u32) -> bool {
    0 <= i < files.len() && files[i].id == id && block_starts(files[i].data@, 0) is Ok
}

/// `reader` reads the file at `i`.
pub open spec fn reads_file(reader: SstReader, files: Seq<SstFile>, i: int, id: u32) -> bool {
    &&& usable_file(files, i, id)
    &&& reader.well_formed()
    &&& reader.id() == id
    &&& reader.bytes() == files[i].data@
    &&& reader.starts() == block_starts(files[i].data@, 0)->Ok_0
    &&& reader.found() == spans_of_sst(files[i].data@, id)
}

/// The readers are those of the files that can be read.
pub open spec fn readers_match(readers: Map<u32, SstReader>, files: Seq<SstFile>) -> bool {
    &&& forall|id: u32| #[trigger]
        readers.contains_key(id) ==> exists|i: int| reads_file(readers[id], files, i, id)
    &&& forall|i: int, id: u32| #[trigger]
        usable_file(files, i, id) ==> readers.contains_key(id)
}

/// What is known of an SST once key ranges were found deleted in its blocks: it
/// deletes them, where that was not known before, and never expires as a whole.
pub open spec fn noted(info: SstInfoView, found: Seq<(Seq<u8>, Seq<u8>)>) -> SstInfoView {
    if found.len() == 0 {
        info
    } else {
        SstInfoView {
            ranges: if info.ranges == found {
                found
            } else {
                info.ranges + found
            },
            max_expire: i64::MAX,
            ..info
        }
    }
}

/// The key ranges that were found deleted in the blocks of SST `id`.
pub open spec fn found_in(readers: Map<u32, SstReader>, id: u32) -> Seq<(Seq<u8>, Seq<u8>)> {
    if readers.contains_key(id) {
        readers[id].found()
    } else {
        Seq::empty()
    }
}

/// A manifest with the key ranges that were found deleted in the SSTs' blocks.
pub open spec fn with_found(m: ManifestView, readers: Map<u32, SstReader>) -> ManifestView {
    ManifestView {
        sstables: Map::new(
            |id: u32| m.sstables.contains_key(id),
            |id: u32| noted(m.sstables[id], found_in(readers, id)),
        ),
        ..m
    }
}

/// Adds the key ranges that were found deleted in the SSTs' blocks.
fn note_found(state: ManifestState, readers: &HashMap<u32, SstReader>) -> (r: ManifestState)
    requires
        state@.well_formed(),
    ensures
        r@ == with_found(state@, readers@),
        r@.well_formed(),
{
    let ghost m = state@;
    let mut state = state;
    let mut i: usize = 0;
    assert(forall|id: u32| !m.active.subrange(0, 0).contains(id));
    while i < state.active_sst_ids.len()
        invariant
            i <= state.active_sst_ids.len(),
            m.well_formed(),
            state@.active == m.active,
            state@.block_infos == m.block_infos,
            state@.last_flushed_seq == m.last_flushed_seq,
            forall|id: u32| #[trigger] state@.sstables.contains_key(id) <==> m.sstables.contains_key(id),
            forall|id: u32| #[trigger]
                state@.sstables.contains_key(id) ==> state@.sstables[id] == if m.active.subrange(
                    0,
                    i as int,
                ).contains(id) {
                    noted(m.sstables[id], found_in(readers@, id))
                } else {
                    m.sstables[id]
                },
        decreases state.active_sst_ids.len() - i,
    {
        let ghost before = state@;
        let id: u32 = state.active_sst_ids[i];
        let ghost first = m.active.subrange(0, i as int);
        let ghost next = m.active.subrange(0, i + 1);
        proof {
            assert(m.active[i as int] == id);
            assert(m.active.contains(id));
            assert(before.sstables.contains_key(id));
            assert(state.sstables@.contains_key(id));
            assert(next =~= first.push(id));
            assert(!first.contains(id)) by {
                if first.contains(id) {
                    let j = choose|j: int| 0 <= j < first.len() && first[j] == id;
                    assert(m.active[j] == m.active[i as int]);
                }
            }
            assert forall|x: u32| #[trigger] next.contains(x) <==> first.contains(x) || x == id by {
                assert(next[i as int] == id);
                if first.contains(x) {
                    let j = choose|j: int| 0 <= j < first.len() && first[j] == x;
                    assert(next[j] == x);
                }
            }
        }
        if let Some(reader) = readers.get(&id) {
            let found = reader.found_ranges();
            if found.len() > 0 {
                if let Some(info) = state.sstables.remove(&id) {
                    let mut info = info;
                    let ghost old_info = info@;
                    if !spans_eq(&info.ranges, found) {
                        push_spans(&mut info.ranges, found);
                    }
                    info.max_expire = i64::MAX;
                    state.sstables.insert(id, info);
                    proof {
                        assert(before.sstables[id] == old_info);
                        assert(state@.sstables =~= before.sstables.insert(
                            id,
                            noted(old_info, reader.found()),
                        ));
                        assert(state@.block_infos =~= before.block_infos);
                    }
                }
            }
        }
        proof {
            let same = noted(before.sstables[id], found_in(readers@, id));
            assert(state@.sstables =~= before.sstables.insert(id, same));
            assert forall|x: u32| #[trigger]
                state@.sstables.contains_key(x) <==> m.sstables.contains_key(x) by {
                assert(before.sstables.contains_key(x) <==> m.sstables.contains_key(x));
            }
        }
        i = i + 1;
    }
    proof {
        assert(m.active.subrange(0, m.active.len() as int) =~= m.active);
        assert(state@.sstables =~= with_found(m, readers@).sstables) by {
            assert forall|id: u32| #[trigger] m.sstables.contains_key(id) implies state@.sstables[id]
                == noted(m.sstables[id], found_in(readers@, id)) by {
                assert(state@.sstables.contains_key(id));
                assert(m.active.contains(id));
            }
        }
        lemma_found_is_well_formed(m, readers@);
    }
    state
}

/// Noting deleted key ranges keeps a manifest in order.
proof fn lemma_found_is_well_formed(m: ManifestView, readers: Map<u32, SstReader>)
    requires
        m.well_formed(),
    ensures
        with_found(m, readers).well_formed(),
{
    let w = with_found(m, readers);
    assert forall|id: u32| w.active.contains(id) <==> #[trigger] w.sstables.contains_key(id) by {
        assert(m.active.contains(id) <==> m.sstables.contains_key(id));
    }
    assert forall|id: u32| #[trigger] w.sstables.contains_key(id) implies w.sstables[id].id == id by {
        assert(m.sstables.contains_key(id));
    }
}

fn open_readers(files: &Vec<SstFile>) -> (r: HashMap<u32, SstReader>)
    ensures
        readers_match(r@, files@),
        readers_ok(r@),
{
    let mut readers: HashMap<u32, SstReader> = HashMap::new();
    let mut i: usize = 0;
    while i < files.len()
        invariant
            i <= files.len(),
            forall|id: u32| #[trigger]
                readers@.contains_key(id) ==> exists|j: int|
                    reads_file(readers@[id], files@, j, id),
            forall|j: int, id: u32| #[trigger]
                usable_file(files@, j, id) && j < i ==> readers@.contains_key(id),
        decreases files.len() - i,
    {
        let ghost before = readers@;
        let id: u32 = files[i].id;
        match SstReader::open(copy_bytes(&files[i].data), id) {
            Ok(reader) => {
                let ghost rd = reader;
                assert(reads_file(rd, files@, i as int, id));
                readers.insert(id, reader);
                proof {
                    assert forall|x: u32| #[trigger] readers@.contains_key(x) implies exists|j: int|
                        reads_file(readers@[x], files@, j, x) by {
                        if x == id {
                            assert(readers@[x] == rd);
                            assert(reads_file(readers@[x], files@, i as int, x));
                        } else {
                            assert(before.contains_key(x));
                            let j = choose|j: int| reads_file(before[x], files@, j, x);
                            assert(readers@[x] == before[x]);
                            assert(reads_file(readers@[x], files@, j, x));
                        }
                    }
                }
            },
            Err(_) => {},
        }
        i = i + 1;
    }
    proof {
        assert forall|id: u32| #[trigger] readers@.contains_key(id) implies readers@[id].well_formed()
            && readers@[id].id() == id by {
            let j = choose|j: int| reads_file(readers@[id], files@, j, id);
        }
    }
    readers
}

/// The entries of the first `n` blocks of an SST, if all of them can be read.
pub open spec fn all_blocks(reader: SstReader, n: u32) -> Option<Seq<Entry>>
    decreases n,
{
    if n == 0 {
        Some(Seq::empty())
    } else {
        match (all_blocks(reader, (n - 1) as u32), reader.block((n - 1) as u32)) {
            (Some(s), Ok((_, t))) => Some(s + t),
            _ => None,
        }
    }
}

/// The entries of an SST, if all of its blocks can be read.
pub open spec fn whole_sst(reader: SstReader) -> Option<Seq<Entry>> {
    all_blocks(reader, reader.starts().len() as u32)
}

/// Collects the keys of an SST, each run of equal keys once. `None` where a
/// block cannot be read.
fn sst_keys(reader: &SstReader) -> (r: Option<Vec<Vec<u8>>>)
    requires
        reader.well_formed(),
    ensures
        match r {
            Some(keys) => whole_sst(*reader) is Some && key_views(keys@) == key_runs(
                whole_sst(*reader)->0,
            ),
            None => whole_sst(*reader) is None,
        },
{
    let count: u32 = reader.block_count();
    let mut keys: Vec<Vec<u8>> = Vec::new();
    let ghost mut seen: Seq<Entry> = Seq::empty();
    let mut last: Option<Vec<u8>> = None;
    let mut k: u32 = 0;
    assert(key_views(keys@) =~= key_runs(seen));
    while k < count
        invariant
            k <= count,
            count == reader.starts().len() as u32,
            reader.well_formed(),
            all_blocks(*reader, k) == Some(seen),
            key_views(keys@) == key_runs(seen),
            match last {
                Some(x) => seen.len() > 0 && x@ == seen.last().key,
                None => seen.len() == 0,
            },
        decreases count - k,
    {
        match reader.read_block(k) {
            Ok(records) => {
                let ghost all = entries(records@);
                let ghost start = seen;
                let mut i: usize = 0;
                assert(start + all.subrange(0, 0) =~= start);
                while i < records.len()
                    invariant
                        i <= records.len(),
                        all == entries(records@),
                        seen == start + all.subrange(0, i as int),
                        key_views(keys@) == key_runs(seen),
                        match last {
                            Some(x) => seen.len() > 0 && x@ == seen.last().key,
                            None => seen.len() == 0,
                        },
                    decreases records.len() - i,
                {
                    let key = &records[i].key;
                    let ghost e = all[i as int];
                    let ghost runs = key_views(keys@);
                    assert(e == records@[i as int]@);
                    let repeated = match &last {
                        Some(x) => bytes_eq(x, key),
                        None => false,
                    };
                    if !repeated {
                        keys.push(copy_bytes(key));
                        last = Some(copy_bytes(key));
                        assert(key_views(keys@) =~= runs.push(e.key));
                    }
                    proof {
                        let next = seen.push(e);
                        assert(next.drop_last() =~= seen);
                        assert(next =~= start + all.subrange(0, i + 1));
                        seen = next;
                    }
                    i = i + 1;
                }
                assert(all.subrange(0, all.len() as int) =~= all);
            },
            Err(_) => {
                proof {
                    lemma_unreadable(*reader, k, count);
                }
                return None;
            },
        }
        k = k + 1;
    }
    Some(keys)
}

/// One block that cannot be read makes the whole unreadable.
proof fn lemma_unreadable(reader: SstReader, k: u32, n: u32)
    requires
        k < n,
        reader.block(k) is Err,
    ensures
        all_blocks(reader, n) is None,
    decreases n,
{
    if n > k + 1 {
        lemma_unreadable(reader, k, (n - 1) as u32);
    }
}

/// `id` has a filter that was built with another hash than today's.
pub open spec fn is_stale(m: ManifestView, id: u32) -> bool {
    m.sstables.contains_key(id) && m.sstables[id].bloom is Some && (m.sstables[id].bloom->0).hash_version
        != CURRENT_HASH_VERSION
}

/// `bloom` is a filter over the keys of `s`.
pub open spec fn filter_over(bloom: BloomView, s: Seq<Entry>, bits: usize) -> bool {
    holds_keys(
        BloomView::blank(at_least_one(key_runs(s).len() as int), bits as int),
        key_runs(s),
        bloom,
    )
}

/// What became of the filter of `id`: one that is stale was rebuilt from the
/// SST's keys, or dropped where the SST cannot be read; any other stays.
pub open spec fn filter_settled(
    before: Map<u32, BloomView>,
    after: Map<u32, BloomView>,
    m: ManifestView,
    readers: Map<u32, SstReader>,
    bits: usize,
    id: u32,
) -> bool {
    if is_stale(m, id) {
        if readers.contains_key(id) && whole_sst(readers[id]) is Some {
            after.contains_key(id) && filter_over(after[id], whole_sst(readers[id])->0, bits)
        } else {
            !after.contains_key(id)
        }
    } else {
        after.contains_key(id) == before.contains_key(id) && (after.contains_key(id) ==> after[id]
            == before[id])
    }
}

/// Rebuilds the filter of an SST with today's hash. Reads every block of the
/// SST and collects its keys. Gives the manifest entry that makes the new
/// filter durable; none where the SST cannot be read, and the filter is then
/// dropped: an SST without a filter is always searched.
fn rebuild_bloom_for_sst(
    readers: &HashMap<u32, SstReader>,
    manifest: &mut Manifest,
    index: &mut BlockMetaIndex,
    sst_id: u32,
    bits_per_key: usize,
) -> (r: Option<ManifestEntry>)
    requires
        readers_ok(readers@),
        old(manifest)@.well_formed(),
        old(index).well_formed(),
    ensures
        final(index).well_formed(),
        final(manifest)@.well_formed(),
        final(index)@.blocks == old(index)@.blocks,
        final(index)@.ssts == old(index)@.ssts,
        final(index)@.ranges == old(index)@.ranges,
        final(index).bucket_width() == old(index).bucket_width(),
        match r {
            Some(entry) => {
                &&& readers@.contains_key(sst_id) && whole_sst(readers@[sst_id]) is Some
                &&& entry matches ManifestEntry::UpdateBloom { sst_id: id, bloom } && id == sst_id
                    && filter_over(bloom@, whole_sst(readers@[sst_id])->0, bits_per_key)
                    && final(index)@.blooms == old(index)@.blooms.insert(sst_id, bloom@)
                &&& final(manifest)@ == old(manifest)@.applied(entry@)
            },
            None => {
                &&& !(readers@.contains_key(sst_id) && whole_sst(readers@[sst_id]) is Some)
                &&& final(index)@.blooms == old(index)@.blooms.remove(sst_id)
                &&& final(manifest)@ == old(manifest)@
            },
        },
{
    let keys = match readers.get(&sst_id) {
        Some(reader) => sst_keys(reader),
        None => None,
    };
    match keys {
        Some(keys) => {
            let bloom = BloomFilter::from_keys_with_bits(&keys, bits_per_key);
            let copy = bloom.copy();
            let entry = ManifestEntry::UpdateBloom { sst_id, bloom };
            manifest.append(&entry);
            index.set_bloom(sst_id, copy);
            Some(entry)
        },
        None => {
            index.remove_bloom(sst_id);
            None
        },
    }
}

/// Rebuilds or drops every stale filter.
fn refresh_blooms(
    readers: &HashMap<u32, SstReader>,
    manifest: &mut Manifest,
    index: &mut BlockMetaIndex,
    bits_per_key: usize,
) -> (r: Vec<ManifestEntry>)
    requires
        readers_ok(readers@),
        old(manifest)@.well_formed(),
        old(index).well_formed(),
    ensures
        final(index).well_formed(),
        final(manifest)@.well_formed(),
        final(index)@.blocks == old(index)@.blocks,
        final(index)@.ssts == old(index)@.ssts,
        final(index)@.ranges == old(index)@.ranges,
        final(index).bucket_width() == old(index).bucket_width(),
        forall|id: u32|
            #![trigger final(index)@.blooms.contains_key(id)]
            filter_settled(
                old(index)@.blooms,
                final(index)@.blooms,
                old(manifest)@,
                readers@,
                bits_per_key,
                id,
            ),
        final(manifest)@ == old(manifest)@.applied_all(entry_views(r@)),
{
    let ghost m = manifest@;
    let ghost b0 = index@.blooms;
    let mut stale: Vec<u32> = Vec::new();
    let mut i: usize = 0;
    while i < manifest.state().active_sst_ids.len()
        invariant
            i <= manifest@.active.len(),
            manifest@ == m,
            forall|j: int| 0 <= j < stale@.len() ==> is_stale(m, #[trigger] stale@[j]),
            forall|j: int|
                0 <= j < i && is_stale(m, #[trigger] m.active[j]) ==> stale@.contains(m.active[j]),
        decreases manifest@.active.len() - i,
    {
        let state = manifest.state();
        let id: u32 = state.active_sst_ids[i];
        assert(m.active[i as int] == id);
        let ghost stale0 = stale@;
        if let Some(info) = state.sstables.get(&id) {
            if let Some(bloom) = &info.bloom {
                if !bloom.is_current() {
                    stale.push(id);
                    assert(stale@[stale0.len() as int] == id);
                }
            }
        }
        proof {
            assert forall|j: int| 0 <= j < i + 1 && is_stale(m, #[trigger] m.active[j]) implies stale@.contains(
                m.active[j],
            ) by {
                if j < i {
                    let k = choose|k: int| 0 <= k < stale0.len() && stale0[k] == m.active[j];
                    assert(stale@[k] == m.active[j]);
                }
            }
        }
        i = i + 1;
    }
    let mut updates: Vec<ManifestEntry> = Vec::new();
    i = 0;
    assert(entry_views(updates@) =~= Seq::<EntryView>::empty());
    while i < stale.len()
        invariant
            i <= stale.len(),
            readers_ok(readers@),
            manifest@.well_formed(),
            index.well_formed(),
            index@.blocks == old(index)@.blocks,
            index@.ssts == old(index)@.ssts,
            index@.ranges == old(index)@.ranges,
            index.bucket_width() == old(index).bucket_width(),
            manifest@ == m.applied_all(entry_views(updates@)),
            forall|j: int| 0 <= j < stale@.len() ==> is_stale(m, #[trigger] stale@[j]),
            forall|id: u32|
                #![trigger index@.blooms.contains_key(id)]
                if stale@.subrange(0, i as int).contains(id) {
                    filter_settled(b0, index@.blooms, m, readers@, bits_per_key, id)
                } else {
                    index@.blooms.contains_key(id) == b0.contains_key(id) && (
                    index@.blooms.contains_key(id) ==> index@.blooms[id] == b0[id])
                },
        decreases stale.len() - i,
    {
        let id: u32 = stale[i];
        let ghost before = index@.blooms;
        let ghost ups = entry_views(updates@);
        match rebuild_bloom_for_sst(readers, manifest, index, id, bits_per_key) {
            Some(entry) => {
                let ghost ev = entry@;
                updates.push(entry);
                proof {
                    assert(entry_views(updates@) =~= ups.push(ev));
                    assert(ups.push(ev).drop_last() =~= ups);
                }
            },
            None => {},
        }
        proof {
            let s0 = stale@.subrange(0, i as int);
            let s1 = stale@.subrange(0, i + 1);
            assert(s1 =~= s0.push(id));
            assert forall|x: u32|
                #![trigger index@.blooms.contains_key(x)]
                if s1.contains(x) {
                    filter_settled(b0, index@.blooms, m, readers@, bits_per_key, x)
                } else {
                    index@.blooms.contains_key(x) == b0.contains_key(x) && (
                    index@.blooms.contains_key(x) ==> index@.blooms[x] == b0[x])
                } by {
                assert(s1[i as int] == id);
                if x != id {
                    assert(before.contains_key(x) == index@.blooms.contains_key(x));
                    if s1.contains(x) {
                        let k = choose|k: int| 0 <= k < s1.len() && s1[k] == x;
                        assert(s0[k] == x);
                        assert(s0.contains(x));
                        assert(filter_settled(b0, before, m, readers@, bits_per_key, x));
                    } else {
                        if s0.contains(x) {
                            let k = choose|k: int| 0 <= k < s0.len() && s0[k] == x;
                            assert(s1[k] == x);
                        }
                    }
                }
            }
        }
        i = i + 1;
    }
    proof {
        assert(stale@.subrange(0, stale@.len() as int) =~= stale@);
        assert forall|id: u32|
            #![trigger index@.blooms.contains_key(id)]
            filter_settled(b0, index@.blooms, m, readers@, bits_per_key, id) by {
            if is_stale(m, id) {
                assert(m.active.contains(id));
                let j = choose|j: int| 0 <= j < m.active.len() && m.active[j] == id;
                assert(stale@.contains(m.active[j]));
            } else if stale@.contains(id) {
                let j = choose|j: int| 0 <= j < stale@.len() && stale@[j] == id;
                assert(is_stale(m, stale@[j]));
            }
        }
    }
    updates
}

/// The largest sequence number in `s`; 0 where there is none.
pub open spec fn max_seq_of(s: Seq<Entry>) -> u64
    decreases s.len(),
{
    if s.len() == 0 {
        0
    } else {
        let rest = max_seq_of(s.drop_last());
        if s.last().seq > rest {
            s.last().seq
        } else {
            rest
        }
    }
}

proof fn lemma_max_seq_of(s: Seq<Entry>)
    ensures
        forall|i: int| 0 <= i < s.len() ==> (#[trigger] s[i]).seq <= max_seq_of(s),
    decreases s.len(),
{
    if s.len() > 0 {
        lemma_max_seq_of(s.drop_last());
        assert forall|i: int| 0 <= i < s.len() implies (#[trigger] s[i]).seq <= max_seq_of(s) by {
            if i < s.len() - 1 {
                assert(s.drop_last()[i] == s[i]);
            }
        }
    }
}

/// Computes [`max_seq_of`].
pub fn max_seq(records: &Vec<InternalRecord>) -> (r: u64)
    ensures
        r == max_seq_of(entries(records@)),
        forall|i: int| 0 <= i < records@.len() ==> (#[trigger] entries(records@)[i]).seq <= r,
{
    let ghost all = entries(records@);
    let mut max: u64 = 0;
    let mut i: usize = 0;
    assert(all.subrange(0, 0) =~= Seq::<Entry>::empty());
    while i < records.len()
        invariant
            i <= records.len(),
            all == entries(records@),
            max == max_seq_of(all.subrange(0, i as int)),
        decreases records.len() - i,
    {
        assert(all.subrange(0, i + 1).drop_last() =~= all.subrange(0, i as int));
        assert(all[i as int] == records@[i as int]@);
        if records[i].seq > max {
            max = records[i].seq;
        }
        i = i + 1;
    }
    assert(all.subrange(0, all.len() as int) =~= all);
    proof {
        lemma_max_seq_of(all);
    }
    max
}

/// The sequence number that writes start from: a million for each SST number
/// that was used, and above everything that was flushed or logged.
pub open spec fn first_seq(m: ManifestView, wal: Seq<Entry>) -> int {
    let base = (m.max_id() + 1) * 1_000_000;
    let logged = max_seq_of(wal);
    let used = if logged > m.last_flushed_seq {
        logged
    } else {
        m.last_flushed_seq
    };
    if used >= base {
        used + 1
    } else {
        base
    }
}

impl Engine {
    /// The time buckets are as wide as the settings say.
    pub proof fn lemma_bucket_width(self)
        requires
            self.well_formed(),
        ensures
            self.bucket_width() == self.settings().time_bucket_secs * 1_000_000,
    {
    }

    /// Every entry in memory was numbered before the next one.
    pub proof fn lemma_numbers_rise(self)
        requires
            self.well_formed(),
        ensures
            self@.seqs_below(),
    {
    }

    /// An engine with nothing in it.
    pub fn open(config: Config) -> (r: Result<Engine>)
        ensures
            r is Ok <==> config.is_valid(),
            match r {
                Ok(engine) => {
                    &&& engine.well_formed()
                    &&& engine.settings() == config
                    &&& engine@ == EngineView::fresh()
                    &&& engine.pending_log() == Seq::<Entry>::empty()
                },
                Err(e) => config.complaint() is Some && e@ == FlowErrorView::Config(
                    config.complaint()->0,
                ),
            },
    {
        match config.validate() {
            Ok(_) => {},
            Err(e) => {
                return Err(e);
            },
        }
        let limit: usize = memtable_limit(config.memtable_size_mb);
        let engine = Engine {
            next_seq: 1_000_000,
            now_us: 0,
            memtables: MemTables::new(config.max_frozen_memtables, limit),
            index: BlockMetaIndex::new(config.time_bucket_secs),
            manifest: Manifest::new(ManifestState::default()),
            readers: HashMap::new(),
            unlogged: Vec::new(),
            config,
        };
        assert(engine.pending_log() =~= Seq::<Entry>::empty());
        Ok(engine)
    }

    /// Starts an engine from what was found on disk. Range deletions that stand
    /// in the blocks of an SST count for that SST and for older ones. Gives the
    /// manifest entries that are to be made durable: those of rebuilt filters.
    pub fn recover(config: Config, disk: Recovered) -> (r: Result<(Engine, Vec<ManifestEntry>)>)
        requires
            disk.manifest@.well_formed(),
        ensures
            r is Ok <==> config.is_valid() && first_seq(disk.manifest@, entries(disk.wal@))
                <= u64::MAX,
            match r {
                Ok((engine, updates)) => {
                    let m = with_found(disk.manifest@, engine@.readers);
                    let stored = index_of(m, m.active.len() as int);
                    &&& engine.well_formed()
                    &&& engine.settings() == config
                    &&& engine@.mem == (MemView { active: entries(disk.wal@), ..MemView::empty() })
                    &&& engine@.mem_bytes == grown_size(0, entries(disk.wal@))
                    &&& engine@.index.blocks == stored.blocks
                    &&& engine@.index.ssts == stored.ssts
                    &&& engine@.index.ranges == stored.ranges
                    &&& forall|id: u32|
                        #![trigger engine@.index.blooms.contains_key(id)]
                        filter_settled(
                            stored.blooms,
                            engine@.index.blooms,
                            m,
                            engine@.readers,
                            config.bloom_bits_per_key,
                            id,
                        )
                    &&& readers_match(engine@.readers, disk.ssts@)
                    &&& engine@.manifest == m.applied_all(entry_views(updates@))
                    &&& engine@.next_seq == first_seq(m, entries(disk.wal@))
                    &&& engine@.now == 0
                    &&& engine.pending_log() == Seq::<Entry>::empty()
                },
                Err(e) => if config.is_valid() {
                    e@ == no_more_seqs()
                } else {
                    config.complaint() is Some && e@ == FlowErrorView::Config(
                        config.complaint()->0,
                    )
                },
            },
    {
        match config.validate() {
            Ok(_) => {},
            Err(e) => {
                return Err(e);
            },
        }
        let Recovered { manifest: state, ssts, wal } = disk;
        let ghost m = state@;
        let base: u64 = (state.max_sst_id() as u64 + 1) * 1_000_000;
        let logged: u64 = max_seq(&wal);
        let used: u64 = if logged > state.last_flushed_seq {
            logged
        } else {
            state.last_flushed_seq
        };
        if used == u64::MAX {
            return Err(FlowError::Other(string_of("sequence numbers exhausted")));
        }
        let next_seq: u64 = if used >= base {
            used + 1
        } else {
            base
        };
        let readers = open_readers(&ssts);
        let state = note_found(state, &readers);
        let mut index = build_index(&state, config.time_bucket_secs);
        let mut manifest = Manifest::new(state);
        let updates = refresh_blooms(
            &readers,
            &mut manifest,
            &mut index,
            config.bloom_bits_per_key,
        );
        let limit: usize = memtable_limit(config.memtable_size_mb);
        let mut memtables = MemTables::new(config.max_frozen_memtables, limit);
        memtables.insert_batch(&wal);
        let engine = Engine {
            next_seq,
            now_us: 0,
            memtables,
            index,
            manifest,
            readers,
            unlogged: Vec::new(),
            config,
        };
        proof {
            assert(engine@.mem.active =~= entries(wal@));
            assert(engine.pending_log() =~= Seq::<Entry>::empty());
            let t = engine@.mem.tables();
            assert forall|i: int, j: int| 0 <= i < t.len() && 0 <= j < t[i].len() implies (
            #[trigger] t[i][j]).seq < engine@.next_seq by {
                assert(t[0] == entries(wal@));
            }
        }
        Ok((engine, updates))
    }
}

/// The number of bytes in `mb` megabytes, as far as it fits.
fn memtable_limit(mb: usize) -> (r: usize)
    ensures
        r == saturate(mb * 1_048_576),
{
    match mb.checked_mul(1_048_576) {
        Some(n) => n,
        None => usize::MAX,
    }
}

/// Of a sorted sequence, the first entry of each `(key, ts)`: the one with the
/// highest sequence number.
pub open spec fn first_versions(s: Seq<Entry>) -> Seq<Entry>
    decreases s.len(),
{
    if s.len() == 0 {
        Seq::empty()
    } else if s.len() > 1 && same_version(s[s.len() - 2], s.last()) {
        first_versions(s.drop_last())
    } else {
        first_versions(s.drop_last()).push(s.last())
    }
}

/// Keeps the first record of each run of one `(key, ts)`.
fn dedup_versions(records: &Vec<InternalRecord>) -> (r: Vec<InternalRecord>)
    ensures
        entries(r@) == first_versions(entries(records@)),
{
    let ghost all = entries(records@);
    let mut out: Vec<InternalRecord> = Vec::new();
    let mut i: usize = 0;
    assert(all.subrange(0, 0) =~= Seq::<Entry>::empty());
    assert(entries(out@) =~= Seq::<Entry>::empty());
    while i < records.len()
        invariant
            i <= records.len(),
            all == entries(records@),
            entries(out@) == first_versions(all.subrange(0, i as int)),
        decreases records.len() - i,
    {
        let rec = &records[i];
        let ghost before = entries(out@);
        proof {
            let s = all.subrange(0, i + 1);
            assert(s.drop_last() =~= all.subrange(0, i as int));
            assert(s.last() == rec@);
            if i > 0 {
                assert(s[s.len() - 2] == records@[i - 1]@);
            }
        }
        let repeated = i > 0 && records[i - 1].ts == rec.ts && bytes_eq(
            &records[i - 1].key,
            &rec.key,
        );
        if !repeated {
            out.push(rec.copy());
            assert(entries(out@) =~= before.push(rec@));
        }
        i = i + 1;
    }
    assert(all.subrange(0, all.len() as int) =~= all);
    out
}

/// What a flush writes of a sorted memtable: of each `(key, ts)` the newest
/// version, unless a later range deletion of the table covers it. The range
/// deletions are kept beside.
pub open spec fn flushed(table: Seq<Entry>) -> Seq<Entry> {
    first_versions(table).filter(stays_in(table))
}

/// Holds of puts and deletions that no later range deletion of the table covers.
pub open spec fn stays_in(table: Seq<Entry>) -> spec_fn(Entry) -> bool {
    |e: Entry| !(e.op is DeleteRange) && !covered(table, e.key, Some(e.seq), u64::MAX)
}

/// Keeps the puts and deletions that no later range deletion of the table covers.
fn drop_covered(records: &Vec<InternalRecord>, table: &Vec<InternalRecord>) -> (r: Vec<
    InternalRecord,
>)
    ensures
        entries(r@) == entries(records@).filter(stays_in(entries(table@))),
{
    let ghost all = entries(records@);
    let ghost p = stays_in(entries(table@));
    let mut out: Vec<InternalRecord> = Vec::new();
    let mut i: usize = 0;
    assert(all.subrange(0, 0).filter(p) =~= Seq::<Entry>::empty());
    assert(entries(out@) =~= Seq::<Entry>::empty());
    let spans = range_deletions(table);
    while i < records.len()
        invariant
            i <= records.len(),
            all == entries(records@),
            p == stays_in(entries(table@)),
            forall|e: Entry| #[trigger]
                entries(spans@).contains(e) <==> entries(table@).contains(e) && is_span(e),
            entries(out@) == all.subrange(0, i as int).filter(p),
        decreases records.len() - i,
    {
        let rec = &records[i];
        let ghost before = entries(out@);
        proof {
            assert(all.subrange(0, i + 1) =~= all.subrange(0, i as int).push(rec@));
            all.subrange(0, i as int).lemma_filter_push(rec@, p);
        }
        if rec.op != Op::DeleteRange && !covers_later(&spans, table, rec) {
            out.push(rec.copy());
            assert(entries(out@) =~= before.push(rec@));
        }
        i = i + 1;
    }
    assert(all.subrange(0, all.len() as int) =~= all);
    out
}

/// The range deletions of a table.
fn range_deletions(table: &Vec<InternalRecord>) -> (r: Vec<InternalRecord>)
    ensures
        forall|e: Entry| #[trigger]
            entries(r@).contains(e) <==> entries(table@).contains(e) && is_span(e),
{
    let ghost all = entries(table@);
    let mut out: Vec<InternalRecord> = Vec::new();
    let mut i: usize = 0;
    while i < table.len()
        invariant
            i <= table.len(),
            all == entries(table@),
            forall|e: Entry| #[trigger]
                entries(out@).contains(e) <==> all.subrange(0, i as int).contains(e) && is_span(e),
        decreases table.len() - i,
    {
        let ghost before = entries(out@);
        let rec = &table[i];
        if rec.op == Op::DeleteRange && rec.range_end.is_some() {
            out.push(rec.copy());
            assert(entries(out@) =~= before.push(rec@));
        }
        proof {
            let s = all.subrange(0, i + 1);
            let t = all.subrange(0, i as int);
            assert(s =~= t.push(rec@));
            assert forall|e: Entry| #[trigger] entries(out@).contains(e) <==> s.contains(e)
                && is_span(e) by {
                lemma_push_contains(t, rec@, e);
                lemma_push_contains(before, rec@, e);
                assert(before.contains(e) <==> t.contains(e) && is_span(e));
            }
        }
        i = i + 1;
    }
    assert(all.subrange(0, all.len() as int) =~= all);
    out
}

proof fn lemma_push_contains(s: Seq<Entry>, x: Entry, e: Entry)
    ensures
        s.push(x).contains(e) <==> s.contains(e) || e == x,
{
    if s.contains(e) {
        let k = choose|k: int| 0 <= k < s.len() && s[k] == e;
        assert(s.push(x)[k] == e);
    }
    assert(s.push(x)[s.len() as int] == x);
}

/// Whether one of the table's range deletions, written later, covers the record.
fn covers_later(
    spans: &Vec<InternalRecord>,
    table: &Vec<InternalRecord>,
    rec: &InternalRecord,
) -> (r: bool)
    requires
        forall|e: Entry| #[trigger]
            entries(spans@).contains(e) <==> entries(table@).contains(e) && is_span(e),
    ensures
        r == covered(entries(table@), rec@.key, Some(rec@.seq), u64::MAX),
{
    let ghost all = entries(table@);
    let ghost found = entries(spans@);
    let mut i: usize = 0;
    while i < spans.len()
        invariant
            i <= spans.len(),
            all == entries(table@),
            found == entries(spans@),
            forall|e: Entry| #[trigger] found.contains(e) <==> all.contains(e) && is_span(e),
            forall|j: int|
                0 <= j < i ==> !covers_at(
                    #[trigger] found[j],
                    rec@.key,
                    Some(rec@.seq),
                    u64::MAX,
                ),
        decreases spans.len() - i,
    {
        assert(found[i as int] == spans@[i as int]@);
        if spans[i].seq > rec.seq && record_covers(&spans[i], &rec.key) {
            proof {
                let e = found[i as int];
                assert(found.contains(e));
                let k = choose|k: int| 0 <= k < all.len() && all[k] == e;
                assert(covers_at(all[k], rec@.key, Some(rec@.seq), u64::MAX));
            }
            return true;
        }
        i = i + 1;
    }
    proof {
        assert forall|k: int| 0 <= k < all.len() implies !covers_at(
            #[trigger] all[k],
            rec@.key,
            Some(rec@.seq),
            u64::MAX,
        ) by {
            if is_span(all[k]) {
                assert(all.contains(all[k]));
                assert(found.contains(all[k]));
                let j = choose|j: int| 0 <= j < found.len() && found[j] == all[k];
                assert(!covers_at(found[j], rec@.key, Some(rec@.seq), u64::MAX));
            }
        }
    }
    false
}

/// An SST that is to be made durable, and the last sequence number in it.
pub struct FlushJob {
    pub sst: NewSst,
    pub seq: u64,
}

impl FlushJob {
    /// The job writes the entries of a sorted memtable, each `(key, ts)` once
    /// unless a range deletion took it, and the key ranges that it deletes.
    pub open spec fn writes_table(self, table: Seq<Entry>, id: u32, config: Config) -> bool {
        let s = flushed(table);
        let cap = block_capacity(config.block_size);
        &&& is_sst(s, cap, infos(self.sst.blocks@), self.sst.data@)
        &&& sums_up(self.sst.info@, infos(self.sst.blocks@))
        &&& self.sst.info@.ranges == spans_in(table)
        &&& self.sst.info.id == id
        &&& self.sst.info.records == s.len()
        &&& self.sst.info.bytes == self.sst.data@.len()
        &&& self.sst.info.bloom is Some
        &&& filter_over(self.sst.info.bloom->0@, s, config.bloom_bits_per_key)
        &&& self.seq == max_seq_of(table)
    }
}

pub open spec fn no_more_ids() -> FlowErrorView {
    FlowErrorView::Other("sst ids exhausted"@)
}

impl EngineView {
    /// `after` is this state with the active memtable frozen, if it holds anything.
    pub open spec fn freezes_to(self, after: EngineView) -> bool {
        if self.mem.active.len() == 0 {
            after == self
        } else {
            &&& self.mem.freezes_to(after.mem)
            &&& after == EngineView { mem: after.mem, mem_bytes: 0, ..self }
        }
    }

    /// The number of memtables that a flush has to write.
    pub open spec fn tables_to_flush(self) -> nat {
        self.mem.frozen.len() + if self.mem.active.len() > 0 {
            1nat
        } else {
            0nat
        }
    }

    /// This state while the oldest frozen memtable is flushed.
    pub open spec fn starts_flush(self) -> EngineView {
        EngineView { mem: self.mem.starts_flush(), ..self }
    }

    /// `reader` reads the SST.
    pub open spec fn reads_sst(reader: SstReader, id: u32, data: Seq<u8>) -> bool {
        &&& reader.well_formed()
        &&& reader.id() == id
        &&& reader.bytes() == data
        &&& block_starts(data, 0) is Ok
        &&& reader.starts() == block_starts(data, 0)->Ok_0
        &&& reader.found().len() == 0
    }

    /// `after` has the readers of this state and one for a new SST, if it can be read.
    pub open spec fn gains_reader(self, id: u32, data: Seq<u8>, after: EngineView) -> bool {
        if block_starts(data, 0) is Ok {
            &&& after.readers.contains_key(id)
            &&& EngineView::reads_sst(after.readers[id], id, data)
            &&& after.readers == self.readers.insert(id, after.readers[id])
        } else {
            after.readers == self.readers
        }
    }

    /// `after` is this state once a flush has been made durable.
    pub open spec fn finishes_flush(self, job: FlushJob, after: EngineView) -> bool {
        let id = job.sst.info.id;
        let blocks = infos(job.sst.blocks@);
        &&& after.mem == self.mem.completes_flush()
        &&& after.index == self.index.with_sst(id, blocks, job.sst.info@)
        &&& after.manifest == self.manifest.applied(
            EntryView::Flush { seq: job.seq, sst: job.sst.info@, blocks },
        )
        &&& self.gains_reader(id, job.sst.data@, after)
        &&& after.mem_bytes == self.mem_bytes
        &&& after.next_seq == self.next_seq
        &&& after.now == self.now
    }

    /// This state without an SST.
    pub open spec fn without_sst(self, id: u32) -> EngineView {
        EngineView {
            manifest: self.manifest.applied(EntryView::GcDeleteSst { sst_id: id }),
            index: self.index.without(id),
            readers: self.readers.remove(id),
            ..self
        }
    }

    /// This state without several SSTs.
    pub open spec fn without_ssts(self, ids: Seq<u32>) -> EngineView
        decreases ids.len(),
    {
        if ids.len() == 0 {
            self
        } else {
            self.without_ssts(ids.drop_last()).without_sst(ids.last())
        }
    }
}

impl Engine {
    /// Whether the active memtable has grown to the size at which it is flushed.
    pub fn should_flush(&self) -> (r: bool)
        requires
            self.well_formed(),
        ensures
            r == (self@.mem_bytes >= saturate(self.settings().memtable_size_mb * 1_048_576)),
    {
        self.memtables.should_flush()
    }

    /// Whether as many memtables wait for their flush as writers are allowed to
    /// leave behind.
    pub fn write_backpressure(&self) -> (r: bool)
        requires
            self.well_formed(),
        ensures
            r == (self@.mem.frozen.len() >= self.settings().max_frozen_memtables),
    {
        self.memtables.frozen_backpressure()
    }

    /// Freezes the active memtable and encodes the oldest frozen one as an SST,
    /// which is to be made durable. It stays readable from memory meanwhile.
    pub fn begin_flush(&mut self) -> (r: Result<Option<FlushJob>>)
        requires
            old(self).well_formed(),
        ensures
            final(self).well_formed(),
            final(self).same_setup(*old(self)),
            final(self).pending_log() == old(self).pending_log(),
            exists|f: EngineView| #[trigger]
                old(self)@.freezes_to(f) && match r {
                    Ok(None) => f.mem.frozen.len() == 0 && final(self)@ == f,
                    Ok(Some(job)) => {
                        &&& f.mem.frozen.len() > 0
                        &&& f.manifest.max_id() < u32::MAX
                        &&& final(self)@ == f.starts_flush()
                        &&& job.writes_table(
                            f.mem.frozen.first(),
                            (f.manifest.max_id() + 1) as u32,
                            old(self).settings(),
                        )
                    },
                    Err(e) => {
                        &&& f.mem.frozen.len() > 0
                        &&& final(self)@ == f
                        &&& if f.manifest.max_id() == u32::MAX {
                            e@ == no_more_ids()
                        } else {
                            !blocks_fit(
                                chunks(
                                    flushed(f.mem.frozen.first()),
                                    block_capacity(old(self).settings().block_size),
                                ),
                            ) && e@ == too_large()
                        }
                    },
                },
    {
        let ghost start = self@;
        let froze = self.memtables.freeze();
        let ghost f = self@;
        proof {
            assert(start.freezes_to(f));
            lemma_freeze_seqs_below(start, f);
        }
        if self.memtables.frozen_count() == 0 {
            return Ok(None);
        }
        let max: u32 = self.manifest.state().max_sst_id();
        if max == u32::MAX {
            return Err(FlowError::Other(string_of("sst ids exhausted")));
        }
        let records = match self.memtables.pop_frozen_to_flushing() {
            Some(records) => records,
            None => {
                return Ok(None);
            },
        };
        let ghost table = entries(records@);
        let seq: u64 = max_seq(&records);
        let newest = dedup_versions(&records);
        let deduped = drop_covered(&newest, &records);
        let ranges = collect_spans(&records);
        match SstWriter::write_to_buf(
            &deduped,
            self.config.block_size,
            self.config.bloom_bits_per_key,
        ) {
            Ok((data, total, blocks, bloom)) => {
                let info = sum_up(
                    max + 1,
                    deduped.len() as u64,
                    total,
                    &blocks,
                    Some(bloom),
                    ranges,
                );
                let job = FlushJob { sst: NewSst { info, blocks, data }, seq };
                proof {
                    lemma_start_flush_seqs_below(f, self@);
                    assert(job.writes_table(
                        f.mem.frozen.first(),
                        (f.manifest.max_id() + 1) as u32,
                        old(self).settings(),
                    ));
                }
                Ok(Some(job))
            },
            Err(e) => {
                self.memtables.abort_flush();
                proof {
                    assert(self@.mem.frozen =~= f.mem.frozen);
                    assert(self@.mem.flushing =~= f.mem.flushing);
                    assert(self@ == f);
                }
                Err(e)
            },
        }
    }

    /// Takes a flush that was made durable into account: the SST is in the
    /// manifest and in the index, and its memtable goes.
    pub fn finish_flush(&mut self, job: FlushJob)
        requires
            old(self).well_formed(),
        ensures
            final(self).well_formed(),
            final(self).same_setup(*old(self)),
            final(self).pending_log() == old(self).pending_log(),
            old(self)@.finishes_flush(job, final(self)@),
            final(self).logged_changes() == saturate(old(self).logged_changes() + 1),
    {
        let ghost start = self@;
        let FlushJob { sst: NewSst { info, blocks, data }, seq } = job;
        let id: u32 = info.id;
        self.index.add_sst(id, &blocks);
        if let Some(bloom) = &info.bloom {
            self.index.set_bloom(id, bloom.copy());
        }
        self.index.set_ranges(id, copy_spans(&info.ranges));
        match SstReader::build(data, id) {
            Ok(reader) => {
                self.readers.insert(id, reader);
            },
            Err(_) => {},
        }
        let entry = ManifestEntry::Flush { seq, sst: info, blocks };
        self.manifest.append(&entry);
        self.memtables.complete_flush();
        proof {
            lemma_completed_seqs_below(start, self@);
        }
    }

    /// Flushes the oldest memtable. Gives false where there is nothing to flush.
    fn flush_one(&mut self) -> (r: Result<bool>)
        requires
            old(self).well_formed(),
        ensures
            final(self).well_formed(),
            final(self).same_setup(*old(self)),
            final(self).pending_log() == old(self).pending_log(),
            match r {
                Ok(true) => {
                    &&& flush_step(old(self)@, final(self)@, old(self).settings())
                    &&& final(self)@.tables_to_flush() < old(self)@.tables_to_flush()
                },
                Ok(false) => final(self)@ == old(self)@ && old(self)@.tables_to_flush() == 0,
                Err(e) => flush_fails(old(self)@, final(self)@, old(self).settings(), e@),
            },
    {
        let ghost before = self@;
        proof {
            reveal(flush_fails);
        }
        match self.begin_flush() {
            Ok(None) => Ok(false),
            Ok(Some(job)) => {
                let ghost mid = self@;
                let ghost f = choose|f: EngineView| #[trigger]
                    before.freezes_to(f) && f.mem.frozen.len() > 0 && f.manifest.max_id()
                        < u32::MAX && mid == f.starts_flush() && job.writes_table(
                        f.mem.frozen.first(),
                        (f.manifest.max_id() + 1) as u32,
                        old(self).settings(),
                    );
                let ghost j = job;
                self.finish_flush(job);
                proof {
                    assert(flush_by(before, f, j, self@, old(self).settings()));
                }
                Ok(true)
            },
            Err(e) => Err(e),
        }
    }

    /// Flushes everything that is in memory.
    pub fn flush(&mut self) -> (r: Result<()>)
        requires
            old(self).well_formed(),
        ensures
            final(self).well_formed(),
            final(self).same_setup(*old(self)),
            final(self).pending_log() == old(self).pending_log(),
            match r {
                Ok(_) => final(self)@.tables_to_flush() == 0 && flushes_to(
                    old(self)@,
                    final(self)@,
                    old(self).settings(),
                ),
                Err(e) => exists|mid: EngineView| #[trigger]
                    flushes_to(old(self)@, mid, old(self).settings()) && flush_fails(
                        mid,
                        final(self)@,
                        old(self).settings(),
                        e@,
                    ),
            },
    {
        let ghost start = self@;
        let ghost mut steps: Seq<EngineView> = seq![start];
        loop
            invariant
                self.well_formed(),
                self.same_setup(*old(self)),
                self.pending_log() == old(self).pending_log(),
                start == old(self)@,
                flush_trace(steps, start, self@, old(self).settings()),
            decreases self@.tables_to_flush(),
        {
            let ghost before = self@;
            match self.flush_one() {
                Ok(more) => {
                    if !more {
                        proof {
                            reveal(flushes_to);
                        }
                        return Ok(());
                    }
                    proof {
                        lemma_trace_push(steps, start, before, self@, old(self).settings());
                        steps = steps.push(self@);
                    }
                },
                Err(e) => {
                    proof {
                        reveal(flushes_to);
                        assert(flushes_to(start, before, old(self).settings()));
                    }
                    return Err(e);
                },
            }
        }
    }

    /// The active SSTs in which everything has expired.
    pub fn expired_ssts(&self) -> (r: Vec<u32>)
        requires
            self.well_formed(),
        ensures
            r@ == expired_ids(self@.manifest, self@.now, self@.manifest.active.len() as int),
    {
        let state = self.manifest.state();
        let mut out: Vec<u32> = Vec::new();
        let mut i: usize = 0;
        while i < state.active_sst_ids.len()
            invariant
                i <= state.active_sst_ids.len(),
                state@ == self@.manifest,
                self.well_formed(),
                out@ == expired_ids(self@.manifest, self@.now, i as int),
            decreases state.active_sst_ids.len() - i,
        {
            let id: u32 = state.active_sst_ids[i];
            assert(self@.manifest.active[i as int] == id);
            if let Some(info) = state.sstables.get(&id) {
                if !is_live(info.max_expire, self.now_us) {
                    out.push(id);
                }
            }
            i = i + 1;
        }
        out
    }

    /// Takes an SST out of the engine. The manifest entry is the one that makes
    /// this durable.
    pub fn drop_sst(&mut self, sst_id: u32)
        requires
            old(self).well_formed(),
        ensures
            final(self).well_formed(),
            final(self).same_setup(*old(self)),
            final(self).pending_log() == old(self).pending_log(),
            final(self)@ == old(self)@.without_sst(sst_id),
            final(self).logged_changes() == saturate(old(self).logged_changes() + 1),
    {
        let ghost before = self@;
        self.manifest.append(&ManifestEntry::GcDeleteSst { sst_id });
        self.index.remove_sst(sst_id);
        self.readers.remove(&sst_id);
        proof {
            assert(self@.mem == before.mem);
        }
    }

    /// Removes the SSTs in which everything has expired. Gives their number.
    pub fn trigger_gc(&mut self) -> (r: Result<u64>)
        requires
            old(self).well_formed(),
        ensures
            final(self).well_formed(),
            final(self).same_setup(*old(self)),
            final(self).pending_log() == old(self).pending_log(),
            r is Ok,
            ({
                let ids = expired_ids(
                    old(self)@.manifest,
                    old(self)@.now,
                    old(self)@.manifest.active.len() as int,
                );
                final(self)@ == old(self)@.without_ssts(ids) && r->Ok_0 == ids.len()
            }),
    {
        let ids = self.expired_ssts();
        let ghost start = self@;
        let mut i: usize = 0;
        assert(ids@.subrange(0, 0) =~= Seq::<u32>::empty());
        while i < ids.len()
            invariant
                i <= ids.len(),
                self.well_formed(),
                self.same_setup(*old(self)),
                self.pending_log() == old(self).pending_log(),
                start == old(self)@,
                self@ == start.without_ssts(ids@.subrange(0, i as int)),
            decreases ids.len() - i,
        {
            assert(ids@.subrange(0, i + 1).drop_last() =~= ids@.subrange(0, i as int));
            self.drop_sst(ids[i]);
            i = i + 1;
        }
        assert(ids@.subrange(0, ids@.len() as int) =~= ids@);
        Ok(ids.len() as u64)
    }
}

impl EngineView {
    /// The index without several SSTs.
    pub open spec fn index_without(self, ids: Seq<u32>) -> IndexView
        decreases ids.len(),
    {
        if ids.len() == 0 {
            self.index
        } else {
            self.index_without(ids.drop_last()).without(ids.last())
        }
    }

    /// The readers without those of several SSTs.
    pub open spec fn readers_without(self, ids: Seq<u32>) -> Map<u32, SstReader>
        decreases ids.len(),
    {
        if ids.len() == 0 {
            self.readers
        } else {
            self.readers_without(ids.drop_last()).remove(ids.last())
        }
    }

    /// `after` is this state once a compaction has been made durable: the
    /// merged SSTs are gone, and the new one, if there is one, has come.
    pub open spec fn compacts_to(self, plan: CompactionPlan, after: EngineView) -> bool {
        let ids = plan.removed@;
        match plan.added {
            Some(new) => {
                let id = new.info.id;
                let blocks = infos(new.blocks@);
                &&& after.manifest == self.manifest.applied(
                    EntryView::Compaction {
                        removed: ids,
                        added: seq![new.info@],
                        blocks: seq![(id, blocks)],
                    },
                )
                &&& after.index == self.index_without(ids).with_sst(id, blocks, new.info@)
                &&& (EngineView { readers: self.readers_without(ids), ..self }).gains_reader(
                    id,
                    new.data@,
                    after,
                )
                &&& after.mem == self.mem
                &&& after.mem_bytes == self.mem_bytes
                &&& after.next_seq == self.next_seq
                &&& after.now == self.now
            },
            None => after == self.without_ssts(ids),
        }
    }
}

impl Engine {
    /// Merges the SSTs of the smallest size tier into one that is to be made
    /// durable. Nothing changes yet.
    pub fn plan_compaction(&self) -> (r: Result<Option<CompactionPlan>>)
        requires
            self.well_formed(),
        ensures
            compaction_planned(self@, self.settings(), r),
    {
        let state = self.manifest.state();
        let max: u32 = state.max_sst_id();
        let runner = CompactionRunner::new(
            self.config.block_size,
            self.config.bloom_bits_per_key,
            self.config.compaction_threshold,
        );
        if max == u32::MAX {
            return Err(FlowError::Other(string_of("sst ids exhausted")));
        }
        runner.run(state, &self.readers, max + 1, self.now_us)
    }

    /// Takes a compaction that was made durable into account.
    pub fn apply_compaction(&mut self, plan: CompactionPlan)
        requires
            old(self).well_formed(),
        ensures
            final(self).well_formed(),
            final(self).same_setup(*old(self)),
            final(self).pending_log() == old(self).pending_log(),
            old(self)@.compacts_to(plan, final(self)@),
            final(self).logged_changes() == saturate(
                old(self).logged_changes() + if plan.added is Some {
                    1
                } else {
                    plan.removed@.len()
                },
            ),
    {
        let ghost start = self@;
        let CompactionPlan { removed, added } = plan;
        match added {
            None => {
                let mut i: usize = 0;
                assert(removed@.subrange(0, 0) =~= Seq::<u32>::empty());
                while i < removed.len()
                    invariant
                        i <= removed.len(),
                        self.well_formed(),
                        self.same_setup(*old(self)),
                        self.pending_log() == old(self).pending_log(),
                        self@ == start.without_ssts(removed@.subrange(0, i as int)),
                        self.logged_changes() == saturate(old(self).logged_changes() + i),
                    decreases removed.len() - i,
                {
                    assert(removed@.subrange(0, i + 1).drop_last() =~= removed@.subrange(
                        0,
                        i as int,
                    ));
                    self.drop_sst(removed[i]);
                    i = i + 1;
                }
                assert(removed@.subrange(0, removed@.len() as int) =~= removed@);
            },
            Some(new) => {
                let mut i: usize = 0;
                assert(removed@.subrange(0, 0) =~= Seq::<u32>::empty());
                while i < removed.len()
                    invariant
                        i <= removed.len(),
                        self.well_formed(),
                        self.same_setup(*old(self)),
                        self.pending_log() == old(self).pending_log(),
                        self@ == (EngineView {
                            index: start.index_without(removed@.subrange(0, i as int)),
                            readers: start.readers_without(removed@.subrange(0, i as int)),
                            ..start
                        }),
                        self.logged_changes() == old(self).logged_changes(),
                    decreases removed.len() - i,
                {
                    assert(removed@.subrange(0, i + 1).drop_last() =~= removed@.subrange(
                        0,
                        i as int,
                    ));
                    self.index.remove_sst(removed[i]);
                    self.readers.remove(&removed[i]);
                    i = i + 1;
                }
                assert(removed@.subrange(0, removed@.len() as int) =~= removed@);
                let NewSst { info, blocks, data } = new;
                let id: u32 = info.id;
                self.index.add_sst(id, &blocks);
                if let Some(bloom) = &info.bloom {
                    self.index.set_bloom(id, bloom.copy());
                }
                self.index.set_ranges(id, copy_spans(&info.ranges));
                match SstReader::build(data, id) {
                    Ok(reader) => {
                        self.readers.insert(id, reader);
                    },
                    Err(_) => {},
                }
                let ghost iv = info@;
                let ghost bv = infos(blocks@);
                let mut infos_added: Vec<SstInfo> = Vec::new();
                infos_added.push(info);
                let mut lists: Vec<(u32, Vec<BlockInfo>)> = Vec::new();
                lists.push((id, blocks));
                let entry = ManifestEntry::Compaction {
                    removed,
                    added: infos_added,
                    blocks: lists,
                };
                proof {
                    assert(sst_infos(infos_added@) =~= seq![iv]);
                    assert(block_lists(lists@) =~= seq![(id, bv)]);
                }
                self.manifest.append(&entry);
            },
        }
    }

    /// Merges the SSTs of the smallest size tier. Gives whether there was
    /// anything to merge.
    pub fn trigger_compaction(&mut self) -> (r: Result<bool>)
        requires
            old(self).well_formed(),
        ensures
            final(self).well_formed(),
            final(self).same_setup(*old(self)),
            final(self).pending_log() == old(self).pending_log(),
            exists|plan: Result<Option<CompactionPlan>>| #[trigger]
                compaction_planned(old(self)@, old(self).settings(), plan) && match plan {
                    Ok(Some(p)) => r is Ok && r->Ok_0 && old(self)@.compacts_to(p, final(self)@),
                    Ok(None) => r is Ok && !r->Ok_0 && final(self)@ == old(self)@,
                    Err(e) => r is Err && r->Err_0@ == e@ && final(self)@ == old(self)@,
                },
    {
        let plan = self.plan_compaction();
        let ghost p = plan;
        assert(compaction_planned(old(self)@, old(self).settings(), p));
        match plan {
            Ok(Some(plan)) => {
                self.apply_compaction(plan);
                Ok(true)
            },
            Ok(None) => Ok(false),
            Err(e) => Err(e),
        }
    }

    /// The entries of a snapshot that is to replace the manifest's log, once
    /// the log has grown long enough.
    pub fn manifest_snapshot(&mut self) -> (r: Option<Vec<ManifestEntry>>)
        requires
            old(self).well_formed(),
        ensures
            final(self).well_formed(),
            final(self).same_setup(*old(self)),
            final(self).pending_log() == old(self).pending_log(),
            final(self)@ == old(self)@,
            r is Some <==> old(self).logged_changes() > SNAPSHOT_THRESHOLD,
            r is Some ==> entry_views(r->0@) == old(self)@.manifest.snapshot(),
            final(self).logged_changes() == if r is Some {
                r->0@.len() as usize
            } else {
                old(self).logged_changes()
            },
    {
        self.manifest.maybe_snapshot()
    }
}

/// `r` is what planning a compaction in state `v` comes to.
pub open spec fn compaction_planned(
    v: EngineView,
    config: Config,
    r: Result<Option<CompactionPlan>>,
) -> bool {
    let runner = CompactionRunner {
        block_size: config.block_size,
        bloom_bits_per_key: config.bloom_bits_per_key,
        compaction_threshold: config.compaction_threshold,
    };
    if v.manifest.max_id() == u32::MAX {
        r is Err && r->Err_0@ == no_more_ids()
    } else {
        exists|sized: Seq<(u32, u64)>, n: int| #[trigger]
            picks(sized, n) && is_by_size(sized, v.manifest) && runner.comes_to(
                widened(v.manifest.active, ids_of(sized.subrange(0, n))),
                v.manifest,
                v.readers,
                (v.manifest.max_id() + 1) as u32,
                v.now,
                r,
            )
    }
}

/// The first `k` active SSTs in which everything has expired.
pub open spec fn expired_ids(m: ManifestView, now: i64, k: int) -> Seq<u32>
    decreases k,
{
    if k <= 0 {
        Seq::empty()
    } else {
        let id = m.active[k - 1];
        let before = expired_ids(m, now, k - 1);
        if m.sstables.contains_key(id) && !live_at(m.sstables[id].max_expire, now) {
            before.push(id)
        } else {
            before
        }
    }
}

/// `after` is `before` with its active memtable frozen into `f`, and the oldest
/// frozen memtable of `f` flushed by `job`.
pub open spec fn flush_by(
    before: EngineView,
    f: EngineView,
    job: FlushJob,
    after: EngineView,
    config: Config,
) -> bool {
    &&& before.freezes_to(f)
    &&& f.mem.frozen.len() > 0
    &&& f.manifest.max_id() < u32::MAX
    &&& job.writes_table(f.mem.frozen.first(), (f.manifest.max_id() + 1) as u32, config)
    &&& f.starts_flush().finishes_flush(job, after)
}

/// One memtable was flushed.
pub open spec fn flush_step(before: EngineView, after: EngineView, config: Config) -> bool {
    exists|f: EngineView, job: FlushJob| #[trigger] flush_by(before, f, job, after, config)
}

/// The oldest memtable cannot be flushed: `after` is `before` with its active
/// memtable frozen, no SST number is left or a block would be too large, and
/// the error says which.
#[verifier::opaque]
pub open spec fn flush_fails(
    before: EngineView,
    after: EngineView,
    config: Config,
    e: FlowErrorView,
) -> bool {
    &&& before.freezes_to(after)
    &&& after.mem.frozen.len() > 0
    &&& if after.manifest.max_id() == u32::MAX {
        e == no_more_ids()
    } else {
        !blocks_fit(
            chunks(
                flushed(after.mem.frozen.first()),
                block_capacity(config.block_size),
            ),
        ) && e == too_large()
    }
}

/// `steps` leads from `before` to `after`, one memtable at a time.
pub open spec fn flush_trace(
    steps: Seq<EngineView>,
    before: EngineView,
    after: EngineView,
    config: Config,
) -> bool {
    &&& steps.len() > 0
    &&& steps.first() == before
    &&& steps.last() == after
    &&& forall|i: int| 0 <= i < steps.len() - 1 ==> #[trigger] flush_step_at(steps, i, config)
}

pub open spec fn flush_step_at(steps: Seq<EngineView>, i: int, config: Config) -> bool {
    flush_step(steps[i], steps[i + 1], config)
}

/// Flushing memtables one after the other leads from `before` to `after`.
#[verifier::opaque]
pub open spec fn flushes_to(before: EngineView, after: EngineView, config: Config) -> bool {
    exists|steps: Seq<EngineView>| #[trigger] flush_trace(steps, before, after, config)
}

proof fn lemma_trace_push(
    steps: Seq<EngineView>,
    start: EngineView,
    before: EngineView,
    after: EngineView,
    config: Config,
)
    requires
        flush_trace(steps, start, before, config),
        flush_step(before, after, config),
    ensures
        flush_trace(steps.push(after), start, after, config),
{
    let t = steps.push(after);
    assert forall|i: int| 0 <= i < t.len() - 1 implies #[trigger] flush_step_at(t, i, config) by {
        if i < steps.len() - 1 {
            assert(flush_step_at(steps, i, config));
        }
    }
}

pub proof fn lemma_freeze_seqs_below(v: EngineView, f: EngineView)
    requires
        v.seqs_below(),
        v.freezes_to(f),
    ensures
        f.seqs_below(),
{
    if v.mem.active.len() > 0 {
        let t0 = v.mem.tables();
        let t1 = f.mem.tables();
        let n = v.mem.frozen.len() as int;
        assert forall|i: int, j: int| 0 <= i < t1.len() && 0 <= j < t1[i].len() implies (
        #[trigger] t1[i][j]).seq < f.next_seq by {
            if i == 0 {
                assert(t1[0].len() == 0);
            } else if i <= n {
                assert(f.mem.frozen.drop_last()[i - 1] == f.mem.frozen[i - 1]);
                assert(t1[i] == t0[i]);
                assert(t0[i][j].seq < v.next_seq);
            } else if i == n + 1 {
                assert(t1[i] == f.mem.frozen.last());
                let e = t1[i][j];
                assert(t1[i].contains(e));
                lemma_sort_contains(f.mem.frozen.last(), v.mem.active, e);
                let k = choose|k: int| 0 <= k < v.mem.active.len() && v.mem.active[k] == e;
                assert(t0[0][k] == e);
            } else {
                assert(t1[i] == t0[i - 1]);
                assert(t0[i - 1][j].seq < v.next_seq);
            }
        }
    }
}

proof fn lemma_start_flush_seqs_below(f: EngineView, g: EngineView)
    requires
        f.seqs_below(),
        f.mem.frozen.len() > 0,
        g.mem == f.mem.starts_flush(),
        g.next_seq == f.next_seq,
    ensures
        g.seqs_below(),
{
    let t0 = f.mem.tables();
    let t1 = g.mem.tables();
    assert forall|i: int, j: int| 0 <= i < t1.len() && 0 <= j < t1[i].len() implies (
    #[trigger] t1[i][j]).seq < g.next_seq by {
        let k = if i == 0 {
            0
        } else if i == t1.len() - 1 {
            1
        } else {
            i + 1
        };
        assert(t1[i] == t0[k]);
        assert(t0[k][j].seq < f.next_seq);
    }
}

pub proof fn lemma_completed_seqs_below(f: EngineView, g: EngineView)
    requires
        f.seqs_below(),
        g.mem == f.mem.completes_flush(),
        g.next_seq == f.next_seq,
    ensures
        g.seqs_below(),
{
    let t0 = f.mem.tables();
    let t1 = g.mem.tables();
    let n = f.mem.frozen.len() as int;
    assert forall|i: int, j: int| 0 <= i < t1.len() && 0 <= j < t1[i].len() implies (
    #[trigger] t1[i][j]).seq < g.next_seq by {
        let k = if i <= n || f.mem.flushing.len() == 0 {
            i
        } else {
            i + 1
        };
        assert(t1[i] == t0[k]);
        assert(t0[k][j].seq < f.next_seq);
    }
}

impl Engine {
    /// The width of the time buckets that the index files blocks under, in
    /// microseconds.
    pub closed spec fn bucket_width(self) -> int {
        self.index.bucket_width()
    }

    /// The numbers that describe the engine, given what was counted since it
    /// was opened and how long ago that was.
    pub open spec fn stats_of(self, counters: StatsCounters, uptime_secs: u64) -> EngineStats {
        EngineStats {
            total_records_written: counters.records_written,
            total_records_read: counters.records_read,
            flushes: counters.flushes,
            compactions: counters.compactions,
            ssts_collected: counters.ssts_collected,
            sst_count: self@.manifest.active.len() as u64,
            sst_bytes: bytes_in_ssts(self@.manifest, self@.manifest.active.len() as int),
            index_entries: self@.index.blocks.len() as u64,
            index_buckets: self@.index.blocks.map_values(
                |m: MetaView| bucket_of(m, self.bucket_width()),
            ).to_set().len() as u64,
            uptime_secs,
        }
    }

    /// Computes [`Engine::stats_of`].
    pub fn stats(&self, counters: &StatsCounters, uptime_secs: u64) -> (r: EngineStats)
        requires
            self.well_formed(),
        ensures
            r == self.stats_of(*counters, uptime_secs),
    {
        let state = self.manifest.state();
        let entries: usize = self.index.total_entries();
        let buckets: usize = self.index.bucket_count();
        proof {
            assert(self@.index.blocks.map_values(
                |m: MetaView| bucket_of(m, self.bucket_width()),
            ) =~= self.index@.blocks.map_values(
                |m: MetaView| bucket_of(m, self.index.bucket_width()),
            ));
        }
        EngineStats {
            total_records_written: counters.records_written,
            total_records_read: counters.records_read,
            flushes: counters.flushes,
            compactions: counters.compactions,
            ssts_collected: counters.ssts_collected,
            sst_count: state.active_sst_ids.len() as u64,
            sst_bytes: total_sst_bytes(state),
            index_entries: entries as u64,
            index_buckets: buckets as u64,
            uptime_secs,
        }
    }

    /// The numbers that describe the engine in the Prometheus text format.
    pub fn metrics_text(&self, counters: &StatsCounters, uptime_secs: u64) -> (r: String)
        requires
            self.well_formed(),
        ensures
            r@ == self.stats_of(*counters, uptime_secs).prometheus(),
    {
        self.stats(counters, uptime_secs).to_prometheus()
    }

    /// The numbers of the SSTs that are in use, in the order in which they came.
    pub fn active_ssts(&self) -> (r: Vec<u32>)
        requires
            self.well_formed(),
        ensures
            r@ == self@.manifest.active,
    {
        self.manifest.state().active_sst_ids.clone()
    }

    /// Whether the engine holds the bytes of an SST of that number.
    pub fn has_reader(&self, sst_id: u32) -> (r: bool)
        requires
            self.well_formed(),
        ensures
            r == self@.readers.contains_key(sst_id),
    {
        self.readers.contains_key(&sst_id)
    }
}

} // verus!
