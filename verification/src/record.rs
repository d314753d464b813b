//! Records, configuration, and the filters that reads are made with.

use vstd::prelude::*;
use vstd::utf8::{decode_utf8, encode_utf8, valid_utf8};

use crate::bytes::{
    bytes_eq, bytes_le, bytes_lt, bytes_start_with, copy_bytes, has_prefix, increment_prefix_bytes,
    incremented, lemma_prefix_range, lex_le, lex_lt, prefix_successor, str_bytes,
};
use crate::error::{string_of, FlowError, FlowErrorView, Result};

verus! {

/// A single key-value record in the LSM engine.
///
/// Each record has a binary `key`, a microsecond-precision `ts` timestamp,
/// an `expire_at` time (in microseconds since epoch), and a binary `value`.
/// Records with `expire_at <= now` are skipped by queries and eventually
/// garbage-collected.
#[derive(Debug)]
pub struct Record {
    /// Binary key. Use [`Record::key_str`] for lossy UTF-8 display.
    pub key: Vec<u8>,
    /// Microsecond timestamp.
    pub ts: i64,
    /// Expiration time in microseconds since Unix epoch.
    /// Use `i64::MAX` for records that should never expire.
    pub expire_at: i64,
    /// Binary payload. Any byte sequence is accepted.
    pub value: Vec<u8>,
}

/// A record with its byte strings as sequences.
pub struct RecordView {
    pub key: Seq<u8>,
    pub ts: i64,
    pub expire_at: i64,
    pub value: Seq<u8>,
}

impl View for Record {
    type V = RecordView;

    open spec fn view(&self) -> RecordView {
        RecordView {
            key: self.key@,
            ts: self.ts,
            expire_at: self.expire_at,
            value: self.value@,
        }
    }
}

/// What `String::from_utf8_lossy` makes of a byte string.
pub uninterp spec fn utf8_lossy(bytes: Seq<u8>) -> Seq<char>;

/// Calls `String::from_utf8_lossy`. Its result is a function of the bytes, and
/// for valid UTF-8 it is the text that the bytes encode.
#[verifier::external_body]
fn lossy_text(bytes: &[u8]) -> (r: String)
    ensures
        r@ == utf8_lossy(bytes@),
        valid_utf8(bytes@) ==> r@ == decode_utf8(bytes@),
{
    String::from_utf8_lossy(bytes).into_owned()
}

impl Record {
    /// A record that never expires.
    pub fn new(key: Vec<u8>, ts: i64, value: Vec<u8>) -> (r: Record)
        ensures
            r@ == (RecordView { key: key@, ts, expire_at: i64::MAX, value: value@ }),
    {
        Record { key, ts, expire_at: i64::MAX, value }
    }

    /// The key as text. Bytes that are not UTF-8 are replaced.
    pub fn key_str(&self) -> (r: String)
        ensures
            r@ == utf8_lossy(self.key@),
            valid_utf8(self.key@) ==> r@ == decode_utf8(self.key@),
    {
        lossy_text(&self.key)
    }

    /// An equal record.
    pub fn copy(&self) -> (r: Record)
        ensures
            r@ == self@,
    {
        Record {
            key: copy_bytes(&self.key),
            ts: self.ts,
            expire_at: self.expire_at,
            value: copy_bytes(&self.value),
        }
    }
}

/// Whether something that expires at `expire_at` can still be read at `now`.
/// What expires at `i64::MAX` never expires.
pub open spec fn live_at(expire_at: i64, now: i64) -> bool {
    expire_at > now || expire_at == i64::MAX
}

pub fn is_live(expire_at: i64, now_us: i64) -> (r: bool)
    ensures
        r == live_at(expire_at, now_us),
{
    expire_at > now_us || expire_at == i64::MAX
}

/// Operation type for a write-batch entry.
///
/// `Put` inserts or updates a record. `Delete` removes a specific `(key, ts)`
/// version. `DeleteRange` removes all records whose keys fall within
/// `[key, range_end)`.
#[derive(Clone, Copy, Debug, PartialEq, Eq, Structural)]
pub enum Op {
    /// Insert or update a record.
    Put,
    /// Delete a specific `(key, ts)` version.
    Delete,
    /// Delete all records with keys in `[key, range_end)`.
    DeleteRange,
}

impl Default for Op {
    fn default() -> (r: Op)
        ensures
            r == Op::Put,
    {
        Op::Put
    }
}

/// The byte that stands for an operation.
pub open spec fn op_code(op: Op) -> u8 {
    match op {
        Op::Put => 0,
        Op::Delete => 1,
        Op::DeleteRange => 2,
    }
}

/// The operation that a byte stands for; every unknown byte means `Put`.
pub open spec fn op_of_code(v: u8) -> Op {
    if v == 1 {
        Op::Delete
    } else if v == 2 {
        Op::DeleteRange
    } else {
        Op::Put
    }
}

impl Op {
    pub fn from_u8(v: u8) -> (r: Op)
        ensures
            r == op_of_code(v),
    {
        match v {
            1 => Op::Delete,
            2 => Op::DeleteRange,
            _ => Op::Put,
        }
    }

    pub fn to_u8(self) -> (r: u8)
        ensures
            r == op_code(self),
    {
        match self {
            Op::Put => 0,
            Op::Delete => 1,
            Op::DeleteRange => 2,
        }
    }
}

/// An operation survives being written as a byte and read back.
pub proof fn law_op_byte_round_trip(op: Op)
    ensures
        op_of_code(op_code(op)) == op,
{
}

/// A record as the engine keeps it: with its operation and the sequence number
/// that orders it among the versions of one `(key, ts)`.
#[derive(Debug)]
pub struct InternalRecord {
    pub seq: u64,
    pub op: Op,
    pub key: Vec<u8>,
    pub ts: i64,
    pub expire_at: i64,
    pub value: Vec<u8>,
    pub range_end: Option<Vec<u8>>,
}

/// An internal record with its byte strings as sequences.
pub struct Entry {
    pub seq: u64,
    pub op: Op,
    pub key: Seq<u8>,
    pub ts: i64,
    pub expire_at: i64,
    pub value: Seq<u8>,
    pub range_end: Option<Seq<u8>>,
}

impl Entry {
    /// What a reader sees of the entry.
    pub open spec fn record(self) -> RecordView {
        RecordView { key: self.key, ts: self.ts, expire_at: self.expire_at, value: self.value }
    }

    /// The entry without its sequence number.
    pub open spec fn unsequenced(self) -> Entry {
        Entry { seq: 0, ..self }
    }

    pub open spec fn put(rec: RecordView, seq: u64) -> Entry {
        Entry {
            seq,
            op: Op::Put,
            key: rec.key,
            ts: rec.ts,
            expire_at: rec.expire_at,
            value: rec.value,
            range_end: None,
        }
    }

    pub open spec fn deletion(key: Seq<u8>, ts: i64, seq: u64) -> Entry {
        Entry {
            seq,
            op: Op::Delete,
            key,
            ts,
            expire_at: i64::MAX,
            value: Seq::empty(),
            range_end: None,
        }
    }

    pub open spec fn range_deletion(start: Seq<u8>, end: Seq<u8>, seq: u64) -> Entry {
        Entry {
            seq,
            op: Op::DeleteRange,
            key: start,
            ts: 0,
            expire_at: i64::MAX,
            value: Seq::empty(),
            range_end: Some(end),
        }
    }
}

impl View for InternalRecord {
    type V = Entry;

    open spec fn view(&self) -> Entry {
        Entry {
            seq: self.seq,
            op: self.op,
            key: self.key@,
            ts: self.ts,
            expire_at: self.expire_at,
            value: self.value@,
            range_end: match self.range_end {
                Some(e) => Some(e@),
                None => None,
            },
        }
    }
}

/// The entries of a sequence of internal records.
pub open spec fn entries(s: Seq<InternalRecord>) -> Seq<Entry> {
    s.map_values(|r: InternalRecord| r@)
}

/// The entries that a sequence of references points to.
pub open spec fn entries_of_refs(s: Seq<&InternalRecord>) -> Seq<Entry> {
    s.map_values(|r: &InternalRecord| r@)
}

/// The readers' views of a sequence of records.
pub open spec fn records_of(s: Seq<Record>) -> Seq<RecordView> {
    s.map_values(|r: Record| r@)
}

/// The number of bytes an entry is taken to occupy, before a machine limit.
pub open spec fn entry_size(e: Entry) -> int {
    31 + e.key.len() + e.value.len() + match e.range_end {
        Some(re) => 2 + re.len() as int,
        None => 0int,
    }
}

/// `n`, or the largest `usize` where `n` does not fit.
pub open spec fn saturate(n: int) -> usize {
    if n > usize::MAX {
        usize::MAX
    } else {
        n as usize
    }
}

impl InternalRecord {
    pub fn from_record(rec: &Record, seq: u64) -> (r: InternalRecord)
        ensures
            r@ == Entry::put(rec@, seq),
    {
        InternalRecord {
            seq,
            op: Op::Put,
            key: copy_bytes(&rec.key),
            ts: rec.ts,
            expire_at: rec.expire_at,
            value: copy_bytes(&rec.value),
            range_end: None,
        }
    }

    pub fn delete(key: Vec<u8>, ts: i64, seq: u64) -> (r: InternalRecord)
        ensures
            r@ == Entry::deletion(key@, ts, seq),
    {
        InternalRecord {
            seq,
            op: Op::Delete,
            key,
            ts,
            expire_at: i64::MAX,
            value: Vec::new(),
            range_end: None,
        }
    }

    pub fn delete_range(start_key: Vec<u8>, end_key: Vec<u8>, seq: u64) -> (r: InternalRecord)
        ensures
            r@ == Entry::range_deletion(start_key@, end_key@, seq),
    {
        InternalRecord {
            seq,
            op: Op::DeleteRange,
            key: start_key,
            ts: 0,
            expire_at: i64::MAX,
            value: Vec::new(),
            range_end: Some(end_key),
        }
    }

    pub fn to_record(&self) -> (r: Record)
        ensures
            r@ == self@.record(),
    {
        Record {
            key: copy_bytes(&self.key),
            ts: self.ts,
            expire_at: self.expire_at,
            value: copy_bytes(&self.value),
        }
    }

    pub fn into_record_owned(self) -> (r: Record)
        ensures
            r@ == self@.record(),
    {
        Record { key: self.key, ts: self.ts, expire_at: self.expire_at, value: self.value }
    }

    /// The number of bytes the record is taken to occupy.
    pub fn estimated_size(&self) -> (r: usize)
        ensures
            r == saturate(entry_size(self@)),
    {
        let base = 31usize.saturating_add(self.key.len()).saturating_add(self.value.len());
        match &self.range_end {
            Some(re) => base.saturating_add(2).saturating_add(re.len()),
            None => base,
        }
    }

    /// An equal record.
    pub fn copy(&self) -> (r: InternalRecord)
        ensures
            r@ == self@,
    {
        InternalRecord {
            seq: self.seq,
            op: self.op,
            key: copy_bytes(&self.key),
            ts: self.ts,
            expire_at: self.expire_at,
            value: copy_bytes(&self.value),
            range_end: match &self.range_end {
                Some(re) => Some(copy_bytes(re)),
                None => None,
            },
        }
    }
}

#[derive(Debug, Clone, Copy, PartialEq, Eq, Structural)]
pub enum SyncMode {
    /// fsync the WAL after every write batch. Maximum durability, lower
    /// throughput (each batch incurs a synchronous disk I/O).
    Always,
    /// fsync the WAL on a periodic tick (milliseconds). Balances durability
    /// with throughput by coalescing multiple batches into a single fsync.
    /// Requires the background maintenance task to be running.
    IntervalMs(u64),
}

impl Default for SyncMode {
    fn default() -> (r: SyncMode)
        ensures
            r == SyncMode::Always,
    {
        SyncMode::Always
    }
}

/// Selects the on-disk storage backend.
#[derive(Debug, Clone, Copy, PartialEq, Eq, Structural)]
pub enum StorageBackendKind {
    /// One `.sst` file per SST: the classic multi-file layout.
    MultiFile,
    /// All SSTs packed inside a single `.db` container file.
    SingleFile,
}

impl Default for StorageBackendKind {
    fn default() -> (r: StorageBackendKind)
        ensures
            r == StorageBackendKind::MultiFile,
    {
        StorageBackendKind::MultiFile
    }
}

/// Engine configuration.
///
/// Use `Config::default()` for sensible defaults, or construct inline.
#[derive(Debug)]
pub struct Config {
    /// Data directory path. Created automatically unless `create_if_missing` is false.
    pub data_dir: String,
    /// Default TTL (seconds) applied to all records that do not have an explicit `expire_at`.
    /// `None` means records live forever unless explicitly deleted.
    /// Values above `i64::MAX / 1_000_000` overflow the microsecond conversion
    /// and are rejected by `validate()`.
    pub default_ttl_secs: Option<u64>,
    /// Garbage collection interval in seconds (default: 3600 = 1 hour).
    /// GC purges SST files whose records have all expired.
    pub gc_interval_secs: u64,
    /// Active memtable size threshold in MB (default: 64).
    /// When the active memtable exceeds this, it is frozen and a flush is triggered.
    pub memtable_size_mb: usize,
    /// Maximum number of frozen (immutable) memtables before write backpressure kicks in
    /// (default: 2). When this limit is reached, writers block until a flush completes.
    pub max_frozen_memtables: usize,
    /// Number of records per SST block (default: 8192). Each block is independently compressed.
    pub block_size: usize,
    /// Background flush interval in milliseconds (default: 1000).
    /// The background maintenance thread flushes the active memtable at this interval.
    pub flush_interval_ms: u64,
    /// Time bucket width in seconds (default: 3600). The block-level index groups
    /// SST records into time buckets for efficient time-range pruning.
    /// Values above `i64::MAX / 1_000_000` overflow the microsecond conversion
    /// and are rejected by `validate()`.
    pub time_bucket_secs: u64,
    /// Memory budget for the block meta index in MB (default: 256).
    pub index_memory_budget_mb: usize,
    /// Block cache capacity in MB (default: 128). Shared across all SST readers.
    pub block_cache_capacity_mb: usize,
    /// Bloom filter bits per key (default: 10). Higher values reduce false-positive
    /// rates at the cost of more memory.
    pub bloom_bits_per_key: usize,
    /// Maximum WAL segment file size in MB (default: 64).
    /// When a WAL segment exceeds this size, a new segment is created.
    pub wal_segment_size_mb: u64,
    /// Number of SST files needed to trigger a compaction (default: 2).
    /// Higher values reduce write amplification but increase read amplification.
    pub compaction_threshold: usize,
    /// Background compaction interval in milliseconds (default: 60000 = 60 seconds).
    /// The background maintenance thread checks for compaction candidates at this
    /// interval, independently of `gc_interval_secs`. Lower values keep SST file
    /// counts low at the cost of more CPU/IO for merging.
    pub compaction_interval_ms: u64,
    /// Auto-create the data directory if it does not exist (default: true).
    pub create_if_missing: bool,
    /// WAL sync mode (default: `SyncMode::Always`).
    /// - `Always`: fsync every batch (maximum durability).
    /// - `IntervalMs(n)`: fsync on a periodic tick (higher throughput, may lose recent writes).
    pub wal_sync_mode: SyncMode,
    /// Automatically spawn a background maintenance thread for flush, compaction, GC,
    /// and periodic WAL sync (default: true). Set to false where maintenance
    /// operations are to stay under manual control.
    pub auto_background: bool,
    /// On-disk storage backend (default: `MultiFile`).
    /// - `MultiFile`: one `.sst` file per SST under `{data_dir}/SST/`.
    /// - `SingleFile`: all SSTs packed inside a single `{data_dir}/flow.db` file.
    pub storage_backend: StorageBackendKind,
}

pub fn default_background() -> (r: bool)
    ensures
        r,
{
    true
}

pub fn default_compaction_interval_ms() -> (r: u64)
    ensures
        r == 60_000,
{
    60_000
}

impl Default for Config {
    fn default() -> (r: Config)
        ensures
            r.data_dir@ == "./data"@,
            r.default_ttl_secs is None,
            r.gc_interval_secs == 3600,
            r.memtable_size_mb == 64,
            r.max_frozen_memtables == 2,
            r.block_size == 8192,
            r.flush_interval_ms == 1000,
            r.time_bucket_secs == 3600,
            r.index_memory_budget_mb == 256,
            r.block_cache_capacity_mb == 128,
            r.bloom_bits_per_key == 10,
            r.wal_segment_size_mb == 64,
            r.compaction_threshold == 2,
            r.compaction_interval_ms == 60_000,
            r.create_if_missing,
            r.wal_sync_mode == SyncMode::Always,
            r.auto_background,
            r.storage_backend == StorageBackendKind::MultiFile,
            r.is_valid(),
    {
        Config {
            data_dir: string_of("./data"),
            default_ttl_secs: None,
            gc_interval_secs: 3600,
            memtable_size_mb: 64,
            max_frozen_memtables: 2,
            block_size: 8192,
            flush_interval_ms: 1000,
            time_bucket_secs: 3600,
            index_memory_budget_mb: 256,
            block_cache_capacity_mb: 128,
            bloom_bits_per_key: 10,
            wal_segment_size_mb: 64,
            compaction_threshold: 2,
            compaction_interval_ms: 60_000,
            create_if_missing: true,
            wal_sync_mode: SyncMode::Always,
            auto_background: true,
            storage_backend: StorageBackendKind::MultiFile,
        }
    }
}

/// The largest number of seconds whose microseconds fit in an `i64`.
pub const MAX_SECS: u64 = 9_223_372_036_854;

impl Config {
    /// The complaint about the first field that is out of range, if one is.
    pub open spec fn complaint(self) -> Option<Seq<char>> {
        if self.memtable_size_mb == 0 {
            Some("memtable_size_mb must be >= 1 (0 causes a flush storm)"@)
        } else if self.max_frozen_memtables == 0 {
            Some("max_frozen_memtables must be >= 1 (0 means unbounded growth)"@)
        } else if self.block_size == 0 {
            Some("block_size must be >= 1"@)
        } else if self.time_bucket_secs == 0 {
            Some("time_bucket_secs must be >= 1 (0 causes division-by-zero panic)"@)
        } else if self.bloom_bits_per_key == 0 {
            Some("bloom_bits_per_key must be >= 1 (0 produces a useless filter)"@)
        } else if self.wal_segment_size_mb == 0 {
            Some("wal_segment_size_mb must be >= 1 (0 causes segment rollover on every write)"@)
        } else if self.compaction_threshold == 0 {
            Some("compaction_threshold must be >= 1 (0 disables compaction entirely)"@)
        } else if self.compaction_interval_ms == 0 {
            Some("compaction_interval_ms must be >= 1 (0 causes tight-loop spinning)"@)
        } else if self.block_cache_capacity_mb == 0 {
            Some("block_cache_capacity_mb must be >= 1"@)
        } else if self.default_ttl_secs == Some(0u64) {
            Some("default_ttl_secs must be > 0 if set (0 = instant expiry)"@)
        } else if self.default_ttl_secs is Some && self.default_ttl_secs->0 * 1_000_000
            > i64::MAX {
            Some(
                "default_ttl_secs is too large (would overflow i64 when converted to microseconds)"@,
            )
        } else if self.time_bucket_secs * 1_000_000 > i64::MAX {
            Some("time_bucket_secs is too large (product with 1_000_000 would overflow i64)"@)
        } else {
            None
        }
    }

    /// Every field is in range.
    pub open spec fn is_valid(self) -> bool {
        &&& self.memtable_size_mb >= 1
        &&& self.max_frozen_memtables >= 1
        &&& self.block_size >= 1
        &&& 1 <= self.time_bucket_secs
        &&& self.time_bucket_secs * 1_000_000 <= i64::MAX
        &&& self.bloom_bits_per_key >= 1
        &&& self.wal_segment_size_mb >= 1
        &&& self.compaction_threshold >= 1
        &&& self.compaction_interval_ms >= 1
        &&& self.block_cache_capacity_mb >= 1
        &&& match self.default_ttl_secs {
            Some(ttl) => 1 <= ttl && ttl * 1_000_000 <= i64::MAX,
            None => true,
        }
    }

    /// Validates all configuration fields and returns an error if any value
    /// is out of range or would cause runtime panics (e.g. division by
    /// zero in the time-bucket index).
    pub fn validate(&self) -> (r: Result<()>)
        ensures
            r is Ok <==> self.is_valid(),
            match r {
                Ok(_) => self.complaint() is None,
                Err(e) => self.complaint() is Some && e@ == FlowErrorView::Config(
                    self.complaint()->0,
                ),
            },
    {
        if self.memtable_size_mb == 0 {
            return Err(
                FlowError::Config(
                    string_of("memtable_size_mb must be >= 1 (0 causes a flush storm)"),
                ),
            );
        }
        if self.max_frozen_memtables == 0 {
            return Err(
                FlowError::Config(
                    string_of("max_frozen_memtables must be >= 1 (0 means unbounded growth)"),
                ),
            );
        }
        if self.block_size == 0 {
            return Err(FlowError::Config(string_of("block_size must be >= 1")));
        }
        if self.time_bucket_secs == 0 {
            return Err(
                FlowError::Config(
                    string_of("time_bucket_secs must be >= 1 (0 causes division-by-zero panic)"),
                ),
            );
        }
        if self.bloom_bits_per_key == 0 {
            return Err(
                FlowError::Config(
                    string_of("bloom_bits_per_key must be >= 1 (0 produces a useless filter)"),
                ),
            );
        }
        if self.wal_segment_size_mb == 0 {
            return Err(
                FlowError::Config(
                    string_of(
                        "wal_segment_size_mb must be >= 1 (0 causes segment rollover on every write)",
                    ),
                ),
            );
        }
        if self.compaction_threshold == 0 {
            return Err(
                FlowError::Config(
                    string_of("compaction_threshold must be >= 1 (0 disables compaction entirely)"),
                ),
            );
        }
        if self.compaction_interval_ms == 0 {
            return Err(
                FlowError::Config(
                    string_of("compaction_interval_ms must be >= 1 (0 causes tight-loop spinning)"),
                ),
            );
        }
        if self.block_cache_capacity_mb == 0 {
            return Err(FlowError::Config(string_of("block_cache_capacity_mb must be >= 1")));
        }
        if let Some(ttl) = self.default_ttl_secs {
            if ttl == 0 {
                return Err(
                    FlowError::Config(
                        string_of("default_ttl_secs must be > 0 if set (0 = instant expiry)"),
                    ),
                );
            }
            if ttl > MAX_SECS {
                return Err(
                    FlowError::Config(
                        string_of(
                            "default_ttl_secs is too large (would overflow i64 when converted to microseconds)",
                        ),
                    ),
                );
            }
        }
        if self.time_bucket_secs > MAX_SECS {
            return Err(
                FlowError::Config(
                    string_of(
                        "time_bucket_secs is too large (product with 1_000_000 would overflow i64)",
                    ),
                ),
            );
        }
        Ok(())
    }
}

/// Key matching strategy used by [`Query`] and internally by the scan pipeline.
#[derive(Debug)]
pub enum KeyFilter {
    /// Match all keys starting with the given prefix.
    Prefix(Vec<u8>),
    /// Match all keys within `[start, end]` (inclusive on both ends).
    Range { start: Vec<u8>, end: Vec<u8> },
    /// Match every key (full scan).
    All,
}

/// A key filter with its byte strings as sequences.
pub enum KeyFilterView {
    Prefix(Seq<u8>),
    Range { start: Seq<u8>, end: Seq<u8> },
    All,
}

impl View for KeyFilter {
    type V = KeyFilterView;

    open spec fn view(&self) -> KeyFilterView {
        match self {
            KeyFilter::Prefix(p) => KeyFilterView::Prefix(p@),
            KeyFilter::Range { start, end } => KeyFilterView::Range { start: start@, end: end@ },
            KeyFilter::All => KeyFilterView::All,
        }
    }
}

impl KeyFilterView {
    /// Whether the filter lets `key` through.
    pub open spec fn admits(self, key: Seq<u8>) -> bool {
        match self {
            KeyFilterView::Prefix(p) => has_prefix(key, p),
            KeyFilterView::Range { start, end } => lex_le(start, key) && lex_le(key, end),
            KeyFilterView::All => true,
        }
    }
}

/// Whether a time lies in an inclusive range; without a range every time does.
pub open spec fn in_time_range(ts: i64, time_range: Option<(i64, i64)>) -> bool {
    match time_range {
        Some((start, end)) => start <= ts <= end,
        None => true,
    }
}

impl KeyFilter {
    /// Whether the filter lets `key` through.
    pub fn admits(&self, key: &[u8]) -> (r: bool)
        ensures
            r == self@.admits(key@),
    {
        match self {
            KeyFilter::Prefix(p) => bytes_start_with(key, p),
            KeyFilter::Range { start, end } => bytes_le(start, key) && bytes_le(key, end),
            KeyFilter::All => true,
        }
    }
}

/// Whether `ts` lies in the inclusive range, if there is one.
pub fn time_in_range(ts: i64, time_range: Option<(i64, i64)>) -> (r: bool)
    ensures
        r == in_time_range(ts, time_range),
{
    match time_range {
        Some((start, end)) => start <= ts && ts <= end,
        None => true,
    }
}

/// A query over the LSM engine, specifying key filtering and optional time range.
///
/// Construct one of the convenience methods:
/// - [`Query::prefix`]
/// - [`Query::key_range`]
/// - [`Query::time_range`]
/// - [`Query::prefix_time_range`]
/// - [`Query::key_time_range`]
#[derive(Debug)]
pub struct Query {
    /// How to match keys.
    pub key_filter: KeyFilter,
    /// Optional inclusive time range `(start_micros, end_micros)`.
    pub time_range: Option<(i64, i64)>,
}

impl Query {
    pub fn prefix(key: &str) -> (r: Query)
        ensures
            r.key_filter@ == KeyFilterView::Prefix(encode_utf8(key@)),
            r.time_range is None,
    {
        Query { key_filter: KeyFilter::Prefix(str_bytes(key)), time_range: None }
    }

    pub fn key_range(start: &str, end: &str) -> (r: Query)
        ensures
            r.key_filter@ == (KeyFilterView::Range {
                start: encode_utf8(start@),
                end: encode_utf8(end@),
            }),
            r.time_range is None,
    {
        Query {
            key_filter: KeyFilter::Range { start: str_bytes(start), end: str_bytes(end) },
            time_range: None,
        }
    }

    pub fn time_range(start: i64, end: i64) -> (r: Query)
        ensures
            r.key_filter@ == KeyFilterView::All,
            r.time_range == Some((start, end)),
    {
        Query { key_filter: KeyFilter::All, time_range: Some((start, end)) }
    }

    pub fn prefix_time_range(key: &str, start: i64, end: i64) -> (r: Query)
        ensures
            r.key_filter@ == KeyFilterView::Prefix(encode_utf8(key@)),
            r.time_range == Some((start, end)),
    {
        Query { key_filter: KeyFilter::Prefix(str_bytes(key)), time_range: Some((start, end)) }
    }

    pub fn key_time_range(start_key: &str, end_key: &str, start: i64, end: i64) -> (r: Query)
        ensures
            r.key_filter@ == (KeyFilterView::Range {
                start: encode_utf8(start_key@),
                end: encode_utf8(end_key@),
            }),
            r.time_range == Some((start, end)),
    {
        Query {
            key_filter: KeyFilter::Range { start: str_bytes(start_key), end: str_bytes(end_key) },
            time_range: Some((start, end)),
        }
    }
}

/// Read options for scan / get operations (RocksDB-style).
#[derive(Debug, Clone, Copy)]
pub struct ReadOptions {
    /// Whether to populate the block cache on reads (default: true).
    pub fill_cache: bool,
    /// Whether to verify checksums on SST reads (default: true).
    pub verify_checksums: bool,
}

impl Default for ReadOptions {
    fn default() -> (r: ReadOptions)
        ensures
            r.fill_cache,
            r.verify_checksums,
    {
        ReadOptions { fill_cache: true, verify_checksums: true }
    }
}

/// One end of a range.
#[derive(Debug)]
pub enum Bound<T> {
    Included(T),
    Excluded(T),
    Unbounded,
}

/// A bound on keys with its byte string as a sequence.
pub open spec fn key_bound(b: Bound<Vec<u8>>) -> Bound<Seq<u8>> {
    match b {
        Bound::Included(k) => Bound::Included(k@),
        Bound::Excluded(k) => Bound::Excluded(k@),
        Bound::Unbounded => Bound::Unbounded,
    }
}

/// Scan range specifying key + time bounds for `Engine::scan`.
#[derive(Debug)]
pub struct ScanRange {
    pub key_start: Bound<Vec<u8>>,
    pub key_end: Bound<Vec<u8>>,
    pub ts_start: Bound<i64>,
    pub ts_end: Bound<i64>,
}

/// A scan range with its byte strings as sequences.
pub struct ScanRangeView {
    pub key_start: Bound<Seq<u8>>,
    pub key_end: Bound<Seq<u8>>,
    pub ts_start: Bound<i64>,
    pub ts_end: Bound<i64>,
}

impl View for ScanRange {
    type V = ScanRangeView;

    open spec fn view(&self) -> ScanRangeView {
        ScanRangeView {
            key_start: key_bound(self.key_start),
            key_end: key_bound(self.key_end),
            ts_start: self.ts_start,
            ts_end: self.ts_end,
        }
    }
}

impl ScanRangeView {
    /// Whether `key` lies between the key bounds. Bounds that span a prefix
    /// stand for the keys with that prefix, also where no byte string follows
    /// them all.
    pub open spec fn admits_key(self, key: Seq<u8>) -> bool {
        match self.filter() {
            KeyFilterView::Prefix(p) => has_prefix(key, p),
            _ => self.between_bounds(key),
        }
    }

    /// Whether `key` is on the right side of both key bounds.
    pub open spec fn between_bounds(self, key: Seq<u8>) -> bool {
        &&& match self.key_start {
            Bound::Included(s) => lex_le(s, key),
            Bound::Excluded(s) => lex_lt(s, key),
            Bound::Unbounded => true,
        }
        &&& match self.key_end {
            Bound::Included(e) => lex_le(key, e),
            Bound::Excluded(e) => lex_lt(key, e),
            Bound::Unbounded => true,
        }
    }

    /// Whether `ts` lies between the time bounds.
    pub open spec fn admits_time(self, ts: i64) -> bool {
        &&& match self.ts_start {
            Bound::Included(s) => s <= ts,
            Bound::Excluded(s) => s < ts,
            Bound::Unbounded => true,
        }
        &&& match self.ts_end {
            Bound::Included(e) => ts <= e,
            Bound::Excluded(e) => ts < e,
            Bound::Unbounded => true,
        }
    }

    /// Whether a `(key, ts)` version lies in the range.
    pub open spec fn admits(self, key: Seq<u8>, ts: i64) -> bool {
        self.admits_key(key) && self.admits_time(ts)
    }

    /// The key filter that stands for the key bounds.
    pub open spec fn filter(self) -> KeyFilterView {
        match (self.key_start, self.key_end) {
            (Bound::Included(s), Bound::Excluded(e)) => if e == incremented(s) {
                KeyFilterView::Prefix(s)
            } else {
                KeyFilterView::Range { start: s, end: e }
            },
            (Bound::Included(s), Bound::Included(e)) => KeyFilterView::Range { start: s, end: e },
            _ => KeyFilterView::All,
        }
    }

    /// The inclusive time range that stands for the time bounds, where both
    /// are inclusive.
    pub open spec fn times(self) -> Option<(i64, i64)> {
        match (self.ts_start, self.ts_end) {
            (Bound::Included(s), Bound::Included(e)) => Some((s, e)),
            _ => None,
        }
    }

    /// The scan of every key that starts with `p`, at every time.
    pub open spec fn of_prefix(p: Seq<u8>) -> ScanRangeView {
        ScanRangeView {
            key_start: Bound::Included(p),
            key_end: Bound::Excluded(incremented(p)),
            ts_start: Bound::Unbounded,
            ts_end: Bound::Unbounded,
        }
    }
}

impl ScanRange {
    /// Prefix scan: `[prefix, next_prefix)` with unbounded time.
    pub fn prefix(p: &str) -> (r: ScanRange)
        ensures
            r@ == ScanRangeView::of_prefix(encode_utf8(p@)),
    {
        ScanRange::prefix_bytes(&str_bytes(p))
    }

    /// Prefix scan for a binary prefix.
    pub fn prefix_bytes(p: &[u8]) -> (r: ScanRange)
        ensures
            r@ == ScanRangeView::of_prefix(p@),
    {
        ScanRange {
            key_start: Bound::Included(copy_bytes(p)),
            key_end: Bound::Excluded(increment_prefix_bytes(p)),
            ts_start: Bound::Unbounded,
            ts_end: Bound::Unbounded,
        }
    }

    /// Time range scan with unbounded key.
    pub fn time_range(start: i64, end: i64) -> (r: ScanRange)
        ensures
            r@ == (ScanRangeView {
                key_start: Bound::Unbounded,
                key_end: Bound::Unbounded,
                ts_start: Bound::Included(start),
                ts_end: Bound::Included(end),
            }),
    {
        ScanRange {
            key_start: Bound::Unbounded,
            key_end: Bound::Unbounded,
            ts_start: Bound::Included(start),
            ts_end: Bound::Included(end),
        }
    }

    /// Prefix + time range scan.
    pub fn prefix_time_range(p: &str, ts_start: i64, ts_end: i64) -> (r: ScanRange)
        ensures
            r@ == (ScanRangeView {
                key_start: Bound::Included(encode_utf8(p@)),
                key_end: Bound::Excluded(incremented(encode_utf8(p@))),
                ts_start: Bound::Included(ts_start),
                ts_end: Bound::Included(ts_end),
            }),
    {
        let bytes = str_bytes(p);
        let end = increment_prefix_bytes(&bytes);
        ScanRange {
            key_start: Bound::Included(bytes),
            key_end: Bound::Excluded(end),
            ts_start: Bound::Included(ts_start),
            ts_end: Bound::Included(ts_end),
        }
    }

    /// Key range scan: `[start, end]` with unbounded time.
    pub fn key_range(start: &str, end: &str) -> (r: ScanRange)
        ensures
            r@ == (ScanRangeView {
                key_start: Bound::Included(encode_utf8(start@)),
                key_end: Bound::Included(encode_utf8(end@)),
                ts_start: Bound::Unbounded,
                ts_end: Bound::Unbounded,
            }),
    {
        ScanRange {
            key_start: Bound::Included(str_bytes(start)),
            key_end: Bound::Included(str_bytes(end)),
            ts_start: Bound::Unbounded,
            ts_end: Bound::Unbounded,
        }
    }

    /// Key range + time range scan.
    pub fn key_time_range(start: &str, end: &str, ts_start: i64, ts_end: i64) -> (r: ScanRange)
        ensures
            r@ == (ScanRangeView {
                key_start: Bound::Included(encode_utf8(start@)),
                key_end: Bound::Included(encode_utf8(end@)),
                ts_start: Bound::Included(ts_start),
                ts_end: Bound::Included(ts_end),
            }),
    {
        ScanRange {
            key_start: Bound::Included(str_bytes(start)),
            key_end: Bound::Included(str_bytes(end)),
            ts_start: Bound::Included(ts_start),
            ts_end: Bound::Included(ts_end),
        }
    }

    /// Full scan (all keys, all times).
    pub fn all() -> (r: ScanRange)
        ensures
            r@ == (ScanRangeView {
                key_start: Bound::Unbounded,
                key_end: Bound::Unbounded,
                ts_start: Bound::Unbounded,
                ts_end: Bound::Unbounded,
            }),
    {
        ScanRange {
            key_start: Bound::Unbounded,
            key_end: Bound::Unbounded,
            ts_start: Bound::Unbounded,
            ts_end: Bound::Unbounded,
        }
    }

    /// The `KeyFilter` and the optional `(ts_start, ts_end)` that a scan of
    /// this range starts from. Neither leaves out a version that lies in the
    /// range; [`ScanRange::contains`] takes out what does not.
    pub fn to_query_params(&self) -> (r: (KeyFilter, Option<(i64, i64)>))
        ensures
            r.0@ == self@.filter(),
            r.1 == self@.times(),
    {
        let kf = match (&self.key_start, &self.key_end) {
            (Bound::Included(s), Bound::Excluded(e)) => if is_prefix_range(s, e) {
                KeyFilter::Prefix(copy_bytes(s))
            } else {
                KeyFilter::Range { start: copy_bytes(s), end: copy_bytes(e) }
            },
            (Bound::Included(s), Bound::Included(e)) => KeyFilter::Range {
                start: copy_bytes(s),
                end: copy_bytes(e),
            },
            _ => KeyFilter::All,
        };
        let tr = match (&self.ts_start, &self.ts_end) {
            (Bound::Included(s), Bound::Included(e)) => Some((*s, *e)),
            _ => None,
        };
        (kf, tr)
    }

    /// Whether a `(key, ts)` version lies in the range.
    pub fn contains(&self, key: &[u8], ts: i64) -> (r: bool)
        ensures
            r == self@.admits(key@, ts),
    {
        if let (Bound::Included(s), Bound::Excluded(e)) = (&self.key_start, &self.key_end) {
            if is_prefix_range(s, e) {
                return bytes_start_with(key, s) && self.contains_time(ts);
            }
        }
        let after_start = match &self.key_start {
            Bound::Included(s) => bytes_le(s, key),
            Bound::Excluded(s) => bytes_lt(s, key),
            Bound::Unbounded => true,
        };
        let before_end = match &self.key_end {
            Bound::Included(e) => bytes_le(key, e),
            Bound::Excluded(e) => bytes_lt(key, e),
            Bound::Unbounded => true,
        };
        after_start && before_end && self.contains_time(ts)
    }

    fn contains_time(&self, ts: i64) -> (r: bool)
        ensures
            r == self@.admits_time(ts),
    {
        let not_early = match &self.ts_start {
            Bound::Included(s) => *s <= ts,
            Bound::Excluded(s) => *s < ts,
            Bound::Unbounded => true,
        };
        let not_late = match &self.ts_end {
            Bound::Included(e) => ts <= *e,
            Bound::Excluded(e) => ts < *e,
            Bound::Unbounded => true,
        };
        not_early && not_late
    }
}

/// Whether `[start, end)` is the range that [`ScanRange::prefix`] makes of `start`.
fn is_prefix_range(start: &[u8], end: &[u8]) -> (r: bool)
    ensures
        r == (end@ == incremented(start@)),
{
    bytes_eq(end, &increment_prefix_bytes(start))
}

/// The filters that a scan range is turned into let every version through that
/// lies in the range.
pub proof fn law_scan_filter_is_complete(range: ScanRangeView, key: Seq<u8>, ts: i64)
    requires
        range.admits(key, ts),
    ensures
        range.filter().admits(key),
        in_time_range(ts, range.times()),
{
}

/// A prefix scan covers exactly the keys with that prefix; where some byte
/// string follows them all, these are the keys from the prefix up to it.
pub proof fn law_prefix_scan_is_exact(p: Seq<u8>, key: Seq<u8>, ts: i64)
    ensures
        ScanRangeView::of_prefix(p).admits(key, ts) <==> has_prefix(key, p),
        prefix_successor(p) is Some ==> (ScanRangeView::of_prefix(p).admits(key, ts) <==> lex_le(
            p,
            key,
        ) && lex_lt(key, incremented(p))),
{
    if prefix_successor(p) is Some {
        lemma_prefix_range(p, key);
    }
}

} // verus!
