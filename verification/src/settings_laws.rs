//! Which settings are accepted, what they come to, and what the numbers about an
//! engine say.

use vstd::prelude::*;

use crate::bindings::ConfigRequest;
use crate::bloom::{hash_count, word_count, MAX_HASHES, MAX_WORDS};
use crate::bytes::{be_bytes, i64_bits, lemma_be_len};
use crate::codec::{range_end_bytes, record_bytes};
use crate::compaction::{from_lowest, is_by_size, picks, size_before, tier_limit, widened};
use crate::error::decimal;
use crate::maintenance::MaintenanceIntervals;
use crate::manifest::ManifestView;
use crate::order::lemma_filter_contains;
use crate::record::{saturate, Config, Entry, Op, SyncMode};
use crate::stats::{bytes_in_ssts, counted, metric, EngineStats};

verus! {

/// A configuration is accepted exactly where every size, count and interval is
/// one at least, and the times in seconds can be counted in microseconds. A
/// complaint is there exactly where it is not accepted.
pub proof fn law_config_is_accepted_within_limits(c: Config)
    ensures
        c.is_valid() <==> c.memtable_size_mb > 0 && c.max_frozen_memtables > 0 && c.block_size > 0
            && c.bloom_bits_per_key > 0 && c.wal_segment_size_mb > 0 && c.compaction_threshold > 0
            && c.compaction_interval_ms > 0 && c.block_cache_capacity_mb > 0 && 0
            < c.time_bucket_secs <= 9_223_372_036_854 && (c.default_ttl_secs is Some ==> 0
            < c.default_ttl_secs->0 <= 9_223_372_036_854),
        c.complaint() is None <==> c.is_valid(),
{
}

/// A request for settings is complained about exactly where a number is given
/// that is out of range.
pub proof fn law_request_is_accepted_within_limits(r: ConfigRequest)
    ensures
        r.complaint() is None <==> (r.default_ttl_secs is Some ==> r.default_ttl_secs->0 >= 0) && (
        r.memtable_size_mb is Some ==> r.memtable_size_mb->0 > 0) && (
        r.block_cache_capacity_mb is Some ==> r.block_cache_capacity_mb->0 >= 0) && (
        r.bloom_bits_per_key is Some ==> r.bloom_bits_per_key->0 > 0) && (
        r.compaction_interval_ms is Some ==> r.compaction_interval_ms->0 > 0),
{
}

/// The intervals of the maintenance are those of the configuration, a
/// millisecond at least each; it looks as often as flushes and syncs need, and
/// four times a second at least.
pub proof fn law_intervals_are_as_configured(c: Config)
    ensures
        ({
            let m = MaintenanceIntervals::of_config(c);
            &&& m.flush_ms == if c.flush_interval_ms > 0 {
                c.flush_interval_ms
            } else {
                1
            }
            &&& m.compact_ms == if c.compaction_interval_ms > 0 {
                c.compaction_interval_ms
            } else {
                1
            }
            &&& m.gc_ms as int == {
                let secs: int = if c.gc_interval_secs > 0 {
                    c.gc_interval_secs as int
                } else {
                    1
                };
                if secs * 1000 <= u64::MAX {
                    secs * 1000
                } else {
                    u64::MAX as int
                }
            }
            &&& match c.wal_sync_mode {
                SyncMode::IntervalMs(ms) => ms > 0 ==> m.sync_ms == ms,
                SyncMode::Always => m.sync_ms == 60 * 60 * 1000,
            }
            &&& c.wal_sync_mode == SyncMode::IntervalMs(0) ==> m.sync_ms == 1
            &&& m.poll_ms <= m.flush_ms && m.poll_ms <= m.sync_ms && m.poll_ms <= 250
            &&& m.poll_ms == m.flush_ms || m.poll_ms == m.sync_ms || m.poll_ms == 250
        }),
{
}

/// Counters go up by what is counted, and start over once they are full.
pub proof fn law_counters_count(count: u64, n: u64)
    ensures
        count + n <= u64::MAX ==> counted(count, n) == count + n,
        count + n > u64::MAX ==> counted(count, n) == count + n - u64::MAX - 1,
{
}

/// The size of an active SST, where the manifest knows it.
pub open spec fn known_bytes(m: ManifestView, id: u32) -> int {
    if m.sstables.contains_key(id) {
        m.sstables[id].bytes as int
    } else {
        0
    }
}

/// The sum of the sizes of SSTs.
pub open spec fn sum_of_bytes(m: ManifestView, ids: Seq<u32>) -> int
    decreases ids.len(),
{
    if ids.len() == 0 {
        0
    } else {
        known_bytes(m, ids.first()) + sum_of_bytes(m, ids.drop_first())
    }
}

proof fn lemma_sum_push(m: ManifestView, ids: Seq<u32>, id: u32)
    ensures
        sum_of_bytes(m, ids.push(id)) == sum_of_bytes(m, ids) + known_bytes(m, id),
        sum_of_bytes(m, ids) >= 0,
    decreases ids.len(),
{
    if ids.len() == 0 {
        assert(ids.push(id).drop_first() =~= ids);
        assert(ids.push(id).first() == id);
    } else {
        lemma_sum_push(m, ids.drop_first(), id);
        assert(ids.push(id).drop_first() =~= ids.drop_first().push(id));
        assert(ids.push(id).first() == ids.first());
    }
}

/// The size of all active SSTs is the sum of their sizes, as far as it can be
/// counted.
pub proof fn law_sst_bytes_are_the_sum(m: ManifestView, k: int)
    requires
        0 <= k <= m.active.len(),
    ensures
        bytes_in_ssts(m, k) as int == if sum_of_bytes(m, m.active.take(k)) <= u64::MAX {
            sum_of_bytes(m, m.active.take(k))
        } else {
            u64::MAX as int
        },
    decreases k,
{
    if k > 0 {
        law_sst_bytes_are_the_sum(m, k - 1);
        lemma_sum_push(m, m.active.take(k - 1), m.active[k - 1]);
        assert(m.active.take(k) =~= m.active.take(k - 1).push(m.active[k - 1]));
    } else {
        assert(m.active.take(0).len() == 0);
    }
}

/// The text has a line with the name and the value.
pub open spec fn has_line(text: Seq<char>, name: Seq<char>, value: u64) -> bool {
    exists|before: Seq<char>, after: Seq<char>|
        text == #[trigger] (before + (name + " "@ + decimal(value as nat) + "\n"@) + after)
}

proof fn lemma_metric_has_line(name: Seq<char>, kind: Seq<char>, value: u64)
    ensures
        has_line(metric(name, kind, value), name, value),
{
    let before = "# TYPE "@ + name + " "@ + kind + "\n"@;
    let after = Seq::<char>::empty();
    assert(metric(name, kind, value) =~= before + (name + " "@ + decimal(value as nat) + "\n"@)
        + after);
}

/// A number behind a text: its line is there, and so are those of the text.
proof fn lemma_line_added(text: Seq<char>, name: Seq<char>, kind: Seq<char>, value: u64)
    ensures
        has_line(text + metric(name, kind, value), name, value),
        forall|other: Seq<char>, n: u64|
            has_line(text, other, n) ==> #[trigger] has_line(
                text + metric(name, kind, value),
                other,
                n,
            ),
{
    let b = metric(name, kind, value);
    lemma_metric_has_line(name, kind, value);
    let line = name + " "@ + decimal(value as nat) + "\n"@;
    let (x, y) = choose|x: Seq<char>, y: Seq<char>| b == #[trigger] (x + line + y);
    assert(text + b =~= (text + x) + line + y);
    assert forall|other: Seq<char>, n: u64| has_line(text, other, n) implies #[trigger] has_line(
        text + b,
        other,
        n,
    ) by {
        let own = other + " "@ + decimal(n as nat) + "\n"@;
        let (p, q) = choose|p: Seq<char>, q: Seq<char>| text == #[trigger] (p + own + q);
        assert(text + b =~= p + own + (q + b));
    }
}

/// The text for Prometheus has a line for each number.
pub proof fn law_metrics_show_every_number(s: EngineStats)
    ensures
        has_line(s.prometheus(), "flowdb_records_written_total"@, s.total_records_written),
        has_line(s.prometheus(), "flowdb_records_read_total"@, s.total_records_read),
        has_line(s.prometheus(), "flowdb_flushes_total"@, s.flushes),
        has_line(s.prometheus(), "flowdb_compactions_total"@, s.compactions),
        has_line(s.prometheus(), "flowdb_ssts_collected_total"@, s.ssts_collected),
        has_line(s.prometheus(), "flowdb_sstables"@, s.sst_count),
        has_line(s.prometheus(), "flowdb_sstable_bytes"@, s.sst_bytes),
        has_line(s.prometheus(), "flowdb_index_entries"@, s.index_entries),
        has_line(s.prometheus(), "flowdb_index_buckets"@, s.index_buckets),
        has_line(s.prometheus(), "flowdb_uptime_seconds"@, s.uptime_secs),
{
    let c = "counter"@;
    let g = "gauge"@;
    let t = metric("flowdb_records_written_total"@, c, s.total_records_written);
    lemma_metric_has_line("flowdb_records_written_total"@, c, s.total_records_written);
    lemma_line_added(t, "flowdb_records_read_total"@, c, s.total_records_read);
    let t = t + metric("flowdb_records_read_total"@, c, s.total_records_read);
    lemma_line_added(t, "flowdb_flushes_total"@, c, s.flushes);
    let t = t + metric("flowdb_flushes_total"@, c, s.flushes);
    lemma_line_added(t, "flowdb_compactions_total"@, c, s.compactions);
    let t = t + metric("flowdb_compactions_total"@, c, s.compactions);
    lemma_line_added(t, "flowdb_ssts_collected_total"@, c, s.ssts_collected);
    let t = t + metric("flowdb_ssts_collected_total"@, c, s.ssts_collected);
    lemma_line_added(t, "flowdb_sstables"@, g, s.sst_count);
    let t = t + metric("flowdb_sstables"@, g, s.sst_count);
    lemma_line_added(t, "flowdb_sstable_bytes"@, g, s.sst_bytes);
    let t = t + metric("flowdb_sstable_bytes"@, g, s.sst_bytes);
    lemma_line_added(t, "flowdb_index_entries"@, g, s.index_entries);
    let t = t + metric("flowdb_index_entries"@, g, s.index_entries);
    lemma_line_added(t, "flowdb_index_buckets"@, g, s.index_buckets);
    let t = t + metric("flowdb_index_buckets"@, g, s.index_buckets);
    lemma_line_added(t, "flowdb_uptime_seconds"@, g, s.uptime_secs);
}

/// Of the SSTs by size, those are merged that are no larger than four times the
/// smallest, or than four bytes where it is empty; two at least where there are
/// two.
pub proof fn law_one_size_tier_is_merged(sized: Seq<(u32, u64)>, m: ManifestView, n: int)
    requires
        is_by_size(sized, m),
        picks(sized, n),
        sized.len() >= 2,
    ensures
        2 <= n <= sized.len(),
        ({
            let limit: int = if sized[0].1 > 0 {
                sized[0].1 + sized[0].1 + sized[0].1 + sized[0].1
            } else {
                4
            };
            &&& forall|i: int| 2 <= i < n ==> (#[trigger] sized[i]).1 <= limit
            &&& forall|i: int| n <= i < sized.len() ==> (#[trigger] sized[i]).1 > limit
        }),
{
    assert forall|i: int| n <= i < sized.len() implies (#[trigger] sized[i]).1 > tier_limit(
        sized,
    ) by {
        if n < i {
            assert(size_before(sized[n], sized[i]));
        }
        if n == 2 {
            assert(size_before(sized[1], sized[2]));
        }
    }
}

/// The SSTs that are merged are the active ones from the lowest of those picked
/// on.
pub proof fn law_merged_from_the_lowest(active: Seq<u32>, picked: Seq<u32>, id: u32)
    ensures
        widened(active, picked).contains(id) <==> active.contains(id) && exists|low: u32|
            #[trigger] picked.contains(low) && low <= id,
{
    let p = |x: u32| exists|i: int| 0 <= i < picked.len() && #[trigger] picked[i] <= x;
    assert(from_lowest(picked) =~= p);
    lemma_filter_contains(active, from_lowest(picked), id);
    if from_lowest(picked)(id) {
        let i = choose|i: int| 0 <= i < picked.len() && #[trigger] picked[i] <= id;
        assert(picked.contains(picked[i]));
    }
    if exists|low: u32| #[trigger] picked.contains(low) && low <= id {
        let low = choose|low: u32| #[trigger] picked.contains(low) && low <= id;
        let i = choose|i: int| 0 <= i < picked.len() && picked[i] == low;
        assert(picked[i] <= id);
    }
}

/// A filter has the bits that its keys ask for, in whole words of 64, and no
/// word more, as far as a filter may grow; and hashes for about seven of ten of
/// the bits per key.
pub proof fn law_filter_is_as_large_as_asked_for(n: int, per_key: int)
    requires
        n >= 0,
        per_key >= 0,
    ensures
        word_count(n, per_key) >= 1,
        word_count(n, per_key) < MAX_WORDS ==> word_count(n, per_key) * 64 >= n * per_key,
        word_count(n, per_key) > 1 ==> (word_count(n, per_key) - 1) * 64 < n * per_key,
        1 <= hash_count(per_key) <= MAX_HASHES,
        1 < hash_count(per_key) < MAX_HASHES ==> hash_count(per_key) * 100 <= per_key * 69 < (
        hash_count(per_key) + 1) * 100,
{
    let t = n * per_key;
    assert(t >= 0) by (nonlinear_arith)
        requires
            t == n * per_key,
            n >= 0,
            per_key >= 0,
    ;
}

/// A number that does not fit is cut down to the largest that does.
pub proof fn law_sizes_are_cut_down(n: int)
    requires
        n >= 0,
    ensures
        n <= usize::MAX ==> saturate(n) == n,
        n > usize::MAX ==> saturate(n) == usize::MAX,
{
}

/// The last byte of a number in bytes is the least significant one, and the
/// bytes before it are those of what is left.
pub proof fn law_numbers_are_written_from_the_top(n: nat, w: nat)
    requires
        w > 0,
    ensures
        be_bytes(n, w).len() == w,
        be_bytes(n, w)[w - 1] == n % 256,
        be_bytes(n, w).take(w - 1) == be_bytes(n / 256, (w - 1) as nat),
{
    lemma_be_len(n, w);
    lemma_be_len(n / 256, (w - 1) as nat);
    assert(be_bytes(n, w).take(w - 1) =~= be_bytes(n / 256, (w - 1) as nat));
}

/// Where the parts of a record stand in its binary form: the length of the key
/// in two bytes, the key, the time and the expiry in eight bytes each, the kind
/// of operation in one, the length of the range end in two with the range end,
/// and the length of the value in four with the value.
pub proof fn law_parts_of_a_record(e: Entry)
    ensures
        ({
            let s = record_bytes(e);
            let k = e.key.len() as int;
            let r: int = match e.range_end {
                Some(re) => re.len() as int,
                None => 0,
            };
            let v = e.value.len() as int;
            &&& s.len() == 2 + k + 8 + 8 + 1 + 2 + r + 4 + v
            &&& s.subrange(0, 2) == be_bytes(e.key.len(), 2)
            &&& s.subrange(2, 2 + k) == e.key
            &&& s.subrange(2 + k, 10 + k) == be_bytes(i64_bits(e.ts), 8)
            &&& s.subrange(10 + k, 18 + k) == be_bytes(i64_bits(e.expire_at), 8)
            &&& s[18 + k] == match e.op {
                Op::Put => 0u8,
                Op::Delete => 1,
                Op::DeleteRange => 2,
            }
            &&& s.subrange(19 + k, 21 + k) == be_bytes(r as nat, 2)
            &&& e.range_end is Some ==> s.subrange(21 + k, 21 + k + r) == e.range_end->0
            &&& s.subrange(21 + k + r, 25 + k + r) == be_bytes(e.value.len(), 4)
            &&& s.subrange(25 + k + r, 25 + k + r + v) == e.value
        }),
{
    let s = record_bytes(e);
    let k = e.key.len() as int;
    let r: int = match e.range_end {
        Some(re) => re.len() as int,
        None => 0,
    };
    let v = e.value.len() as int;
    lemma_be_len(e.key.len(), 2);
    lemma_be_len(i64_bits(e.ts), 8);
    lemma_be_len(i64_bits(e.expire_at), 8);
    lemma_be_len(r as nat, 2);
    lemma_be_len(0, 2);
    lemma_be_len(e.value.len(), 4);
    assert(range_end_bytes(e.range_end).len() == 2 + r);
    assert(s.subrange(0, 2) =~= be_bytes(e.key.len(), 2));
    assert(s.subrange(2, 2 + k) =~= e.key);
    assert(s.subrange(2 + k, 10 + k) =~= be_bytes(i64_bits(e.ts), 8));
    assert(s.subrange(10 + k, 18 + k) =~= be_bytes(i64_bits(e.expire_at), 8));
    assert(s.subrange(19 + k, 21 + k) =~= be_bytes(r as nat, 2));
    if e.range_end is Some {
        assert(s.subrange(21 + k, 21 + k + r) =~= e.range_end->0);
    }
    assert(s.subrange(21 + k + r, 25 + k + r) =~= be_bytes(e.value.len(), 4));
    assert(s.subrange(25 + k + r, 25 + k + r + v) =~= e.value);
}

} // verus!
