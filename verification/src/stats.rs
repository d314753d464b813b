//! What is counted while an engine runs.

use vstd::prelude::*;

use crate::error::{decimal, decimal_text, string_of, text3, text4};
use crate::manifest::{ManifestState, ManifestView};

verus! {

/// What has been counted since the engine was opened. The counts start over
/// after `u64::MAX`.
#[derive(Debug, Clone, Copy)]
pub struct StatsCounters {
    pub records_written: u64,
    pub records_read: u64,
    pub flushes: u64,
    pub compactions: u64,
    pub ssts_collected: u64,
}

/// `n` more than `count`, which starts over after `u64::MAX`.
pub open spec fn counted(count: u64, n: u64) -> u64 {
    if count + n > u64::MAX {
        (count + n - 0x1_0000_0000_0000_0000) as u64
    } else {
        (count + n) as u64
    }
}

impl StatsCounters {
    /// Nothing has been counted yet.
    pub fn new() -> (r: StatsCounters)
        ensures
            r == (StatsCounters {
                records_written: 0,
                records_read: 0,
                flushes: 0,
                compactions: 0,
                ssts_collected: 0,
            }),
    {
        StatsCounters {
            records_written: 0,
            records_read: 0,
            flushes: 0,
            compactions: 0,
            ssts_collected: 0,
        }
    }

    /// Counts records that were written.
    pub fn records_written(&mut self, n: u64)
        ensures
            *final(self) == (StatsCounters {
                records_written: counted(old(self).records_written, n),
                ..*old(self)
            }),
    {
        self.records_written = self.records_written.wrapping_add(n);
    }

    /// Counts records that were read.
    pub fn records_read(&mut self, n: u64)
        ensures
            *final(self) == (StatsCounters {
                records_read: counted(old(self).records_read, n),
                ..*old(self)
            }),
    {
        self.records_read = self.records_read.wrapping_add(n);
    }

    /// Counts a flush.
    pub fn flush_done(&mut self)
        ensures
            *final(self) == (StatsCounters { flushes: counted(old(self).flushes, 1), ..*old(self) }),
    {
        self.flushes = self.flushes.wrapping_add(1);
    }

    /// Counts a compaction.
    pub fn compaction_done(&mut self)
        ensures
            *final(self) == (StatsCounters {
                compactions: counted(old(self).compactions, 1),
                ..*old(self)
            }),
    {
        self.compactions = self.compactions.wrapping_add(1);
    }

    /// Counts SSTs that garbage collection has dropped.
    pub fn gc_done(&mut self, n: u64)
        ensures
            *final(self) == (StatsCounters {
                ssts_collected: counted(old(self).ssts_collected, n),
                ..*old(self)
            }),
    {
        self.ssts_collected = self.ssts_collected.wrapping_add(n);
    }
}

/// The state of an engine in numbers.
#[derive(Debug, Clone, Copy)]
pub struct EngineStats {
    pub total_records_written: u64,
    pub total_records_read: u64,
    pub flushes: u64,
    pub compactions: u64,
    pub ssts_collected: u64,
    pub sst_count: u64,
    pub sst_bytes: u64,
    pub index_entries: u64,
    pub index_buckets: u64,
    pub uptime_secs: u64,
}

/// The size of the first `k` active SSTs together, as far as it fits.
pub open spec fn bytes_in_ssts(m: ManifestView, k: int) -> u64
    decreases k,
{
    if k <= 0 {
        0
    } else {
        let before = bytes_in_ssts(m, k - 1);
        let id = m.active[k - 1];
        if !m.sstables.contains_key(id) {
            before
        } else if before + m.sstables[id].bytes > u64::MAX {
            u64::MAX
        } else {
            (before + m.sstables[id].bytes) as u64
        }
    }
}

/// Computes the size of all active SSTs together.
pub fn total_sst_bytes(state: &ManifestState) -> (r: u64)
    ensures
        r == bytes_in_ssts(state@, state@.active.len() as int),
{
    broadcast use vstd::std_specs::hash::group_hash_axioms;

    let mut total: u64 = 0;
    let mut i: usize = 0;
    while i < state.active_sst_ids.len()
        invariant
            i <= state.active_sst_ids.len(),
            total == bytes_in_ssts(state@, i as int),
        decreases state.active_sst_ids.len() - i,
    {
        broadcast use vstd::std_specs::hash::group_hash_axioms;

        let id: u32 = state.active_sst_ids[i];
        assert(state@.active[i as int] == id);
        if let Some(info) = state.sstables.get(&id) {
            total = total.saturating_add(info.bytes);
        }
        i = i + 1;
    }
    total
}

/// One number in the Prometheus text format: its type, and its value.
pub open spec fn metric(name: Seq<char>, kind: Seq<char>, value: u64) -> Seq<char> {
    "# TYPE "@ + name + " "@ + kind + ("\n"@ + name + " "@ + decimal(value as nat)) + "\n"@
}

fn with_metric(text: String, name: &str, kind: &str, value: u64) -> (r: String)
    ensures
        r@ == text@ + metric(name@, kind@, value),
{
    let head = text4("# TYPE ", name, " ", kind);
    let tail = text4("\n", name, " ", &decimal_text(value));
    text.concat(&text3(&head, &tail, "\n"))
}

impl EngineStats {
    /// The numbers in the Prometheus text format.
    pub open spec fn prometheus(self) -> Seq<char> {
        metric("flowdb_records_written_total"@, "counter"@, self.total_records_written) + metric(
            "flowdb_records_read_total"@,
            "counter"@,
            self.total_records_read,
        ) + metric("flowdb_flushes_total"@, "counter"@, self.flushes) + metric(
            "flowdb_compactions_total"@,
            "counter"@,
            self.compactions,
        ) + metric("flowdb_ssts_collected_total"@, "counter"@, self.ssts_collected) + metric(
            "flowdb_sstables"@,
            "gauge"@,
            self.sst_count,
        ) + metric("flowdb_sstable_bytes"@, "gauge"@, self.sst_bytes) + metric(
            "flowdb_index_entries"@,
            "gauge"@,
            self.index_entries,
        ) + metric("flowdb_index_buckets"@, "gauge"@, self.index_buckets) + metric(
            "flowdb_uptime_seconds"@,
            "gauge"@,
            self.uptime_secs,
        )
    }

    /// Renders the numbers in the Prometheus text format.
    pub fn to_prometheus(&self) -> (r: String)
        ensures
            r@ == self.prometheus(),
    {
        let t = with_metric(
            string_of(""),
            "flowdb_records_written_total",
            "counter",
            self.total_records_written,
        );
        proof {
            reveal_strlit("");
            assert(t@ =~= metric(
                "flowdb_records_written_total"@,
                "counter"@,
                self.total_records_written,
            ));
        }
        let t = with_metric(t, "flowdb_records_read_total", "counter", self.total_records_read);
        let t = with_metric(t, "flowdb_flushes_total", "counter", self.flushes);
        let t = with_metric(t, "flowdb_compactions_total", "counter", self.compactions);
        let t = with_metric(t, "flowdb_ssts_collected_total", "counter", self.ssts_collected);
        let t = with_metric(t, "flowdb_sstables", "gauge", self.sst_count);
        let t = with_metric(t, "flowdb_sstable_bytes", "gauge", self.sst_bytes);
        let t = with_metric(t, "flowdb_index_entries", "gauge", self.index_entries);
        let t = with_metric(t, "flowdb_index_buckets", "gauge", self.index_buckets);
        with_metric(t, "flowdb_uptime_seconds", "gauge", self.uptime_secs)
    }
}

} // verus!
