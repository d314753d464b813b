//! When background maintenance is due.

use vstd::prelude::*;

use crate::record::{Config, SyncMode};

verus! {

/// How often each task of the background maintenance runs, and how often the
/// maintenance looks whether one is due. In milliseconds.
#[derive(Debug, Clone, Copy, PartialEq, Eq, Structural)]
pub struct MaintenanceIntervals {
    pub flush_ms: u64,
    pub compact_ms: u64,
    pub gc_ms: u64,
    pub sync_ms: u64,
    pub poll_ms: u64,
}

/// The milliseconds that have passed since each task last ran.
#[derive(Debug, Clone, Copy, PartialEq, Eq, Structural)]
pub struct Elapsed {
    pub flush_ms: u64,
    pub compact_ms: u64,
    pub gc_ms: u64,
    pub sync_ms: u64,
}

/// The tasks that are due.
#[derive(Debug, Clone, Copy, PartialEq, Eq, Structural)]
pub struct Due {
    pub flush: bool,
    pub compact: bool,
    pub gc: bool,
    pub sync: bool,
}

/// `n`, and 1 at least.
pub open spec fn positive(n: u64) -> u64 {
    if n == 0 {
        1
    } else {
        n
    }
}

pub open spec fn least(a: u64, b: u64) -> u64 {
    if a < b {
        a
    } else {
        b
    }
}

/// The milliseconds in `secs` seconds, as far as they fit.
pub open spec fn secs_to_ms(secs: u64) -> u64 {
    if secs * 1000 > u64::MAX {
        u64::MAX
    } else {
        (secs * 1000) as u64
    }
}

/// How often the log is synced: as configured, or hourly where every write syncs it.
pub open spec fn sync_interval(mode: SyncMode) -> u64 {
    match mode {
        SyncMode::IntervalMs(ms) => positive(ms),
        SyncMode::Always => 3_600_000,
    }
}

impl MaintenanceIntervals {
    /// The intervals that a configuration asks for. The maintenance looks as
    /// often as its shortest task needs, but no more than four times a second.
    pub open spec fn of_config(config: Config) -> MaintenanceIntervals {
        MaintenanceIntervals {
            flush_ms: positive(config.flush_interval_ms),
            compact_ms: positive(config.compaction_interval_ms),
            gc_ms: secs_to_ms(positive(config.gc_interval_secs)),
            sync_ms: sync_interval(config.wal_sync_mode),
            poll_ms: least(
                least(positive(config.flush_interval_ms), sync_interval(config.wal_sync_mode)),
                250,
            ),
        }
    }

    pub fn from_config(config: &Config) -> (r: MaintenanceIntervals)
        ensures
            r == MaintenanceIntervals::of_config(*config),
    {
        let flush_ms: u64 = at_least_one_ms(config.flush_interval_ms);
        let gc_secs: u64 = at_least_one_ms(config.gc_interval_secs);
        let gc_ms: u64 = match gc_secs.checked_mul(1000) {
            Some(ms) => ms,
            None => u64::MAX,
        };
        let sync_ms: u64 = match config.wal_sync_mode {
            SyncMode::IntervalMs(ms) => at_least_one_ms(ms),
            SyncMode::Always => 3_600_000,
        };
        let shorter: u64 = if flush_ms < sync_ms {
            flush_ms
        } else {
            sync_ms
        };
        let poll_ms: u64 = if shorter < 250 {
            shorter
        } else {
            250
        };
        MaintenanceIntervals {
            flush_ms,
            compact_ms: at_least_one_ms(config.compaction_interval_ms),
            gc_ms,
            sync_ms,
            poll_ms,
        }
    }

    /// The tasks whose interval has passed.
    pub fn due(&self, elapsed: Elapsed) -> (r: Due)
        ensures
            r == (Due {
                flush: elapsed.flush_ms >= self.flush_ms,
                compact: elapsed.compact_ms >= self.compact_ms,
                gc: elapsed.gc_ms >= self.gc_ms,
                sync: elapsed.sync_ms >= self.sync_ms,
            }),
    {
        Due {
            flush: elapsed.flush_ms >= self.flush_ms,
            compact: elapsed.compact_ms >= self.compact_ms,
            gc: elapsed.gc_ms >= self.gc_ms,
            sync: elapsed.sync_ms >= self.sync_ms,
        }
    }
}

fn at_least_one_ms(n: u64) -> (r: u64)
    ensures
        r == positive(n),
{
    if n == 0 {
        1
    } else {
        n
    }
}

/// The maintenance never sleeps past a flush or a sync that falls due.
pub proof fn law_polling_is_frequent_enough(config: Config)
    ensures
        ({
            let m = MaintenanceIntervals::of_config(config);
            &&& 1 <= m.poll_ms <= 250
            &&& m.poll_ms <= m.flush_ms
            &&& m.poll_ms <= m.sync_ms
        }),
{
}

/// How often compaction runs does not depend on how often garbage is collected.
pub proof fn law_compaction_is_independent_of_gc(config: Config, gc_interval_secs: u64)
    ensures
        MaintenanceIntervals::of_config(Config { gc_interval_secs, ..config }).compact_ms
            == MaintenanceIntervals::of_config(config).compact_ms,
{
}

} // verus!
