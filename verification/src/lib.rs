//! FlowDB: an embedded LSM key-value engine with a document layer.
//!
//! Everything here is computation on values in memory. Files, clocks, threads
//! and locks belong to the program that holds the engine.

pub mod bytes;
pub mod error;
pub mod record;
pub mod order;
pub mod ranges;
pub mod bloom;
pub mod codec;
pub mod lz4;
pub mod manifest;
pub mod sstable;
pub mod memtable;
pub mod memtables;
pub mod block_meta_index;
pub mod merge;
pub mod scan;
pub mod compaction;
pub mod stats;
pub mod engine;
pub mod engine_laws;
pub mod flush_laws;
pub mod scan_laws;
pub mod winners;
pub mod read_laws;
pub mod flush_scan_laws;
pub mod sst_laws;
pub mod compaction_laws;
pub mod compaction_record_laws;
pub mod time_laws;
pub mod ttl_laws;
pub mod operation_laws;
pub mod settings_laws;
pub mod binding_laws;
pub mod upkeep_laws;
pub mod block_index_laws;
pub mod format_laws;
pub mod filter_laws;
pub mod gc_laws;
pub mod recovery_laws;
pub mod maintenance;
pub mod wal;
pub mod container;
pub mod jsondb;
pub mod bindings;

pub use engine::Engine;
pub use error::{FlowError, Result};
pub use maintenance::MaintenanceIntervals;
pub use record::{
    Config, KeyFilter, Op, Query, ReadOptions, Record, ScanRange, StorageBackendKind, SyncMode,
};
pub use scan::ScanIterator;
pub use stats::EngineStats;
