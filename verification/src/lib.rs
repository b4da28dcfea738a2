//! lsm5: a log-structured merge-tree storage engine whose logic is verified.
pub mod order;
pub mod entries;
pub mod memtable;
pub mod codec;
pub mod error;
pub mod text;
pub mod wal;
pub mod bloom;
pub mod compress;
pub mod sstable;
pub mod sstable_roundtrip;
pub mod config;
pub mod stats;
pub mod perf;
pub mod query_plan;
pub mod monitoring;
pub mod iterator;
pub mod transaction;
pub mod scan_cache;
pub mod cache;
pub mod heap_entry;
pub mod compaction;
pub mod merge_law;
pub mod table;
pub mod levels;
pub mod compaction_law;
pub mod db;
pub mod range;
pub mod recovery;
pub mod background;
pub mod naming;
pub mod reload;
