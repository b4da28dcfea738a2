//! Work that a background worker is handed: a memtable to flush or tables to compact.
use vstd::prelude::*;
use crate::memtable::Value;
use crate::sstable::SsTableMeta;

verus! {

/// A unit of background work.
pub enum BackgroundTask {
    /// Write the sorted entries of a memtable out as the table with sequence `seq`.
    Flush { entries: Vec<(Vec<u8>, Value)>, seq: u64 },
    /// Merge the tables `inputs` into `target_level`.
    Compact { inputs: Vec<SsTableMeta>, target_level: usize },
}

} // verus!
