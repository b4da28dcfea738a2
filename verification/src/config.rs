//! Engine configuration, built with chained setters.
use vstd::prelude::*;

verus! {

/// The configuration of a database.
#[derive(Clone, Debug)]
pub struct Config {
    /// The directory that holds the log and the tables.
    pub dir: String,
    /// The memtable is flushed once its byte count reaches this.
    pub memtable_size_limit: usize,
    /// Compaction splits its output into tables of about this many bytes.
    pub max_sstable_size: u64,
    /// Sync the log after every write.
    pub sync_writes: bool,
    /// Store table data blocks zstd-compressed when they exceed 1 KiB.
    pub compression_enabled: bool,
    /// The zstd level used when compressing.
    pub compression_level: i32,
    /// The capacity, in bytes, of the cache of table data blocks.
    pub cache_size: usize,
}

pub const DEFAULT_MEMTABLE_SIZE_LIMIT: usize = 4 * 1024 * 1024;
pub const DEFAULT_MAX_SSTABLE_SIZE: u64 = 64 * 1024 * 1024;
pub const DEFAULT_COMPRESSION_LEVEL: i32 = 3;
pub const DEFAULT_CACHE_SIZE: usize = 64 * 1024 * 1024;

impl Config {
    /// The default configuration for a database in `dir`.
    pub fn new(dir: &str) -> (c: Config)
        ensures
            c.dir@ == dir@,
            c.memtable_size_limit == DEFAULT_MEMTABLE_SIZE_LIMIT,
            c.max_sstable_size == DEFAULT_MAX_SSTABLE_SIZE,
            !c.sync_writes,
            c.compression_enabled,
            c.compression_level == DEFAULT_COMPRESSION_LEVEL,
            c.cache_size == DEFAULT_CACHE_SIZE,
    {
        Config {
            dir: dir.to_owned(),
            memtable_size_limit: DEFAULT_MEMTABLE_SIZE_LIMIT,
            max_sstable_size: DEFAULT_MAX_SSTABLE_SIZE,
            sync_writes: false,
            compression_enabled: true,
            compression_level: DEFAULT_COMPRESSION_LEVEL,
            cache_size: DEFAULT_CACHE_SIZE,
        }
    }

    pub fn memtable_size_limit(self, bytes: usize) -> (c: Config)
        ensures
            c == (Config { memtable_size_limit: bytes, ..self }),
    {
        let mut c = self;
        c.memtable_size_limit = bytes;
        c
    }

    pub fn max_sstable_size(self, bytes: u64) -> (c: Config)
        ensures
            c == (Config { max_sstable_size: bytes, ..self }),
    {
        let mut c = self;
        c.max_sstable_size = bytes;
        c
    }

    pub fn sync_writes(self, sync: bool) -> (c: Config)
        ensures
            c == (Config { sync_writes: sync, ..self }),
    {
        let mut c = self;
        c.sync_writes = sync;
        c
    }

    pub fn compression(self, enabled: bool, level: i32) -> (c: Config)
        ensures
            c == (Config { compression_enabled: enabled, compression_level: level, ..self }),
    {
        let mut c = self;
        c.compression_enabled = enabled;
        c.compression_level = level;
        c
    }

    pub fn cache_size(self, bytes: usize) -> (c: Config)
        ensures
            c == (Config { cache_size: bytes, ..self }),
    {
        let mut c = self;
        c.cache_size = bytes;
        c
    }
}

} // verus!
