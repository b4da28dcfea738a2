//! The database engine: the memtable, the levels of tables, flushing,
//! compaction and the read path.
//!
//! Storage is the caller's part.  The engine holds each table's bytes and
//! lists, in order, the storage operations that keep the files in step with
//! it (appends to the log, log syncs and truncations, table files written
//! and removed); the caller carries them out (see `take_actions`).
//!
//! Read path:  memtable, then levels 0..N (within a level, newest table first).
//! Write path: log append, memtable insert, flush to a level-0 table when the
//! memtable is full, then compaction.
use vstd::prelude::*;
use crate::order::{lex_lt, lex_le, lemma_lex_order_facts, compare_bytes, bytes_lt};
use crate::entries::{Entry, keys_sorted, has_key, key_pos, entries_map, lemma_sorted_lookup};
use crate::memtable::{MemTable, Value, entries_view, copy_bytes, size_after_put, size_after_delete};
use crate::config::Config;
use crate::error::Error;
use crate::cache::LruCache;
use crate::transaction::{Transaction, entry_of, apply_ops, ops_fit, overlay, lemma_apply_overlay, lemma_overlay_from_ops,
    lemma_apply_concat, lemma_apply_map};
use crate::wal::{encode_put, encode_delete, log_bytes, entry_record};
use crate::sstable::{stored_value, write_sstable, data_block, SsTableReader, spec_open, spec_get, opt_value_view, compresses,
    encode_fails, some_encode_fails, frame_collides, some_frame_collides};
use crate::sstable_roundtrip::lengths_fit;
use crate::table::{Table, table_ok, table_name, table_file_name, distinct_lengths, runs_of, seq_desc_order, get_from_data,
    lemma_cached_block, lemma_table_get, lemma_outside_range, lemma_cloned_bytes, seqs_increasing};
use crate::compaction::{opt_bytes, L0_COMPACTION_TRIGGER, MAX_LEVELS, level_size_threshold, compact, written_as,
    lemma_written_ok, compaction_chunks, input_runs, input_seqs, stored_run, lemma_stored_run, split_chunks, sat64,
    spec_level_size_threshold};
use crate::levels::{levels_entry, level_entry, level_runs, live, levels_sound, holds, lemma_flush_levels};
use crate::naming::lemma_table_name_parses;
use crate::reload::{named, lemma_reload, dir_of, distinct_names, lemma_loaded_dir, lists_tables, lemma_level_files_count,
    lemma_level_count, lemma_count_unique, lemma_dir_of_has, lemma_dir_of_from, lemma_table_loads, loads_at, same_table};
use crate::recovery::{load_existing_sstables, loaded_levels, files_view, file_loads, picked, table_files};
use crate::wal::{WalRecord, parse_wal, wal_parse, records_view, fault_matches};
use crate::stats::DbStats;
use crate::range::{in_range, overwritten, upsert, lemma_overwrite_step, lemma_overwrite_none, lemma_live_pairs};
use crate::iterator::{pairs_view, live_pairs, filter_tombstones, LsmIterator};
use crate::compaction_law::{overlaps, select, select_idx, lemma_select, comp_setting, comp_news, comp_srcs, comp_seqs,
    comp_merged, compacted, lemma_compaction_sound, lemma_compaction_read, lemma_news_pieces};

verus! {

/// A storage operation for the caller to carry out, in order.
#[derive(Debug)]
pub enum IoAction {
    /// Append bytes to the log.
    AppendWal(Vec<u8>),
    /// Flush the log to stable storage.
    SyncWal,
    /// Empty the log.
    TruncateWal,
    /// Write a table file with these bytes.
    WriteTable(String, Vec<u8>),
    /// Remove a table file.
    RemoveTable(String),
}

/// Keys and values of at most this many bytes are stored faithfully (the
/// formats keep lengths in 32 bits).
pub open spec fn fits(b: Seq<u8>) -> bool {
    b.len() < 0x1_0000_0000
}

/// Every key and value of a memtable map fits the formats.
pub open spec fn map_fits(m: Map<Seq<u8>, Option<Seq<u8>>>) -> bool {
    forall|k: Seq<u8>| #[trigger] m.contains_key(k) ==> fits(k) && fits(stored_value(m[k]))
}

/// The database handle.
pub struct Lsm5<S> {
    config: Config,
    memtable: MemTable,
    /// Memtables waiting to be flushed (oldest first); the engine flushes
    /// synchronously, so there are none.
    imm_memtables: Vec<Vec<(Vec<u8>, Value)>>,
    /// The tables of each level; `levels[0]` is level 0.
    levels: Vec<Vec<Table>>,
    seq: u64,
    transaction: Option<Transaction>,
    reads: u64,
    writes: u64,
    flushes: u64,
    compactions: u64,
    /// Data blocks of tables by sequence number.
    cache: LruCache<u64, Vec<u8>>,
    cache_hits: u64,
    cache_misses: u64,
    /// Storage operations not yet handed to the caller.
    actions: Vec<IoAction>,
    /// Bloom filter sizing: bits and probes for a number of keys.
    sizer: S,
    /// No table written so far has a compressed data block of the raw
    /// block's length.
    clean: Ghost<bool>,
    /// The log's bytes when the pending operations were last handed out.
    log_base: Ghost<Seq<u8>>,
    /// The operations the log holds.
    logged: Ghost<Seq<Entry>>,
    /// The directory's table files when the pending operations were last
    /// handed out.
    dir_base: Ghost<Map<Seq<char>, Seq<u8>>>,
}

/// A directory's files (names and bytes) after carrying out storage
/// operations in order.
pub open spec fn dir_after(start: Map<Seq<char>, Seq<u8>>, acts: Seq<IoAction>) -> Map<Seq<char>, Seq<u8>>
    decreases acts.len(),
{
    if acts.len() == 0 {
        start
    } else {
        let d = dir_after(start, acts.drop_last());
        match acts.last() {
            IoAction::WriteTable(n, b) => d.insert(n@, b@),
            IoAction::RemoveTable(n) => d.remove(n@),
            _ => d,
        }
    }
}

/// An operation that leaves the directory's files alone.
pub open spec fn keeps_dir(a: IoAction) -> bool {
    a is AppendWal || a is SyncWal || a is TruncateWal
}

/// Carrying out operations one run after another.
pub proof fn lemma_dir_after_concat(start: Map<Seq<char>, Seq<u8>>, a: Seq<IoAction>, b: Seq<IoAction>)
    ensures
        dir_after(start, a + b) == dir_after(dir_after(start, a), b),
    decreases b.len(),
{
    if b.len() == 0 {
        assert(a + b =~= a);
    } else {
        lemma_dir_after_concat(start, a, b.drop_last());
        assert((a + b).drop_last() =~= a + b.drop_last());
    }
}

/// Operations on the log leave the directory's files alone.
pub proof fn lemma_dir_kept(start: Map<Seq<char>, Seq<u8>>, b: Seq<IoAction>)
    requires
        forall|i: int| 0 <= i < b.len() ==> keeps_dir(#[trigger] b[i]),
    ensures
        dir_after(start, b) == start,
    decreases b.len(),
{
    if b.len() > 0 {
        assert forall|i: int| 0 <= i < b.drop_last().len() implies keeps_dir(#[trigger] b.drop_last()[i]) by {
            assert(b.drop_last()[i] == b[i]);
        }
        lemma_dir_kept(start, b.drop_last());
        assert(keeps_dir(b[b.len() - 1]));
    }
}

/// The log's bytes after carrying out storage operations in order.
pub open spec fn log_after(start: Seq<u8>, acts: Seq<IoAction>) -> Seq<u8>
    decreases acts.len(),
{
    if acts.len() == 0 {
        start
    } else {
        let l = log_after(start, acts.drop_last());
        match acts.last() {
            IoAction::AppendWal(b) => l + b@,
            IoAction::TruncateWal => Seq::empty(),
            _ => l,
        }
    }
}

/// The operation leaves the log alone.
pub open spec fn keeps_log(a: IoAction) -> bool {
    a is SyncWal || a is WriteTable || a is RemoveTable
}

/// Carrying out operations one run after another.
pub proof fn lemma_log_after_concat(start: Seq<u8>, a: Seq<IoAction>, b: Seq<IoAction>)
    ensures
        log_after(start, a + b) == log_after(log_after(start, a), b),
    decreases b.len(),
{
    if b.len() == 0 {
        assert(a + b =~= a);
    } else {
        lemma_log_after_concat(start, a, b.drop_last());
        assert((a + b).drop_last() =~= a + b.drop_last());
        assert((a + b).last() == b.last());
    }
}

/// Operations that leave the log alone leave its bytes alone.
pub proof fn lemma_log_kept(start: Seq<u8>, b: Seq<IoAction>)
    requires
        forall|i: int| 0 <= i < b.len() ==> keeps_log(#[trigger] b[i]),
    ensures
        log_after(start, b) == start,
    decreases b.len(),
{
    if b.len() > 0 {
        assert forall|i: int| 0 <= i < b.drop_last().len() implies keeps_log(#[trigger] b.drop_last()[i]) by {
            assert(b.drop_last()[i] == b[i]);
        }
        lemma_log_kept(start, b.drop_last());
        assert(keeps_log(b[b.len() - 1]));
    }
}

impl<S: Fn(usize) -> (usize, usize)> Lsm5<S> {
    /// The tables of each level.
    pub closed spec fn tables(&self) -> Seq<Seq<Table>> {
        self.levels@.map_values(|v: Vec<Table>| v@)
    }

    /// What a read of `k` finds: the memtable's entry, else the first level's
    /// (a tombstone reads as nothing).
    pub closed spec fn read(&self, k: Seq<u8>) -> Option<Seq<u8>> {
        if self.memtable@.contains_key(k) {
            self.memtable@[k]
        } else {
            live(levels_entry(level_runs(self.tables()), k, 0))
        }
    }

    /// The memtable's entries in key order.
    pub closed spec fn mem_run(&self) -> Seq<Entry> {
        self.memtable.entries()
    }

    /// The memtable's entries.
    pub closed spec fn mem(&self) -> Map<Seq<u8>, Option<Seq<u8>>> {
        self.memtable@
    }

    /// The memtable's byte count.
    pub closed spec fn mem_size(&self) -> nat {
        self.memtable.size_spec()
    }

    /// The highest sequence number used.
    pub closed spec fn seq_spec(&self) -> u64 {
        self.seq
    }

    pub closed spec fn config_spec(&self) -> Config {
        self.config
    }

    /// The storage operations not yet handed out.
    pub closed spec fn pending(&self) -> Seq<IoAction> {
        self.actions@
    }

    /// The open transaction's operations, if one is open.
    pub closed spec fn tx(&self) -> Option<Seq<Entry>> {
        match self.transaction {
            Some(t) => Some(t.ops()),
            None => None,
        }
    }

    /// The log's bytes once the pending operations are carried out.
    pub closed spec fn log(&self) -> Seq<u8> {
        log_after(self.log_base@, self.actions@)
    }

    /// The directory's files once the pending operations are carried out.
    pub closed spec fn dir(&self) -> Map<Seq<char>, Seq<u8>> {
        dir_after(self.dir_base@, self.actions@)
    }

    /// The directory holds the file of every table, and every file in it
    /// that loads as a table is the file of one of the tables.
    #[verifier::opaque]
    pub closed spec fn dir_ok(&self) -> bool {
        &&& forall|i: int, j: int| 0 <= i < self.tables().len() && 0 <= j < self.tables()[i].len()
            ==> self.dir().contains_key((#[trigger] self.tables()[i][j]).meta.path@)
                && self.dir()[self.tables()[i][j].meta.path@] == self.tables()[i][j].image@
        &&& forall|n: Seq<char>| #[trigger] self.dir().contains_key(n) && file_loads((n, self.dir()[n])) is Some
            ==> exists|i: int, j: int| 0 <= i < self.tables().len() && 0 <= j < self.tables()[i].len()
                && (#[trigger] self.tables()[i][j]).meta.path@ == n
    }

    /// The operations the log holds.
    pub closed spec fn logged(&self) -> Seq<Entry> {
        self.logged@
    }

    /// The log reads back as its operations, and replaying them into an
    /// empty memtable gives this memtable.
    pub closed spec fn log_ok(&self) -> bool {
        &&& crate::wal::wal_parse(self.log()) == Ok::<Seq<Entry>, crate::wal::WalFault>(self.logged@)
        &&& apply_ops(Map::empty(), 0, self.logged@).0 == self.memtable@
    }

    /// The count of reads (which nothing counts, so it stays 0).
    pub closed spec fn read_count(&self) -> u64 {
        self.reads
    }

    /// The counters: writes, flushes, compactions.
    pub closed spec fn counters(&self) -> (u64, u64, u64) {
        (self.writes, self.flushes, self.compactions)
    }

    /// No table written so far has a compressed data block of the raw
    /// block's length (a reader would take it for raw data).
    pub closed spec fn clean(&self) -> bool {
        self.clean@
    }

    /// The handle is usable: sorted memtable, consistent cache, seven levels,
    /// a sizer that accepts any count.
    pub closed spec fn wf(&self) -> bool {
        &&& self.memtable.wf()
        &&& self.cache.wf()
        &&& self.levels@.len() == MAX_LEVELS
        &&& forall|n: usize| call_requires(self.sizer, (n,))
        &&& self.transaction matches Some(t) ==> !t.committed_spec()
        &&& !self.clean@ ==> some_frame_collides(self.config.compression_enabled, self.config.compression_level)
    }

    /// The tables are as this engine writes them and in the order it keeps
    /// them, so that every read finds what `read` says.
    pub closed spec fn sound(&self) -> bool {
        &&& self.wf()
        &&& self.imm_memtables@.len() == 0
        &&& levels_sound(self.tables(), self.seq)
        &&& named(self.tables())
        &&& map_fits(self.memtable@)
        &&& self.dir_ok()
        &&& cache_ok(self.cache.lines(), self.tables(), self.seq)
    }

    /// What opening from the bytes of a log and a listing of files gives: a
    /// usable handle whose memtable replays the log and whose levels hold the
    /// tables among the files, all numbered up to its sequence number.
    pub closed spec fn reopened(&self, wal: Seq<u8>, fs: Seq<(Seq<char>, Seq<u8>)>) -> bool {
        &&& self.wf()
        &&& self.imm_memtables@.len() == 0
        &&& crate::wal::wal_parse(wal) matches Ok(ops) && self.memtable@ == overlay(ops)
        &&& loaded_levels(self.tables(), fs)
        &&& forall|i: int, j: int| 0 <= i < self.tables().len() && 0 <= j < self.tables()[i].len()
            ==> (#[trigger] self.tables()[i][j]).meta.sequence <= self.seq
        &&& self.dir() == dir_of(fs)
        &&& self.cache.lines() == Seq::<(u64, Vec<u8>, usize)>::empty()
    }
}

/// Crash recovery of the memtable: once the pending operations are carried
/// out, the log reads back as the operations it holds, and replaying them
/// into an empty memtable gives the memtable the database has.  With the
/// contract of `open` (whose memtable is `overlay` of what the log reads
/// back as), a database reopened from this log holds every write that had
/// not been flushed.
pub proof fn lemma_log_replays<S: Fn(usize) -> (usize, usize)>(db: Lsm5<S>)
    requires
        db.log_ok(),
    ensures
        crate::wal::wal_parse(db.log()) == Ok::<Seq<Entry>, crate::wal::WalFault>(db.logged()),
        overlay(db.logged()) == db.mem(),
{
}

/// Reopening: a sound database whose log reads back, reopened from the log
/// that its pending operations leave and from a listing that holds the
/// files of its tables (in any order, with any other files), is sound,
/// holds the same memtable, and answers every read as it did.
pub proof fn lemma_reopen<S: Fn(usize) -> (usize, usize), T: Fn(usize) -> (usize, usize)>(
    db: Lsm5<S>,
    fs: Seq<(Seq<char>, Seq<u8>)>,
    db2: Lsm5<T>,
)
    requires
        db.sound(),
        db.log_ok(),
        lists_tables(fs, db.tables()),
        distinct_names(fs),
        db2.reopened(db.log(), fs),
    ensures
        db2.sound(),
        db2.mem() == db.mem(),
        forall|k: Seq<u8>| #[trigger] db2.read(k) == db.read(k),
{
    let lv = db.tables();
    let lv2 = db2.tables();
    lemma_reload(lv, db.seq, fs, lv2);
    assert(levels_sound(lv2, db2.seq)) by {
        assert forall|i: int, j: int| 0 <= i < lv2.len() && 0 <= j < lv2[i].len()
            implies table_ok(#[trigger] lv2[i][j]) && lv2[i][j].meta.sequence <= db2.seq by {
            assert(levels_sound(lv2, db.seq));
        }
    }
    assert(db2.memtable@ == db.memtable@);
    lemma_loaded_dir(lv2, fs);
    reveal(Lsm5::dir_ok);
    lemma_cache_ok_reload(db.cache.lines(), lv, db.seq, lv2, db2.seq);
}

/// What a read of `k` gives after the writes `ws`, in order, to a database
/// that held nothing: the last value written, or nothing when the last write
/// of `k` deleted it or none touched it.
pub open spec fn model_read(ws: Seq<Entry>, k: Seq<u8>) -> Option<Seq<u8>> {
    live(entry_of(overlay(ws), k))
}

/// The writes of several steps, one after another.
pub open spec fn all_writes(ws: Seq<Seq<Entry>>) -> Seq<Entry>
    decreases ws.len(),
{
    if ws.len() == 0 { Seq::empty() } else { all_writes(ws.drop_last()) + ws.last() }
}

/// One step from `a` to `b` changes the reads as the writes `w`, in order,
/// say: a `put` of `k` is `[(k, Some(v))]`, a `delete` is `[(k, None)]`, a
/// `commit` its transaction's operations, and a flush, a compaction, a
/// `get`, a sync or a reopening writes nothing.
pub open spec fn reads_step<S: Fn(usize) -> (usize, usize)>(a: Lsm5<S>, b: Lsm5<S>, w: Seq<Entry>) -> bool {
    forall|k: Seq<u8>| #[trigger] b.read(k) == (if overlay(w).contains_key(k) { overlay(w)[k] } else { a.read(k) })
}

/// Newest write wins: along a run of handles `dbs`, each step changing the
/// reads as its writes `ws[i]` say (as `put`, `delete`, `commit`, `flush`,
/// `get` and reopening state it), a database that started out reading as
/// the writes `w0` reads, in the end, as all the writes in order: every key
/// has the value of its last write, and none when that write deleted it or
/// no write touched it.
pub proof fn lemma_newest_write_wins<S: Fn(usize) -> (usize, usize)>(dbs: Seq<Lsm5<S>>, w0: Seq<Entry>,
    ws: Seq<Seq<Entry>>)
    requires
        dbs.len() == ws.len() + 1,
        forall|k: Seq<u8>| #[trigger] dbs[0].read(k) == model_read(w0, k),
        forall|i: int| 0 <= i < ws.len() ==> reads_step(dbs[i], dbs[i + 1], #[trigger] ws[i]),
    ensures
        forall|k: Seq<u8>| #[trigger] dbs.last().read(k) == model_read(w0 + all_writes(ws), k),
    decreases ws.len(),
{
    if ws.len() == 0 {
        assert(w0 + all_writes(ws) =~= w0);
    } else {
        let n = ws.len() - 1;
        let d = dbs.drop_last();
        let v = ws.drop_last();
        assert forall|i: int| 0 <= i < v.len() implies reads_step(d[i], d[i + 1], #[trigger] v[i]) by {
            assert(reads_step(dbs[i], dbs[i + 1], ws[i]));
        }
        lemma_newest_write_wins(d, w0, v);
        let prev = w0 + all_writes(v);
        assert(w0 + all_writes(ws) =~= prev + ws[n]);
        lemma_apply_concat(Map::empty(), 0, prev, ws[n]);
        lemma_apply_overlay(overlay(prev), apply_ops(Map::empty(), 0, prev).1, ws[n]);
        assert(reads_step(dbs[n], dbs[n + 1], ws[n]));
        assert forall|k: Seq<u8>| #[trigger] dbs.last().read(k) == model_read(w0 + all_writes(ws), k) by {
            assert(d.last() == dbs[n]);
            assert(dbs[n].read(k) == model_read(prev, k));
            assert(dbs.last() == dbs[n + 1]);
        }
    }
}

/// A step that writes one entry, as `put` and `delete` state it.
pub proof fn lemma_write_step<S: Fn(usize) -> (usize, usize)>(a: Lsm5<S>, b: Lsm5<S>, e: Entry)
    requires
        forall|k: Seq<u8>| #[trigger] b.read(k) == (if k == e.0 { e.1 } else { a.read(k) }),
    ensures
        reads_step(a, b, seq![e]),
{
    assert(seq![e].drop_last() =~= Seq::<Entry>::empty());
    assert(seq![e].last() == e);
    assert(apply_ops(Map::empty(), 0, seq![e].drop_last()) == (Map::<Seq<u8>, Option<Seq<u8>>>::empty(), 0int));
    assert(overlay(seq![e]) == Map::<Seq<u8>, Option<Seq<u8>>>::empty().insert(e.0, e.1)) by {
        match e.1 {
            Some(v) => {},
            None => {},
        }
    }
}

/// A step that changes no read, as `flush`, `get`, compaction and
/// reopening state it.
pub proof fn lemma_still_step<S: Fn(usize) -> (usize, usize)>(a: Lsm5<S>, b: Lsm5<S>)
    requires
        forall|k: Seq<u8>| #[trigger] b.read(k) == a.read(k),
    ensures
        reads_step(a, b, Seq::empty()),
{
    assert(overlay(Seq::<Entry>::empty()) == Map::<Seq<u8>, Option<Seq<u8>>>::empty());
}

/// A scan of a database that reads as the writes `ws` returns, in key
/// order, exactly the keys of `[start, end)` whose last write gave them a
/// value, each with that value.
pub proof fn lemma_scan_of_writes<S: Fn(usize) -> (usize, usize)>(db: Lsm5<S>, ws: Seq<Entry>, start: Seq<u8>,
    end: Seq<u8>, out: Seq<(Seq<u8>, Seq<u8>)>)
    requires
        scan_matches(db, start, end, out),
        forall|k: Seq<u8>| #[trigger] db.read(k) == model_read(ws, k),
    ensures
        forall|a: int, b: int| 0 <= a < b < out.len() ==> lex_lt(#[trigger] out[a].0, #[trigger] out[b].0),
        forall|a: int| 0 <= a < out.len() ==> in_range(#[trigger] out[a].0, start, end)
            && model_read(ws, out[a].0) == Some(out[a].1),
        forall|k: Seq<u8>| in_range(k, start, end) && #[trigger] model_read(ws, k) is Some ==>
            exists|a: int| 0 <= a < out.len() && #[trigger] out[a].0 == k,
{
    assert forall|k: Seq<u8>| in_range(k, start, end) && #[trigger] model_read(ws, k) is Some implies
        exists|a: int| 0 <= a < out.len() && #[trigger] out[a].0 == k by {
        assert(db.read(k) is Some);
    }
    assert forall|a: int| 0 <= a < out.len() implies in_range(#[trigger] out[a].0, start, end)
        && model_read(ws, out[a].0) == Some(out[a].1) by {
        assert(db.read(out[a].0) == Some(out[a].1));
    }
}

/// Levels that hold no tables answer nothing.
proof fn lemma_empty_levels(r: Seq<Seq<Seq<Entry>>>, k: Seq<u8>, from: int)
    requires
        forall|i: int| 0 <= i < r.len() ==> (#[trigger] r[i]).len() == 0,
    ensures
        levels_entry(r, k, from) is None,
    decreases r.len() - from,
{
    if 0 <= from < r.len() {
        assert(r[from].len() == 0);
        lemma_empty_levels(r, k, from + 1);
    }
}

/// A handle opened from a log that reads back as `ops` and no table files
/// reads as those writes.
pub proof fn lemma_opened_reads<S: Fn(usize) -> (usize, usize)>(db: Lsm5<S>, wal: Seq<u8>, ops: Seq<Entry>)
    requires
        db.reopened(wal, Seq::empty()),
        wal_parse(wal) == Ok::<Seq<Entry>, crate::wal::WalFault>(ops),
    ensures
        forall|k: Seq<u8>| #[trigger] db.read(k) == model_read(ops, k),
{
    let lv = db.tables();
    assert forall|i: int| 0 <= i < lv.len() implies (#[trigger] lv[i]).len() == 0 by {
        let e = Seq::<(Seq<char>, Seq<u8>)>::empty();
        assert(picked(e, i as nat) =~= e);
        assert(table_files(lv[i]).to_multiset() == e.to_multiset());
        vstd::seq_lib::to_multiset_len(table_files(lv[i]));
        vstd::seq_lib::to_multiset_len(e);
        assert(table_files(lv[i]).to_multiset().len() == table_files(lv[i]).len());
        assert(table_files(lv[i]).len() == lv[i].len());
    }
    let r = level_runs(lv);
    assert forall|i: int| 0 <= i < r.len() implies (#[trigger] r[i]).len() == 0 by {
        assert(lv[i].len() == 0);
    }
    assert forall|k: Seq<u8>| #[trigger] db.read(k) == model_read(ops, k) by {
        lemma_empty_levels(r, k, 0);
    }
}

/// Crash safety of a flush midway: after a flush has written the table of
/// the memtable's run (numbered one past the database's number, at level 0)
/// but before it has emptied the log, the log is still the database's and
/// the directory is the database's with the new table's file added.  A
/// database opened from that log and a listing of that directory holds the
/// same memtable and answers every read as the database did.  (Before the flush's actions, and after all of
/// them, `lemma_crash_recovery` gives the same.)
pub proof fn lemma_flush_midway<S: Fn(usize) -> (usize, usize), T: Fn(usize) -> (usize, usize)>(
    db: Lsm5<S>,
    t: Table,
    fs: Seq<(Seq<char>, Seq<u8>)>,
    db2: Lsm5<T>,
)
    requires
        db.sound(),
        db.log_ok(),
        db.seq_spec() < u64::MAX,
        table_ok(t),
        t.run@ == db.mem_run(),
        t.meta.sequence == db.seq_spec() + 1,
        t.meta.level == 0,
        t.meta.path@ == table_name(0, t.meta.sequence),
        distinct_names(fs),
        dir_of(fs) == db.dir().insert(t.meta.path@, t.image@),
        db2.reopened(db.log(), fs),
    ensures
        db2.mem() == db.mem(),
        forall|k: Seq<u8>| #[trigger] db2.read(k) == db.read(k),
{
    let lv = db.tables();
    let lv1 = lv.update(0, lv[0].push(t));
    let top = (db.seq + 1) as u64;
    lemma_flush_levels(lv, db.seq, t, Seq::empty());
    lemma_table_name_parses(0, t.meta.sequence);
    assert forall|i: int, j: int| 0 <= i < lv1.len() && 0 <= j < lv1[i].len() implies {
        &&& (#[trigger] lv1[i][j]).meta.level == i
        &&& crate::recovery::spec_table_name(vstd::utf8::encode_utf8(lv1[i][j].meta.path@))
            == Some((i as nat, lv1[i][j].meta.sequence))
    } by {
        if i == 0 && j == lv[0].len() {
            assert(lv1[i][j] == t);
        } else {
            assert(lv1[i][j] == lv[i][j]);
        }
    }
    assert(named(lv1));
    reveal(Lsm5::dir_ok);
    let d = db.dir().insert(t.meta.path@, t.image@);
    assert forall|i: int, j: int| 0 <= i < lv1.len() && 0 <= j < lv1[i].len()
        implies d.contains_key((#[trigger] lv1[i][j]).meta.path@) && d[lv1[i][j].meta.path@] == lv1[i][j].image@ by {
        if !(i == 0 && j == lv[0].len()) {
            assert(lv1[i][j] == lv[i][j]);
            assert(lv[i][j].meta.sequence <= db.seq);
            lemma_table_name_parses(i as nat, lv[i][j].meta.sequence);
            if lv[i][j].meta.path@ == t.meta.path@ {
                assert(crate::recovery::spec_table_name(vstd::utf8::encode_utf8(t.meta.path@))
                    == Some((0nat, t.meta.sequence)));
            }
        }
    }
    assert forall|n: Seq<char>| #[trigger] d.contains_key(n) && file_loads((n, d[n])) is Some
        implies exists|i: int, j: int| 0 <= i < lv1.len() && 0 <= j < lv1[i].len() && (#[trigger] lv1[i][j]).meta.path@ == n by {
        if n == t.meta.path@ {
            assert(lv1[0][lv[0].len() as int] == t);
        } else {
            assert(db.dir().contains_key(n) && db.dir()[n] == d[n]);
            let (i, j) = choose|i: int, j: int| 0 <= i < lv.len() && 0 <= j < lv[i].len() && (#[trigger] lv[i][j]).meta.path@ == n;
            assert(lv1[i][j] == lv[i][j]);
        }
    }
    lemma_listing_of(lv1, top, d, fs);
    let lv2 = db2.tables();
    lemma_reload(lv1, top, fs, lv2);
    assert(db2.memtable@ == db.memtable@);
    assert forall|k: Seq<u8>| #[trigger] db2.read(k) == db.read(k) by {
        lemma_flush_levels(lv, db.seq, t, k);
        lemma_sorted_lookup_map(db.memtable, k);
    }
}

/// A table file among those written.
pub open spec fn is_new(ts: Seq<Table>, n: Seq<char>) -> bool {
    exists|j: int| 0 <= j < ts.len() && (#[trigger] ts[j]).meta.path@ == n
}

/// A table file among those removed.
pub open spec fn is_gone(ts: Seq<Table>, n: Seq<char>) -> bool {
    exists|j: int| 0 <= j < ts.len() && (#[trigger] ts[j]).meta.path@ == n
}

/// Writing the files of tables (with distinct names) adds them to the
/// directory.
proof fn lemma_dir_writes(d0: Map<Seq<char>, Seq<u8>>, acts: Seq<IoAction>, ts: Seq<Table>)
    requires
        acts.len() == ts.len(),
        forall|t: int| 0 <= t < acts.len() ==> ((#[trigger] acts[t]) matches IoAction::WriteTable(n, b)
            && n@ == ts[t].meta.path@ && b@ == ts[t].image@),
        forall|a: int, b: int| 0 <= a < b < ts.len() ==> (#[trigger] ts[a]).meta.path@ != (#[trigger] ts[b]).meta.path@,
    ensures
        forall|n: Seq<char>| #[trigger] dir_after(d0, acts).contains_key(n) == (d0.contains_key(n) || is_new(ts, n)),
        forall|t: int| 0 <= t < ts.len() ==> dir_after(d0, acts)[(#[trigger] ts[t]).meta.path@] == ts[t].image@,
        forall|n: Seq<char>| !is_new(ts, n) ==> #[trigger] dir_after(d0, acts)[n] == d0[n],
    decreases acts.len(),
{
    if acts.len() > 0 {
        let k = acts.len() - 1;
        let ad = acts.drop_last();
        let td = ts.drop_last();
        assert forall|t: int| 0 <= t < ad.len() implies ((#[trigger] ad[t]) matches IoAction::WriteTable(n, b)
            && n@ == td[t].meta.path@ && b@ == td[t].image@) by {
            assert(ad[t] == acts[t] && td[t] == ts[t]);
        }
        assert forall|a: int, b: int| 0 <= a < b < td.len() implies (#[trigger] td[a]).meta.path@ != (#[trigger] td[b]).meta.path@ by {
            assert(td[a] == ts[a] && td[b] == ts[b]);
        }
        lemma_dir_writes(d0, ad, td);
        assert(acts[k] matches IoAction::WriteTable(n, b) && n@ == ts[k].meta.path@ && b@ == ts[k].image@);
        assert(acts.last() == acts[k]);
        assert(dir_after(d0, acts) == dir_after(d0, ad).insert(ts[k].meta.path@, ts[k].image@));
        assert forall|n: Seq<char>| #[trigger] dir_after(d0, acts).contains_key(n) == (d0.contains_key(n) || is_new(ts, n)) by {
            if is_new(ts, n) {
                let j = choose|j: int| 0 <= j < ts.len() && (#[trigger] ts[j]).meta.path@ == n;
                if j < k {
                    assert(td[j] == ts[j]);
                }
            }
            if is_new(td, n) {
                let j = choose|j: int| 0 <= j < td.len() && (#[trigger] td[j]).meta.path@ == n;
                assert(ts[j] == td[j]);
            }
        }
        assert forall|t: int| 0 <= t < ts.len() implies dir_after(d0, acts)[(#[trigger] ts[t]).meta.path@] == ts[t].image@ by {
            if t < k {
                assert(td[t] == ts[t]);
            }
        }
        assert forall|n: Seq<char>| !is_new(ts, n) implies #[trigger] dir_after(d0, acts)[n] == d0[n] by {
            if is_new(td, n) {
                let j = choose|j: int| 0 <= j < td.len() && (#[trigger] td[j]).meta.path@ == n;
                assert(ts[j] == td[j]);
            }
        }
    }
}

/// Removing the files of tables takes them out of the directory.
proof fn lemma_dir_removes(d0: Map<Seq<char>, Seq<u8>>, acts: Seq<IoAction>, ts: Seq<Table>)
    requires
        acts.len() == ts.len(),
        forall|t: int| 0 <= t < acts.len() ==> ((#[trigger] acts[t]) matches IoAction::RemoveTable(n) && n@ == ts[t].meta.path@),
    ensures
        forall|n: Seq<char>| #[trigger] dir_after(d0, acts).contains_key(n) == (d0.contains_key(n) && !is_gone(ts, n)),
        forall|n: Seq<char>| dir_after(d0, acts).contains_key(n) ==> #[trigger] dir_after(d0, acts)[n] == d0[n],
    decreases acts.len(),
{
    if acts.len() > 0 {
        let k = acts.len() - 1;
        let ad = acts.drop_last();
        let td = ts.drop_last();
        assert forall|t: int| 0 <= t < ad.len() implies ((#[trigger] ad[t]) matches IoAction::RemoveTable(n) && n@ == td[t].meta.path@) by {
            assert(ad[t] == acts[t] && td[t] == ts[t]);
        }
        lemma_dir_removes(d0, ad, td);
        assert(acts[k] matches IoAction::RemoveTable(n) && n@ == ts[k].meta.path@);
        assert(acts.last() == acts[k]);
        assert(dir_after(d0, acts) == dir_after(d0, ad).remove(ts[k].meta.path@));
        assert forall|n: Seq<char>| #[trigger] dir_after(d0, acts).contains_key(n) == (d0.contains_key(n) && !is_gone(ts, n)) by {
            if is_gone(ts, n) {
                let j = choose|j: int| 0 <= j < ts.len() && (#[trigger] ts[j]).meta.path@ == n;
                if j < k {
                    assert(td[j] == ts[j]);
                }
            }
            if is_gone(td, n) {
                let j = choose|j: int| 0 <= j < td.len() && (#[trigger] td[j]).meta.path@ == n;
                assert(ts[j] == td[j]);
            }
        }
    }
}

/// Compacting level `level` of `old` gave `new`: its tables and the tables of
/// the next level whose key range meets `[lo, hi]` (the smallest first key
/// and the largest last key of the level) were replaced by new tables at the
/// next level, numbered on from `seq0` up to `seq1`.
#[verifier::opaque]
pub open spec fn compacted_from(old: Seq<Seq<Table>>, new: Seq<Seq<Table>>, level: int, seq0: u64, seq1: u64) -> bool {
    exists|lo: Seq<u8>, hi: Seq<u8>, news: Seq<Table>| {
        &&& new == #[trigger] compacted(old, level, lo, hi, news)
        &&& seq1 == seq0 + news.len()
        &&& forall|j: int| 0 <= j < news.len() ==> (#[trigger] news[j]).meta.sequence == seq0 + 1 + j
            && news[j].meta.level == level + 1
        &&& forall|j: int| 0 <= j < old[level].len()
            ==> lex_le(lo, (#[trigger] old[level][j]).meta.min_key@) && lex_le(old[level][j].meta.max_key@, hi)
        &&& exists|j: int| 0 <= j < old[level].len() && (#[trigger] old[level][j]).meta.min_key@ == lo
        &&& exists|j: int| 0 <= j < old[level].len() && (#[trigger] old[level][j]).meta.max_key@ == hi
    }
}

proof fn lemma_compacted_from(old: Seq<Seq<Table>>, new: Seq<Seq<Table>>, level: int, seq0: u64, seq1: u64,
    lo: Seq<u8>, hi: Seq<u8>, news: Seq<Table>)
    requires
        new == compacted(old, level, lo, hi, news),
        seq1 == seq0 + news.len(),
        forall|j: int| 0 <= j < news.len() ==> (#[trigger] news[j]).meta.sequence == seq0 + 1 + j
            && news[j].meta.level == level + 1,
        forall|j: int| 0 <= j < old[level].len()
            ==> lex_le(lo, (#[trigger] old[level][j]).meta.min_key@) && lex_le(old[level][j].meta.max_key@, hi),
        exists|j: int| 0 <= j < old[level].len() && (#[trigger] old[level][j]).meta.min_key@ == lo,
        exists|j: int| 0 <= j < old[level].len() && (#[trigger] old[level][j]).meta.max_key@ == hi,
    ensures
        compacted_from(old, new, level, seq0, seq1),
{
    reveal(compacted_from);
}

/// After compacting level `level`, that level is empty, the levels other
/// than it and the next are as they were, and numbers only grew.
pub proof fn lemma_compacted_from_facts(old: Seq<Seq<Table>>, new: Seq<Seq<Table>>, level: int, seq0: u64, seq1: u64)
    requires
        compacted_from(old, new, level, seq0, seq1),
        0 <= level && level + 1 < old.len(),
    ensures
        new.len() == old.len(),
        new[level].len() == 0,
        forall|i: int| 0 <= i < old.len() && i != level && i != level + 1 ==> #[trigger] new[i] == old[i],
        seq0 <= seq1,
{
    reveal(compacted_from);
}

/// The inputs of a compaction of a sound database are tables that open.
proof fn lemma_inputs_open<S: Fn(usize) -> (usize, usize)>(db: Lsm5<S>, level: int, lo: Seq<u8>, hi: Seq<u8>, ins: Seq<Table>)
    requires
        db.sound(),
        0 <= level && level + 1 < MAX_LEVELS,
        ins == db.tables()[level] + select(db.tables()[level + 1], lo, hi, true),
    ensures
        forall|i: int| 0 <= i < ins.len() ==> spec_open((#[trigger] ins[i]).image@) is Ok,
{
    let lv = db.tables();
    lemma_select(lv[level + 1], lo, hi, true);
    let idx = select_idx(lv[level + 1], lo, hi, true, lv[level + 1].len() as int);
    assert forall|i: int| 0 <= i < ins.len() implies spec_open((#[trigger] ins[i]).image@) is Ok by {
        if i < lv[level].len() {
            assert(ins[i] == lv[level][i]);
            assert(table_ok(lv[level][i]));
        } else {
            let y = i - lv[level].len();
            assert(ins[i] == lv[level + 1][idx[y]]);
            assert(table_ok(lv[level + 1][idx[y]]));
        }
    }
}

/// The cache agrees with the tables: tables with the same sequence number
/// have the same data block, every number is at most `top`, and every cached
/// block is the data block of the tables with its number, also at most `top`.
#[verifier::opaque]
pub closed spec fn cache_ok(lines: Seq<(u64, Vec<u8>, usize)>, lv: Seq<Seq<Table>>, top: u64) -> bool {
    &&& forall|i: int, j: int, i2: int, j2: int| 0 <= i < lv.len() && 0 <= j < lv[i].len() && 0 <= i2 < lv.len()
        && 0 <= j2 < lv[i2].len() && (#[trigger] lv[i][j]).meta.sequence == (#[trigger] lv[i2][j2]).meta.sequence
        ==> data_block(lv[i][j].run@) == data_block(lv[i2][j2].run@)
    &&& forall|i: int, j: int| 0 <= i < lv.len() && 0 <= j < lv[i].len() ==> (#[trigger] lv[i][j]).meta.sequence <= top
    &&& forall|c: int, i: int, j: int| 0 <= c < lines.len() && 0 <= i < lv.len() && 0 <= j < lv[i].len()
        && (#[trigger] lv[i][j]).meta.sequence == (#[trigger] lines[c]).0 ==> lines[c].1@ == data_block(lv[i][j].run@)
    &&& forall|c: int| 0 <= c < lines.len() ==> (#[trigger] lines[c]).0 <= top
}

/// A fresh handle has no tables and nothing cached.
proof fn lemma_cache_ok_empty(lv: Seq<Seq<Table>>, top: u64)
    requires
        forall|i: int| 0 <= i < lv.len() ==> (#[trigger] lv[i]).len() == 0,
    ensures
        cache_ok(Seq::empty(), lv, top),
{
    reveal(cache_ok);
}

/// Tables reloaded as they were, with nothing cached, keep the tables'
/// blocks consistent.
proof fn lemma_cache_ok_reload(lines: Seq<(u64, Vec<u8>, usize)>, lv: Seq<Seq<Table>>, top: u64, lv2: Seq<Seq<Table>>,
    top2: u64)
    requires
        cache_ok(lines, lv, top),
        lv2.len() == lv.len(),
        forall|i: int| 0 <= i < lv.len() ==> (#[trigger] lv2[i]).len() == lv[i].len(),
        forall|i: int, j: int| 0 <= i < lv.len() && 0 <= j < lv[i].len() ==> same_table(#[trigger] lv2[i][j], lv[i][j]),
        forall|i: int, j: int| 0 <= i < lv2.len() && 0 <= j < lv2[i].len() ==> (#[trigger] lv2[i][j]).meta.sequence <= top2,
    ensures
        cache_ok(Seq::empty(), lv2, top2),
{
    reveal(cache_ok);
    assert forall|i: int, j: int, i2: int, j2: int| 0 <= i < lv2.len() && 0 <= j < lv2[i].len() && 0 <= i2 < lv2.len()
        && 0 <= j2 < lv2[i2].len() && (#[trigger] lv2[i][j]).meta.sequence == (#[trigger] lv2[i2][j2]).meta.sequence
        implies data_block(lv2[i][j].run@) == data_block(lv2[i2][j2].run@) by {
        assert(same_table(lv2[i][j], lv[i][j]));
        assert(same_table(lv2[i2][j2], lv[i2][j2]));
    }
}

/// A flush adds a table numbered past every table and cached block.
proof fn lemma_cache_ok_flush(lines: Seq<(u64, Vec<u8>, usize)>, lv: Seq<Seq<Table>>, top: u64, t: Table)
    requires
        cache_ok(lines, lv, top),
        lv.len() > 0,
        top < u64::MAX,
        t.meta.sequence == top + 1,
    ensures
        cache_ok(lines, lv.update(0, lv[0].push(t)), (top + 1) as u64),
{
    reveal(cache_ok);
    let nv = lv.update(0, lv[0].push(t));
    assert forall|i: int, j: int| 0 <= i < nv.len() && 0 <= j < nv[i].len()
        implies (#[trigger] nv[i][j]) == t || (nv[i][j] == lv[i][j] && j < lv[i].len()) by {
        if !(i == 0 && j == lv[0].len()) {
            assert(nv[i][j] == lv[i][j]);
        }
    }
    assert forall|i: int, j: int, i2: int, j2: int| 0 <= i < nv.len() && 0 <= j < nv[i].len() && 0 <= i2 < nv.len()
        && 0 <= j2 < nv[i2].len() && (#[trigger] nv[i][j]).meta.sequence == (#[trigger] nv[i2][j2]).meta.sequence
        implies data_block(nv[i][j].run@) == data_block(nv[i2][j2].run@) by {
        if nv[i][j] != t && nv[i2][j2] == t {
            assert(lv[i][j].meta.sequence <= top);
        } else if nv[i][j] == t && nv[i2][j2] != t {
            assert(lv[i2][j2].meta.sequence <= top);
        } else if nv[i][j] != t && nv[i2][j2] != t {
            assert(lv[i][j] == nv[i][j] && lv[i2][j2] == nv[i2][j2]);
        }
    }
    assert forall|c: int, i: int, j: int| 0 <= c < lines.len() && 0 <= i < nv.len() && 0 <= j < nv[i].len()
        && (#[trigger] nv[i][j]).meta.sequence == (#[trigger] lines[c]).0 implies lines[c].1@ == data_block(nv[i][j].run@) by {
        if nv[i][j] == t {
            assert(lines[c].0 <= top);
        } else {
            assert(nv[i][j] == lv[i][j]);
        }
    }
}

/// Where a table of a compacted state comes from: a table from before
/// (`true`, level, position) or a new table (`false`, position, unused).
proof fn compacted_source(lv: Seq<Seq<Table>>, l: int, lo: Seq<u8>, hi: Seq<u8>, news: Seq<Table>, i: int, j: int)
    -> (r: (bool, int, int))
    requires
        0 <= l && l + 1 < lv.len(),
        0 <= i < compacted(lv, l, lo, hi, news).len(),
        0 <= j < compacted(lv, l, lo, hi, news)[i].len(),
    ensures
        r.0 ==> 0 <= r.1 < lv.len() && 0 <= r.2 < lv[r.1].len() && compacted(lv, l, lo, hi, news)[i][j] == lv[r.1][r.2],
        !r.0 ==> 0 <= r.1 < news.len() && compacted(lv, l, lo, hi, news)[i][j] == news[r.1],
{
    let nv = compacted(lv, l, lo, hi, news);
    let kept = select(lv[l + 1], lo, hi, false);
    lemma_select(lv[l + 1], lo, hi, false);
    let idx = select_idx(lv[l + 1], lo, hi, false, lv[l + 1].len() as int);
    if i == l + 1 {
        if j < kept.len() {
            assert(nv[i][j] == kept[j]);
            (true, l + 1, idx[j])
        } else {
            assert(nv[i][j] == news[j - kept.len()]);
            (false, j - kept.len(), 0)
        }
    } else {
        assert(i != l);
        assert(nv[i][j] == lv[i][j]);
        (true, i, j)
    }
}

/// A compaction keeps tables or adds tables numbered, in order, past every
/// table and cached block.
proof fn lemma_cache_ok_compact(lines: Seq<(u64, Vec<u8>, usize)>, lv: Seq<Seq<Table>>, top: u64, l: int, lo: Seq<u8>,
    hi: Seq<u8>, news: Seq<Table>, ntop: u64)
    requires
        cache_ok(lines, lv, top),
        0 <= l && l + 1 < lv.len(),
        top + news.len() <= ntop,
        forall|j: int| 0 <= j < news.len() ==> (#[trigger] news[j]).meta.sequence == top + 1 + j,
    ensures
        cache_ok(lines, compacted(lv, l, lo, hi, news), ntop),
{
    reveal(cache_ok);
    let nv = compacted(lv, l, lo, hi, news);
    assert forall|i: int, j: int, i2: int, j2: int| 0 <= i < nv.len() && 0 <= j < nv[i].len() && 0 <= i2 < nv.len()
        && 0 <= j2 < nv[i2].len() && (#[trigger] nv[i][j]).meta.sequence == (#[trigger] nv[i2][j2]).meta.sequence
        implies data_block(nv[i][j].run@) == data_block(nv[i2][j2].run@) by {
        let r1 = compacted_source(lv, l, lo, hi, news, i, j);
        let r2 = compacted_source(lv, l, lo, hi, news, i2, j2);
        if r1.0 && r2.0 {
            assert(lv[r1.1][r1.2] == nv[i][j] && lv[r2.1][r2.2] == nv[i2][j2]);
        } else if r1.0 {
            assert(lv[r1.1][r1.2].meta.sequence <= top);
        } else if r2.0 {
            assert(lv[r2.1][r2.2].meta.sequence <= top);
        } else {
            assert(news[r1.1].meta.sequence == top + 1 + r1.1);
            assert(news[r2.1].meta.sequence == top + 1 + r2.1);
        }
    }
    assert forall|i: int, j: int| 0 <= i < nv.len() && 0 <= j < nv[i].len() implies (#[trigger] nv[i][j]).meta.sequence <= ntop by {
        let r = compacted_source(lv, l, lo, hi, news, i, j);
        if r.0 {
            assert(lv[r.1][r.2].meta.sequence <= top);
        } else {
            assert(news[r.1].meta.sequence == top + 1 + r.1);
        }
    }
    assert forall|c: int, i: int, j: int| 0 <= c < lines.len() && 0 <= i < nv.len() && 0 <= j < nv[i].len()
        && (#[trigger] nv[i][j]).meta.sequence == (#[trigger] lines[c]).0 implies lines[c].1@ == data_block(nv[i][j].run@) by {
        let r = compacted_source(lv, l, lo, hi, news, i, j);
        if r.0 {
            assert(lv[r.1][r.2] == nv[i][j]);
        } else {
            assert(news[r.1].meta.sequence == top + 1 + r.1);
            assert(lines[c].0 <= top);
        }
    }
}

/// Lines that were lines before, or a new line holding the data block of the
/// tables with its number, keep the cache consistent.
proof fn lemma_cache_ok_lines(lines0: Seq<(u64, Vec<u8>, usize)>, lines1: Seq<(u64, Vec<u8>, usize)>, lv: Seq<Seq<Table>>,
    top: u64, x: (u64, Vec<u8>, usize))
    requires
        cache_ok(lines0, lv, top),
        forall|c: int| 0 <= c < lines1.len() ==> #[trigger] lines1[c] == x || lines0.contains(lines1[c]),
        x.0 <= top,
        forall|i: int, j: int| 0 <= i < lv.len() && 0 <= j < lv[i].len() && (#[trigger] lv[i][j]).meta.sequence == x.0
            ==> x.1@ == data_block(lv[i][j].run@),
    ensures
        cache_ok(lines1, lv, top),
{
    reveal(cache_ok);
    assert forall|c: int, i: int, j: int| 0 <= c < lines1.len() && 0 <= i < lv.len() && 0 <= j < lv[i].len()
        && (#[trigger] lv[i][j]).meta.sequence == (#[trigger] lines1[c]).0 implies lines1[c].1@ == data_block(lv[i][j].run@) by {
        if lines1[c] != x {
            let d = choose|d: int| 0 <= d < lines0.len() && lines0[d] == lines1[c];
            assert(lines0[d] == lines1[c]);
        }
    }
    assert forall|c: int| 0 <= c < lines1.len() implies (#[trigger] lines1[c]).0 <= top by {
        if lines1[c] != x {
            let d = choose|d: int| 0 <= d < lines0.len() && lines0[d] == lines1[c];
            assert(lines0[d] == lines1[c]);
        }
    }
}

/// A compaction is due: level 0 holds `L0_COMPACTION_TRIGGER` tables or
/// more, or a level from 1 to the one before last is over its size threshold.
pub open spec fn compaction_due(lv: Seq<Seq<Table>>) -> bool {
    ||| lv[0].len() >= L0_COMPACTION_TRIGGER
    ||| exists|i: int| 1 <= i < MAX_LEVELS - 1 && sat64(size_sum(#[trigger] lv[i])) > spec_level_size_threshold(i as nat)
}

/// A table of level `level` or of the next level fails to open.
pub open spec fn some_input_fails(lv: Seq<Seq<Table>>, level: int) -> bool {
    exists|i: int, j: int| (i == level || i == level + 1) && 0 <= i < lv.len() && 0 <= j < lv[i].len()
        && spec_open((#[trigger] lv[i][j]).image@) is Err
}

/// Compacting level `level` failed from `a` to `b` and left the tables and
/// the clean flag as they were: a table it reads fails to open, sequence
/// numbers ran out, or the encoder failed on a table.
#[verifier::opaque]
pub open spec fn failed_keeping_tables<S: Fn(usize) -> (usize, usize)>(a: Lsm5<S>, b: Lsm5<S>, level: int) -> bool {
    &&& b.tables() == a.tables()
    &&& b.clean() == a.clean()
    &&& (some_input_fails(a.tables(), level) || b.seq_spec() == u64::MAX
        || some_encode_fails(a.config_spec().compression_enabled, a.config_spec().compression_level))
}

/// The directory invariant carries over to a state with the same tables and
/// the same directory.
proof fn lemma_dir_same<S: Fn(usize) -> (usize, usize)>(a: Lsm5<S>, b: Lsm5<S>)
    requires
        a.dir_ok(),
        b.tables() == a.tables(),
        b.dir() == a.dir(),
    ensures
        b.dir_ok(),
{
    reveal(Lsm5::dir_ok);
}

/// Logging one record, perhaps followed by syncs, leaves the directory alone.
proof fn lemma_dir_after_log<S: Fn(usize) -> (usize, usize)>(a: Lsm5<S>, b: Lsm5<S>)
    requires
        b.dir_base == a.dir_base,
        b.actions@.len() >= a.actions@.len() + 1,
        b.actions@.take(a.actions@.len() as int + 1) == a.actions@.push(b.actions@[a.actions@.len() as int]),
        b.actions@[a.actions@.len() as int] is AppendWal,
        forall|i: int| a.actions@.len() + 1 <= i < b.actions@.len() ==> #[trigger] b.actions@[i] is SyncWal,
    ensures
        b.dir() == a.dir(),
{
    let n = a.actions@.len() as int;
    let head = b.actions@.take(n + 1);
    let tail = b.actions@.skip(n + 1);
    assert(b.actions@ =~= head + tail);
    assert forall|i: int| 0 <= i < tail.len() implies keeps_dir(#[trigger] tail[i]) by {
        assert(tail[i] == b.actions@[n + 1 + i]);
    }
    lemma_dir_after_concat(a.dir_base@, head, tail);
    lemma_dir_kept(dir_after(a.dir_base@, head), tail);
    assert(head.drop_last() =~= a.actions@);
}

/// A listing of a directory that holds the file of every table of sound
/// levels, and no other file that loads as a table, holds the files of the
/// tables (each once).
proof fn lemma_listing_of(lv: Seq<Seq<Table>>, top: u64, d: Map<Seq<char>, Seq<u8>>, fs: Seq<(Seq<char>, Seq<u8>)>)
    requires
        levels_sound(lv, top),
        named(lv),
        forall|i: int, j: int| 0 <= i < lv.len() && 0 <= j < lv[i].len()
            ==> d.contains_key((#[trigger] lv[i][j]).meta.path@) && d[lv[i][j].meta.path@] == lv[i][j].image@,
        forall|n: Seq<char>| #[trigger] d.contains_key(n) && file_loads((n, d[n])) is Some
            ==> exists|i: int, j: int| 0 <= i < lv.len() && 0 <= j < lv[i].len() && (#[trigger] lv[i][j]).meta.path@ == n,
        distinct_names(fs),
        dir_of(fs) == d,
    ensures
        lists_tables(fs, lv),
{
    assert forall|a: int, b: int| 0 <= a < b < fs.len() implies #[trigger] fs[a] != #[trigger] fs[b] by {
        assert(fs[a].0 != fs[b].0);
    }
    assert forall|x: (Seq<char>, Seq<u8>)| file_loads(x) is Some
        implies #[trigger] fs.to_multiset().count(x) == crate::reload::level_files(lv).to_multiset().count(x) by {
        let l = file_loads(x)->Some_0.0 as int;
        assert(loads_at(x, l as nat));
        lemma_level_files_count(lv, top, lv, l, x);
        lemma_level_count(lv, top, l, x);
        lemma_count_unique(fs, x);
        let tf = crate::recovery::table_files(lv[l]);
        if fs.contains(x) {
            let k = choose|k: int| 0 <= k < fs.len() && fs[k] == x;
            lemma_dir_of_has(fs, k);
            let (i, j) = choose|i: int, j: int| 0 <= i < lv.len() && 0 <= j < lv[i].len() && (#[trigger] lv[i][j]).meta.path@ == x.0;
            lemma_table_loads(lv, top, i, j);
            assert((lv[i][j].meta.path@, lv[i][j].image@) == x);
            assert(tf[j] == x);
            assert(tf.contains(x));
        }
        if tf.contains(x) {
            let j = choose|j: int| 0 <= j < tf.len() && tf[j] == x;
            assert(tf[j] == (lv[l][j].meta.path@, lv[l][j].image@));
            assert(d.contains_key(lv[l][j].meta.path@));
            lemma_dir_of_from(fs, x.0);
            let k = choose|k: int| 0 <= k < fs.len() && (#[trigger] fs[k]).0 == x.0 && fs[k].1 == dir_of(fs)[x.0];
            assert(fs[k] == x);
            assert(fs.contains(x));
        }
    }
}

/// A listing of the directory that a sound database's pending operations
/// leave holds the files of its tables (each once).
pub proof fn lemma_listing<S: Fn(usize) -> (usize, usize)>(db: Lsm5<S>, fs: Seq<(Seq<char>, Seq<u8>)>)
    requires
        db.sound(),
        distinct_names(fs),
        dir_of(fs) == db.dir(),
    ensures
        lists_tables(fs, db.tables()),
{
    reveal(Lsm5::dir_ok);
    lemma_listing_of(db.tables(), db.seq, db.dir(), fs);
}

/// Crash recovery: carry out a sound database's pending operations (the log
/// then holds `log()`, the directory `dir()`), list the directory in any
/// order, and open again from the log and the listing: the database opened
/// is sound, holds the same memtable, and answers every read as the first
/// one did.
pub proof fn lemma_crash_recovery<S: Fn(usize) -> (usize, usize), T: Fn(usize) -> (usize, usize)>(
    db: Lsm5<S>,
    fs: Seq<(Seq<char>, Seq<u8>)>,
    db2: Lsm5<T>,
)
    requires
        db.sound(),
        db.log_ok(),
        distinct_names(fs),
        dir_of(fs) == db.dir(),
        db2.reopened(db.log(), fs),
    ensures
        db2.sound(),
        db2.mem() == db.mem(),
        forall|k: Seq<u8>| #[trigger] db2.read(k) == db.read(k),
{
    lemma_listing(db, fs);
    lemma_reopen(db, fs, db2);
}

/// A run that a memtable holds in sorted order fits the table format when
/// its map does.
proof fn lemma_mem_fits(m: MemTable)
    requires
        m.wf(),
        map_fits(m@),
    ensures
        lengths_fit(m.entries()),
        keys_sorted(m.entries()),
{
    m.lemma_view();
    let s = m.entries();
    assert forall|i: int| 0 <= i < s.len() implies (#[trigger] s[i]).0.len() < 0x1_0000_0000
        && stored_value(s[i].1).len() < 0x1_0000_0000 by {
        lemma_sorted_lookup(s, i);
        assert(m@.contains_key(s[i].0));
    }
}

impl<S: Fn(usize) -> (usize, usize)> Lsm5<S> {
    /// Flush the memtable as a new level-0 table (nothing when it is empty),
    /// then empty the log.  Fails when the encoder gives no frame for the
    /// table's data block or sequence numbers have run out.
    #[verifier::rlimit(40)]
    #[verifier::spinoff_prover]
    fn flush_memtable(&mut self) -> (r: Result<(), Error>)
        requires
            old(self).wf(),
        ensures
            final(self).wf(),
            final(self).clean() ==> old(self).clean(),
            r is Ok && old(self).sound() && final(self).clean() ==> final(self).sound()
                && forall|k: Seq<u8>| #[trigger] final(self).read(k) == old(self).read(k),
            r is Ok ==> final(self).mem() == Map::<Seq<u8>, Option<Seq<u8>>>::empty(),
            r is Ok && old(self).log_ok() ==> final(self).log_ok(),
            final(self).pending().len() >= old(self).pending().len(),
            final(self).pending().take(old(self).pending().len() as int) == old(self).pending(),
            final(self).counters().0 == old(self).counters().0,
            final(self).tx() == old(self).tx(),
            final(self).config_spec() == old(self).config_spec(),
            !old(self).config_spec().compression_enabled ==> final(self).clean() == old(self).clean(),
            old(self).mem() == Map::<Seq<u8>, Option<Seq<u8>>>::empty() ==> r is Ok && *final(self) == *old(self),
            r is Ok && old(self).mem() != Map::<Seq<u8>, Option<Seq<u8>>>::empty() ==> {
                &&& final(self).seq_spec() == old(self).seq_spec() + 1
                &&& final(self).tables() == old(self).tables().update(0, old(self).tables()[0].push(final(self).tables()[0].last()))
                &&& final(self).tables()[0].last().run@ == old(self).mem_run()
                &&& final(self).clean() == (old(self).clean() && distinct_lengths(final(self).tables()[0].last().run@,
                    old(self).config_spec().compression_enabled, old(self).config_spec().compression_level))
                &&& final(self).tables()[0].last().meta.sequence == final(self).seq_spec()
                &&& final(self).tables()[0].last().meta.path@ == table_name(0, final(self).seq_spec())
                &&& final(self).pending().len() == old(self).pending().len() + 2
                &&& final(self).pending()[old(self).pending().len() as int] matches IoAction::WriteTable(n, b)
                    && n@ == final(self).tables()[0].last().meta.path@ && b@ == final(self).tables()[0].last().image@
                &&& final(self).pending()[old(self).pending().len() + 1int] is TruncateWal
                &&& final(self).tables()[0].last().meta.level == 0
                &&& final(self).counters().1 == crate::cache::bump(old(self).counters().1)
                &&& final(self).log() == Seq::<u8>::empty()
                &&& final(self).logged() == Seq::<Entry>::empty()
            },
            r is Err ==> old(self).mem() != Map::<Seq<u8>, Option<Seq<u8>>>::empty()
                && final(self).tables() == old(self).tables()
                && final(self).clean() == old(self).clean()
                && ((old(self).seq_spec() == u64::MAX && final(self).seq_spec() == u64::MAX)
                    || encode_fails(data_block(old(self).mem_run()), old(self).config_spec().compression_enabled,
                        old(self).config_spec().compression_level)),
    {
        if self.memtable.is_empty() {
            proof {
                self.memtable.lemma_view();
                assert(self.memtable@ =~= Map::<Seq<u8>, Option<Seq<u8>>>::empty());
            }
            return Ok(());
        }
        proof {
            self.memtable.lemma_view();
            if self.memtable@ == Map::<Seq<u8>, Option<Seq<u8>>>::empty() {
                assert(self.memtable@.len() == 0);
            }
        }
        if self.seq == u64::MAX {
            return Err(Error::Corruption("sequence numbers exhausted".to_owned()));
        }
        let ghost old_self = *self;
        proof {
            self.memtable.lemma_view();
            if old_self.sound() {
                lemma_mem_fits(self.memtable);
            }
        }
        let entries = self.memtable.drain_sorted();
        self.seq = self.seq + 1;
        let name = table_file_name(0, self.seq);
        let (meta, image) = write_sstable(name, entries.as_slice(), 0, self.seq, self.config.compression_enabled,
            self.config.compression_level, &self.sizer)?;
        let ghost run = entries_view(entries@);
        let image_len = image.len();
        let t = Table { meta, image, run: Ghost(run) };
        let ghost ok = distinct_lengths(run, self.config.compression_enabled, self.config.compression_level);
        proof {
            self.clean@ = self.clean@ && ok;
            if !ok {
                assert(frame_collides(data_block(run), self.config.compression_enabled, self.config.compression_level));
                reveal(some_frame_collides);
            }
        }
        proof {
            if old_self.sound() && self.clean@ {
                lemma_written_ok(t, self.config.compression_enabled, self.config.compression_level);
            }
        }
        let write = IoAction::WriteTable(t.meta.path.clone(), copy_bytes(t.image.as_slice()));
        let ghost wr = write;
        assert(wr matches IoAction::WriteTable(n, b) && n@ == t.meta.path@ && b@ == t.image@);
        let ghost lv = self.tables();
        let mut level0 = self.levels.remove(0);
        level0.push(t);
        self.levels.insert(0, level0);
        self.flushes = self.flushes.wrapping_add(1);
        let ghost acts0 = self.actions@;
        self.actions.push(write);
        self.actions.push(IoAction::TruncateWal);
        proof {
            assert(self.actions@.take(acts0.len() as int) =~= acts0);
            self.logged@ = Seq::empty();
            crate::wal::reveal_wal_parse_empty();
            assert(self.log() == Seq::<u8>::empty());
            assert(apply_ops(Map::empty(), 0, Seq::<Entry>::empty()).0 == self.memtable@);
            assert(self.tables() =~= lv.update(0, lv[0].push(t)));
            assert(self.actions@ == acts0.push(write).push(IoAction::TruncateWal));
            assert(self.actions@.drop_last() == acts0.push(write));
            assert(self.actions@.drop_last().drop_last() == acts0);
            assert(self.dir_base == old_self.dir_base);
            assert(dir_after(self.dir_base@, acts0.push(wr)) == dir_after(self.dir_base@, acts0).insert(t.meta.path@, t.image@));
            assert(dir_after(self.dir_base@, self.actions@) == dir_after(self.dir_base@, acts0.push(wr)));
            assert(self.dir() == old_self.dir().insert(t.meta.path@, t.image@));
            if old_self.sound() && self.clean@ {
                lemma_flush_state(old_self, *self, t);
            }
        }
        Ok(())
    }
}

impl<S: Fn(usize) -> (usize, usize)> Lsm5<S> {
    /// Compact level `level` into the next one: all its tables and the
    /// tables of the next level whose key range meets theirs are merged into
    /// new tables of the next level (dropping tombstones at the bottom
    /// level), and the old tables are removed.  Nothing at the last level or
    /// for an empty level.
    #[verifier::rlimit(100)]
    #[verifier::spinoff_prover]
    fn compact_level(&mut self, level: usize) -> (r: Result<(), Error>)
        requires
            old(self).wf(),
            level < MAX_LEVELS,
        ensures
            final(self).wf(),
            final(self).clean() ==> old(self).clean(),
            final(self).memtable@ == old(self).memtable@,
            final(self).log() == old(self).log(),
            final(self).logged() == old(self).logged(),
            final(self).pending().len() >= old(self).pending().len(),
            final(self).pending().take(old(self).pending().len() as int) == old(self).pending(),
            final(self).counters().0 == old(self).counters().0,
            final(self).tx() == old(self).tx(),
            r is Ok && old(self).sound() && final(self).clean() ==> final(self).sound()
                && forall|k: Seq<u8>| #[trigger] final(self).read(k) == old(self).read(k),
            final(self).config_spec() == old(self).config_spec(),
            !old(self).config_spec().compression_enabled ==> final(self).clean() == old(self).clean(),
            level + 1 >= MAX_LEVELS || old(self).tables()[level as int].len() == 0 ==> r is Ok && *final(self) == *old(self),
            r is Ok && level + 1 < MAX_LEVELS && old(self).tables()[level as int].len() > 0 ==>
                compacted_from(old(self).tables(), final(self).tables(), level as int, old(self).seq_spec(), final(self).seq_spec())
                && final(self).counters().2 == crate::cache::bump(old(self).counters().2),
            r is Ok && level + 1 < MAX_LEVELS && old(self).tables()[level as int].len() > 0 && old(self).sound() ==>
                final(self).clean() == (old(self).clean() && forall|j: int| 0 <= j < final(self).tables()[level + 1].len()
                    && (#[trigger] final(self).tables()[level + 1][j]).meta.sequence > old(self).seq_spec()
                    ==> distinct_lengths(final(self).tables()[level + 1][j].run@, old(self).config_spec().compression_enabled,
                        old(self).config_spec().compression_level)),
            r is Err ==> failed_keeping_tables(*old(self), *final(self), level as int),
    {
        let target = level + 1;
        if target >= MAX_LEVELS {
            return Ok(());
        }
        if self.levels[level].len() == 0 {
            return Ok(());
        }
        let ghost old_self = *self;
        let ghost lv = self.tables();
        let (lo, hi) = level_range(&self.levels[level]);
        proof {
            assert(lv[level as int] == self.levels@[level as int]@);
            assert(lv[target as int] == self.levels@[target as int]@);
        }
        let inputs = compaction_inputs(&self.levels, level, &lo, &hi);
        let ghost nxt = self.levels@[target as int]@;
        proof {
            assert(select_idx(nxt, lo@, hi@, true, nxt.len() as int).map_values(|x: int| nxt[x])
                =~= select(nxt, lo@, hi@, true));
        }
        let is_bottommost = target + 1 >= MAX_LEVELS || target + 1 >= self.levels.len();
        let mut next_seq = self.seq;
        let result = compact(&inputs, target, &mut next_seq, is_bottommost, self.config.max_sstable_size,
            self.config.compression_enabled, self.config.compression_level, &self.sizer);
        let mut news = match result {
            Ok(v) => v,
            Err(e) => {
                self.seq = next_seq;
                proof {
                    assert(self.levels == old_self.levels);
                    assert(self.tables() == old_self.tables());
                    lemma_compact_err_cause(old_self.tables(), level as int, lo@, hi@, inputs@, next_seq,
                        old_self.config.compression_enabled, old_self.config.compression_level);
                    reveal(failed_keeping_tables);
                }
                return Err(e);
            },
        };
        let mut paths: Vec<String> = Vec::new();
        let mut p: usize = 0;
        while p < inputs.len()
            invariant
                p <= inputs@.len(),
                paths@.len() == p,
                forall|t: int| 0 <= t < p ==> (#[trigger] paths@[t])@ == inputs@[t].meta.path@,
            decreases inputs@.len() - p,
        {
            paths.push(inputs[p].meta.path.clone());
            p = p + 1;
        }
        let ghost inputs_seq = inputs@;
        proof {
            assert(select_idx(nxt, lo@, hi@, true, nxt.len() as int).map_values(|x: int| nxt[x])
                =~= select(nxt, lo@, hi@, true));
        }
        // hand out the new tables' files, then the removal of the old ones
        let mut acts = compaction_actions(&news, &paths);
        let ghost writes = acts@.take(news@.len() as int);
        proof {
            assert forall|t: int| 0 <= t < writes.len() implies ((#[trigger] writes[t]) matches IoAction::WriteTable(n, b)
                && n@ == news@[t].meta.path@ && b@ == news@[t].image@) by {
                assert(writes[t] == acts@[t]);
            }
            assert forall|t: int| 0 <= t < paths@.len() implies ((#[trigger] acts@[writes.len() + t]) matches IoAction::RemoveTable(n)
                && n@ == paths@[t]@) by {
                assert(acts@[news@.len() + t] matches IoAction::RemoveTable(n) && n@ == paths@[t]@);
            }
        }
        let ghost removes = acts@.skip(writes.len() as int);
        let ghost ins = inputs@.map_values(|t: &Table| *t);
        proof {
            assert(acts@ =~= writes + removes);
            assert forall|t: int| 0 <= t < removes.len() implies ((#[trigger] removes[t]) matches IoAction::RemoveTable(n)
                && n@ == ins[t].meta.path@) by {
                assert(removes[t] == acts@[writes.len() + t]);
            }
        }
        let ghost acts0 = self.actions@;
        let ghost added = acts@;
        self.actions.append(&mut acts);
        proof {
            lemma_log_after_concat(self.log_base@, acts0, added);
            lemma_log_kept(log_after(self.log_base@, acts0), added);
            assert(self.actions@.take(acts0.len() as int) =~= acts0);
        }
        let ghost news_seq = news@;
        let ghost all_clean = forall|t: int| 0 <= t < news_seq.len() ==> distinct_lengths((#[trigger] news_seq[t]).run@,
            old_self.config.compression_enabled, old_self.config.compression_level);
        proof {
            self.clean@ = self.clean@ && all_clean;
            lemma_news_clean(news_seq, old_self.config.compression_enabled, old_self.config.compression_level);
        }
        let _old_level = self.levels.remove(level);
        self.levels.insert(level, Vec::new());
        let nxt_tables = self.levels.remove(target);
        let mut kept = kept_tables(nxt_tables, lo.as_slice(), hi.as_slice());
        kept.append(&mut news);
        self.levels.insert(target, kept);
        self.seq = next_seq;
        self.compactions = self.compactions.wrapping_add(1);
        proof {
            assert(self.tables() =~= compacted(lv, level as int, lo@, hi@, news_seq));
            lemma_compacted_from(lv, self.tables(), level as int, old_self.seq_spec(), self.seq_spec(), lo@, hi@, news_seq);
            if old_self.sound() {
                lemma_new_tables(lv, old_self.seq, level as int, lo@, hi@, news_seq, old_self.config.compression_enabled,
                    old_self.config.compression_level);
            }
        }
        proof {
            if old_self.sound() && self.clean@ {
                assert(acts0 == old_self.actions@);
                assert(added =~= writes + removes);
                assert(self.cache.lines() == old_self.cache.lines());
                lemma_compact_level_done(old_self, *self, level as int, lo@, hi@, is_bottommost, inputs_seq, news_seq,
                    writes, removes);
            }
        }
        Ok(())
    }
}

/// The state after a compaction of a sound database, with tables written as
/// the reader reads them, is sound and answers every read as before.
proof fn lemma_compact_level_done<S: Fn(usize) -> (usize, usize)>(a: Lsm5<S>, b: Lsm5<S>, level: int, lo: Seq<u8>,
    hi: Seq<u8>, drop: bool, inputs: Seq<&Table>, news: Seq<Table>, writes: Seq<IoAction>, removes: Seq<IoAction>)
    requires
        a.sound(),
        b.wf(),
        b.imm_memtables@.len() == 0,
        b.memtable@ == a.memtable@,
        b.cache.lines() == a.cache.lines(),
        0 <= level && level + 1 < MAX_LEVELS,
        a.tables()[level].len() > 0,
        forall|j: int| 0 <= j < a.tables()[level].len() ==> lex_le(lo, (#[trigger] a.tables()[level][j]).meta.min_key@)
            && lex_le(a.tables()[level][j].meta.max_key@, hi),
        drop == (level + 2 >= MAX_LEVELS),
        inputs.map_values(|t: &Table| *t) == a.tables()[level] + select(a.tables()[level + 1], lo, hi, true),
        news.len() == compaction_chunks(inputs, drop, a.config.max_sstable_size).len(),
        a.seq + news.len() <= u64::MAX,
        forall|j: int| 0 <= j < news.len() ==> {
            &&& (#[trigger] news[j]).run@ == compaction_chunks(inputs, drop, a.config.max_sstable_size)[j]
            &&& news[j].meta.sequence == a.seq + 1 + j
            &&& news[j].meta.level == level + 1
            &&& news[j].meta.path@ == table_name((level + 1) as nat, news[j].meta.sequence)
            &&& written_as(news[j], a.config.compression_enabled, a.config.compression_level)
            &&& news[j].image@.len() <= usize::MAX
            &&& distinct_lengths(news[j].run@, a.config.compression_enabled, a.config.compression_level)
        },
        b.seq == a.seq + news.len(),
        b.tables() == compacted(a.tables(), level, lo, hi, news),
        b.dir_base == a.dir_base,
        b.actions@ == a.actions@ + (writes + removes),
        writes.len() == news.len(),
        forall|t: int| 0 <= t < writes.len() ==> ((#[trigger] writes[t]) matches IoAction::WriteTable(n, x)
            && n@ == news[t].meta.path@ && x@ == news[t].image@),
        removes.len() == inputs.len(),
        forall|t: int| 0 <= t < removes.len() ==> ((#[trigger] removes[t]) matches IoAction::RemoveTable(n)
            && n@ == inputs.map_values(|t: &Table| *t)[t].meta.path@),
    ensures
        b.sound(),
        forall|k: Seq<u8>| #[trigger] b.read(k) == a.read(k),
{
    let lv = a.tables();
    let ins = inputs.map_values(|t: &Table| *t);
    lemma_news_from_compact(lv, a.seq, level, lo, hi, drop, a.config.max_sstable_size, inputs, news,
        a.config.compression_enabled, a.config.compression_level);
    let d0 = a.dir();
    lemma_dir_after_concat(b.dir_base@, a.actions@, writes + removes);
    lemma_dir_after_concat(d0, writes, removes);
    assert forall|x: int, y: int| 0 <= x < y < news.len()
        implies (#[trigger] news[x]).meta.path@ != (#[trigger] news[y]).meta.path@ by {
        lemma_table_name_parses((level + 1) as nat, news[x].meta.sequence);
        lemma_table_name_parses((level + 1) as nat, news[y].meta.sequence);
    }
    lemma_dir_writes(d0, writes, news);
    lemma_dir_removes(dir_after(d0, writes), removes, ins);
    lemma_compaction_state(a, b, level, lo, hi, drop, news, ins);
}

/// A compaction fails only when one of the tables it reads fails to open,
/// sequence numbers run out, or the encoder fails on a table.
proof fn lemma_compact_err_cause(lv: Seq<Seq<Table>>, level: int, lo: Seq<u8>, hi: Seq<u8>, inputs: Seq<&Table>,
    seq1: u64, en: bool, cl: i32)
    requires
        0 <= level && level + 1 < lv.len(),
        inputs.map_values(|t: &Table| *t) == lv[level] + select(lv[level + 1], lo, hi, true),
        (exists|i: int| 0 <= i < inputs.len() && spec_open(#[trigger] inputs[i].image@) is Err) || seq1 == u64::MAX
            || some_encode_fails(en, cl),
    ensures
        some_input_fails(lv, level) || seq1 == u64::MAX || some_encode_fails(en, cl),
{
    if exists|i: int| 0 <= i < inputs.len() && spec_open(#[trigger] inputs[i].image@) is Err {
        let i = choose|i: int| 0 <= i < inputs.len() && spec_open(#[trigger] inputs[i].image@) is Err;
        let ins = inputs.map_values(|t: &Table| *t);
        assert(ins[i] == *inputs[i]);
        if i < lv[level].len() {
            assert(ins[i] == lv[level][i]);
            assert(spec_open(lv[level][i].image@) is Err);
        } else {
            lemma_select(lv[level + 1], lo, hi, true);
            let idx = select_idx(lv[level + 1], lo, hi, true, lv[level + 1].len() as int);
            let a = i - lv[level].len();
            let sel = select(lv[level + 1], lo, hi, true);
            assert(ins.len() == inputs.len());
            assert(ins == lv[level] + sel);
            assert(0 <= a < sel.len());
            assert((lv[level] + sel)[i] == sel[a]);
            assert(sel[a] == lv[level + 1][idx[a]]);
            assert(spec_open(lv[level + 1][idx[a]].image@) is Err);
        }
    }
}

/// After a compaction of sound levels, the tables of the next level numbered
/// past `top` are the new ones.
proof fn lemma_new_tables(lv: Seq<Seq<Table>>, top: u64, l: int, lo: Seq<u8>, hi: Seq<u8>, news: Seq<Table>, en: bool,
    cl: i32)
    requires
        levels_sound(lv, top),
        0 <= l && l + 1 < lv.len(),
        forall|j: int| 0 <= j < news.len() ==> (#[trigger] news[j]).meta.sequence == top + 1 + j,
    ensures
        (forall|j: int| 0 <= j < compacted(lv, l, lo, hi, news)[l + 1].len()
            && (#[trigger] compacted(lv, l, lo, hi, news)[l + 1][j]).meta.sequence > top
            ==> distinct_lengths(compacted(lv, l, lo, hi, news)[l + 1][j].run@, en, cl))
        == (forall|t: int| 0 <= t < news.len() ==> distinct_lengths((#[trigger] news[t]).run@, en, cl)),
{
    let nv = compacted(lv, l, lo, hi, news);
    let kept = select(lv[l + 1], lo, hi, false);
    lemma_select(lv[l + 1], lo, hi, false);
    let idx = select_idx(lv[l + 1], lo, hi, false, lv[l + 1].len() as int);
    assert(nv[l + 1] == kept + news);
    assert forall|j: int| 0 <= j < kept.len() implies (#[trigger] nv[l + 1][j]).meta.sequence <= top by {
        assert(nv[l + 1][j] == kept[j]);
        assert(kept[j] == lv[l + 1][idx[j]]);
    }
    if forall|j: int| 0 <= j < nv[l + 1].len() && (#[trigger] nv[l + 1][j]).meta.sequence > top
        ==> distinct_lengths(nv[l + 1][j].run@, en, cl) {
        assert forall|t: int| 0 <= t < news.len() implies distinct_lengths((#[trigger] news[t]).run@, en, cl) by {
            assert(nv[l + 1][kept.len() + t] == news[t]);
        }
    }
    if forall|t: int| 0 <= t < news.len() ==> distinct_lengths((#[trigger] news[t]).run@, en, cl) {
        assert forall|j: int| 0 <= j < nv[l + 1].len() && (#[trigger] nv[l + 1][j]).meta.sequence > top
            implies distinct_lengths(nv[l + 1][j].run@, en, cl) by {
            if j >= kept.len() {
                assert(nv[l + 1][j] == news[j - kept.len()]);
            }
        }
    }
}

/// A table among `news` whose compressed block has the raw block's length is
/// a block on which the encoder's frame collides.
proof fn lemma_news_clean(news: Seq<Table>, en: bool, cl: i32)
    ensures
        !(forall|t: int| 0 <= t < news.len() ==> distinct_lengths((#[trigger] news[t]).run@, en, cl))
            ==> some_frame_collides(en, cl),
{
    if !(forall|t: int| 0 <= t < news.len() ==> distinct_lengths((#[trigger] news[t]).run@, en, cl)) {
        let t = choose|t: int| 0 <= t < news.len() && !distinct_lengths((#[trigger] news[t]).run@, en, cl);
        assert(frame_collides(data_block(news[t].run@), en, cl));
        reveal(some_frame_collides);
    }
}

/// The storage actions of a compaction: write the new tables' files, then
/// remove the old ones.
fn compaction_actions(news: &Vec<Table>, paths: &Vec<String>) -> (acts: Vec<IoAction>)
    ensures
        acts@.len() == news@.len() + paths@.len(),
        forall|t: int| 0 <= t < acts@.len() ==> keeps_log(#[trigger] acts@[t]),
        forall|t: int| 0 <= t < news@.len() ==> ((#[trigger] acts@[t]) matches IoAction::WriteTable(n, b)
            && n@ == news@[t].meta.path@ && b@ == news@[t].image@),
        forall|t: int| 0 <= t < paths@.len() ==> ((#[trigger] acts@[news@.len() + t]) matches IoAction::RemoveTable(n)
            && n@ == paths@[t]@),
        forall|t: int| 0 <= t < news@.len() ==> (#[trigger] news@[t]).image@.len() <= usize::MAX,
{
    let mut acts: Vec<IoAction> = Vec::new();
    let mut q: usize = 0;
    while q < news.len()
        invariant
            q <= news@.len(),
            acts@.len() == q,
            forall|t: int| 0 <= t < q ==> (#[trigger] news@[t]).image@.len() <= usize::MAX,
            forall|t: int| 0 <= t < acts@.len() ==> keeps_log(#[trigger] acts@[t]),
            forall|t: int| 0 <= t < acts@.len() ==> ((#[trigger] acts@[t]) matches IoAction::WriteTable(n, b)
                && n@ == news@[t].meta.path@ && b@ == news@[t].image@),
        decreases news@.len() - q,
    {
        let _len = news[q].image.len();
        acts.push(IoAction::WriteTable(news[q].meta.path.clone(), copy_bytes(news[q].image.as_slice())));
        q = q + 1;
    }
    let ghost writes = acts@;
    let mut p: usize = 0;
    while p < paths.len()
        invariant
            p <= paths@.len(),
            forall|t: int| 0 <= t < news@.len() ==> (#[trigger] news@[t]).image@.len() <= usize::MAX,
            writes.len() == news@.len(),
            acts@.len() == writes.len() + p,
            acts@.take(writes.len() as int) == writes,
            forall|t: int| 0 <= t < writes.len() ==> ((#[trigger] writes[t]) matches IoAction::WriteTable(n, b)
                && n@ == news@[t].meta.path@ && b@ == news@[t].image@),
            forall|t: int| 0 <= t < acts@.len() ==> keeps_log(#[trigger] acts@[t]),
            forall|t: int| 0 <= t < p ==> ((#[trigger] acts@[writes.len() + t]) matches IoAction::RemoveTable(n)
                && n@ == paths@[t]@),
        decreases paths@.len() - p,
    {
        let ghost before = acts@;
        acts.push(IoAction::RemoveTable(paths[p].clone()));
        proof {
            assert(acts@.take(writes.len() as int) =~= before.take(writes.len() as int));
            assert forall|t: int| 0 <= t < p + 1 implies ((#[trigger] acts@[writes.len() + t]) matches IoAction::RemoveTable(n)
                && n@ == paths@[t]@) by {
                if t < p {
                    assert(acts@[writes.len() + t] == before[writes.len() + t]);
                }
            }
        }
        p = p + 1;
    }
    proof {
        assert forall|t: int| 0 <= t < news@.len() implies ((#[trigger] acts@[t]) matches IoAction::WriteTable(n, b)
            && n@ == news@[t].meta.path@ && b@ == news@[t].image@) by {
            assert(acts@[t] == acts@.take(writes.len() as int)[t]);
        }
    }
    acts
}

/// The tables a compaction of `level` reads: all of that level, then the
/// tables of the next level whose key range meets `[lo, hi]`, in order.
fn compaction_inputs<'a>(levels: &'a Vec<Vec<Table>>, level: usize, lo: &Vec<u8>, hi: &Vec<u8>) -> (inputs: Vec<&'a Table>)
    requires
        level + 1 < levels@.len(),
        levels@.len() == MAX_LEVELS,
    ensures
        inputs@.map_values(|t: &Table| *t) == levels@[level as int]@ + select(levels@[level + 1]@, lo@, hi@, true),
{
    let target = level + 1;
    let mut inputs: Vec<&Table> = Vec::new();
    let mut i: usize = 0;
    while i < levels[level].len()
        invariant
            i <= levels@[level as int]@.len(),
            level < target,
            target < levels@.len(),
            levels@.len() == MAX_LEVELS,
            inputs@.map_values(|t: &Table| *t) == levels@[level as int]@.take(i as int),
        decreases levels@[level as int]@.len() - i,
    {
        let ghost before = inputs@;
        let tref = &levels[level][i];
        inputs.push(tref);
        proof {
            let a = levels@[level as int]@;
            assert(*tref == a[i as int]);
            assert(inputs@ == before.push(tref));
            assert(inputs@.map_values(|t: &Table| *t) =~= before.map_values(|t: &Table| *t).push(a[i as int]));
            assert(a.take(i + 1) =~= a.take(i as int).push(a[i as int]));
        }
        i = i + 1;
    }
    let ghost nxt = levels@[target as int]@;
    let mut j: usize = 0;
    proof {
        assert(levels@[level as int]@.take(i as int) =~= levels@[level as int]@);
        assert(select_idx(nxt, lo@, hi@, true, 0).map_values(|x: int| nxt[x]) =~= Seq::<Table>::empty());
        assert(inputs@.map_values(|t: &Table| *t) =~= levels@[level as int]@
            + select_idx(nxt, lo@, hi@, true, 0).map_values(|x: int| nxt[x]));
    }
    while j < levels[target].len()
        invariant
            j <= nxt.len(),
            nxt == levels@[target as int]@,
            level < target,
            target < levels@.len(),
            levels@.len() == MAX_LEVELS,
            inputs@.map_values(|t: &Table| *t) == levels@[level as int]@
                + select_idx(nxt, lo@, hi@, true, j as int).map_values(|x: int| nxt[x]),
        decreases nxt.len() - j,
    {
        let ghost before = inputs@;
        let tref = &levels[target][j];
        if table_overlaps(tref, lo.as_slice(), hi.as_slice()) {
            inputs.push(tref);
        }
        proof {
            let a = levels@[level as int]@;
            let s0 = select_idx(nxt, lo@, hi@, true, j as int).map_values(|x: int| nxt[x]);
            let s1 = select_idx(nxt, lo@, hi@, true, j + 1).map_values(|x: int| nxt[x]);
            if overlaps(nxt[j as int], lo@, hi@) {
                assert(s1 =~= s0.push(nxt[j as int]));
                assert(inputs@.map_values(|t: &Table| *t) =~= before.map_values(|t: &Table| *t).push(nxt[j as int]));
                assert(inputs@.map_values(|t: &Table| *t) =~= a + s1);
            } else {
                assert(s1 =~= s0);
            }
        }
        j = j + 1;
    }
    proof {
        assert(select_idx(nxt, lo@, hi@, true, nxt.len() as int).map_values(|x: int| nxt[x])
            =~= select(nxt, lo@, hi@, true));
    }
    inputs
}

/// The total file size of tables.
pub open spec fn size_sum(ts: Seq<Table>) -> int
    decreases ts.len(),
{
    if ts.len() == 0 { 0 } else { size_sum(ts.drop_last()) + ts.last().meta.file_size }
}

/// A level's size counts each of its tables' file sizes once: the size of a
/// level with one more table is the old size plus that table's file size.
pub proof fn lemma_size_push(ts: Seq<Table>, t: Table)
    ensures
        size_sum(ts.push(t)) == size_sum(ts) + t.meta.file_size,
        crate::compaction::sat64(size_sum(ts.push(t)))
            == crate::compaction::sat64(crate::compaction::sat64(size_sum(ts)) + t.meta.file_size),
{
    assert(ts.push(t).drop_last() =~= ts);
    lemma_size_sum_nonneg(ts);
}

/// The size of two runs of tables one after the other is the sum of their
/// sizes; one table's size is its file size.
pub proof fn lemma_size_concat(a: Seq<Table>, b: Seq<Table>)
    ensures
        size_sum(a + b) == size_sum(a) + size_sum(b),
    decreases b.len(),
{
    if b.len() == 0 {
        assert(a + b =~= a);
    } else {
        lemma_size_concat(a, b.drop_last());
        assert((a + b).drop_last() =~= a + b.drop_last());
        assert((a + b).last() == b.last());
    }
}

/// A level of one table has that table's file size, and an empty level 0.
pub proof fn lemma_size_one(t: Table)
    ensures
        size_sum(seq![t]) == t.meta.file_size,
        size_sum(Seq::<Table>::empty()) == 0,
{
    assert(seq![t].drop_last() =~= Seq::<Table>::empty());
    assert(seq![t].last() == t);
    assert(size_sum(seq![t].drop_last()) == 0);
}

/// The total file size of a level's tables (saturating at the largest `u64`).
fn level_file_size(tables: &Vec<Table>) -> (r: u64)
    ensures
        r == crate::compaction::sat64(size_sum(tables@)),
{
    let mut total: u64 = 0;
    let mut i: usize = 0;
    while i < tables.len()
        invariant
            i <= tables@.len(),
            total == crate::compaction::sat64(size_sum(tables@.take(i as int))),
        decreases tables@.len() - i,
    {
        proof {
            assert(tables@.take(i + 1).drop_last() =~= tables@.take(i as int));
            assert(size_sum(tables@.take(i as int)) >= 0) by {
                lemma_size_sum_nonneg(tables@.take(i as int));
            }
        }
        total = total.saturating_add(tables[i].meta.file_size);
        i = i + 1;
    }
    proof {
        assert(tables@.take(tables@.len() as int) =~= tables@);
    }
    total
}

proof fn lemma_size_sum_nonneg(ts: Seq<Table>)
    ensures
        size_sum(ts) >= 0,
    decreases ts.len(),
{
    if ts.len() > 0 {
        lemma_size_sum_nonneg(ts.drop_last());
    }
}

impl<S: Fn(usize) -> (usize, usize)> Lsm5<S> {
    /// Compact level 0 when it has `L0_COMPACTION_TRIGGER` tables or more,
    /// then each further level whose total size exceeds its threshold.
    fn maybe_compact(&mut self) -> (r: Result<(), Error>)
        requires
            old(self).wf(),
        ensures
            final(self).wf(),
            final(self).clean() ==> old(self).clean(),
            final(self).memtable@ == old(self).memtable@,
            final(self).log() == old(self).log(),
            final(self).logged() == old(self).logged(),
            final(self).pending().len() >= old(self).pending().len(),
            final(self).pending().take(old(self).pending().len() as int) == old(self).pending(),
            final(self).counters().0 == old(self).counters().0,
            final(self).tx() == old(self).tx(),
            r is Ok && old(self).sound() && final(self).clean() ==> final(self).sound()
                && forall|k: Seq<u8>| #[trigger] final(self).read(k) == old(self).read(k),
            final(self).config_spec() == old(self).config_spec(),
            !old(self).config_spec().compression_enabled ==> final(self).clean() == old(self).clean(),
            !compaction_due(old(self).tables()) ==> r is Ok && *final(self) == *old(self),
            r is Ok ==> !compaction_due(final(self).tables()),
            r is Err ==> !old(self).sound() || final(self).seq_spec() == u64::MAX
                || some_frame_collides(old(self).config_spec().compression_enabled, old(self).config_spec().compression_level)
                || some_encode_fails(old(self).config_spec().compression_enabled, old(self).config_spec().compression_level),
    {
        if self.levels.len() > 0 && self.levels[0].len() >= L0_COMPACTION_TRIGGER {
            let ghost before0 = *self;
            let r0 = self.compact_level(0);
            if r0.is_err() {
                proof {
                    reveal(failed_keeping_tables);
                }
                return r0;
            }
            proof {
                assert(before0.tables()[0].len() > 0);
                lemma_compacted_from_facts(before0.tables(), self.tables(), 0, before0.seq_spec(), self.seq_spec());
            }
        }
        proof {
            assert(self.pending().take(old(self).pending().len() as int) == old(self).pending());
        }
        let mut level: usize = 1;
        while level < self.levels.len()
            invariant
                self.wf(),
                self.clean() ==> old(self).clean(),
                self.memtable@ == old(self).memtable@,
                self.log() == old(self).log(),
                self.logged() == old(self).logged(),
                self.pending().len() >= old(self).pending().len(),
                self.pending().take(old(self).pending().len() as int) == old(self).pending(),
                self.counters().0 == old(self).counters().0,
                self.tx() == old(self).tx(),
                old(self).sound() && self.clean() ==> self.sound()
                    && forall|k: Seq<u8>| #[trigger] self.read(k) == old(self).read(k),
                self.config_spec() == old(self).config_spec(),
                !old(self).config_spec().compression_enabled ==> self.clean() == old(self).clean(),
                1 <= level <= MAX_LEVELS,
                self.tables().len() == MAX_LEVELS,
                self.tables()[0].len() < L0_COMPACTION_TRIGGER,
                forall|i: int| 1 <= i < level && i < MAX_LEVELS - 1
                    ==> sat64(size_sum(#[trigger] self.tables()[i])) <= spec_level_size_threshold(i as nat),
                !compaction_due(old(self).tables()) ==> *self == *old(self),
            decreases MAX_LEVELS - level,
        {
            let total = level_file_size(&self.levels[level]);
            proof {
                assert(self.tables()[level as int] == self.levels@[level as int]@);
            }
            if total > level_size_threshold(level) {
                let ghost before = self.pending();
                let ghost before_self = *self;
                let rl = self.compact_level(level);
                if rl.is_err() {
                    proof {
                        reveal(failed_keeping_tables);
                    }
                    return rl;
                }
                proof {
                    assert(self.pending().take(old(self).pending().len() as int)
                        =~= self.pending().take(before.len() as int).take(old(self).pending().len() as int));
                    if level + 1 < MAX_LEVELS && before_self.tables()[level as int].len() > 0 {
                        lemma_compacted_from_facts(before_self.tables(), self.tables(), level as int,
                            before_self.seq_spec(), self.seq_spec());
                        assert(self.tables()[level as int] =~= Seq::<Table>::empty());
                        assert(size_sum(self.tables()[level as int]) == 0);
                    }
                    if level + 1 < MAX_LEVELS {
                        assert(compaction_due(old(self).tables()));
                    }
                }
            }
            level = level + 1;
        }
        Ok(())
    }

    /// Flush and compact when the memtable has reached its size limit.
    fn maybe_flush(&mut self) -> (r: Result<(), Error>)
        requires
            old(self).wf(),
        ensures
            final(self).wf(),
            final(self).clean() ==> old(self).clean(),
            r is Ok && old(self).sound() && final(self).clean() ==> final(self).sound()
                && forall|k: Seq<u8>| #[trigger] final(self).read(k) == old(self).read(k),
            r is Ok && old(self).log_ok() ==> final(self).log_ok(),
            old(self).mem_size() < old(self).config_spec().memtable_size_limit ==> r is Ok && *final(self) == *old(self),
            final(self).pending().len() >= old(self).pending().len(),
            final(self).pending().take(old(self).pending().len() as int) == old(self).pending(),
            final(self).counters().0 == old(self).counters().0,
            final(self).tx() == old(self).tx(),
            final(self).config_spec() == old(self).config_spec(),
            !old(self).config_spec().compression_enabled ==> final(self).clean() == old(self).clean(),
            r is Ok && old(self).mem_size() >= old(self).config_spec().memtable_size_limit ==> {
                &&& final(self).mem() == Map::<Seq<u8>, Option<Seq<u8>>>::empty()
                &&& !compaction_due(final(self).tables())
                &&& old(self).mem() != Map::<Seq<u8>, Option<Seq<u8>>>::empty() ==> final(self).log() == Seq::<u8>::empty()
            },
            r is Err ==> !old(self).sound() || final(self).seq_spec() == u64::MAX
                || some_frame_collides(old(self).config_spec().compression_enabled, old(self).config_spec().compression_level)
                || some_encode_fails(old(self).config_spec().compression_enabled, old(self).config_spec().compression_level),
    {
        if self.memtable.size_bytes() >= self.config.memtable_size_limit {
            self.flush_memtable()?;
            let ghost mid = self.pending();
            self.maybe_compact()?;
            proof {
                assert(self.pending().take(old(self).pending().len() as int)
                    =~= self.pending().take(mid.len() as int).take(old(self).pending().len() as int));
            }
        }
        Ok(())
    }

    /// Insert or update a key: log it, put it in the memtable, and flush
    /// when the memtable is full.  Fails only when that flush or a compaction
    /// after it fails: the encoder gives no frame for a table, or sequence
    /// numbers run out.
    pub fn put(&mut self, key: &[u8], value: &[u8]) -> (r: Result<(), Error>)
        requires
            old(self).wf(),
            old(self).mem_size() + key@.len() + value@.len() <= usize::MAX,
        ensures
            final(self).wf(),
            final(self).clean() ==> old(self).clean(),
            final(self).pending().len() > old(self).pending().len(),
            final(self).pending().take(old(self).pending().len() as int) == old(self).pending(),
            final(self).pending()[old(self).pending().len() as int] matches IoAction::AppendWal(b)
                && b@ == entry_record((key@, Some(value@))),
            old(self).config_spec().sync_writes ==> final(self).pending().len() > old(self).pending().len() + 1
                && final(self).pending()[old(self).pending().len() + 1int] is SyncWal,
            final(self).counters().0 == crate::cache::bump(old(self).counters().0),
            r is Ok && old(self).sound() && fits(key@) && fits(value@) && final(self).clean() ==> final(self).sound()
                && forall|k: Seq<u8>| #[trigger] final(self).read(k) == (if k == key@ { Some(value@) } else { old(self).read(k) }),
            r is Ok && old(self).log_ok() && fits(key@) && fits(value@) ==> final(self).log_ok(),
            old(self).mem_size() + key@.len() + value@.len() < old(self).config_spec().memtable_size_limit ==> r is Ok,
            r is Err ==> old(self).mem_size() + key@.len() + value@.len() >= old(self).config_spec().memtable_size_limit
                && (!(old(self).sound() && fits(key@) && fits(value@))
                || some_frame_collides(old(self).config_spec().compression_enabled, old(self).config_spec().compression_level)
                || final(self).seq_spec() == u64::MAX
                || some_encode_fails(old(self).config_spec().compression_enabled, old(self).config_spec().compression_level)),
    {
        let ghost old_self = *self;
        let record = encode_put(key, value);
        self.actions.push(IoAction::AppendWal(record));
        if self.config.sync_writes {
            self.actions.push(IoAction::SyncWal);
        }
        self.memtable.put(copy_bytes(key), copy_bytes(value));
        self.writes = self.writes.wrapping_add(1);
        proof {
            self.logged@ = self.logged@.push((key@, Some(value@)));
            let n = old_self.actions@.len() as int;
            assert(self.actions@.take(n + 1) =~= old_self.actions@.push(self.actions@[n]));
            lemma_after_write(old_self, *self, (key@, Some(value@)));
        }
        let ghost mid = *self;
        let r = self.maybe_flush();
        proof {
            assert(self.pending().take(old_self.pending().len() as int) =~= old_self.pending()) by {
                assert(mid.pending().take(old_self.pending().len() as int) =~= old_self.pending());
                assert(self.pending().take(old_self.pending().len() as int)
                    =~= self.pending().take(mid.pending().len() as int).take(old_self.pending().len() as int));
            }
            let n = old_self.pending().len() as int;
            assert(self.pending()[n] == self.pending().take(mid.pending().len() as int)[n]);
            if old_self.config.sync_writes {
                assert(self.pending()[n + 1] == self.pending().take(mid.pending().len() as int)[n + 1]);
            }
        }
        r
    }
}

impl<S: Fn(usize) -> (usize, usize)> Lsm5<S> {
    /// Delete a key: log a tombstone, put it in the memtable, and flush when
    /// the memtable is full.  Fails only when a flush or compaction fails.
    pub fn delete(&mut self, key: &[u8]) -> (r: Result<(), Error>)
        requires
            old(self).wf(),
            old(self).mem_size() + key@.len() + 1 <= usize::MAX,
        ensures
            final(self).wf(),
            final(self).clean() ==> old(self).clean(),
            final(self).pending().len() > old(self).pending().len(),
            final(self).pending().take(old(self).pending().len() as int) == old(self).pending(),
            final(self).pending()[old(self).pending().len() as int] matches IoAction::AppendWal(b)
                && b@ == entry_record((key@, None)),
            old(self).config_spec().sync_writes ==> final(self).pending().len() > old(self).pending().len() + 1
                && final(self).pending()[old(self).pending().len() + 1int] is SyncWal,
            final(self).counters().0 == old(self).counters().0,
            r is Ok && old(self).sound() && fits(key@) && final(self).clean() ==> final(self).sound()
                && forall|k: Seq<u8>| #[trigger] final(self).read(k) == (if k == key@ { None } else { old(self).read(k) }),
            r is Ok && old(self).log_ok() && fits(key@) ==> final(self).log_ok(),
            old(self).mem_size() + key@.len() + 1 < old(self).config_spec().memtable_size_limit ==> r is Ok,
            r is Err ==> old(self).mem_size() + key@.len() + 1 >= old(self).config_spec().memtable_size_limit
                && (!(old(self).sound() && fits(key@))
                || some_frame_collides(old(self).config_spec().compression_enabled, old(self).config_spec().compression_level)
                || final(self).seq_spec() == u64::MAX
                || some_encode_fails(old(self).config_spec().compression_enabled, old(self).config_spec().compression_level)),
    {
        let ghost old_self = *self;
        let record = encode_delete(key);
        self.actions.push(IoAction::AppendWal(record));
        if self.config.sync_writes {
            self.actions.push(IoAction::SyncWal);
        }
        self.memtable.delete(copy_bytes(key));
        proof {
            self.logged@ = self.logged@.push((key@, None));
            let n = old_self.actions@.len() as int;
            assert(self.actions@.take(n + 1) =~= old_self.actions@.push(self.actions@[n]));
            lemma_after_write(old_self, *self, (key@, None));
        }
        let ghost mid = *self;
        let r = self.maybe_flush();
        proof {
            assert(self.pending().take(old_self.pending().len() as int) =~= old_self.pending()) by {
                assert(mid.pending().take(old_self.pending().len() as int) =~= old_self.pending());
                assert(self.pending().take(old_self.pending().len() as int)
                    =~= self.pending().take(mid.pending().len() as int).take(old_self.pending().len() as int));
            }
            let n = old_self.pending().len() as int;
            assert(self.pending()[n] == self.pending().take(mid.pending().len() as int)[n]);
            if old_self.config.sync_writes {
                assert(self.pending()[n + 1] == self.pending().take(mid.pending().len() as int)[n + 1]);
            }
        }
        r
    }

    /// Flush the memtable to a level-0 table and run the compactions due.
    pub fn flush(&mut self) -> (r: Result<(), Error>)
        requires
            old(self).wf(),
        ensures
            final(self).wf(),
            final(self).clean() ==> old(self).clean(),
            final(self).pending().len() >= old(self).pending().len(),
            final(self).pending().take(old(self).pending().len() as int) == old(self).pending(),
            r is Ok ==> final(self).mem() == Map::<Seq<u8>, Option<Seq<u8>>>::empty(),
            r is Ok && old(self).sound() && final(self).clean() ==> final(self).sound()
                && forall|k: Seq<u8>| #[trigger] final(self).read(k) == old(self).read(k),
            r is Ok && old(self).log_ok() ==> final(self).log_ok(),
            final(self).config_spec() == old(self).config_spec(),
            r is Ok ==> !compaction_due(final(self).tables()),
            r is Ok && old(self).mem() != Map::<Seq<u8>, Option<Seq<u8>>>::empty() ==> final(self).log() == Seq::<u8>::empty(),
            old(self).mem() == Map::<Seq<u8>, Option<Seq<u8>>>::empty() && !compaction_due(old(self).tables())
                ==> r is Ok && *final(self) == *old(self),
            r is Err ==> !old(self).sound() || final(self).seq_spec() == u64::MAX
                || some_frame_collides(old(self).config_spec().compression_enabled, old(self).config_spec().compression_level)
                || some_encode_fails(old(self).config_spec().compression_enabled, old(self).config_spec().compression_level),
            r is Ok && old(self).mem() != Map::<Seq<u8>, Option<Seq<u8>>>::empty() ==> {
                &&& final(self).pending().len() >= old(self).pending().len() + 2
                &&& final(self).pending()[old(self).pending().len() as int] matches IoAction::WriteTable(n, b)
                    && n@ == table_name(0, (old(self).seq_spec() + 1) as u64)
                &&& final(self).pending()[old(self).pending().len() + 1int] is TruncateWal
            },
    {
        self.flush_memtable()?;
        let ghost mid = self.pending();
        self.maybe_compact()?;
        proof {
            assert(self.pending().take(old(self).pending().len() as int)
                =~= self.pending().take(mid.len() as int).take(old(self).pending().len() as int));
            if old(self).mem() != Map::<Seq<u8>, Option<Seq<u8>>>::empty() {
                let n = old(self).pending().len() as int;
                assert(self.pending()[n] == self.pending().take(mid.len() as int)[n]);
                assert(self.pending()[n + 1] == self.pending().take(mid.len() as int)[n + 1]);
            }
        }
        Ok(())
    }

    /// Ask for the log to be synced to stable storage.
    pub fn sync(&mut self) -> (r: Result<(), Error>)
        ensures
            r is Ok,
            final(self).pending() == old(self).pending().push(IoAction::SyncWal),
            final(self).log() == old(self).log(),
            old(self).wf() ==> final(self).wf(),
            old(self).sound() ==> final(self).sound(),
            final(self).log_ok() == old(self).log_ok(),
            forall|k: Seq<u8>| #[trigger] final(self).read(k) == old(self).read(k),
    {
        let ghost acts0 = self.actions@;
        self.actions.push(IoAction::SyncWal);
        proof {
            assert(self.actions@.drop_last() =~= acts0);
            assert(self.dir() == old(self).dir());
            reveal(Lsm5::dir_ok);
        }
        Ok(())
    }

    /// Hand out the storage operations pending, in order; the caller carries
    /// them out.
    pub fn take_actions(&mut self) -> (r: Vec<IoAction>)
        ensures
            r@ == old(self).pending(),
            final(self).pending() == Seq::<IoAction>::empty(),
            final(self).log() == old(self).log(),
            final(self).logged() == old(self).logged(),
            old(self).wf() ==> final(self).wf(),
            old(self).sound() ==> final(self).sound(),
            final(self).log_ok() == old(self).log_ok(),
            forall|k: Seq<u8>| #[trigger] final(self).read(k) == old(self).read(k),
    {
        let ghost base = self.log();
        let ghost dbase = self.dir();
        let mut out: Vec<IoAction> = Vec::new();
        std::mem::swap(&mut out, &mut self.actions);
        proof {
            self.log_base@ = base;
            self.dir_base@ = dbase;
            reveal(Lsm5::dir_ok);
        }
        out
    }

    /// Open a transaction, unless one is open.
    pub fn begin(&mut self)
        requires
            old(self).wf(),
        ensures
            final(self).wf(),
            final(self).tx() == (if old(self).tx() is None { Some(Seq::<Entry>::empty()) } else { old(self).tx() }),
            final(self).sound() == old(self).sound(),
            final(self).log_ok() == old(self).log_ok(),
            final(self).pending() == old(self).pending(),
            forall|k: Seq<u8>| #[trigger] final(self).read(k) == old(self).read(k),
    {
        if self.transaction.is_none() {
            self.transaction = Some(Transaction::new());
        }
        proof {
            reveal(Lsm5::dir_ok);
        }
    }

    /// Buffer a put in the open transaction.
    pub fn tx_put(&mut self, key: &[u8], value: &[u8]) -> (r: Result<(), Error>)
        requires
            old(self).wf(),
        ensures
            final(self).wf(),
            match old(self).tx() {
                Some(ops) => r is Ok && final(self).tx() == Some(ops.push((key@, Some(value@)))),
                None => r matches Err(Error::NoActiveTransaction) && final(self).tx() is None,
            },
            final(self).sound() == old(self).sound(),
            final(self).log_ok() == old(self).log_ok(),
            final(self).pending() == old(self).pending(),
            forall|k: Seq<u8>| #[trigger] final(self).read(k) == old(self).read(k),
    {
        proof {
            reveal(Lsm5::dir_ok);
        }
        match self.transaction.take() {
            Some(mut tx) => {
                tx.put(copy_bytes(key), copy_bytes(value));
                self.transaction = Some(tx);
                Ok(())
            },
            None => Err(Error::NoActiveTransaction),
        }
    }

    /// Buffer a delete in the open transaction.
    pub fn tx_delete(&mut self, key: &[u8]) -> (r: Result<(), Error>)
        requires
            old(self).wf(),
        ensures
            final(self).wf(),
            match old(self).tx() {
                Some(ops) => r is Ok && final(self).tx() == Some(ops.push((key@, None))),
                None => r matches Err(Error::NoActiveTransaction) && final(self).tx() is None,
            },
            final(self).sound() == old(self).sound(),
            final(self).log_ok() == old(self).log_ok(),
            final(self).pending() == old(self).pending(),
            forall|k: Seq<u8>| #[trigger] final(self).read(k) == old(self).read(k),
    {
        proof {
            reveal(Lsm5::dir_ok);
        }
        match self.transaction.take() {
            Some(mut tx) => {
                tx.delete(copy_bytes(key));
                self.transaction = Some(tx);
                Ok(())
            },
            None => Err(Error::NoActiveTransaction),
        }
    }

    /// Drop the open transaction and its operations.
    pub fn rollback(&mut self) -> (r: Result<(), Error>)
        requires
            old(self).wf(),
        ensures
            final(self).wf(),
            final(self).tx() is None,
            old(self).tx() is Some ==> r is Ok,
            old(self).tx() is None ==> (r matches Err(Error::NoActiveTransaction)),
            final(self).sound() == old(self).sound(),
            final(self).log_ok() == old(self).log_ok(),
            final(self).pending() == old(self).pending(),
            forall|k: Seq<u8>| #[trigger] final(self).read(k) == old(self).read(k),
    {
        proof {
            reveal(Lsm5::dir_ok);
        }
        match self.transaction.take() {
            Some(mut tx) => {
                tx.rollback();
                self.transaction = None;
                Ok(())
            },
            None => Err(Error::NoActiveTransaction),
        }
    }

    /// Whether a transaction is open.
    pub fn has_transaction(&self) -> (r: bool)
        ensures
            r == (self.tx() is Some),
    {
        self.transaction.is_some()
    }
}

/// Every key and value of the operations fits the formats.
pub open spec fn ops_fit_formats(ops: Seq<Entry>) -> bool {
    forall|i: int| 0 <= i < ops.len() ==> fits((#[trigger] ops[i]).0) && fits(stored_value(ops[i].1))
}

impl<S: Fn(usize) -> (usize, usize)> Lsm5<S> {
    /// Commit the open transaction: log its operations, apply them to the
    /// memtable in order, and flush when the memtable is full.
    pub fn commit(&mut self) -> (r: Result<(), Error>)
        requires
            old(self).wf(),
            old(self).tx() matches Some(ops) ==> ops_fit(old(self).mem(), old(self).mem_size() as int, ops),
        ensures
            final(self).wf(),
            final(self).clean() ==> old(self).clean(),
            final(self).tx() is None,
            final(self).pending().len() >= old(self).pending().len(),
            final(self).pending().take(old(self).pending().len() as int) == old(self).pending(),
            old(self).tx() is None ==> (r matches Err(Error::NoActiveTransaction)),
            old(self).tx() is None ==> final(self).pending() == old(self).pending()
                && forall|k: Seq<u8>| #[trigger] final(self).read(k) == old(self).read(k),
            old(self).tx() matches Some(ops) ==> {
                &&& final(self).pending().len() > old(self).pending().len()
                &&& final(self).pending()[old(self).pending().len() as int] matches IoAction::AppendWal(b) && b@ == log_bytes(ops)
                &&& old(self).config_spec().sync_writes ==> final(self).pending().len() > old(self).pending().len() + 1
                    && final(self).pending()[old(self).pending().len() + 1int] is SyncWal
                &&& r is Ok && old(self).sound() && ops_fit_formats(ops) && final(self).clean() ==> final(self).sound()
                    && forall|k: Seq<u8>| #[trigger] final(self).read(k)
                        == (if overlay(ops).contains_key(k) { overlay(ops)[k] } else { old(self).read(k) })
                &&& r is Ok && old(self).log_ok() && ops_fit_formats(ops) ==> final(self).log_ok()
                &&& apply_ops(old(self).mem(), old(self).mem_size() as int, ops).1 < old(self).config_spec().memtable_size_limit
                    ==> r is Ok
                &&& r is Err ==> apply_ops(old(self).mem(), old(self).mem_size() as int, ops).1
                        >= old(self).config_spec().memtable_size_limit
                    && (!(old(self).sound() && ops_fit_formats(ops))
                    || some_frame_collides(old(self).config_spec().compression_enabled, old(self).config_spec().compression_level)
                    || final(self).seq_spec() == u64::MAX
                    || some_encode_fails(old(self).config_spec().compression_enabled, old(self).config_spec().compression_level))
            },
    {
        let ghost old_self = *self;
        match self.transaction.take() {
            Some(mut tx) => {
                if tx.is_committed() {
                    return Err(Error::TransactionAlreadyCommitted);
                }
                tx.commit();
                let ghost ops = tx.ops();
                let mut bytes: Vec<u8> = Vec::new();
                let _ = tx.apply_to_wal(&mut bytes);
                self.actions.push(IoAction::AppendWal(bytes));
                if self.config.sync_writes {
                    self.actions.push(IoAction::SyncWal);
                }
                let _ = tx.apply_to_memtable(&mut self.memtable);
                proof {
                    self.logged@ = self.logged@ + ops;
                    let n = old_self.actions@.len() as int;
                    assert(self.actions@.take(n + 1) =~= old_self.actions@.push(self.actions@[n]));
                    lemma_after_commit(old_self, *self, ops);
                }
                let ghost mid = *self;
                let r = self.maybe_flush();
                proof {
                    assert(self.pending().take(old_self.pending().len() as int) =~= old_self.pending()) by {
                        assert(mid.pending().take(old_self.pending().len() as int) =~= old_self.pending());
                        assert(self.pending().take(old_self.pending().len() as int)
                            =~= self.pending().take(mid.pending().len() as int).take(old_self.pending().len() as int));
                    }
                    let n = old_self.pending().len() as int;
                    assert(self.pending()[n] == self.pending().take(mid.pending().len() as int)[n]);
                    if old_self.config.sync_writes {
                        assert(self.pending()[n + 1] == self.pending().take(mid.pending().len() as int)[n + 1]);
                    }
                }
                r
            },
            None => Err(Error::NoActiveTransaction),
        }
    }
}

/// After logging a transaction's operations and applying them to the
/// memtable: the reads see them, and the log still replays to the memtable.
proof fn lemma_after_commit<S: Fn(usize) -> (usize, usize)>(a: Lsm5<S>, b: Lsm5<S>, ops: Seq<Entry>)
    requires
        b.cache.lines() == a.cache.lines(),
        (b.memtable@, b.memtable.size_spec() as int) == apply_ops(a.memtable@, a.memtable.size_spec() as int, ops),
        b.levels == a.levels,
        b.seq == a.seq,
        b.imm_memtables == a.imm_memtables,
        b.logged@ == a.logged@ + ops,
        b.log_base == a.log_base,
        b.dir_base == a.dir_base,
        b.actions@.len() >= a.actions@.len() + 1,
        b.actions@.take(a.actions@.len() as int + 1) == a.actions@.push(b.actions@[a.actions@.len() as int]),
        b.actions@[a.actions@.len() as int] matches IoAction::AppendWal(x) && x@ == log_bytes(ops),
        forall|i: int| a.actions@.len() + 1 <= i < b.actions@.len() ==> #[trigger] b.actions@[i] is SyncWal,
    ensures
        a.sound() && b.wf() && ops_fit_formats(ops) ==> b.sound(),
        forall|k: Seq<u8>| #[trigger] b.read(k) == (if overlay(ops).contains_key(k) { overlay(ops)[k] } else { a.read(k) }),
        a.log_ok() && ops_fit_formats(ops) ==> b.log_ok(),
{
    assert(b.tables() == a.tables());
    lemma_apply_overlay(a.memtable@, a.memtable.size_spec() as int, ops);
    let n = a.actions@.len() as int;
    let head = b.actions@.take(n + 1);
    let tail = b.actions@.skip(n + 1);
    assert(b.actions@ =~= head + tail);
    assert forall|i: int| 0 <= i < tail.len() implies keeps_log(#[trigger] tail[i]) by {
        assert(tail[i] == b.actions@[n + 1 + i]);
    }
    lemma_log_after_concat(a.log_base@, head, tail);
    lemma_log_kept(log_after(a.log_base@, head), tail);
    assert(head.drop_last() =~= a.actions@);
    assert(b.log() == a.log() + log_bytes(ops));
    if a.log_ok() && ops_fit_formats(ops) {
        crate::wal::lemma_wal_roundtrip(ops);
        crate::wal::lemma_parse_append(a.log(), log_bytes(ops));
        lemma_apply_concat(Map::empty(), 0, a.logged@, ops);
        let st = apply_ops(Map::empty(), 0, a.logged@);
        lemma_apply_map(st.0, st.1, a.memtable.size_spec() as int, ops);
    }
    if a.sound() && b.wf() && ops_fit_formats(ops) {
        lemma_dir_after_log(a, b);
        lemma_dir_same(a, b);
        assert forall|k: Seq<u8>| #[trigger] b.memtable@.contains_key(k) implies fits(k) && fits(stored_value(b.memtable@[k])) by {
            if overlay(ops).contains_key(k) {
                lemma_overlay_from_ops(ops, k);
            } else {
                assert(a.memtable@.contains_key(k));
            }
        }
    }
}

impl<S: Fn(usize) -> (usize, usize)> Lsm5<S> {
    /// The handles differ at most in the cache and its counters.
    pub closed spec fn same_but_cache(&self, b: &Self) -> bool {
        &&& self.config == b.config
        &&& self.memtable == b.memtable
        &&& self.imm_memtables == b.imm_memtables
        &&& self.levels == b.levels
        &&& self.seq == b.seq
        &&& self.transaction == b.transaction
        &&& self.reads == b.reads
        &&& self.writes == b.writes
        &&& self.flushes == b.flushes
        &&& self.compactions == b.compactions
        &&& self.actions == b.actions
        &&& self.sizer == b.sizer
        &&& self.clean == b.clean
        &&& self.log_base == b.log_base
        &&& self.logged == b.logged
        &&& self.dir_base == b.dir_base
    }

    /// Ask table `idx` of `level` for `key`: `Ok(None)` when its key range
    /// misses the key or it does not hold it, its entry otherwise (trying the
    /// cache of data blocks first, and caching the table's data block when it
    /// answers).
    #[verifier::rlimit(30)]
    fn lookup_table(&mut self, level: usize, idx: usize, key: &[u8]) -> (r: Result<Option<Value>, Error>)
        requires
            old(self).wf(),
            level < old(self).levels@.len(),
            idx < old(self).levels@[level as int]@.len(),
        ensures
            final(self).wf(),
            final(self).same_but_cache(old(self)),
            final(self).cache.capacity_spec() == old(self).cache.capacity_spec(),
            old(self).sound() ==> cache_ok(final(self).cache.lines(), final(self).tables(), final(self).seq),
            old(self).sound() ==>
                (r matches Ok(v) && opt_value_view(v) == entry_of(entries_map(old(self).levels@[level as int]@[idx as int].run@), key@)),
    {
        let ghost old_self = *self;
        let ghost k = key@;
        let ghost tb = self.levels@[level as int]@[idx as int];
        proof {
            if old_self.sound() {
                assert(old_self.tables()[level as int][idx as int] == tb);
                assert(table_ok(tb));
                assert(tb.meta.sequence <= old_self.seq);
            }
        }
        let min_key = self.levels[level][idx].meta.min_key.as_slice();
        let max_key = self.levels[level][idx].meta.max_key.as_slice();
        let outside = (min_key.len() > 0 && bytes_lt(key, min_key)) || (max_key.len() > 0 && bytes_lt(max_key, key));
        if outside {
            proof {
                if table_ok(tb) {
                    lemma_outside_range(tb, k);
                }
            }
            return Ok(None);
        }
        let seq_no = self.levels[level][idx].meta.sequence;
        let size = self.levels[level][idx].meta.file_size as usize;
        let ghost lines0 = self.cache.lines();
        match self.cache.get(&seq_no) {
            Some(data) => {
                proof {
                    let i = crate::cache::line_of(lines0, seq_no);
                    lemma_cloned_bytes(lines0[i].1, data);
                    if old_self.sound() {
                        reveal(cache_ok);
                        assert(old_self.tables()[level as int][idx as int] == tb);
                        assert(data@ == data_block(tb.run@));
                        lemma_cached_block(tb, k);
                    }
                }
                match get_from_data(data.as_slice(), key) {
                    Some(v) => {
                        self.cache_hits = self.cache_hits.wrapping_add(1);
                        proof {
                            self.lemma_moved_lines(old_self, lines0, seq_no);
                        }
                        return Ok(Some(v));
                    },
                    None => {},
                }
            },
            None => {
                self.cache_misses = self.cache_misses.wrapping_add(1);
            },
        }
        proof {
            self.lemma_moved_lines(old_self, lines0, seq_no);
        }
        let reader = SsTableReader::open(self.levels[level][idx].image.as_slice())?;
        if !reader.is_usable() {
            return Err(Error::Corruption("SSTable filter has no bits".to_owned()));
        }
        proof {
            if table_ok(tb) {
                lemma_table_get(tb, k);
            }
        }
        match reader.get(key)? {
            Some(v) => {
                let ghost lines1 = self.cache.lines();
                let ghost total1 = self.cache.total_spec() as int;
                let data = reader.into_data();
                let ghost x = (seq_no, data, size);
                self.cache.put(seq_no, data, size);
                proof {
                    let c2 = self.cache.lines();
                    let cap = self.cache.capacity_spec() as int;
                    crate::cache::lemma_put_lines(lines1, total1, cap, seq_no, data, size);
                    assert(c2 == crate::cache::lru_put(lines1, total1, cap, seq_no, data, size).0);
                    assert forall|c: int| 0 <= c < c2.len() implies #[trigger] c2[c] == x || lines1.contains(c2[c]) by {
                        assert(c2[c] == crate::cache::lru_put(lines1, total1, cap, seq_no, data, size).0[c]);
                    }
                    if old_self.sound() {
                        assert(x.1@ == data_block(tb.run@));
                        reveal(cache_ok);
                        let lv = self.tables();
                        assert(lv == old_self.tables());
                        assert(lv[level as int][idx as int] == tb);
                        assert forall|i: int, j: int| 0 <= i < lv.len() && 0 <= j < lv[i].len()
                            && (#[trigger] lv[i][j]).meta.sequence == x.0
                            implies x.1@ == data_block(lv[i][j].run@) by {
                            assert(lv[i][j].meta.sequence == lv[level as int][idx as int].meta.sequence);
                        }
                        lemma_cache_ok_lines(lines1, self.cache.lines(), self.tables(), self.seq, x);
                    }
                }
                Ok(Some(v))
            },
            None => Ok(None),
        }
    }

    /// After looking a line up, the lines are those from before, moved.
    proof fn lemma_moved_lines(&self, a: Self, lines0: Seq<(u64, Vec<u8>, usize)>, seq_no: u64)
        requires
            lines0 == a.cache.lines(),
            self.same_but_cache(&a),
            self.cache.lines() == lines0 || (crate::cache::has_line(lines0, seq_no)
                && self.cache.lines() == seq![lines0[crate::cache::line_of(lines0, seq_no)]]
                    + lines0.remove(crate::cache::line_of(lines0, seq_no))),
        ensures
            a.sound() ==> cache_ok(self.cache.lines(), self.tables(), self.seq),
    {
        if a.sound() && self.cache.lines() != lines0 {
            let i = crate::cache::line_of(lines0, seq_no);
            let c = self.cache.lines();
            assert(self.tables() == a.tables());
            assert forall|j: int| 0 <= j < c.len() implies #[trigger] c[j] == lines0[i] || lines0.contains(c[j]) by {
                if j == 0 {
                    assert(c[0] == lines0[i]);
                } else if j - 1 < i {
                    assert(c[j] == lines0[j - 1]);
                } else {
                    assert(c[j] == lines0[j]);
                }
            }
            reveal(cache_ok);
            lemma_cache_ok_lines(lines0, c, self.tables(), self.seq, lines0[i]);
        }
    }

    /// The value of a key: `Ok(None)` when there is none.  Looks in the
    /// memtable, then level by level (within a level, newest table first,
    /// skipping tables whose key range misses the key), trying the cache of
    /// data blocks before reading a table, and caching the data block of the
    /// table that answers.  Fails when a table's bytes do not open or an
    /// entry fails its checksum.
    #[verifier::rlimit(100)]
    #[verifier::spinoff_prover]
    pub fn get(&mut self, key: &[u8]) -> (r: Result<Option<Vec<u8>>, Error>)
        requires
            old(self).wf(),
        ensures
            final(self).wf(),
            final(self).same_but_cache(old(self)),
            old(self).sound() ==> final(self).sound(),
            old(self).log_ok() ==> final(self).log_ok(),
            forall|k: Seq<u8>| #[trigger] final(self).read(k) == old(self).read(k),
            final(self).pending() == old(self).pending(),
            old(self).sound() ==> (r matches Ok(v) && opt_bytes(v) == old(self).read(key@)),
            old(self).mem().contains_key(key@) ==> (r matches Ok(v) && opt_bytes(v) == old(self).mem()[key@]),
    {
        let ghost old_self = *self;
        let ghost k = key@;
        // 1. the memtable
        match self.memtable.get(key) {
            Some(v) => {
                proof {
                    lemma_same_but_cache(old_self, *self);
                }
                return match v {
                    Value::Data(d) => Ok(Some(copy_bytes(d.as_slice()))),
                    Value::Tombstone => Ok(None),
                };
            },
            None => {},
        }
        // 2. memtables waiting to be flushed, newest first
        let mut m = self.imm_memtables.len();
        while m > 0
            invariant
                old_self == *old(self),
                !old_self.memtable@.contains_key(key@),
                m <= self.imm_memtables@.len(),
                self.wf(),
                *self == old_self,
                old_self.sound() ==> self.imm_memtables@.len() == 0,
            decreases m,
        {
            m = m - 1;
            let imm = &self.imm_memtables[m];
            let mut e: usize = 0;
            while e < imm.len()
                invariant
                    old_self == *old(self),
                    !old_self.memtable@.contains_key(key@),
                    e <= imm@.len(),
                    self.wf(),
                    *self == old_self,
                    m < self.imm_memtables@.len(),
                    old_self.sound() ==> self.imm_memtables@.len() == 0,
                decreases imm@.len() - e,
            {
                if crate::order::bytes_eq(imm[e].0.as_slice(), key) {
                    proof {
                        lemma_same_but_cache(old_self, *self);
                    }
                    return match &imm[e].1 {
                        Value::Data(d) => Ok(Some(copy_bytes(d.as_slice()))),
                        Value::Tombstone => Ok(None),
                    };
                }
                e = e + 1;
            }
        }
        // 3. the levels
        let ghost lv = self.tables();
        let ghost runs = level_runs(lv);
        let mut level: usize = 0;
        while level < self.levels.len()
            invariant
                old_self == *old(self),
                !old_self.memtable@.contains_key(key@),
                k == key@,
                self.wf(),
                self.same_but_cache(&old_self),
                self.cache.capacity_spec() == old_self.cache.capacity_spec(),
                lv == self.tables(),
                runs == level_runs(lv),
                lv.len() == MAX_LEVELS,
                old_self.sound() ==> cache_ok(self.cache.lines(), self.tables(), self.seq),
                old_self.sound() ==> !old_self.memtable@.contains_key(k)
                    && levels_entry(runs, k, 0) == levels_entry(runs, k, level as int),
            decreases MAX_LEVELS - level,
        {
            let order = seq_desc_order(&self.levels[level]);
            let ghost n = self.levels@[level as int]@.len();
            proof {
                assert(lv[level as int] == self.levels@[level as int]@);
                assert(runs[level as int] == runs_of(lv[level as int]));
                assert(runs[level as int].take(n as int) =~= runs[level as int]);
            }
            let mut t: usize = 0;
            while t < order.len()
                invariant
                    old_self == *old(self),
                    !old_self.memtable@.contains_key(key@),
                    k == key@,
                    self.wf(),
                    self.same_but_cache(&old_self),
                    self.cache.capacity_spec() == old_self.cache.capacity_spec(),
                    lv == self.tables(),
                    runs == level_runs(lv),
                    lv.len() == MAX_LEVELS,
                    level < MAX_LEVELS,
                    n == lv[level as int].len(),
                    order@.len() == n,
                    t <= n,
                    forall|i: int| 0 <= i < order@.len() ==> #[trigger] order@[i] < n,
                    seqs_increasing(lv[level as int]) ==> forall|i: int| 0 <= i < order@.len() ==> #[trigger] order@[i] == n - 1 - i,
                    old_self.sound() ==> cache_ok(self.cache.lines(), self.tables(), self.seq),
                    old_self.sound() ==> !old_self.memtable@.contains_key(k)
                        && levels_entry(runs, k, 0) == levels_entry(runs, k, level as int)
                        && level_entry(runs[level as int].take(n - t), k) == level_entry(runs[level as int], k),
                decreases n - t,
            {
                let idx = order[t];
                proof {
                    assert(self.levels@[level as int]@[idx as int] == lv[level as int][idx as int]);
                    if old_self.sound() {
                        assert(seqs_increasing(lv[level as int]));
                        lemma_table_step(lv, old_self.seq, level as int, n as int, t as int, idx as int, k);
                    }
                    lemma_same_but_cache(old_self, *self);
                }
                let ghost pre = *self;
                let res = self.lookup_table(level, idx, key);
                proof {
                    lemma_same_but_cache(old_self, *self);
                }
                match res {
                    Ok(Some(v)) => {
                        proof {
                            if old_self.sound() {
                                let tb = lv[level as int][idx as int];
                                assert(pre.sound());
                                assert(pre.levels@[level as int]@[idx as int] == tb);
                                assert(entry_of(entries_map(tb.run@), k) == Some(v@));
                                assert(holds(tb.run@, k));
                                assert(level_entry(runs[level as int], k) == Some(v@));
                                assert(levels_entry(runs, k, level as int) == Some(v@));
                                assert(old_self.read(k) == live(Some(v@)));
                            }
                        }
                        let out: Option<Vec<u8>> = match v {
                            Value::Data(d) => Some(d),
                            Value::Tombstone => None,
                        };
                        proof {
                            lemma_same_but_cache(old_self, *self);
                        }
                        return Ok(out);
                    },
                    Ok(None) => {
                    },
                    Err(e) => {
                        proof {
                            lemma_same_but_cache(old_self, *self);
                        }
                        return Err(e);
                    },
                }
                t = t + 1;
            }
            proof {
                if old_self.sound() {
                    assert(runs[level as int].take(0) =~= Seq::<Seq<Entry>>::empty());
                }
            }
            level = level + 1;
        }
        proof {
            lemma_same_but_cache(old_self, *self);
        }
        Ok(None)
    }
}

/// What the levels answer for `k` taking only the first `j` tables of level
/// `level`, then the levels below it.
pub open spec fn layer(r: Seq<Seq<Seq<Entry>>>, level: int, j: int, k: Seq<u8>) -> Option<Option<Seq<u8>>> {
    match level_entry(r[level].take(j), k) {
        Some(e) => Some(e),
        None => levels_entry(r, k, level + 1),
    }
}

/// Those answers for the keys in `[start, end)`.
pub open spec fn layer_view(r: Seq<Seq<Seq<Entry>>>, level: int, j: int, start: Seq<u8>, end: Seq<u8>)
    -> Map<Seq<u8>, Option<Seq<u8>>> {
    Map::new(|k: Seq<u8>| in_range(k, start, end) && layer(r, level, j, k) is Some, |k: Seq<u8>| layer(r, level, j, k)->Some_0)
}

/// What the levels from `level` on answer for the keys in `[start, end)`.
pub open spec fn below_view(r: Seq<Seq<Seq<Entry>>>, level: int, start: Seq<u8>, end: Seq<u8>) -> Map<Seq<u8>, Option<Seq<u8>>> {
    Map::new(|k: Seq<u8>| in_range(k, start, end) && levels_entry(r, k, level) is Some, |k: Seq<u8>| levels_entry(r, k, level)->Some_0)
}

/// Scanning a level starts from what the levels below answer and ends with
/// what the level answers.
proof fn lemma_layer_ends(r: Seq<Seq<Seq<Entry>>>, level: int, start: Seq<u8>, end: Seq<u8>)
    requires
        0 <= level < r.len(),
    ensures
        layer_view(r, level, 0, start, end) == below_view(r, level + 1, start, end),
        layer_view(r, level, r[level].len() as int, start, end) == below_view(r, level, start, end),
{
    assert(r[level].take(0) =~= Seq::<Seq<Entry>>::empty());
    assert(r[level].take(r[level].len() as int) =~= r[level]);
    assert(layer_view(r, level, 0, start, end) =~= below_view(r, level + 1, start, end));
    assert(layer_view(r, level, r[level].len() as int, start, end) =~= below_view(r, level, start, end));
}

/// Writing the entries of a level's next table over what has been read.
proof fn lemma_layer_table(r: Seq<Seq<Seq<Entry>>>, level: int, j: int, start: Seq<u8>, end: Seq<u8>)
    requires
        0 <= level < r.len(),
        0 <= j < r[level].len(),
    ensures
        overwritten(layer_view(r, level, j, start, end), r[level][j], start, end) == layer_view(r, level, j + 1, start, end),
{
    let run = r[level][j];
    assert(r[level].take(j + 1).drop_last() =~= r[level].take(j));
    assert(r[level].take(j + 1).last() == run);
    assert(overwritten(layer_view(r, level, j, start, end), run, start, end) =~= layer_view(r, level, j + 1, start, end));
}

/// A table that holds no key of the range changes nothing.
proof fn lemma_overwrite_nothing(base: Map<Seq<u8>, Option<Seq<u8>>>, run: Seq<Entry>, start: Seq<u8>, end: Seq<u8>)
    requires
        forall|k: Seq<u8>| #[trigger] in_range(k, start, end) ==> !holds(run, k),
    ensures
        overwritten(base, run, start, end) == base,
{
    let rm = entries_map(run).restrict(crate::range::range_set(start, end));
    assert forall|k: Seq<u8>| !rm.contains_key(k) by {
        if rm.contains_key(k) {
            assert(crate::range::range_set(start, end).contains(k));
            assert(in_range(k, start, end));
            assert(holds(run, k));
        }
    }
    assert(rm =~= Map::<Seq<u8>, Option<Seq<u8>>>::empty());
    assert(overwritten(base, run, start, end) =~= base);
}

/// A sound table whose key range misses `[start, end)` holds no key of it.
proof fn lemma_skipped_table(t: Table, start: Seq<u8>, end: Seq<u8>)
    requires
        table_ok(t),
        lex_lt(t.meta.max_key@, start) || lex_le(end, t.meta.min_key@),
    ensures
        forall|k: Seq<u8>| #[trigger] in_range(k, start, end) ==> !holds(t.run@, k),
{
    crate::order::lemma_lex_order_facts();
    assert forall|k: Seq<u8>| #[trigger] in_range(k, start, end) implies !holds(t.run@, k) by {
        if holds(t.run@, k) {
            crate::compaction_law::lemma_holds_in_range(t, k);
        }
    }
}

/// The pairs `out` are the reads of the keys in `[start, end)` that find a
/// value, in key order.
pub open spec fn scan_matches<S: Fn(usize) -> (usize, usize)>(db: Lsm5<S>, start: Seq<u8>, end: Seq<u8>,
    out: Seq<(Seq<u8>, Seq<u8>)>) -> bool {
    &&& forall|a: int, b: int| 0 <= a < b < out.len() ==> lex_lt(#[trigger] out[a].0, #[trigger] out[b].0)
    &&& forall|a: int| 0 <= a < out.len() ==> in_range(#[trigger] out[a].0, start, end) && db.read(out[a].0) == Some(out[a].1)
    &&& forall|k: Seq<u8>| in_range(k, start, end) && #[trigger] db.read(k) is Some ==>
        exists|a: int| 0 <= a < out.len() && #[trigger] out[a].0 == k
}

/// A table a scan of `[start, end)` passes over.
pub open spec fn skipped(t: Table, start: Seq<u8>, end: Seq<u8>) -> bool {
    lex_lt(t.meta.max_key@, start) || lex_le(end, t.meta.min_key@)
}

impl<S: Fn(usize) -> (usize, usize)> Lsm5<S> {
    /// Every table a scan of `[start, end)` reads opens.
    pub closed spec fn scan_opens(&self, start: Seq<u8>, end: Seq<u8>) -> bool {
        forall|i: int, j: int| 0 <= i < self.tables().len() && 0 <= j < self.tables()[i].len()
            && !skipped(#[trigger] self.tables()[i][j], start, end) ==> spec_open(self.tables()[i][j].image@) is Ok
    }

    /// Every table of a sound handle opens, so its scans of any range (and
    /// the iterators over them) can be asked for.
    pub proof fn lemma_sound_scan_opens(&self, start: Seq<u8>, end: Seq<u8>)
        requires
            self.sound(),
        ensures
            self.scan_opens(start, end),
    {
        let lv = self.tables();
        assert forall|i: int, j: int| 0 <= i < lv.len() && 0 <= j < lv[i].len() && !skipped(#[trigger] lv[i][j], start, end)
            implies spec_open(lv[i][j].image@) is Ok by {
            assert(table_ok(lv[i][j]));
        }
    }

    /// The key/value pairs of `[start, end)` in key order: each key's value
    /// as a read finds it, keys without a value left out.  Reads the tables
    /// from the last level to the first (a level's tables in order), then
    /// the memtable, later entries overwriting earlier ones.  Fails when a
    /// table's bytes do not open.
    #[verifier::rlimit(40)]
    #[verifier::spinoff_prover]
    pub fn scan(&self, start: &[u8], end: &[u8]) -> (r: Result<Vec<(Vec<u8>, Vec<u8>)>, Error>)
        requires
            self.wf(),
        ensures
            r is Ok <== self.scan_opens(start@, end@),
            self.sound() ==> (r matches Ok(v) && scan_matches(*self, start@, end@, pairs_view(v@))),
    {
        let ghost st = start@;
        let ghost en = end@;
        let ghost lv = self.tables();
        let ghost r = level_runs(lv);
        let mut acc: Vec<(Vec<u8>, Value)> = Vec::new();
        let mut level = self.levels.len();
        proof {
            assert(keys_sorted(entries_view(acc@)));
            if self.sound() {
                assert(entries_map(entries_view(acc@)) =~= below_view(r, 7, st, en));
            }
        }
        while level > 0
            invariant
                level <= MAX_LEVELS,
                self.wf(),
                st == start@,
                en == end@,
                lv == self.tables(),
                r == level_runs(lv),
                lv.len() == MAX_LEVELS,
                keys_sorted(entries_view(acc@)),
                self.sound() ==> entries_map(entries_view(acc@)) == below_view(r, level as int, st, en),
            decreases level,
        {
            level = level - 1;
            let ghost n = lv[level as int].len();
            proof {
                assert(lv[level as int] == self.levels@[level as int]@);
                assert(r[level as int] == runs_of(lv[level as int]));
                lemma_layer_ends(r, level as int, st, en);
            }
            let mut j: usize = 0;
            while j < self.levels[level].len()
                invariant
                    level < MAX_LEVELS,
                    self.wf(),
                    st == start@,
                    en == end@,
                    lv == self.tables(),
                    r == level_runs(lv),
                    lv.len() == MAX_LEVELS,
                    n == lv[level as int].len(),
                    j <= n,
                    keys_sorted(entries_view(acc@)),
                    self.sound() ==> entries_map(entries_view(acc@)) == layer_view(r, level as int, j as int, st, en),
                decreases n - j,
            {
                let t = &self.levels[level][j];
                proof {
                    assert(*t == lv[level as int][j as int]);
                    assert(r[level as int][j as int] == t.run@);
                    lemma_layer_table(r, level as int, j as int, st, en);
                    crate::order::lemma_lex_order_facts();
                }
                if bytes_lt(t.meta.max_key.as_slice(), start) || !bytes_lt(t.meta.min_key.as_slice(), end) {
                    proof {
                        if self.sound() {
                            lemma_skipped_table(*t, st, en);
                            lemma_overwrite_nothing(layer_view(r, level as int, j as int, st, en), t.run@, st, en);
                        }
                    }
                } else {
                    let reader = SsTableReader::open(t.image.as_slice())?;
                    let entries = match reader.scan_all() {
                        Ok(v) => v,
                        Err(e) => {
                            return Err(e);
                        },
                    };
                    let ghost base = entries_map(entries_view(acc@));
                    let ghost run = entries_view(entries@);
                    proof {
                        if self.sound() {
                            lemma_stored_run(*t);
                            assert(run == t.run@);
                        }
                    }
                    let mut p: usize = 0;
                    proof {
                        lemma_overwrite_none(base, run, st, en);
                    }
                    while p < entries.len()
                        invariant
                            p <= entries@.len(),
                            run == entries_view(entries@),
                            st == start@,
                            en == end@,
                            keys_sorted(entries_view(acc@)),
                            keys_sorted(run) ==> entries_map(entries_view(acc@)) == overwritten(base, run.take(p as int), st, en),
                        decreases entries@.len() - p,
                    {
                        let k = entries[p].0.as_slice();
                        proof {
                            crate::order::lemma_lex_order_facts();
                            assert(run[p as int] == (entries@[p as int].0@, entries@[p as int].1@));
                            if keys_sorted(run) {
                                lemma_overwrite_step(base, run, p as int, st, en);
                            }
                        }
                        if !bytes_lt(k, start) && bytes_lt(k, end) {
                            upsert(&mut acc, copy_bytes(k), entries[p].1.duplicate());
                        }
                        p = p + 1;
                    }
                    proof {
                        assert(run.take(run.len() as int) =~= run);
                    }
                }
                j = j + 1;
            }
        }
        // memtables waiting to be flushed (none when sound), then the memtable
        let mut m: usize = 0;
        while m < self.imm_memtables.len()
            invariant
                keys_sorted(entries_view(acc@)),
                self.sound() ==> self.imm_memtables@.len() == 0,
                self.sound() ==> entries_map(entries_view(acc@)) == below_view(r, 0, st, en),
                r == level_runs(lv),
                lv == self.tables(),
            decreases self.imm_memtables@.len() - m,
        {
            let imm = &self.imm_memtables[m];
            let mut e: usize = 0;
            while e < imm.len()
                invariant
                    keys_sorted(entries_view(acc@)),
                decreases imm@.len() - e,
            {
                let k = imm[e].0.as_slice();
                if !bytes_lt(k, start) && bytes_lt(k, end) {
                    upsert(&mut acc, copy_bytes(k), imm[e].1.duplicate());
                }
                e = e + 1;
            }
            m = m + 1;
        }
        let mem = self.memtable.iter();
        let ghost base = entries_map(entries_view(acc@));
        let ghost run = entries_view(mem@);
        proof {
            self.memtable.lemma_view();
            lemma_overwrite_none(base, run, st, en);
        }
        let mut p: usize = 0;
        while p < mem.len()
            invariant
                p <= mem@.len(),
                run == entries_view(mem@),
                keys_sorted(run),
                st == start@,
                en == end@,
                keys_sorted(entries_view(acc@)),
                entries_map(entries_view(acc@)) == overwritten(base, run.take(p as int), st, en),
            decreases mem@.len() - p,
        {
            let k = mem[p].0.as_slice();
            proof {
                crate::order::lemma_lex_order_facts();
                assert(run[p as int] == (mem@[p as int].0@, mem@[p as int].1@));
                lemma_overwrite_step(base, run, p as int, st, en);
            }
            if !bytes_lt(k, start) && bytes_lt(k, end) {
                upsert(&mut acc, copy_bytes(k), mem[p].1.duplicate());
            }
            p = p + 1;
        }
        proof {
            assert(run.take(run.len() as int) =~= run);
        }
        let ghost fin = entries_view(acc@);
        let out = filter_tombstones(acc);
        proof {
            if self.sound() {
                lemma_scan_result(*self, st, en, fin, base, pairs_view(out@));
            }
        }
        Ok(out)
    }
}

/// The sorted entries a scan gathered give exactly the reads of the range.
proof fn lemma_scan_result<S: Fn(usize) -> (usize, usize)>(db: Lsm5<S>, start: Seq<u8>, end: Seq<u8>, fin: Seq<Entry>,
    base: Map<Seq<u8>, Option<Seq<u8>>>, out: Seq<(Seq<u8>, Seq<u8>)>)
    requires
        db.sound(),
        keys_sorted(fin),
        base == below_view(level_runs(db.tables()), 0, start, end),
        entries_map(fin) == overwritten(base, db.memtable.entries(), start, end),
        out == live_pairs(fin),
    ensures
        scan_matches(db, start, end, out),
{
    db.memtable.lemma_view();
    lemma_live_pairs(fin);
    let m = entries_map(fin);
    let rs = crate::range::range_set(start, end);
    assert forall|k: Seq<u8>| #[trigger] m.contains_key(k) implies in_range(k, start, end) by {
        if !base.contains_key(k) {
            assert(entries_map(db.memtable.entries()).restrict(rs).contains_key(k));
            assert(rs.contains(k));
        }
    }
    assert forall|k: Seq<u8>| in_range(k, start, end) implies
        (m.contains_key(k) && m[k] is Some) == (db.read(k) is Some)
        && (db.read(k) is Some ==> m[k] == db.read(k)) by {
        range_has(start, end, k);
        if db.memtable@.contains_key(k) {
            assert(m[k] == db.memtable@[k]);
        } else {
            assert(!entries_map(db.memtable.entries()).restrict(rs).contains_key(k));
            assert(m.contains_key(k) == base.contains_key(k));
        }
    }
    assert forall|a: int| 0 <= a < out.len() implies in_range(#[trigger] out[a].0, start, end)
        && db.read(out[a].0) == Some(out[a].1) by {
        assert(m.contains_key(out[a].0));
    }
    assert forall|k: Seq<u8>| in_range(k, start, end) && #[trigger] db.read(k) is Some implies
        exists|a: int| 0 <= a < out.len() && #[trigger] out[a].0 == k by {
        assert(m.contains_key(k) && m[k] is Some);
    }
}

proof fn range_has(start: Seq<u8>, end: Seq<u8>, k: Seq<u8>)
    requires
        in_range(k, start, end),
    ensures
        crate::range::range_set(start, end).contains(k),
{
}

impl<S: Fn(usize) -> (usize, usize)> Lsm5<S> {
    /// Open a database from the bytes of its log and the files of its
    /// directory (names and bytes): replay the log into the memtable, load
    /// the tables, and go on numbering after the highest table number.
    /// Fails when the log does not read back (a record cut short, a checksum
    /// mismatch, an unknown operation).
    pub fn open(config: Config, wal: &[u8], files: Vec<(String, Vec<u8>)>, sizer: S) -> (r: Result<Lsm5<S>, Error>)
        requires
            forall|n: usize| call_requires(sizer, (n,)),
        ensures
            match (r, wal_parse(wal@)) {
                (Ok(db), Ok(ops)) => {
                    &&& db.wf()
                    &&& db.mem() == overlay(ops)
                    &&& db.logged() == ops
                    &&& db.log() == wal@
                    &&& db.log_ok()
                    &&& db.pending() == Seq::<IoAction>::empty()
                    &&& db.tx() is None
                    &&& db.config_spec() == config
                    &&& db.clean()
                    &&& db.counters() == (0u64, 0u64, 0u64)
                    &&& loaded_levels(db.tables(), files_view(files@))
                    &&& forall|i: int, j: int| 0 <= i < db.tables().len() && 0 <= j < db.tables()[i].len()
                        ==> (#[trigger] db.tables()[i][j]).meta.sequence <= db.seq_spec()
                    &&& db.seq_spec() == 0 || exists|i: int, j: int| 0 <= i < db.tables().len() && 0 <= j < db.tables()[i].len()
                        && (#[trigger] db.tables()[i][j]).meta.sequence == db.seq_spec()
                    &&& files@.len() == 0 && ops_fit_formats(ops) ==> db.sound()
                    &&& db.reopened(wal@, files_view(files@))
                },
                (Err(e), Err(f)) => fault_matches(e, f),
                _ => false,
            },
    {
        let records = parse_wal(wal)?;
        let ghost ops = records_view(records@);
        let _wal_len = wal.len();
        proof {
            crate::wal::lemma_parse_weight(wal@);
            crate::transaction::lemma_ops_fit_empty(ops);
        }
        let mut memtable = MemTable::new();
        let n = records.len();
        let mut rest = records;
        let mut i: usize = 0;
        proof {
            assert(ops.take(0) =~= Seq::<Entry>::empty());
        }
        while i < n
            invariant
                i <= n,
                n == ops.len(),
                rest@.len() == n - i,
                forall|t: int| 0 <= t < rest@.len() ==> (#[trigger] rest@[t])@ == ops[i + t],
                memtable.wf(),
                ops_fit(Map::empty(), 0, ops),
                (memtable@, memtable.size_spec() as int) == apply_ops(Map::empty(), 0, ops.take(i as int)),
            decreases n - i,
        {
            proof {
                assert(rest@[0]@ == ops[i + 0]);
                assert(ops.take(i + 1).drop_last() =~= ops.take(i as int));
                assert(ops.take(i + 1).last() == ops[i as int]);
                assert(apply_ops(Map::empty(), 0, ops.take(i + 1)).1 <= usize::MAX);
            }
            let ghost rest0 = rest@;
            let rec = rest.remove(0);
            match rec {
                WalRecord::Put { key, value } => memtable.put(key, value),
                WalRecord::Delete { key } => memtable.delete(key),
            }
            proof {
                assert forall|t: int| 0 <= t < rest@.len() implies (#[trigger] rest@[t])@ == ops[i + 1 + t] by {
                    assert(rest@[t] == rest0[t + 1]);
                }
            }
            i = i + 1;
        }
        proof {
            assert(ops.take(n as int) =~= ops);
            crate::transaction::lemma_apply_overlay(Map::empty(), 0, ops);
            assert(Map::<Seq<u8>, Option<Seq<u8>>>::empty().union_prefer_right(overlay(ops)) =~= overlay(ops));
        }
        let no_files = files.len() == 0;
        let levels = load_existing_sstables(files);
        let mut seq: u64 = 0;
        let ghost lv = levels@.map_values(|v: Vec<Table>| v@);
        let mut l: usize = 0;
        while l < levels.len()
            invariant
                l <= levels@.len(),
                lv == levels@.map_values(|v: Vec<Table>| v@),
                forall|a: int, j: int| 0 <= a < l && 0 <= j < lv[a].len() ==> (#[trigger] lv[a][j]).meta.sequence <= seq,
                seq == 0 || exists|a: int, j: int| 0 <= a < l && 0 <= j < lv[a].len() && (#[trigger] lv[a][j]).meta.sequence == seq,
            decreases levels@.len() - l,
        {
            let mut j: usize = 0;
            proof {
                assert(lv[l as int] == levels@[l as int]@);
            }
            while j < levels[l].len()
                invariant
                    l < levels@.len(),
                    j <= lv[l as int].len(),
                    lv == levels@.map_values(|v: Vec<Table>| v@),
                    lv[l as int] == levels@[l as int]@,
                    forall|a: int, t: int| 0 <= a < l && 0 <= t < lv[a].len() ==> (#[trigger] lv[a][t]).meta.sequence <= seq,
                    forall|t: int| 0 <= t < j ==> (#[trigger] lv[l as int][t]).meta.sequence <= seq,
                    seq == 0 || exists|a: int, t: int| 0 <= a <= l && 0 <= t < lv[a].len() && (#[trigger] lv[a][t]).meta.sequence == seq,
                decreases lv[l as int].len() - j,
            {
                if levels[l][j].meta.sequence > seq {
                    seq = levels[l][j].meta.sequence;
                    proof {
                        assert(lv[l as int][j as int].meta.sequence == seq);
                    }
                }
                j = j + 1;
            }
            l = l + 1;
        }
        let db = Lsm5 {
            cache: LruCache::new(config.cache_size),
            config,
            memtable,
            imm_memtables: Vec::new(),
            levels,
            seq,
            transaction: None,
            reads: 0,
            writes: 0,
            flushes: 0,
            compactions: 0,
            cache_hits: 0,
            cache_misses: 0,
            actions: Vec::new(),
            sizer,
            clean: Ghost(true),
            log_base: Ghost(wal@),
            logged: Ghost(ops),
            dir_base: Ghost(dir_of(files_view(files@))),
        };
        proof {
            assert(db.tables() == lv);
            assert(db.log() == wal@);
            assert(db.dir() == dir_of(files_view(files@)));
            if no_files && crate::db::ops_fit_formats(ops) {
                crate::recovery::lemma_no_files(lv, files_view(files@));
                assert(files_view(files@) =~= Seq::<(Seq<char>, Seq<u8>)>::empty());
                assert(db.dir() == dir_of(files_view(files@)));
                lemma_fresh_sound(db, ops);
            }
        }
        Ok(db)
    }
}

/// A database opened without table files is sound when the log's keys and
/// values fit the formats.
proof fn lemma_fresh_sound<S: Fn(usize) -> (usize, usize)>(db: Lsm5<S>, ops: Seq<Entry>)
    requires
        db.wf(),
        db.imm_memtables@.len() == 0,
        forall|i: int| 0 <= i < db.tables().len() ==> #[trigger] db.tables()[i].len() == 0,
        db.tables().len() == MAX_LEVELS,
        db.memtable@ == overlay(ops),
        ops_fit_formats(ops),
        db.dir() == Map::<Seq<char>, Seq<u8>>::empty(),
        db.cache.lines() == Seq::<(u64, Vec<u8>, usize)>::empty(),
    ensures
        db.sound(),
{
    let lv = db.tables();
    lemma_cache_ok_empty(lv, db.seq);
    reveal(Lsm5::dir_ok);
    assert forall|i: int, j: int| 0 <= i < lv.len() && 0 <= j < lv[i].len() implies {
        &&& (#[trigger] lv[i][j]).meta.level == i
        &&& crate::recovery::spec_table_name(vstd::utf8::encode_utf8(lv[i][j].meta.path@))
            == Some((i as nat, lv[i][j].meta.sequence))
    } by {
        assert(lv[i].len() == 0);
    }
    assert(levels_sound(lv, db.seq)) by {
        assert forall|i: int, j: int| 0 <= i < lv.len() && 0 <= j < lv[i].len() implies
            table_ok(#[trigger] lv[i][j]) && lv[i][j].meta.sequence <= db.seq by {
            assert(lv[i].len() == 0);
        }
        assert forall|i: int| 0 <= i < lv.len() implies seqs_increasing(#[trigger] lv[i]) by {
            assert(lv[i].len() == 0);
        }
        assert forall|i: int, j: int, a: int, b: int| 0 <= i && j == i + 1 && j < lv.len() && 0 <= a < lv[i].len() && 0 <= b < lv[j].len()
            implies (#[trigger] lv[i][a]).meta.sequence > (#[trigger] lv[j][b]).meta.sequence by {
            assert(lv[i].len() == 0);
        }
        assert forall|i: int, a: int, b: int| 1 <= i < lv.len() && 0 <= a < lv[i].len() && 0 <= b < lv[i].len() && a != b
            implies crate::levels::disjoint(#[trigger] lv[i][a], #[trigger] lv[i][b]) by {
            assert(lv[i].len() == 0);
        }
    }
    assert forall|k: Seq<u8>| #[trigger] db.memtable@.contains_key(k) implies fits(k) && fits(stored_value(db.memtable@[k])) by {
        lemma_overlay_from_ops(ops, k);
    }
}

/// The scan bounds an iterator uses: from the start (or the empty key), up
/// to the end (or the single byte 0xFF).
pub open spec fn iter_bounds(start: Option<Seq<u8>>, end: Option<Seq<u8>>) -> (Seq<u8>, Seq<u8>) {
    (match start { Some(s) => s, None => Seq::empty() }, match end { Some(e) => e, None => seq![0xffu8] })
}

/// With no end bound, an iterator's range ends at the single byte 0xFF: a
/// key is below it exactly when it is empty or its first byte is not 0xFF.
pub proof fn lemma_open_end(start: Option<Seq<u8>>, k: Seq<u8>)
    ensures
        lex_lt(k, iter_bounds(start, None).1) == (k.len() == 0 || k[0] != 0xffu8),
        in_range(k, iter_bounds(start, None).0, iter_bounds(start, None).1)
            == (lex_le(iter_bounds(start, None).0, k) && (k.len() == 0 || k[0] != 0xffu8)),
        start is None ==> iter_bounds(start, None).0 == Seq::<u8>::empty(),
{
    let e = iter_bounds(start, None).1;
    assert(e.len() == 1 && e[0] == 0xffu8);
    if k.len() > 0 && k[0] == 0xffu8 {
        assert(e.drop_first().len() == 0);
        assert(!lex_lt(k.drop_first(), e.drop_first()));
    }
}

/// An iterator with no bounds, over a database whose reads it matches,
/// yields every key that reads as a value and does not start with the byte
/// 0xFF, and no other key.
pub proof fn lemma_unbounded_iteration<S: Fn(usize) -> (usize, usize)>(db: Lsm5<S>, items: Seq<(Seq<u8>, Seq<u8>)>)
    requires
        scan_matches(db, iter_bounds(None, None).0, iter_bounds(None, None).1, items),
    ensures
        forall|k: Seq<u8>| (k.len() == 0 || k[0] != 0xffu8) && #[trigger] db.read(k) is Some
            ==> exists|a: int| 0 <= a < items.len() && #[trigger] items[a].0 == k,
        forall|a: int| 0 <= a < items.len() ==> (#[trigger] items[a].0.len() == 0 || items[a].0[0] != 0xffu8)
            && db.read(items[a].0) == Some(items[a].1),
{
    let st = iter_bounds(None, None).0;
    let en = iter_bounds(None, None).1;
    assert forall|k: Seq<u8>| (k.len() == 0 || k[0] != 0xffu8) && #[trigger] db.read(k) is Some
        implies exists|a: int| 0 <= a < items.len() && #[trigger] items[a].0 == k by {
        lemma_open_end(None, k);
        crate::order::lemma_lex_order_facts();
        assert(lex_le(st, k)) by {
            if k.len() > 0 {
                assert(lex_lt(st, k));
            } else {
                assert(k =~= st);
            }
        }
        assert(in_range(k, st, en));
    }
    assert forall|a: int| 0 <= a < items.len() implies (#[trigger] items[a].0.len() == 0 || items[a].0[0] != 0xffu8)
        && db.read(items[a].0) == Some(items[a].1) by {
        lemma_open_end(None, items[a].0);
        assert(in_range(items[a].0, st, en));
    }
}

/// The view of an optional byte slice.
pub open spec fn opt_slice(o: Option<&[u8]>) -> Option<Seq<u8>> {
    match o {
        Some(s) => Some(s@),
        None => None,
    }
}

impl<S: Fn(usize) -> (usize, usize)> Lsm5<S> {
    /// The pairs of a scan over `[start, end)` (from the empty key, up to the
    /// single byte 0xFF when not given).
    fn bounded_scan(&self, start: Option<&[u8]>, end: Option<&[u8]>) -> (r: Vec<(Vec<u8>, Vec<u8>)>)
        requires
            self.wf(),
            self.scan_opens(iter_bounds(opt_slice(start), opt_slice(end)).0, iter_bounds(opt_slice(start), opt_slice(end)).1),
        ensures
            self.sound() ==> scan_matches(*self, iter_bounds(opt_slice(start), opt_slice(end)).0,
                iter_bounds(opt_slice(start), opt_slice(end)).1, pairs_view(r@)),
    {
        let empty: [u8; 0] = [];
        let top: [u8; 1] = [0xff];
        let s: &[u8] = match start {
            Some(x) => x,
            None => &empty,
        };
        let e: &[u8] = match end {
            Some(x) => x,
            None => &top,
        };
        proof {
            assert(s@ == iter_bounds(opt_slice(start), opt_slice(end)).0);
            assert(e@ =~= iter_bounds(opt_slice(start), opt_slice(end)).1);
        }
        match self.scan(s, e) {
            Ok(v) => v,
            Err(_) => Vec::new(),
        }
    }

    /// A cursor over the pairs of `[start, end)` in key order (from the
    /// empty key, up to the single byte 0xFF when not given).
    pub fn iterator(&self, start: Option<&[u8]>, end: Option<&[u8]>) -> (r: LsmIterator)
        requires
            self.wf(),
            self.scan_opens(iter_bounds(opt_slice(start), opt_slice(end)).0, iter_bounds(opt_slice(start), opt_slice(end)).1),
        ensures
            r.pos_spec() == 0,
            self.sound() ==> scan_matches(*self, iter_bounds(opt_slice(start), opt_slice(end)).0,
                iter_bounds(opt_slice(start), opt_slice(end)).1, r.items_spec()),
    {
        LsmIterator::new(self.bounded_scan(start, end))
    }

    /// The pairs of `[start, end)` in reverse key order (from the empty key,
    /// up to the single byte 0xFF when not given).
    pub fn reverse_iterator(&self, start: Option<&[u8]>, end: Option<&[u8]>) -> (r: Vec<(Vec<u8>, Vec<u8>)>)
        requires
            self.wf(),
            self.scan_opens(iter_bounds(opt_slice(start), opt_slice(end)).0, iter_bounds(opt_slice(start), opt_slice(end)).1),
        ensures
            self.sound() ==> scan_matches(*self, iter_bounds(opt_slice(start), opt_slice(end)).0,
                iter_bounds(opt_slice(start), opt_slice(end)).1, pairs_view(r@).reverse()),
    {
        let mut items = self.bounded_scan(start, end);
        let ghost all = pairs_view(items@);
        let mut out: Vec<(Vec<u8>, Vec<u8>)> = Vec::new();
        while items.len() > 0
            invariant
                all == pairs_view(items@) + pairs_view(out@).reverse(),
            decreases items@.len(),
        {
            let ghost before_items = items@;
            let ghost before_out = out@;
            let item = items.pop().unwrap();
            out.push(item);
            proof {
                assert(pairs_view(before_items) =~= pairs_view(items@).push((item.0@, item.1@)));
                assert(pairs_view(out@) =~= pairs_view(before_out).push((item.0@, item.1@)));
                assert(pairs_view(out@).reverse() =~= seq![(item.0@, item.1@)] + pairs_view(before_out).reverse());
                assert(all =~= pairs_view(items@) + pairs_view(out@).reverse());
            }
        }
        proof {
            assert(pairs_view(items@) =~= Seq::<(Seq<u8>, Seq<u8>)>::empty());
            assert(all =~= pairs_view(out@).reverse());
        }
        out
    }

    /// The database's shape and counters.
    pub fn stats(&self) -> (r: DbStats)
        requires
            self.wf(),
        ensures
            r.memtable_entries == self.mem().len(),
            r.memtable_size_bytes == self.mem_size(),
            r.level_counts@.len() == MAX_LEVELS,
            r.level_sizes@.len() == MAX_LEVELS,
            forall|i: int| 0 <= i < MAX_LEVELS ==> #[trigger] r.level_counts@[i] == self.tables()[i].len(),
            forall|i: int| 0 <= i < MAX_LEVELS ==> #[trigger] r.level_sizes@[i] == crate::compaction::sat64(size_sum(self.tables()[i])),
            r.reads == self.read_count(),
            (r.writes, r.flushes, r.compactions) == self.counters(),
    {
        let mut counts: Vec<usize> = Vec::new();
        let mut sizes: Vec<u64> = Vec::new();
        let mut i: usize = 0;
        while i < self.levels.len()
            invariant
                i <= self.levels@.len(),
                self.levels@.len() == MAX_LEVELS,
                counts@.len() == i,
                sizes@.len() == i,
                forall|t: int| 0 <= t < i ==> #[trigger] counts@[t] == self.tables()[t].len(),
                forall|t: int| 0 <= t < i ==> #[trigger] sizes@[t] == crate::compaction::sat64(size_sum(self.tables()[t])),
            decreases self.levels@.len() - i,
        {
            proof {
                assert(self.tables()[i as int] == self.levels@[i as int]@);
            }
            counts.push(self.levels[i].len());
            sizes.push(level_file_size(&self.levels[i]));
            i = i + 1;
        }
        proof {
            self.memtable.lemma_view();
        }
        DbStats::with_metrics(self.memtable.len(), self.memtable.size_bytes(), counts, sizes, self.reads, self.writes,
            self.flushes, self.compactions)
    }
}

/// What stays when only the cache changes.
proof fn lemma_same_but_cache<S: Fn(usize) -> (usize, usize)>(a: Lsm5<S>, b: Lsm5<S>)
    requires
        b.same_but_cache(&a),
        b.cache.wf(),
        b.cache.capacity_spec() == a.cache.capacity_spec(),
        a.sound() ==> cache_ok(b.cache.lines(), b.tables(), b.seq),
    ensures
        a.wf() ==> b.wf(),
        a.sound() ==> b.sound(),
        a.log_ok() ==> b.log_ok(),
        forall|k: Seq<u8>| #[trigger] b.read(k) == a.read(k),
        b.pending() == a.pending(),
{
    assert(b.tables() == a.tables());
    if a.sound() {
        lemma_dir_same(a, b);
    }
}

/// Looking at the next table of a level, newest first.
proof fn lemma_table_step(lv: Seq<Seq<Table>>, top: u64, level: int, n: int, t: int, idx: int, k: Seq<u8>)
    requires
        levels_sound(lv, top),
        0 <= level < lv.len(),
        n == lv[level].len(),
        0 <= t < n,
        idx == n - 1 - t,
    ensures
        table_ok(lv[level][idx]),
        level_runs(lv)[level].take(n - t) == level_runs(lv)[level].take(n - t - 1).push(lv[level][idx].run@),
        level_entry(level_runs(lv)[level].take(n - t), k) == (if holds(lv[level][idx].run@, k) {
            Some(entries_map(lv[level][idx].run@)[k])
        } else {
            level_entry(level_runs(lv)[level].take(n - t - 1), k)
        }),
{
    let rs = level_runs(lv)[level];
    assert(rs == runs_of(lv[level]));
    assert(rs.take(n - t) =~= rs.take(n - t - 1).push(rs[idx]));
    assert(rs[idx] == lv[level][idx].run@);
    assert(rs.take(n - t).drop_last() =~= rs.take(n - t - 1));
}

/// After logging an operation and applying it to the memtable: the reads
/// see it, and the log still replays to the memtable.
proof fn lemma_after_write<S: Fn(usize) -> (usize, usize)>(a: Lsm5<S>, b: Lsm5<S>, e: Entry)
    requires
        b.cache.lines() == a.cache.lines(),
        b.memtable@ == a.memtable@.insert(e.0, e.1),
        b.levels == a.levels,
        b.seq == a.seq,
        b.imm_memtables == a.imm_memtables,
        b.logged@ == a.logged@.push(e),
        b.log_base == a.log_base,
        b.dir_base == a.dir_base,
        b.actions@.len() >= a.actions@.len() + 1,
        b.actions@.take(a.actions@.len() as int + 1) == a.actions@.push(b.actions@[a.actions@.len() as int]),
        b.actions@[a.actions@.len() as int] matches IoAction::AppendWal(x) && x@ == entry_record(e),
        forall|i: int| a.actions@.len() + 1 <= i < b.actions@.len() ==> #[trigger] b.actions@[i] is SyncWal,
    ensures
        a.sound() && b.wf() && fits(e.0) && fits(stored_value(e.1)) ==> b.sound(),
        forall|k: Seq<u8>| #[trigger] b.read(k) == (if k == e.0 { e.1 } else { a.read(k) }),
        a.log_ok() && fits(e.0) && fits(stored_value(e.1)) ==> b.log_ok(),
{
    assert(b.tables() == a.tables());
    let n = a.actions@.len() as int;
    let head = b.actions@.take(n + 1);
    let tail = b.actions@.skip(n + 1);
    assert(b.actions@ =~= head + tail);
    assert forall|i: int| 0 <= i < tail.len() implies keeps_log(#[trigger] tail[i]) by {
        assert(tail[i] == b.actions@[n + 1 + i]);
    }
    lemma_log_after_concat(a.log_base@, head, tail);
    lemma_log_kept(log_after(a.log_base@, head), tail);
    assert(head.drop_last() =~= a.actions@);
    assert(b.log() == a.log() + entry_record(e));
    if a.log_ok() && fits(e.0) && fits(stored_value(e.1)) {
        assert(a.logged@.push(e).drop_last() =~= a.logged@);
        assert(apply_ops(Map::empty(), 0, a.logged@.push(e)).0 == apply_ops(Map::empty(), 0, a.logged@).0.insert(e.0, e.1));
        let one = seq![e];
        assert(log_bytes(one) == entry_record(e)) by {
            assert(one.drop_first() =~= Seq::<Entry>::empty());
            assert(log_bytes(one.drop_first()) == Seq::<u8>::empty());
            assert(one[0] == e);
            assert(entry_record(e) + Seq::<u8>::empty() =~= entry_record(e));
        }
        crate::wal::lemma_wal_roundtrip(one);
        crate::wal::lemma_parse_append(a.log(), entry_record(e));
        assert(a.logged@ + one =~= a.logged@.push(e));
    }
    if a.sound() && b.wf() && fits(e.0) && fits(stored_value(e.1)) {
        lemma_dir_after_log(a, b);
        lemma_dir_same(a, b);
        assert forall|k: Seq<u8>| #[trigger] b.memtable@.contains_key(k) implies fits(k) && fits(stored_value(b.memtable@[k])) by {
            if k != e.0 {
                assert(a.memtable@.contains_key(k));
            }
        }
    }
}

/// The tables a compaction wrote, from its inputs, are the new tables of
/// the compaction law.
proof fn lemma_news_from_compact(lv: Seq<Seq<Table>>, top: u64, l: int, lo: Seq<u8>, hi: Seq<u8>, drop: bool, max: u64,
    inputs: Seq<&Table>, news: Seq<Table>, en: bool, cl: i32)
    requires
        comp_setting(lv, top, l, lo, hi),
        inputs.map_values(|t: &Table| *t) == lv[l] + select(lv[l + 1], lo, hi, true),
        news.len() == compaction_chunks(inputs, drop, max).len(),
        top + news.len() <= u64::MAX,
        forall|j: int| 0 <= j < news.len() ==> {
            &&& (#[trigger] news[j]).run@ == compaction_chunks(inputs, drop, max)[j]
            &&& news[j].meta.sequence == top + 1 + j
            &&& written_as(news[j], en, cl)
            &&& news[j].image@.len() <= usize::MAX
            &&& distinct_lengths(news[j].run@, en, cl)
        },
    ensures
        comp_news(lv, top, l, lo, hi, drop, max, news),
{
    crate::compaction_law::lemma_setting_facts(lv, top, l, lo, hi);
    lemma_select(lv[l + 1], lo, hi, true);
    let all = lv[l] + select(lv[l + 1], lo, hi, true);
    let o = select(lv[l + 1], lo, hi, true);
    let io = select_idx(lv[l + 1], lo, hi, true, lv[l + 1].len() as int);
    assert forall|i: int| 0 <= i < all.len() implies table_ok(#[trigger] all[i]) by {
        if i < lv[l].len() {
            assert(all[i] == lv[l][i]);
        } else {
            assert(all[i] == o[i - lv[l].len()]);
            assert(o[i - lv[l].len()] == lv[l + 1][io[i - lv[l].len()]]);
        }
    }
    assert(inputs.map_values(|t: &Table| *t).len() == inputs.len());
    assert(input_runs(inputs) =~= comp_srcs(lv, l, lo, hi)) by {
        assert forall|i: int| 0 <= i < inputs.len() implies #[trigger] input_runs(inputs)[i] == comp_srcs(lv, l, lo, hi)[i] by {
            assert(inputs.map_values(|t: &Table| *t)[i] == *inputs[i]);
            assert(*inputs[i] == all[i]);
            lemma_stored_run(all[i]);
            if i < lv[l].len() {
                assert(all[i] == lv[l][i]);
            } else {
                assert(all[i] == o[i - lv[l].len()]);
            }
        }
    }
    assert(input_seqs(inputs) =~= comp_seqs(lv, l, lo, hi)) by {
        assert forall|i: int| 0 <= i < inputs.len() implies #[trigger] input_seqs(inputs)[i] == comp_seqs(lv, l, lo, hi)[i] by {
            assert(inputs.map_values(|t: &Table| *t)[i] == *inputs[i]);
            assert(*inputs[i] == all[i]);
            if i < lv[l].len() {
                assert(all[i] == lv[l][i]);
            } else {
                assert(all[i] == o[i - lv[l].len()]);
            }
        }
    }
    let cs = split_chunks(comp_merged(lv, l, lo, hi, drop), max);
    assert(compaction_chunks(inputs, drop, max) == cs);
    lemma_news_pieces(lv, top, l, lo, hi, drop, max);
    assert(runs_of(news) =~= cs);
    assert forall|j: int| 0 <= j < news.len() implies table_ok(#[trigger] news[j]) by {
        assert(news[j].run@ == cs[j]);
        lemma_written_ok(news[j], en, cl);
    }
}

/// After a compaction: the levels are those of the compaction law; the
/// handle is sound and every read finds the same.
/// Two tables of sound, named levels with the same file name are the same
/// table.
proof fn lemma_path_unique(lv: Seq<Seq<Table>>, top: u64, i: int, j: int, i2: int, j2: int)
    requires
        levels_sound(lv, top),
        named(lv),
        0 <= i < lv.len() && 0 <= j < lv[i].len(),
        0 <= i2 < lv.len() && 0 <= j2 < lv[i2].len(),
        lv[i][j].meta.path@ == lv[i2][j2].meta.path@,
    ensures
        i == i2 && j == j2,
{
    assert(crate::recovery::spec_table_name(vstd::utf8::encode_utf8(lv[i][j].meta.path@)) == Some((i as nat, lv[i][j].meta.sequence)));
    assert(crate::recovery::spec_table_name(vstd::utf8::encode_utf8(lv[i2][j2].meta.path@)) == Some((i2 as nat, lv[i2][j2].meta.sequence)));
    assert(seqs_increasing(lv[i]));
    if j < j2 {
        assert(lv[i][j].meta.sequence < lv[i][j2].meta.sequence);
    } else if j2 < j {
        assert(lv[i][j2].meta.sequence < lv[i][j].meta.sequence);
    }
}

/// A table named for a number above every number of sound, named levels
/// has a name no table of theirs has.
proof fn lemma_path_fresh(lv: Seq<Seq<Table>>, top: u64, i: int, j: int, level: nat, seq: u64)
    requires
        levels_sound(lv, top),
        named(lv),
        0 <= i < lv.len() && 0 <= j < lv[i].len(),
        level < 10,
        seq > top,
    ensures
        lv[i][j].meta.path@ != table_name(level, seq),
{
    lemma_table_name_parses(level, seq);
    assert(lv[i][j].meta.sequence <= top);
}

/// After a compaction that wrote the files of the new tables and removed
/// those of its inputs, the directory holds exactly the tables' files.
proof fn lemma_compaction_dir<S: Fn(usize) -> (usize, usize)>(a: Lsm5<S>, b: Lsm5<S>, l: int, lo: Seq<u8>, hi: Seq<u8>,
    news: Seq<Table>, ins: Seq<Table>)
    requires
        a.sound(),
        comp_setting(a.tables(), a.seq, l, lo, hi),
        forall|j: int| 0 <= j < news.len() ==> (#[trigger] news[j]).meta.sequence == a.seq + 1 + j
            && news[j].meta.path@ == table_name((l + 1) as nat, news[j].meta.sequence),
        a.seq + news.len() <= u64::MAX,
        b.tables() == compacted(a.tables(), l, lo, hi, news),
        ins == a.tables()[l] + select(a.tables()[l + 1], lo, hi, true),
        forall|n: Seq<char>| #[trigger] b.dir().contains_key(n)
            == ((a.dir().contains_key(n) || is_new(news, n)) && !is_gone(ins, n)),
        forall|j: int| 0 <= j < news.len() && b.dir().contains_key((#[trigger] news[j]).meta.path@)
            ==> b.dir()[news[j].meta.path@] == news[j].image@,
        forall|n: Seq<char>| b.dir().contains_key(n) && !is_new(news, n) ==> #[trigger] b.dir()[n] == a.dir()[n],
    ensures
        b.dir_ok(),
{
    reveal(Lsm5::dir_ok);
    let lv = a.tables();
    let nv = b.tables();
    let top = a.seq;
    let kept = select(lv[l + 1], lo, hi, false);
    let moved = select(lv[l + 1], lo, hi, true);
    lemma_select(lv[l + 1], lo, hi, false);
    lemma_select(lv[l + 1], lo, hi, true);
    let kidx = select_idx(lv[l + 1], lo, hi, false, lv[l + 1].len() as int);
    let midx = select_idx(lv[l + 1], lo, hi, true, lv[l + 1].len() as int);
    assert(levels_sound(lv, top));
    // an old table that is not an input is not gone
    assert forall|i: int, j: int| 0 <= i < lv.len() && 0 <= j < lv[i].len() && i != l
        && !(i == l + 1 && overlaps(lv[i][j], lo, hi)) implies !is_gone(ins, (#[trigger] lv[i][j]).meta.path@) by {
        if is_gone(ins, lv[i][j].meta.path@) {
            let q = choose|q: int| 0 <= q < ins.len() && (#[trigger] ins[q]).meta.path@ == lv[i][j].meta.path@;
            if q < lv[l].len() {
                assert(ins[q] == lv[l][q]);
                lemma_path_unique(lv, top, i, j, l, q);
            } else {
                let y = q - lv[l].len();
                assert(ins[q] == moved[y]);
                assert(moved[y] == lv[l + 1][midx[y]]);
                lemma_path_unique(lv, top, i, j, l + 1, midx[y]);
            }
        }
    }
    // an old table's name is no new table's
    assert forall|i: int, j: int| 0 <= i < lv.len() && 0 <= j < lv[i].len() implies !is_new(news, (#[trigger] lv[i][j]).meta.path@) by {
        if is_new(news, lv[i][j].meta.path@) {
            let q = choose|q: int| 0 <= q < news.len() && (#[trigger] news[q]).meta.path@ == lv[i][j].meta.path@;
            lemma_path_fresh(lv, top, i, j, (l + 1) as nat, news[q].meta.sequence);
        }
    }
    // every table has its file
    assert forall|i: int, j: int| 0 <= i < nv.len() && 0 <= j < nv[i].len() implies
        b.dir().contains_key((#[trigger] nv[i][j]).meta.path@) && b.dir()[nv[i][j].meta.path@] == nv[i][j].image@ by {
        if i == l + 1 {
            assert(nv[i] == kept + news);
            if j < kept.len() {
                assert(nv[i][j] == lv[l + 1][kidx[j]]);
                assert(!overlaps(lv[l + 1][kidx[j]], lo, hi));
            } else {
                let q = j - kept.len();
                assert(nv[i][j] == news[q]);
                assert(is_new(news, news[q].meta.path@));
                if is_gone(ins, news[q].meta.path@) {
                    let p = choose|p: int| 0 <= p < ins.len() && (#[trigger] ins[p]).meta.path@ == news[q].meta.path@;
                    if p < lv[l].len() {
                        assert(ins[p] == lv[l][p]);
                        lemma_path_fresh(lv, top, l, p, (l + 1) as nat, news[q].meta.sequence);
                    } else {
                        let y = p - lv[l].len();
                        assert(ins[p] == moved[y]);
                        assert(moved[y] == lv[l + 1][midx[y]]);
                        lemma_path_fresh(lv, top, l + 1, midx[y], (l + 1) as nat, news[q].meta.sequence);
                    }
                }
            }
        } else {
            assert(nv[i][j] == lv[i][j]);
        }
    }
    // every file that loads is a table's
    assert forall|n: Seq<char>| #[trigger] b.dir().contains_key(n) && file_loads((n, b.dir()[n])) is Some
        implies exists|i: int, j: int| 0 <= i < nv.len() && 0 <= j < nv[i].len() && (#[trigger] nv[i][j]).meta.path@ == n by {
        assert(nv[l + 1] == kept + news);
        if is_new(news, n) {
            let q = choose|q: int| 0 <= q < news.len() && (#[trigger] news[q]).meta.path@ == n;
            assert(nv[l + 1][kept.len() + q] == news[q]);
        } else {
            assert(a.dir().contains_key(n));
            assert(b.dir()[n] == a.dir()[n]);
            let (i, j) = choose|i: int, j: int| 0 <= i < lv.len() && 0 <= j < lv[i].len() && (#[trigger] lv[i][j]).meta.path@ == n;
            if i == l {
                assert(ins[j] == lv[l][j]);
                assert(is_gone(ins, n));
            } else if i == l + 1 {
                if overlaps(lv[i][j], lo, hi) {
                    let y = choose|y: int| 0 <= y < moved.len() && #[trigger] midx[y] == j;
                    assert(ins[lv[l].len() + y] == moved[y]);
                    assert(is_gone(ins, n));
                } else {
                    let y = choose|y: int| 0 <= y < kept.len() && #[trigger] kidx[y] == j;
                    assert(nv[l + 1][y] == kept[y]);
                }
            } else {
                assert(nv[i][j] == lv[i][j]);
            }
        }
    }
}

proof fn lemma_compaction_state<S: Fn(usize) -> (usize, usize)>(a: Lsm5<S>, b: Lsm5<S>, l: int, lo: Seq<u8>, hi: Seq<u8>,
    drop: bool, news: Seq<Table>, ins: Seq<Table>)
    requires
        ins == a.tables()[l] + select(a.tables()[l + 1], lo, hi, true),
        forall|n: Seq<char>| #[trigger] b.dir().contains_key(n)
            == ((a.dir().contains_key(n) || is_new(news, n)) && !is_gone(ins, n)),
        forall|j: int| 0 <= j < news.len() && b.dir().contains_key((#[trigger] news[j]).meta.path@)
            ==> b.dir()[news[j].meta.path@] == news[j].image@,
        forall|n: Seq<char>| b.dir().contains_key(n) && !is_new(news, n) ==> #[trigger] b.dir()[n] == a.dir()[n],
        a.sound(),
        b.wf(),
        b.imm_memtables@.len() == 0,
        b.memtable@ == a.memtable@,
        comp_setting(a.tables(), a.seq, l, lo, hi),
        comp_news(a.tables(), a.seq, l, lo, hi, drop, a.config.max_sstable_size, news),
        drop ==> l + 2 == a.tables().len(),
        forall|j: int| 0 <= j < news.len() ==> (#[trigger] news[j]).meta.level == l + 1
            && news[j].meta.path@ == table_name((l + 1) as nat, news[j].meta.sequence),
        b.seq == a.seq + news.len(),
        b.tables() == compacted(a.tables(), l, lo, hi, news),
        b.cache.lines() == a.cache.lines(),
    ensures
        b.sound(),
        forall|k: Seq<u8>| #[trigger] b.read(k) == a.read(k),
{
    lemma_compaction_sound(a.tables(), a.seq, l, lo, hi, drop, a.config.max_sstable_size, news);
    lemma_cache_ok_compact(a.cache.lines(), a.tables(), a.seq, l, lo, hi, news, b.seq);
    lemma_compaction_dir(a, b, l, lo, hi, news, ins);
    let lv = a.tables();
    let nv = b.tables();
    let kept = select(lv[l + 1], lo, hi, false);
    lemma_select(lv[l + 1], lo, hi, false);
    assert forall|i: int, j: int| 0 <= i < nv.len() && 0 <= j < nv[i].len() implies {
        &&& (#[trigger] nv[i][j]).meta.level == i
        &&& crate::recovery::spec_table_name(vstd::utf8::encode_utf8(nv[i][j].meta.path@))
            == Some((i as nat, nv[i][j].meta.sequence))
    } by {
        if i == l + 1 {
            assert(nv[i] == kept + news);
            if j < kept.len() {
                let idx = select_idx(lv[l + 1], lo, hi, false, lv[l + 1].len() as int);
                assert(nv[i][j] == lv[l + 1][idx[j]]);
            } else {
                assert(nv[i][j] == news[j - kept.len()]);
                lemma_table_name_parses((l + 1) as nat, news[j - kept.len()].meta.sequence);
            }
        } else if i != l {
            assert(nv[i][j] == lv[i][j]);
        }
    }
    assert forall|k: Seq<u8>| #[trigger] b.read(k) == a.read(k) by {
        lemma_compaction_read(a.tables(), a.seq, l, lo, hi, drop, a.config.max_sstable_size, news, k);
    }
}

/// The smallest first key and the largest last key of nonempty tables.
fn level_range(tables: &Vec<Table>) -> (r: (Vec<u8>, Vec<u8>))
    requires
        tables@.len() > 0,
    ensures
        forall|j: int| 0 <= j < tables@.len() ==> lex_le(r.0@, (#[trigger] tables@[j]).meta.min_key@)
            && lex_le(tables@[j].meta.max_key@, r.1@),
        exists|j: int| 0 <= j < tables@.len() && r.0@ == (#[trigger] tables@[j]).meta.min_key@,
        exists|j: int| 0 <= j < tables@.len() && r.1@ == (#[trigger] tables@[j]).meta.max_key@,
{
    let mut lo: usize = 0;
    let mut hi: usize = 0;
    let mut i: usize = 1;
    proof {
        lemma_lex_order_facts();
    }
    while i < tables.len()
        invariant
            1 <= i <= tables@.len(),
            lo < tables@.len(),
            hi < tables@.len(),
            forall|j: int| 0 <= j < i ==> lex_le(tables@[lo as int].meta.min_key@, (#[trigger] tables@[j]).meta.min_key@)
                && lex_le(tables@[j].meta.max_key@, tables@[hi as int].meta.max_key@),
        decreases tables@.len() - i,
    {
        proof {
            lemma_lex_order_facts();
        }
        if bytes_lt(tables[i].meta.min_key.as_slice(), tables[lo].meta.min_key.as_slice()) {
            lo = i;
        }
        if bytes_lt(tables[hi].meta.max_key.as_slice(), tables[i].meta.max_key.as_slice()) {
            hi = i;
        }
        i = i + 1;
    }
    (copy_bytes(tables[lo].meta.min_key.as_slice()), copy_bytes(tables[hi].meta.max_key.as_slice()))
}

/// Whether a table's key range meets `[lo, hi]`.
fn table_overlaps(t: &Table, lo: &[u8], hi: &[u8]) -> (r: bool)
    ensures
        r == overlaps(*t, lo@, hi@),
{
    proof {
        lemma_lex_order_facts();
    }
    !bytes_lt(hi, t.meta.min_key.as_slice()) && !bytes_lt(t.meta.max_key.as_slice(), lo)
}

/// The tables that do not meet `[lo, hi]`, in order.
fn kept_tables(tables: Vec<Table>, lo: &[u8], hi: &[u8]) -> (r: Vec<Table>)
    ensures
        r@ == select(tables@, lo@, hi@, false),
{
    let ghost orig = tables@;
    let n = tables.len();
    let mut rest = tables;
    let mut kept: Vec<Table> = Vec::new();
    let mut i: usize = 0;
    while i < n
        invariant
            i <= n,
            n == orig.len(),
            rest@ == orig.skip(i as int),
            kept@ == select_idx(orig, lo@, hi@, false, i as int).map_values(|x: int| orig[x]),
        decreases n - i,
    {
        proof {
            lemma_select_idx_bounds(orig, lo@, hi@, i as int);
        }
        let t = rest.remove(0);
        proof {
            assert(t == orig[i as int]);
        }
        let ov = table_overlaps(&t, lo, hi);
        let ghost before = kept@;
        if !ov {
            kept.push(t);
        }
        proof {
            assert(orig.skip(i + 1) =~= orig.skip(i as int).remove(0));
            let r1 = select_idx(orig, lo@, hi@, false, i + 1);
            if !ov {
                assert(kept@ =~= r1.map_values(|x: int| orig[x]));
            } else {
                assert(kept@ =~= r1.map_values(|x: int| orig[x]));
            }
        }
        i = i + 1;
    }
    kept
}

proof fn lemma_select_idx_bounds(ts: Seq<Table>, lo: Seq<u8>, hi: Seq<u8>, n: int)
    requires
        0 <= n <= ts.len(),
    ensures
        forall|a: int| 0 <= a < select_idx(ts, lo, hi, false, n).len() ==> 0 <= #[trigger] select_idx(ts, lo, hi, false, n)[a] < n,
{
    crate::compaction_law::lemma_select_idx(ts, lo, hi, false, n);
}

/// After a flush: the memtable is empty and level 0 has the new table that
/// holds its entries; the handle is sound and every read finds the same.
proof fn lemma_flush_state<S: Fn(usize) -> (usize, usize)>(a: Lsm5<S>, b: Lsm5<S>, t: Table)
    requires
        a.sound(),
        b.wf(),
        b.imm_memtables@.len() == 0,
        b.memtable@ == Map::<Seq<u8>, Option<Seq<u8>>>::empty(),
        table_ok(t),
        t.run@ == a.memtable.entries(),
        a.seq < u64::MAX,
        t.meta.sequence == a.seq + 1,
        t.meta.level == 0,
        t.meta.path@ == table_name(0, t.meta.sequence),
        b.seq == a.seq + 1,
        b.tables() == a.tables().update(0, a.tables()[0].push(t)),
        b.dir() == a.dir().insert(t.meta.path@, t.image@),
        b.cache.lines() == a.cache.lines(),
    ensures
        b.sound(),
        forall|k: Seq<u8>| #[trigger] b.read(k) == a.read(k),
{
    let lv = a.tables();
    lemma_flush_levels(lv, a.seq, t, Seq::empty());
    lemma_cache_ok_flush(a.cache.lines(), lv, a.seq, t);
    lemma_table_name_parses(0, t.meta.sequence);
    let nv = b.tables();
    reveal(Lsm5::dir_ok);
    assert forall|i: int, j: int| 0 <= i < lv.len() && 0 <= j < lv[i].len()
        implies (#[trigger] lv[i][j]).meta.path@ != t.meta.path@ by {
        assert(lv[i][j].meta.sequence <= a.seq);
    }
    assert forall|i: int, j: int| 0 <= i < nv.len() && 0 <= j < nv[i].len()
        implies b.dir().contains_key((#[trigger] nv[i][j]).meta.path@) && b.dir()[nv[i][j].meta.path@] == nv[i][j].image@ by {
        if !(i == 0 && j == lv[0].len()) {
            assert(nv[i][j] == lv[i][j]);
        }
    }
    assert forall|n: Seq<char>| #[trigger] b.dir().contains_key(n) && file_loads((n, b.dir()[n])) is Some
        implies exists|i: int, j: int| 0 <= i < nv.len() && 0 <= j < nv[i].len() && (#[trigger] nv[i][j]).meta.path@ == n by {
        if n == t.meta.path@ {
            assert(nv[0][lv[0].len() as int] == t);
        } else {
            assert(a.dir().contains_key(n) && a.dir()[n] == b.dir()[n]);
            let (i, j) = choose|i: int, j: int| 0 <= i < lv.len() && 0 <= j < lv[i].len() && (#[trigger] lv[i][j]).meta.path@ == n;
            assert(nv[i][j] == lv[i][j]);
        }
    }
    assert forall|i: int, j: int| 0 <= i < nv.len() && 0 <= j < nv[i].len() implies {
        &&& (#[trigger] nv[i][j]).meta.level == i
        &&& crate::recovery::spec_table_name(vstd::utf8::encode_utf8(nv[i][j].meta.path@))
            == Some((i as nat, nv[i][j].meta.sequence))
    } by {
        if i == 0 && j == lv[0].len() {
            assert(nv[i][j] == t);
        } else {
            assert(nv[i][j] == lv[i][j]);
        }
    }
    assert forall|k: Seq<u8>| #[trigger] b.read(k) == a.read(k) by {
        lemma_flush_levels(lv, a.seq, t, k);
        lemma_sorted_lookup_map(a.memtable, k);
    }
}

/// The run a memtable holds denotes its map.
proof fn lemma_sorted_lookup_map(m: MemTable, k: Seq<u8>)
    requires
        m.wf(),
    ensures
        entries_map(m.entries()) == m@,
        holds(m.entries(), k) == m@.contains_key(k),
{
    m.lemma_view();
}

} // verus!
