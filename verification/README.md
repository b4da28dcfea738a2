# lsm5

A log-structured merge-tree key-value store whose logic is verified with Verus.

- `src/` is the library. The memtable, write-ahead log format, SSTable format,
  Bloom filter, k-way merge, leveled compaction, caches, transactions and the
  database engine are proved against specifications stated over `Seq`, `Map`
  and `Multiset` models. The engine does no I/O itself: every storage effect
  (appending to the log, syncing it, truncating it, writing and removing table
  files) is handed out as an `IoAction`, and a database is opened from the
  bytes of its log and the files of its directory.
- `src/db.rs` states the engine's laws: reads see the last write, flushes and
  compactions leave every read unchanged, and a database reopened from the
  log and directory its pending actions leave answers every read as before
  (`lemma_crash_recovery`).
- `app/` is the command-line program: it carries out the storage actions on
  a real directory, sizes Bloom filters (floating point), runs the monitoring
  HTTP server and the background worker.
- `tests/` runs the library on concrete values.
