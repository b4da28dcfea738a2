use lsm5::config::Config;
use lsm5::db::{IoAction, Lsm5};
use lsm5::error::Error;
use std::collections::BTreeMap;
use std::time::Instant;

type Sizer = fn(usize) -> (usize, usize);

/// Bloom filter bits and probes for `n` keys at a 1% false-positive rate.
fn engine_sizer(n: usize) -> (usize, usize) {
    let ln2 = std::f64::consts::LN_2;
    let bits = ((-(n as f64 * 0.01f64.ln()) / (ln2 * ln2)) as usize).max(64);
    let hashes = ((bits as f64 / n as f64) * ln2).round() as usize;
    (bits, hashes.max(1))
}

/// A database together with an in-memory stand-in for its directory: the
/// storage operations the engine asks for are carried out here.
struct Engine {
    db: Lsm5<Sizer>,
    config: Config,
    wal: Vec<u8>,
    files: BTreeMap<String, Vec<u8>>,
    syncs: usize,
}

impl Engine {
    fn with_config(config: Config) -> Engine {
        let db = Lsm5::open(config.clone(), &[], Vec::new(), engine_sizer as Sizer).unwrap();
        Engine { db, config, wal: Vec::new(), files: BTreeMap::new(), syncs: 0 }
    }

    fn open(limit: usize) -> Engine {
        Engine::with_config(Config::new("db").memtable_size_limit(limit))
    }

    /// Close the database (dropping what was not carried out) and open it
    /// again from the stored log and files.
    fn reopen(self) -> Engine {
        let files: Vec<(String, Vec<u8>)> = self.files.iter().map(|(k, v)| (k.clone(), v.clone())).collect();
        let db = Lsm5::open(self.config.clone(), &self.wal, files, engine_sizer as Sizer).unwrap();
        Engine { db, config: self.config, wal: self.wal, files: self.files, syncs: 0 }
    }

    fn settle(&mut self) {
        for action in self.db.take_actions() {
            match action {
                IoAction::AppendWal(bytes) => self.wal.extend(bytes),
                IoAction::SyncWal => self.syncs += 1,
                IoAction::TruncateWal => self.wal.clear(),
                IoAction::WriteTable(name, bytes) => {
                    self.files.insert(name, bytes);
                }
                IoAction::RemoveTable(name) => {
                    self.files.remove(&name);
                }
            }
        }
    }

    fn put(&mut self, key: impl AsRef<[u8]>, value: impl AsRef<[u8]>) -> Result<(), Error> {
        let r = self.db.put(key.as_ref(), value.as_ref());
        self.settle();
        r
    }

    fn delete(&mut self, key: impl AsRef<[u8]>) -> Result<(), Error> {
        let r = self.db.delete(key.as_ref());
        self.settle();
        r
    }

    fn get(&mut self, key: impl AsRef<[u8]>) -> Result<Option<Vec<u8>>, Error> {
        self.db.get(key.as_ref())
    }

    fn scan(&self, start: impl AsRef<[u8]>, end: impl AsRef<[u8]>) -> Result<Vec<(Vec<u8>, Vec<u8>)>, Error> {
        self.db.scan(start.as_ref(), end.as_ref())
    }

    fn flush(&mut self) -> Result<(), Error> {
        let r = self.db.flush();
        self.settle();
        r
    }

    fn begin(&mut self) {
        self.db.begin();
    }

    fn tx_put(&mut self, key: impl AsRef<[u8]>, value: impl AsRef<[u8]>) -> Result<(), Error> {
        self.db.tx_put(key.as_ref(), value.as_ref())
    }

    fn tx_delete(&mut self, key: impl AsRef<[u8]>) -> Result<(), Error> {
        self.db.tx_delete(key.as_ref())
    }

    fn commit(&mut self) -> Result<(), Error> {
        let r = self.db.commit();
        self.settle();
        r
    }

    fn rollback(&mut self) -> Result<(), Error> {
        self.db.rollback()
    }
}

// ---- the database ----

#[test]
fn test_basic_put_get() {
    let mut db = Engine::open(1024);
    db.put("hello", "world").unwrap();
    assert_eq!(db.get("hello").unwrap(), Some(b"world".to_vec()));
    assert_eq!(db.get("missing").unwrap(), None);
}

#[test]
fn test_delete() {
    let mut db = Engine::open(1024);
    db.put("k", "v").unwrap();
    db.delete("k").unwrap();
    assert_eq!(db.get("k").unwrap(), None);
}

#[test]
fn db_test_overwrite() {
    let mut db = Engine::open(1024);
    db.put("k", "v1").unwrap();
    db.put("k", "v2").unwrap();
    assert_eq!(db.get("k").unwrap(), Some(b"v2".to_vec()));
}

#[test]
fn test_flush_and_read_from_sstable() {
    let mut db = Engine::open(1024);
    for i in 0..200u32 {
        db.put(format!("key-{:05}", i), format!("value-{}", i)).unwrap();
    }
    for i in 0..200u32 {
        let val = db.get(format!("key-{:05}", i)).unwrap();
        assert_eq!(val, Some(format!("value-{}", i).into_bytes()), "key-{:05} mismatch", i);
    }
}

#[test]
fn test_crash_recovery() {
    let mut db = Engine::open(1024);
    db.put("persistent_key", "persistent_value").unwrap();
    let mut db = db.reopen();
    assert_eq!(db.get("persistent_key").unwrap(), Some(b"persistent_value".to_vec()));
}

#[test]
fn test_scan_range() {
    let mut db = Engine::open(1024);
    for i in 0..10u32 {
        db.put(format!("k{:02}", i), format!("v{}", i)).unwrap();
    }
    let results = db.scan("k03", "k07").unwrap();
    let keys: Vec<_> = results.iter().map(|(k, _)| k.clone()).collect();
    assert_eq!(keys, vec![b"k03".to_vec(), b"k04".to_vec(), b"k05".to_vec(), b"k06".to_vec()]);
}

#[test]
fn test_stats() {
    let mut db = Engine::open(1024);
    for i in 0..50u32 {
        db.put(format!("k{}", i), format!("v{}", i)).unwrap();
    }
    let stats = db.db.stats();
    println!("{}", stats.describe());
}

#[test]
fn db_test_binary_keys() {
    let mut db = Engine::open(1024);
    let key = vec![0x00, 0x01, 0xFF, 0x00];
    let value = vec![0xAA, 0xBB, 0xCC];
    db.put(key.clone(), value.clone()).unwrap();
    assert_eq!(db.get(key).unwrap(), Some(value));
}

#[test]
fn test_empty_scan() {
    let mut db = Engine::open(1024);
    db.put("a", "1").unwrap();
    let results = db.scan("z", "zzz").unwrap();
    assert!(results.is_empty());
}

#[test]
fn test_delete_then_put() {
    let mut db = Engine::open(1024);
    db.put("key", "value1").unwrap();
    db.delete("key").unwrap();
    db.put("key", "value2").unwrap();
    assert_eq!(db.get("key").unwrap(), Some(b"value2".to_vec()));
}

#[test]
fn test_scan_empty_to_empty() {
    let db = Engine::open(1024);
    let results = db.scan("a", "z").unwrap();
    assert!(results.is_empty());
}

#[test]
fn test_many_small_values() {
    let mut db = Engine::open(1024);
    for i in 0..100u32 {
        db.put(format!("key{}", i), "v").unwrap();
    }
    for i in 0..100u32 {
        assert!(db.get(format!("key{}", i)).unwrap().is_some());
    }
}

#[test]
fn test_sync_writes() {
    let config = Config::new("db").memtable_size_limit(1024).sync_writes(true);
    let mut db = Engine::with_config(config);
    db.put("key", "value").unwrap();
    assert_eq!(db.get("key").unwrap(), Some(b"value".to_vec()));
    assert_eq!(db.syncs, 1);
}

#[test]
fn test_explicit_flush() {
    let mut db = Engine::open(1024);
    db.put("key", "value").unwrap();
    db.flush().unwrap();
    let stats = db.db.stats();
    assert!(stats.memtable_entries == 0);
}

#[test]
fn test_range_scan_with_deleted_keys() {
    let mut db = Engine::open(1024);
    db.put("a", "1").unwrap();
    db.put("b", "2").unwrap();
    db.put("c", "3").unwrap();
    db.delete("b").unwrap();
    let results = db.scan("a", "d").unwrap();
    let keys: Vec<_> = results.iter().map(|(k, _)| k.clone()).collect();
    assert_eq!(keys, vec![b"a".to_vec(), b"c".to_vec()]);
}

// ---- iterators ----

#[test]
fn test_iterator_basic() {
    let mut db = Engine::open(1024);
    for i in 0..10u32 {
        db.put(format!("key{:02}", i), format!("value{}", i)).unwrap();
    }
    let iter = db.db.iterator(Some(b"key02"), Some(b"key07"));
    let keys: Vec<_> = iter.remaining().into_iter().map(|(k, _)| k).collect();
    assert_eq!(keys.len(), 5);
    assert!(keys[0].starts_with(b"key02"));
    assert!(keys[4].starts_with(b"key06"));
}

#[test]
fn test_iterator_full_range() {
    let mut db = Engine::open(1024);
    db.put("a", "1").unwrap();
    db.put("b", "2").unwrap();
    db.put("c", "3").unwrap();
    db.put("d", "4").unwrap();
    db.put("e", "5").unwrap();
    let iter = db.db.iterator(None, None);
    let count = iter.remaining().len();
    assert_eq!(count, 5);
}

#[test]
fn test_reverse_iterator() {
    let mut db = Engine::open(1024);
    for i in 0..5u32 {
        db.put(format!("key{}", i), format!("val{}", i)).unwrap();
    }
    let mut iter = db.db.reverse_iterator(Some(b"key0"), Some(b"key5")).into_iter();
    let first = iter.next().unwrap();
    assert_eq!(first.0, b"key4");
}

#[test]
fn test_iterator_with_flush() {
    let mut db = Engine::open(1024);
    for i in 0..200u32 {
        db.put(format!("k{:03}", i), format!("v{}", i)).unwrap();
    }
    db.flush().unwrap();
    let iter = db.db.iterator(Some(b"k100"), Some(b"k150"));
    let count = iter.remaining().len();
    assert!(count > 0);
}

#[test]
fn test_iterator_empty_range() {
    let mut db = Engine::open(1024);
    db.put("a", "1").unwrap();
    let iter = db.db.iterator(Some(b"z"), None);
    assert_eq!(iter.remaining().len(), 0);
}

#[test]
fn test_iterator_all_deleted() {
    let mut db = Engine::open(1024);
    db.put("a", "1").unwrap();
    db.put("b", "2").unwrap();
    db.delete("a").unwrap();
    db.delete("b").unwrap();
    let iter = db.db.iterator(None, None);
    assert_eq!(iter.remaining().len(), 0);
}

#[test]
fn iterator_cursor_moves() {
    let mut db = Engine::open(1024);
    for k in ["b", "d", "f"] {
        db.put(k, k).unwrap();
    }
    let mut it = db.db.iterator(None, None);
    assert!(it.valid());
    assert_eq!(it.key(), Some(&b"b"[..]));
    it.next();
    assert_eq!(it.value(), Some(&b"d"[..]));
    it.seek(b"c");
    assert_eq!(it.key(), Some(&b"d"[..]));
    it.seek_for_prev(b"e");
    assert_eq!(it.key(), Some(&b"b"[..]));
    it.seek_for_prev(b"f");
    assert_eq!(it.key(), Some(&b"d"[..]));
    it.seek_to_last();
    assert_eq!(it.key(), Some(&b"f"[..]));
    it.next();
    assert!(!it.valid());
    assert_eq!(it.key(), None);
    it.prev();
    assert_eq!(it.key(), Some(&b"f"[..]));
    it.seek_to_first();
    assert_eq!(it.next_item(), Some((b"b".to_vec(), b"b".to_vec())));
    assert_eq!(it.next_back_item(), Some((b"f".to_vec(), b"f".to_vec())));
    assert_eq!(it.remaining(), vec![(b"d".to_vec(), b"d".to_vec())]);
}

// ---- transactions ----

#[test]
fn test_transaction_basic() {
    let mut db = Engine::open(1024);
    db.begin();
    db.tx_put("key1", "value1").unwrap();
    db.tx_put("key2", "value2").unwrap();
    db.commit().unwrap();
    assert_eq!(db.get("key1").unwrap(), Some(b"value1".to_vec()));
    assert_eq!(db.get("key2").unwrap(), Some(b"value2".to_vec()));
}

#[test]
fn test_transaction_rollback() {
    let mut db = Engine::open(1024);
    db.begin();
    db.tx_put("key1", "value1").unwrap();
    db.tx_put("key2", "value2").unwrap();
    db.rollback().unwrap();
    assert_eq!(db.get("key1").unwrap(), None);
    assert_eq!(db.get("key2").unwrap(), None);
}

#[test]
fn test_transaction_delete() {
    let mut db = Engine::open(1024);
    db.put("key1", "value1").unwrap();
    db.begin();
    db.tx_delete("key1").unwrap();
    db.commit().unwrap();
    assert_eq!(db.get("key1").unwrap(), None);
}

#[test]
fn test_transaction_rollback_middle() {
    let mut db = Engine::open(1024);
    db.put("initial", "data").unwrap();
    db.begin();
    db.tx_put("new1", "v1").unwrap();
    db.tx_put("new2", "v2").unwrap();
    assert!(db.db.has_transaction());
    db.rollback().unwrap();
    assert!(!db.db.has_transaction());
    assert_eq!(db.get("initial").unwrap(), Some(b"data".to_vec()));
    assert_eq!(db.get("new1").unwrap(), None);
}

#[test]
fn test_multiple_transactions() {
    let mut db = Engine::open(1024);
    db.begin();
    db.tx_put("a", "1").unwrap();
    db.commit().unwrap();
    db.begin();
    db.tx_put("b", "2").unwrap();
    db.commit().unwrap();
    assert_eq!(db.get("a").unwrap(), Some(b"1".to_vec()));
    assert_eq!(db.get("b").unwrap(), Some(b"2".to_vec()));
}

#[test]
fn test_transaction_empty() {
    let mut db = Engine::open(1024);
    db.begin();
    db.commit().unwrap();
    assert!(!db.db.has_transaction());
}

#[test]
fn test_transaction_no_begin() {
    let mut db = Engine::open(1024);
    let result = db.tx_put("key", "value");
    assert!(result.is_err());
    let result = db.commit();
    assert!(result.is_err());
}

#[test]
fn test_transaction_mixed() {
    let mut db = Engine::open(1024);
    db.put("outside", "tx").unwrap();
    db.begin();
    db.tx_put("inside1", "v1").unwrap();
    db.tx_put("inside2", "v2").unwrap();
    db.commit().unwrap();
    assert_eq!(db.get("outside").unwrap(), Some(b"tx".to_vec()));
    assert_eq!(db.get("inside1").unwrap(), Some(b"v1".to_vec()));
    assert_eq!(db.get("inside2").unwrap(), Some(b"v2".to_vec()));
}

#[test]
fn transaction_errors_without_begin() {
    let mut db = Engine::open(1024);
    assert!(matches!(db.tx_delete("k"), Err(Error::NoActiveTransaction)));
    assert!(matches!(db.rollback(), Err(Error::NoActiveTransaction)));
    assert!(matches!(db.commit(), Err(Error::NoActiveTransaction)));
}

#[test]
fn transaction_writes_are_invisible_until_commit() {
    let mut db = Engine::open(1024);
    db.begin();
    db.tx_put("k", "v").unwrap();
    assert_eq!(db.get("k").unwrap(), None);
    db.commit().unwrap();
    assert_eq!(db.get("k").unwrap(), Some(b"v".to_vec()));
    // A committed transaction survives a crash: it went to the log.
    let mut db = db.reopen();
    assert_eq!(db.get("k").unwrap(), Some(b"v".to_vec()));
}

// ---- whole workflows ----

#[test]
fn test_workflow_sequential_operations() {
    let mut db = Engine::open(512);
    for i in 0..100u32 {
        db.put(format!("key{}", i), format!("value{}", i)).unwrap();
    }
    for i in 0..100u32 {
        assert_eq!(db.get(format!("key{}", i)).unwrap(), Some(format!("value{}", i).into_bytes()));
    }
}

#[test]
fn test_workflow_mixed_operations() {
    let mut db = Engine::open(512);
    db.put("a", "1").unwrap();
    db.put("b", "2").unwrap();
    db.put("c", "3").unwrap();
    db.delete("b").unwrap();
    db.put("b", "new_b").unwrap();
    db.put("d", "4").unwrap();
    assert_eq!(db.get("a").unwrap(), Some(b"1".to_vec()));
    assert_eq!(db.get("b").unwrap(), Some(b"new_b".to_vec()));
    assert_eq!(db.get("c").unwrap(), Some(b"3".to_vec()));
    assert_eq!(db.get("d").unwrap(), Some(b"4".to_vec()));
}

#[test]
fn test_workflow_reopen_with_data() {
    let mut db = Engine::open(512);
    db.put("key1", "val1").unwrap();
    db.put("key2", "val2").unwrap();
    db.flush().unwrap();
    let mut db = db.reopen();
    assert_eq!(db.get("key1").unwrap(), Some(b"val1".to_vec()));
    assert_eq!(db.get("key2").unwrap(), Some(b"val2".to_vec()));
}

#[test]
fn test_workflow_compaction_trigger() {
    let mut db = Engine::open(512);
    for i in 0..500u32 {
        db.put(format!("key{:04}", i), format!("value{:04}", i)).unwrap();
    }
    let stats = db.db.stats();
    assert!(stats.level_counts[0] > 0 || stats.memtable_entries > 0);
    for i in 0..500u32 {
        assert!(db.get(format!("key{:04}", i)).unwrap().is_some());
    }
}

#[test]
fn test_workflow_range_scan_across_levels() {
    let mut db = Engine::open(512);
    for i in (0..300).step_by(3) {
        db.put(format!("key{:03}", i), format!("val{:03}", i)).unwrap();
    }
    db.flush().unwrap();
    for i in (1..300).step_by(3) {
        db.put(format!("key{:03}", i), format!("val{:03}", i)).unwrap();
    }
    db.flush().unwrap();
    for i in (2..300).step_by(3) {
        db.put(format!("key{:03}", i), format!("val{:03}", i)).unwrap();
    }
    let results = db.scan("key000", "key150").unwrap();
    assert!(results.len() > 0);
    for (k, _v) in &results {
        let key_str = String::from_utf8_lossy(k);
        let idx: usize = key_str[3..].parse().unwrap();
        assert!(idx < 150);
    }
}

#[test]
fn test_workflow_delete_all_keys() {
    let mut db = Engine::open(512);
    for i in 0..50u32 {
        db.put(format!("k{}", i), "v").unwrap();
    }
    for i in 0..50u32 {
        db.delete(format!("k{}", i)).unwrap();
    }
    for i in 0..50u32 {
        assert_eq!(db.get(format!("k{}", i)).unwrap(), None);
    }
    let results = db.scan("k0", "k99").unwrap();
    assert!(results.is_empty());
}

#[test]
fn test_workflow_bulk_insert_and_verify() {
    let mut db = Engine::open(512);
    let mut expected = BTreeMap::new();
    for i in 0..100u32 {
        let key = format!("key{:04}", i);
        let value = format!("value{:04}", i);
        expected.insert(key.clone(), value.clone());
        db.put(key, value).unwrap();
    }
    for (k, v) in &expected {
        let result = db.get(k).unwrap();
        assert_eq!(result, Some(v.as_bytes().to_vec()), "Key {}", k);
    }
}

#[test]
fn test_workflow_interleaved_read_write() {
    let mut db = Engine::open(512);
    for i in 0..20u32 {
        db.put(format!("key{}", i), format!("val{}", i)).unwrap();
        assert_eq!(db.get(format!("key{}", i)).unwrap(), Some(format!("val{}", i).into_bytes()));
    }
    db.flush().unwrap();
    for i in 0..20u32 {
        assert_eq!(db.get(format!("key{}", i)).unwrap(), Some(format!("val{}", i).into_bytes()));
    }
}

// ---- performance ----

#[test]
fn perf_write_throughput() {
    let mut db = Engine::open(1024 * 1024);
    let n = 10_000;
    let start = Instant::now();
    for i in 0..n {
        db.put(format!("key{}", i), format!("value{}", i)).unwrap();
    }
    let elapsed = start.elapsed().as_secs_f64();
    let ops_per_sec = n as f64 / elapsed;
    println!("Write throughput: {:.0} ops/sec", ops_per_sec);
    assert!(ops_per_sec > 0.0, "Should have positive throughput");
}

#[test]
fn perf_read_latency() {
    let mut db = Engine::open(1024 * 1024);
    for i in 0..1000 {
        db.put(format!("key{}", i), format!("value{}", i)).unwrap();
    }
    let start = Instant::now();
    for _ in 0..1000 {
        let _ = db.get("key500").unwrap();
    }
    let elapsed = start.elapsed().as_millis();
    println!("Read latency (1000 reads): {} ms", elapsed);
    assert!(elapsed < 5000, "Reads should complete in reasonable time");
}

#[test]
fn perf_scan_throughput() {
    let mut db = Engine::open(1024 * 1024);
    for i in 0..1000 {
        db.put(format!("key{:04}", i), format!("value{}", i)).unwrap();
    }
    let start = Instant::now();
    let count = db.scan(b"key0000", b"key1000").unwrap().len();
    let elapsed = start.elapsed().as_millis();
    println!("Scan {} entries in {} ms", count, elapsed);
    assert!(count > 0);
}

#[test]
fn perf_many_sstables() {
    let mut db = Engine::open(1024 * 1024);
    for _ in 0..10 {
        for i in 0..50 {
            db.put(format!("key{}", i), "value").unwrap();
        }
        db.flush().unwrap();
    }
    let stats = db.db.stats();
    println!("After 10 flushes: {} SSTables", stats.total_sstables());
    let start = Instant::now();
    for i in 0..50 {
        let _ = db.get(format!("key{}", i)).unwrap();
    }
    let elapsed = start.elapsed().as_millis();
    println!("50 reads across 10 levels: {} ms", elapsed);
    assert!(elapsed < 1000);
}

#[test]
fn perf_reopen_persistence() {
    let mut db = Engine::open(1024 * 1024);
    for i in 0..100 {
        db.put(format!("key{}", i), format!("value{}", i)).unwrap();
    }
    db.flush().unwrap();
    let start = Instant::now();
    let mut db = db.reopen();
    let elapsed = start.elapsed().as_millis();
    for i in 0..100 {
        assert!(db.get(format!("key{}", i)).unwrap().is_some());
    }
    println!("Reopen and verify 100 keys: {} ms", elapsed);
}

#[test]
fn perf_delete_performance() {
    let mut db = Engine::open(1024 * 1024);
    for i in 0..500 {
        db.put(format!("key{}", i), "value").unwrap();
    }
    let start = Instant::now();
    for i in (0..500).step_by(2) {
        db.delete(format!("key{}", i)).unwrap();
    }
    let elapsed = start.elapsed().as_millis();
    println!("Delete 250 keys: {} ms", elapsed);
    assert!(elapsed < 2000);
}

// ---- laws on concrete values ----

/// A read gives back the last write of a key, across flushes, compactions
/// and a reopen; a deleted key reads as absent.
#[test]
fn law_read_your_writes_across_compaction() {
    let mut db = Engine::open(256);
    let mut model: BTreeMap<Vec<u8>, Option<Vec<u8>>> = BTreeMap::new();
    for round in 0..12u32 {
        for i in 0..40u32 {
            let key = format!("key{:03}", (i * 7 + round) % 60).into_bytes();
            if (i + round) % 5 == 0 {
                db.delete(&key).unwrap();
                model.insert(key, None);
            } else {
                let value = format!("v{}-{}", round, i).into_bytes();
                db.put(&key, &value).unwrap();
                model.insert(key, Some(value));
            }
        }
    }
    let stats = db.db.stats();
    assert!(stats.total_sstables() > 0);
    for (k, v) in &model {
        assert_eq!(&db.get(k).unwrap(), v);
    }
    assert_eq!(db.get("absent").unwrap(), None);
    let mut db = db.reopen();
    for (k, v) in &model {
        assert_eq!(&db.get(k).unwrap(), v);
    }
    // A scan gives the live pairs of the range, in key order.
    let expected: Vec<(Vec<u8>, Vec<u8>)> = model
        .iter()
        .filter(|(k, _)| k.as_slice() >= &b"key010"[..] && k.as_slice() < &b"key050"[..])
        .filter_map(|(k, v)| v.clone().map(|v| (k.clone(), v)))
        .collect();
    assert_eq!(db.scan("key010", "key050").unwrap(), expected);
}

/// Level 0 is compacted once it holds four tables; reads are unchanged.
#[test]
fn law_level0_compaction_keeps_reads() {
    let mut db = Engine::open(1 << 20);
    for round in 0..4u32 {
        for i in 0..10u32 {
            db.put(format!("k{}", i), format!("r{}", round)).unwrap();
        }
        db.flush().unwrap();
    }
    let stats = db.db.stats();
    assert_eq!(stats.level_counts[0], 0);
    assert!(stats.level_counts[1] > 0);
    for i in 0..10u32 {
        assert_eq!(db.get(format!("k{}", i)).unwrap(), Some(b"r3".to_vec()));
    }
    // The four level-0 files were removed and the new ones written.
    assert!(db.files.keys().all(|n| !n.starts_with("L0-")));
    assert!(db.files.keys().any(|n| n.starts_with("L1-")));
}

/// After a flush the log is empty and the memtable's data is in a table.
#[test]
fn law_flush_truncates_log() {
    let mut db = Engine::open(1 << 20);
    db.put("a", "1").unwrap();
    assert!(!db.wal.is_empty());
    db.flush().unwrap();
    assert!(db.wal.is_empty());
    assert_eq!(db.files.len(), 1);
    assert!(db.files.contains_key("L0-0000000000000001.sst"));
}

/// Opening from a log that is cut short reports the fault.
#[test]
fn reopen_with_damaged_log_fails() {
    let mut db = Engine::open(1 << 20);
    db.put("a", "1").unwrap();
    db.wal.pop();
    let files: Vec<(String, Vec<u8>)> = Vec::new();
    let r = Lsm5::open(Config::new("db"), &db.wal, files, engine_sizer as Sizer);
    assert!(matches!(r, Err(Error::Io(_))));
}

/// Files whose names are not table names are ignored when opening.
#[test]
fn reopen_ignores_other_files() {
    let mut db = Engine::open(1 << 20);
    db.put("a", "1").unwrap();
    db.flush().unwrap();
    db.files.insert("notes.txt".to_string(), b"hello".to_vec());
    db.files.insert("L9-0000000000000009.sst".to_string(), b"junk".to_vec());
    let mut db = db.reopen();
    assert_eq!(db.get("a").unwrap(), Some(b"1".to_vec()));
    let stats = db.db.stats();
    assert_eq!(stats.total_sstables(), 1);
}

/// A table that fails its checks makes a read that needs it fail.
#[test]
fn corrupt_table_is_reported() {
    let mut db = Engine::open(1 << 20);
    db.put("a", "1").unwrap();
    db.flush().unwrap();
    let name = db.files.keys().next().unwrap().clone();
    let image = db.files.get_mut(&name).unwrap();
    image[14] ^= 0xFF;
    let mut db = db.reopen();
    assert!(matches!(db.get("a"), Err(Error::Corruption(_))));
}

/// The engine counts puts; reads are not counted.
#[test]
fn stats_count_operations() {
    let mut db = Engine::open(1 << 20);
    db.put("a", "1").unwrap();
    db.put("b", "2").unwrap();
    db.get("a").unwrap();
    let stats = db.db.stats();
    assert_eq!(stats.writes, 2);
    assert_eq!(stats.reads, 0);
    assert_eq!(stats.memtable_entries, 2);
    assert_eq!(stats.level_counts.len(), 7);
}

/// Sequence numbers continue after the highest table found when opening.
#[test]
fn reopen_continues_numbering() {
    let mut db = Engine::open(1 << 20);
    db.put("a", "1").unwrap();
    db.flush().unwrap();
    let mut db = db.reopen();
    db.put("b", "2").unwrap();
    db.flush().unwrap();
    assert!(db.files.contains_key("L0-0000000000000001.sst"));
    assert!(db.files.contains_key("L0-0000000000000002.sst"));
}

#[test]
fn cached_blocks_answer_reads() {
    let mut e = Engine::open(1 << 20);
    for i in 0..20 {
        e.put(format!("key{:02}", i), format!("value{:02}", i)).unwrap();
    }
    e.delete("key05").unwrap();
    e.db.flush().unwrap();
    e.settle();
    // the first read fills the cache with the table's data block; the rest
    // are answered from it, and must agree with the table
    for _ in 0..2 {
        for i in 0..20 {
            let expected = if i == 5 { None } else { Some(format!("value{:02}", i).into_bytes()) };
            assert_eq!(e.get(format!("key{:02}", i)).unwrap(), expected);
        }
        assert_eq!(e.get("key99").unwrap(), None);
        assert_eq!(e.get("a").unwrap(), None);
    }
}
