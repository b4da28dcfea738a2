use lsm5::compaction::{k_way_merge, level_size_threshold};
use lsm5::heap_entry::HeapEntry;
use lsm5::memtable::Value;

fn heap_entry(key: &str, val: &str, seq: u64, src: usize) -> HeapEntry {
    HeapEntry {
        key: key.as_bytes().to_vec(),
        value: Value::Data(val.as_bytes().to_vec()),
        seq,
        src,
    }
}

#[test]
fn test_k_way_merge_dedup() {
    let s1 = vec![
        (b"a".to_vec(), Value::Data(b"old".to_vec())),
        (b"b".to_vec(), Value::Data(b"b_val".to_vec())),
    ];
    let s2 = vec![
        (b"a".to_vec(), Value::Data(b"new".to_vec())),
        (b"c".to_vec(), Value::Data(b"c_val".to_vec())),
    ];
    let seqs = vec![1, 2];
    let merged = k_way_merge(vec![s1, s2], &seqs, false);
    assert_eq!(merged.len(), 3);
    assert_eq!(merged[0], (b"a".to_vec(), Value::Data(b"new".to_vec())));
}

#[test]
fn test_k_way_merge_drop_tombstones() {
    let s1 = vec![
        (b"a".to_vec(), Value::Tombstone),
        (b"b".to_vec(), Value::Data(b"live".to_vec())),
    ];
    let merged = k_way_merge(vec![s1], &[1], true);
    assert_eq!(merged.len(), 1);
    assert_eq!(merged[0].0, b"b".to_vec());
}

#[test]
fn test_heap_entry_ordering() {
    let e1 = heap_entry("key", "val1", 1, 0);
    let e2 = heap_entry("key", "val2", 2, 1);
    // The newer entry for the same key is taken first.
    assert!(e2.precedes(&e1));
    assert!(!e1.precedes(&e2));
}

#[test]
fn heap_entry_smaller_key_first() {
    let a = heap_entry("a", "x", 1, 0);
    let b = heap_entry("b", "y", 9, 1);
    assert!(a.precedes(&b));
    assert!(!b.precedes(&a));
}

#[test]
fn k_way_merge_keeps_tombstones_above_bottom() {
    let s1 = vec![(b"a".to_vec(), Value::Data(b"1".to_vec()))];
    let s2 = vec![(b"a".to_vec(), Value::Tombstone)];
    let merged = k_way_merge(vec![s1, s2], &[1, 2], false);
    assert_eq!(merged, vec![(b"a".to_vec(), Value::Tombstone)]);
}

#[test]
fn k_way_merge_output_sorted_and_newest_wins() {
    let s1 = vec![
        (b"b".to_vec(), Value::Data(b"s1b".to_vec())),
        (b"d".to_vec(), Value::Data(b"s1d".to_vec())),
    ];
    let s2 = vec![
        (b"a".to_vec(), Value::Data(b"s2a".to_vec())),
        (b"d".to_vec(), Value::Data(b"s2d".to_vec())),
    ];
    let s3 = vec![(b"c".to_vec(), Value::Data(b"s3c".to_vec()))];
    // s1 is the newest source.
    let merged = k_way_merge(vec![s1, s2, s3], &[9, 5, 1], false);
    let keys: Vec<Vec<u8>> = merged.iter().map(|(k, _)| k.clone()).collect();
    assert_eq!(keys, vec![b"a".to_vec(), b"b".to_vec(), b"c".to_vec(), b"d".to_vec()]);
    assert_eq!(merged[3].1, Value::Data(b"s1d".to_vec()));
}

#[test]
fn k_way_merge_of_nothing() {
    let merged = k_way_merge(vec![vec![], vec![]], &[1, 2], true);
    assert!(merged.is_empty());
}

#[test]
fn level_thresholds() {
    assert_eq!(level_size_threshold(0), u64::MAX);
    assert_eq!(level_size_threshold(1), 10 * 1024 * 1024);
    assert_eq!(level_size_threshold(2), 100 * 1024 * 1024);
    assert_eq!(level_size_threshold(3), 1000 * 1024 * 1024);
}
