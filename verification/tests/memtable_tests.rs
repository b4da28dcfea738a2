use lsm5::memtable::{MemTable, Value};

#[test]
fn test_put_get() {
    let mut m = MemTable::new();
    m.put(b"hello".to_vec(), b"world".to_vec());
    assert_eq!(m.get(b"hello"), Some(&Value::Data(b"world".to_vec())));
}

#[test]
fn test_delete_tombstone() {
    let mut m = MemTable::new();
    m.put(b"k".to_vec(), b"v".to_vec());
    m.delete(b"k".to_vec());
    assert_eq!(m.get(b"k"), Some(&Value::Tombstone));
}

#[test]
fn test_sorted_iteration() {
    let mut m = MemTable::new();
    m.put(b"c".to_vec(), b"3".to_vec());
    m.put(b"a".to_vec(), b"1".to_vec());
    m.put(b"b".to_vec(), b"2".to_vec());
    let keys: Vec<_> = m.iter().iter().map(|(k, _)| k.clone()).collect();
    assert_eq!(keys, vec![b"a".to_vec(), b"b".to_vec(), b"c".to_vec()]);
}

#[test]
fn memtable_test_overwrite() {
    let mut m = MemTable::new();
    m.put(b"key".to_vec(), b"value1".to_vec());
    m.put(b"key".to_vec(), b"value2".to_vec());
    assert_eq!(m.get(b"key"), Some(&Value::Data(b"value2".to_vec())));
}

#[test]
fn test_delete_nonexistent() {
    let mut m = MemTable::new();
    m.delete(b"missing".to_vec());
    assert_eq!(m.get(b"missing"), Some(&Value::Tombstone));
}

#[test]
fn test_empty_memtable() {
    let m = MemTable::new();
    assert!(m.is_empty());
    assert_eq!(m.len(), 0);
    assert_eq!(m.get(b"any"), None);
}

#[test]
fn test_drain_sorted() {
    let mut m = MemTable::new();
    m.put(b"b".to_vec(), b"2".to_vec());
    m.put(b"a".to_vec(), b"1".to_vec());
    let entries = m.drain_sorted();
    assert!(m.is_empty());
    assert_eq!(entries.len(), 2);
    assert_eq!(entries[0].0, b"a".to_vec());
}

#[test]
fn test_size_tracking() {
    let mut m = MemTable::new();
    m.put(b"k".to_vec(), b"v".to_vec());
    let size_with_value = m.size_bytes();
    m.put(b"k".to_vec(), b"vvvv".to_vec());
    assert!(m.size_bytes() > size_with_value);
}

#[test]
fn memtable_test_binary_keys() {
    let mut m = MemTable::new();
    let key = vec![0x00, 0x01, 0xFF];
    m.put(key.clone(), vec![0xAA, 0xBB]);
    assert_eq!(m.get(&key), Some(&Value::Data(vec![0xAA, 0xBB])));
}

#[test]
fn memtable_size_is_sum_of_keys_and_values() {
    let mut m = MemTable::new();
    m.put(b"ab".to_vec(), b"xyz".to_vec());
    assert_eq!(m.size_bytes(), 5);
    // The old value's bytes are taken off, the new key and value counted.
    m.put(b"ab".to_vec(), b"x".to_vec());
    assert_eq!(m.size_bytes(), 5);
    m.delete(b"ab".to_vec());
    assert_eq!(m.size_bytes(), 7);
    m.delete(b"ab".to_vec());
    assert_eq!(m.size_bytes(), 7);
    m.delete(b"c".to_vec());
    assert_eq!(m.size_bytes(), 9);
    assert_eq!(m.len(), 2);
}

#[test]
fn memtable_drain_empties_size() {
    let mut m = MemTable::new();
    m.put(b"a".to_vec(), b"1".to_vec());
    let _ = m.drain_sorted();
    assert_eq!(m.size_bytes(), 0);
    assert_eq!(m.get(b"a"), None);
}

#[test]
fn value_helpers() {
    assert!(Value::Tombstone.is_tombstone());
    assert!(!Value::Data(vec![]).is_tombstone());
    assert_eq!(Value::Data(vec![1]).duplicate(), Value::Data(vec![1]));
}

#[test]
fn len_counts_touched_keys() {
    let mut m = MemTable::new();
    m.put(b"a".to_vec(), b"1".to_vec());
    m.put(b"b".to_vec(), b"2".to_vec());
    m.put(b"a".to_vec(), b"3".to_vec());
    m.delete(b"c".to_vec());
    m.delete(b"b".to_vec());
    assert_eq!(m.len(), 3);
    assert!(!m.is_empty());
    let drained = m.drain_sorted();
    assert_eq!(drained.len(), 3);
    assert_eq!(m.len(), 0);
    assert!(m.is_empty());
}
