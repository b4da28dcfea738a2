use lsm5::scan_cache::{ScanCache, ScanKey};

fn scan_key(a: &[u8], b: &[u8]) -> ScanKey {
    ScanKey { start: a.to_vec(), end: b.to_vec() }
}

#[test]
fn test_scan_cache_basic() {
    let mut cache = ScanCache::new(3);
    let key = scan_key(b"a", b"z");
    cache.put(key.clone(), vec![1, 2, 3]);
    assert_eq!(cache.get(&key), Some(vec![1, 2, 3]));
}

#[test]
fn test_scan_cache_eviction() {
    let mut cache = ScanCache::new(2);
    cache.put(scan_key(b"a", b"b"), vec![1]);
    cache.put(scan_key(b"c", b"d"), vec![2]);
    cache.put(scan_key(b"e", b"f"), vec![3]);
    assert_eq!(cache.get(&scan_key(b"a", b"b")), None);
}

#[test]
fn test_scan_cache_invalidation() {
    let mut cache = ScanCache::new(3);
    cache.put(scan_key(b"a", b"z"), vec![1, 2]);
    cache.invalidate_for_sstable(1);
    assert_eq!(cache.get(&scan_key(b"a", b"z")), None);
}

#[test]
fn scan_cache_replaces_and_keeps_others() {
    let mut cache = ScanCache::new(2);
    cache.put(scan_key(b"a", b"b"), vec![1]);
    cache.put(scan_key(b"c", b"d"), vec![2]);
    cache.put(scan_key(b"a", b"b"), vec![7]);
    assert_eq!(cache.len(), 2);
    assert_eq!(cache.get(&scan_key(b"a", b"b")), Some(vec![7]));
    assert_eq!(cache.get(&scan_key(b"c", b"d")), Some(vec![2]));
    cache.invalidate_for_sstable(2);
    assert_eq!(cache.len(), 1);
    cache.clear();
    assert!(cache.is_empty());
}

#[test]
fn scan_key_equality() {
    let k = scan_key(b"a", b"b");
    assert!(k.same_as(&k.clone_key()));
    assert!(!k.same_as(&scan_key(b"a", b"c")));
}
