use lsm5::cache::LruCache;

#[test]
fn test_lru_basic() {
    let mut cache = LruCache::new(100);
    cache.put("a".to_string(), vec![1, 2, 3], 3);
    assert_eq!(cache.get(&"a".to_string()), Some(vec![1, 2, 3]));
}

#[test]
fn test_lru_eviction() {
    let mut cache = LruCache::new(10);
    cache.put("a".to_string(), vec![1, 2, 3, 4], 4);
    cache.put("b".to_string(), vec![5, 6, 7, 8], 4);
    cache.put("c".to_string(), vec![9, 10, 11, 12], 4);
    assert_eq!(cache.get(&"a".to_string()), None);
    assert_eq!(cache.get(&"b".to_string()), Some(vec![5, 6, 7, 8]));
}

#[test]
fn lru_counts_hits_and_misses() {
    let mut cache = LruCache::new(100);
    cache.put("a".to_string(), vec![1u8], 1);
    cache.get(&"a".to_string());
    cache.get(&"b".to_string());
    assert_eq!(cache.counts(), (1, 1));
}

#[test]
fn lru_oversized_value_is_not_cached() {
    let mut cache = LruCache::new(4);
    cache.put("big".to_string(), vec![0u8; 5], 5);
    assert_eq!(cache.get(&"big".to_string()), None);
}

#[test]
fn lru_get_refreshes_recency() {
    let mut cache = LruCache::new(8);
    cache.put("a".to_string(), 1u32, 4);
    cache.put("b".to_string(), 2u32, 4);
    assert_eq!(cache.get(&"a".to_string()), Some(1));
    cache.put("c".to_string(), 3u32, 4);
    assert_eq!(cache.get(&"b".to_string()), None);
    assert_eq!(cache.get(&"a".to_string()), Some(1));
    assert_eq!(cache.get(&"c".to_string()), Some(3));
}

#[test]
fn lru_replace_and_invalidate_and_clear() {
    let mut cache = LruCache::new(10);
    cache.put(1u64, "x".to_string(), 6);
    cache.put(1u64, "y".to_string(), 6);
    assert_eq!(cache.get(&1u64), Some("y".to_string()));
    cache.put(2u64, "z".to_string(), 4);
    cache.invalidate(&1u64);
    assert_eq!(cache.get(&1u64), None);
    assert_eq!(cache.get(&2u64), Some("z".to_string()));
    cache.clear();
    assert_eq!(cache.get(&2u64), None);
}

#[test]
fn test_lru_stats() {
    let mut cache = LruCache::new(100);
    cache.put("a".to_string(), vec![1u8], 1);
    cache.get(&"a".to_string());
    cache.get(&"b".to_string());
    let (hits, misses) = cache.counts();
    let rate = hits as f64 / (hits + misses) as f64;
    assert_eq!(hits, 1);
    assert_eq!(misses, 1);
    assert!((rate - 0.5).abs() < 0.01);
}
