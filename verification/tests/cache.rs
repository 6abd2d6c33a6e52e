use lsif_indexer::cached_storage::CacheTable;

#[test]
fn saved_value_is_read_back_from_the_cache() {
    let mut cache = CacheTable::new(1000, 300);
    cache.save("test_key", b"test_value".to_vec(), 10);
    assert_eq!(cache.lookup("test_key", 11), Some(b"test_value".to_vec()));
    assert_eq!(cache.len(), 1);
    assert_eq!(cache.lookup("other", 11), None);
}

#[test]
fn cache_stays_within_its_capacity() {
    let mut cache = CacheTable::new(3, 60);
    for i in 0..5u64 {
        cache.save(&format!("key_{}", i), vec![i as u8], i);
    }
    assert!(cache.len() <= 3);
}

#[test]
fn the_least_read_entry_makes_room() {
    let mut cache = CacheTable::new(2, 100);
    cache.save("a", vec![1], 0);
    cache.save("b", vec![2], 1);
    assert!(cache.lookup("a", 2).is_some());
    cache.save("c", vec![3], 3);
    assert_eq!(cache.len(), 2);
    assert!(cache.lookup("b", 4).is_none());
    assert_eq!(cache.lookup("a", 4), Some(vec![1]));
    assert_eq!(cache.lookup("c", 4), Some(vec![3]));
}

#[test]
fn among_equally_read_entries_the_oldest_goes() {
    let mut cache = CacheTable::new(2, 100);
    cache.save("old", vec![1], 5);
    cache.save("new", vec![2], 6);
    cache.fill("third", vec![3], 7);
    assert!(cache.lookup("old", 8).is_none());
    assert!(cache.lookup("new", 8).is_some());
}

#[test]
fn stale_entries_are_dropped_when_read() {
    let mut cache = CacheTable::new(10, 5);
    cache.save("k", vec![9], 100);
    assert_eq!(cache.lookup("k", 104), Some(vec![9]));
    // the read refreshed the entry: 108 is 4 ticks after 104
    assert_eq!(cache.lookup("k", 108), Some(vec![9]));
    assert_eq!(cache.lookup("k", 113), None);
    assert_eq!(cache.len(), 0);
}

#[test]
fn warm_entries_outlive_cold_ones() {
    let mut cache = CacheTable::new(2, 100);
    cache.save("hot", vec![1], 0);
    cache.save("cold", vec![2], 1);
    cache.warmup(&vec!["hot".to_string(), "absent".to_string()]);
    cache.save("next", vec![3], 2);
    assert!(cache.lookup("cold", 3).is_none());
    assert!(cache.lookup("hot", 3).is_some());
    cache.clear();
    assert_eq!(cache.len(), 0);
}

#[test]
fn a_zero_capacity_cache_keeps_the_last_entry() {
    let mut cache = CacheTable::new(0, 100);
    cache.save("a", vec![1], 0);
    cache.save("b", vec![2], 0);
    assert_eq!(cache.len(), 1);
    assert!(cache.lookup("b", 0).is_some());
}
