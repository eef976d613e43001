use lru_cache::LRUCache;

#[test]
fn test_lru_size() {
    let lru = LRUCache::<u32, u32>::new(5);

    assert_eq!(lru.capacity(), 5);
    assert_eq!(lru.size(), 0);
}

#[test]
fn test_lru_put_get() {
    let mut lru = LRUCache::new(5);
    lru.insert(&5, &1);
    lru.insert(&5, &5);
    lru.insert(&3, &3);

    assert_eq!(lru.get(&5), Some(&5));
    assert_eq!(lru.get(&3), Some(&3));
    assert_eq!(lru.get(&1), None);
}

#[test]
fn test_ins_drop() {
    let mut lru = LRUCache::new(3);
    lru.insert(&1, &1);
    lru.insert(&2, &5);
    lru.insert(&3, &3);
    lru.insert(&4, &4);

    // The first key inserted is the one dropped.
    assert_eq!(lru.get(&1), None);

    assert_eq!(lru.get(&2), Some(&5));
    assert_eq!(lru.get(&3), Some(&3));
    assert_eq!(lru.get(&4), Some(&4));

    lru.insert(&5, &6);

    // The key accessed longest ago is dropped.
    assert_eq!(lru.get(&2), None);
    assert_eq!(lru.get(&5), Some(&6));
}

#[test]
fn test_get_drop() {
    let mut lru = LRUCache::new(3);
    lru.insert(&"key1", &1);
    lru.insert(&"key2", &2);
    lru.insert(&"key3", &3);

    assert_eq!(lru.get(&"key1"), Some(&1));

    // "key2" goes, since "key1" was just read.
    lru.insert(&"key4", &4);

    assert_eq!(lru.get(&"key1"), Some(&1));
    assert_eq!(lru.get(&"key2"), None);
    assert_eq!(lru.get(&"key3"), Some(&3));
    assert_eq!(lru.get(&"key4"), Some(&4));
}
