use lru_cache::LRUCache;

#[test]
fn zero_capacity_holds_nothing() {
    let mut c = LRUCache::<u64, u64>::new(0);
    c.insert(1, 10);
    c.insert(2, 20);
    assert_eq!(c.size(), 0);
    assert_eq!(c.capacity(), 0);
    assert_eq!(c.get(1), None);
    assert_eq!(c.get(2), None);
}

#[test]
fn size_never_exceeds_capacity() {
    let mut c = LRUCache::<u64, u64>::new(4);
    for k in 0..50u64 {
        c.insert(k % 7, k);
        assert!(c.size() <= c.capacity());
    }
    assert_eq!(c.size(), 4);
}

#[test]
fn full_insert_evicts_least_recent_only() {
    let mut c = LRUCache::<u64, u64>::new(3);
    c.insert(1, 10);
    c.insert(2, 20);
    c.insert(3, 30);
    c.insert(4, 40);
    assert_eq!(c.size(), 3);
    assert_eq!(c.get(1), None);
    assert_eq!(c.get(2), Some(20));
    assert_eq!(c.get(3), Some(30));
    assert_eq!(c.get(4), Some(40));
}

#[test]
fn get_promotes_entry() {
    let mut c = LRUCache::<&str, u64>::new(3);
    c.insert("a", 1);
    c.insert("b", 2);
    c.insert("c", 3);
    assert_eq!(c.get("a"), Some(1));
    c.insert("d", 4);
    assert_eq!(c.get("a"), Some(1));
    assert_eq!(c.get("b"), None);
    assert_eq!(c.get("c"), Some(3));
    assert_eq!(c.get("d"), Some(4));
}

#[test]
fn promoted_key_outlives_the_others() {
    let mut c = LRUCache::<u64, u64>::new(3);
    c.insert(1, 1);
    c.insert(2, 2);
    c.insert(3, 3);
    assert_eq!(c.get(1), Some(1));
    // Two new keys push out 2 and 3, not 1.
    c.insert(4, 4);
    c.insert(5, 5);
    assert_eq!(c.get(2), None);
    assert_eq!(c.get(3), None);
    assert_eq!(c.get(1), Some(1));
}

#[test]
fn update_does_not_grow_or_evict() {
    let mut c = LRUCache::<u64, u64>::new(2);
    c.insert(1, 10);
    c.insert(2, 20);
    c.insert(1, 11);
    assert_eq!(c.size(), 2);
    assert_eq!(c.get(1), Some(11));
    assert_eq!(c.get(2), Some(20));
}

#[test]
fn update_counts_as_use() {
    let mut c = LRUCache::<u64, u64>::new(2);
    c.insert(1, 10);
    c.insert(2, 20);
    c.insert(1, 11);
    c.insert(3, 30);
    assert_eq!(c.get(2), None);
    assert_eq!(c.get(1), Some(11));
    assert_eq!(c.get(3), Some(30));
}

#[test]
fn get_twice_is_stable() {
    let mut c = LRUCache::<u64, u64>::new(3);
    c.insert(1, 10);
    c.insert(2, 20);
    c.insert(3, 30);
    assert_eq!(c.get(2), Some(20));
    assert_eq!(c.get(2), Some(20));
    // 1 is still next in line.
    c.insert(4, 40);
    assert_eq!(c.get(1), None);
    assert_eq!(c.get(2), Some(20));
    assert_eq!(c.get(3), Some(30));
}

#[test]
fn miss_changes_nothing() {
    let mut c = LRUCache::<u64, u64>::new(2);
    c.insert(1, 10);
    c.insert(2, 20);
    assert_eq!(c.get(9), None);
    c.insert(3, 30);
    assert_eq!(c.get(1), None);
    assert_eq!(c.get(2), Some(20));
}

#[test]
fn single_entry_cache() {
    let mut c = LRUCache::<u64, u64>::new(1);
    c.insert(1, 10);
    assert_eq!(c.get(1), Some(10));
    assert_eq!(c.get(1), Some(10));
    c.insert(2, 20);
    assert_eq!(c.size(), 1);
    assert_eq!(c.get(1), None);
    assert_eq!(c.get(2), Some(20));
}

#[test]
fn promote_head_tail_and_middle() {
    let mut c = LRUCache::<u64, u64>::new(4);
    for k in 1..=4u64 {
        c.insert(k, k * 100);
    }
    // Order, most recent first: 4 3 2 1.
    assert_eq!(c.get(4), Some(400)); // head
    assert_eq!(c.get(1), Some(100)); // tail: 1 4 3 2
    assert_eq!(c.get(3), Some(300)); // middle: 3 1 4 2
    c.insert(5, 500); // evicts 2
    c.insert(6, 600); // evicts 4
    assert_eq!(c.get(2), None);
    assert_eq!(c.get(4), None);
    assert_eq!(c.get(3), Some(300));
    assert_eq!(c.get(1), Some(100));
    assert_eq!(c.get(5), Some(500));
    assert_eq!(c.get(6), Some(600));
}
