use lru_cache::LruCache;

#[test]
fn test_cache() {
    let mut cache = LruCache::new(3);

    cache.insert(&1, "aws");
    assert_eq!(cache.get(&&1), Some(&"aws"));

    cache.insert(&2, "gcp");
    cache.insert(&3, "azure");
    assert_eq!(cache.get(&&3), Some(&"azure"));

    cache.insert(&4, "vmware");
    assert_eq!(cache.get(&&2), Some(&"gcp"));
    assert_eq!(cache.get(&&1), None);

    cache.insert(&5, "val");
    assert_eq!(cache.get(&&5), Some(&"val"));
    assert_eq!(cache.get(&&4), Some(&"vmware"));
    assert_eq!(cache.get(&&3), None);
    assert_eq!(cache.get(&&2), Some(&"gcp"));
    assert_eq!(cache.get(&&1), None);
}

#[test]
fn new_cache_is_empty() {
    let mut cache: LruCache<u32, u32> = LruCache::new(4);
    assert_eq!(cache.len(), 0);
    assert_eq!(cache.capacity(), 4);
    assert_eq!(cache.get(&7), None);
    assert_eq!(cache.remove(&7), None);
    assert_eq!(cache.len(), 0);
}

#[test]
fn capacity_is_the_bound_given() {
    let cache: LruCache<u64, u64> = LruCache::new(5);
    assert_eq!(cache.capacity(), 5);
    let cache: LruCache<u64, u64> = LruCache::new(0);
    assert_eq!(cache.capacity(), 0);
    let mut cache: LruCache<u64, u64> = LruCache::new(1);
    cache.insert(1, 1);
    cache.insert(2, 2);
    assert_eq!(cache.capacity(), 1);
}

#[test]
fn len_never_exceeds_capacity() {
    let mut cache = LruCache::new(3);
    for i in 0..10u32 {
        cache.insert(i, i * 2);
        assert!(cache.len() <= cache.capacity());
        assert_eq!(cache.len(), std::cmp::min(i as usize + 1, 3));
    }
    assert_eq!(cache.get(&6), None);
    assert_eq!(cache.get(&7), Some(&14));
    assert_eq!(cache.get(&8), Some(&16));
    assert_eq!(cache.get(&9), Some(&18));
}

#[test]
fn insert_then_get_round_trip() {
    let mut cache = LruCache::new(2);
    cache.insert(String::from("a"), 1);
    assert_eq!(cache.get(&String::from("a")), Some(&1));
    cache.insert(String::from("b"), 2);
    assert_eq!(cache.get(&String::from("b")), Some(&2));
    assert_eq!(cache.get(&String::from("a")), Some(&1));
    assert_eq!(cache.len(), 2);
}

#[test]
fn insert_on_held_key_keeps_old_value() {
    let mut cache = LruCache::new(2);
    cache.insert(1, "first");
    cache.insert(1, "second");
    assert_eq!(cache.len(), 1);
    assert_eq!(cache.get(&1), Some(&"first"));
}

#[test]
fn insert_on_held_key_touches_it() {
    let mut cache = LruCache::new(2);
    cache.insert(1, "one");
    cache.insert(2, "two");
    // 1 becomes the most recently used entry, so 2 is evicted next.
    cache.insert(1, "uno");
    cache.insert(3, "three");
    assert_eq!(cache.len(), 2);
    assert_eq!(cache.get(&2), None);
    assert_eq!(cache.get(&1), Some(&"one"));
    assert_eq!(cache.get(&3), Some(&"three"));
}

#[test]
fn eviction_takes_least_recently_touched() {
    let mut cache = LruCache::new(3);
    cache.insert('a', 1);
    cache.insert('b', 2);
    cache.insert('c', 3);
    assert_eq!(cache.get(&'a'), Some(&1));
    assert_eq!(cache.get(&'b'), Some(&2));
    // Touched in the order c, a, b: c goes first.
    cache.insert('d', 4);
    assert_eq!(cache.get(&'c'), None);
    // Now a, b, d: a goes next.
    cache.insert('e', 5);
    assert_eq!(cache.get(&'a'), None);
    assert_eq!(cache.get(&'b'), Some(&2));
    assert_eq!(cache.get(&'d'), Some(&4));
    assert_eq!(cache.get(&'e'), Some(&5));
}

#[test]
fn get_makes_entry_survive_all_others() {
    let mut cache = LruCache::new(4);
    for k in 0..4u8 {
        cache.insert(k, u32::from(k) + 100);
    }
    assert_eq!(cache.get(&0), Some(&100));
    assert_eq!(cache.len(), 4);
    // Three new keys push out the three entries that were not touched.
    cache.insert(10, 110);
    cache.insert(11, 111);
    cache.insert(12, 112);
    assert_eq!(cache.len(), 4);
    assert_eq!(cache.remove(&1), None);
    assert_eq!(cache.remove(&2), None);
    assert_eq!(cache.remove(&3), None);
    // The touched entry is the one that is left, with its value, and it is
    // the next to go.
    cache.insert(13, 113);
    assert_eq!(cache.get(&0), None);
    assert_eq!(cache.get(&10), Some(&110));
    assert_eq!(cache.get(&11), Some(&111));
    assert_eq!(cache.get(&12), Some(&112));
    assert_eq!(cache.get(&13), Some(&113));
}

#[test]
fn get_keeps_len_and_other_values() {
    let mut cache = LruCache::new(3);
    cache.insert(1, "one");
    cache.insert(2, "two");
    cache.insert(3, "three");
    assert_eq!(cache.get(&2), Some(&"two"));
    assert_eq!(cache.len(), 3);
    assert_eq!(cache.get(&1), Some(&"one"));
    assert_eq!(cache.get(&3), Some(&"three"));
    assert_eq!(cache.get(&2), Some(&"two"));
    assert_eq!(cache.len(), 3);
}

#[test]
fn get_miss_changes_nothing() {
    let mut cache = LruCache::new(2);
    cache.insert(1, 10);
    cache.insert(2, 20);
    assert_eq!(cache.get(&3), None);
    assert_eq!(cache.len(), 2);
    // 1 is still the least recently used entry.
    cache.insert(4, 40);
    assert_eq!(cache.get(&1), None);
    assert_eq!(cache.get(&2), Some(&20));
    assert_eq!(cache.get(&4), Some(&40));
}

#[test]
fn remove_then_get_finds_nothing() {
    let mut cache = LruCache::new(3);
    cache.insert(1, "one");
    cache.insert(2, "two");
    assert_eq!(cache.len(), 2);
    assert_eq!(cache.remove(&1), Some("one"));
    assert_eq!(cache.len(), 1);
    assert_eq!(cache.get(&1), None);
    assert_eq!(cache.get(&2), Some(&"two"));
}

#[test]
fn remove_of_absent_key_changes_nothing() {
    let mut cache = LruCache::new(3);
    cache.insert(1, "one");
    assert_eq!(cache.remove(&9), None);
    assert_eq!(cache.len(), 1);
    assert_eq!(cache.remove(&1), Some("one"));
    assert_eq!(cache.remove(&1), None);
    assert_eq!(cache.len(), 0);
}

#[test]
fn remove_makes_room() {
    let mut cache = LruCache::new(2);
    cache.insert(1, 10);
    cache.insert(2, 20);
    assert_eq!(cache.remove(&2), Some(20));
    cache.insert(3, 30);
    // Nothing had to be evicted.
    assert_eq!(cache.len(), 2);
    assert_eq!(cache.get(&1), Some(&10));
    assert_eq!(cache.get(&3), Some(&30));
}

#[test]
fn remove_keeps_order_of_the_rest() {
    let mut cache = LruCache::new(3);
    cache.insert(1, 10);
    cache.insert(2, 20);
    cache.insert(3, 30);
    assert_eq!(cache.remove(&2), Some(20));
    cache.insert(4, 40);
    assert_eq!(cache.len(), 3);
    cache.insert(5, 50);
    assert_eq!(cache.get(&1), None);
    cache.insert(6, 60);
    assert_eq!(cache.get(&3), None);
    assert_eq!(cache.get(&4), Some(&40));
    assert_eq!(cache.get(&5), Some(&50));
    assert_eq!(cache.get(&6), Some(&60));
}

#[test]
fn reinsert_after_remove_stores_new_value() {
    let mut cache = LruCache::new(2);
    cache.insert(1, "old");
    assert_eq!(cache.remove(&1), Some("old"));
    cache.insert(1, "new");
    assert_eq!(cache.get(&1), Some(&"new"));
}

#[test]
fn reinsert_after_eviction_stores_new_value() {
    let mut cache = LruCache::new(1);
    cache.insert(1, "old");
    cache.insert(2, "two");
    assert_eq!(cache.get(&1), None);
    cache.insert(1, "new");
    assert_eq!(cache.get(&2), None);
    assert_eq!(cache.get(&1), Some(&"new"));
    assert_eq!(cache.len(), 1);
}

#[test]
fn capacity_zero_stores_nothing() {
    let mut cache = LruCache::new(0);
    cache.insert(1, "one");
    assert_eq!(cache.len(), 0);
    assert_eq!(cache.get(&1), None);
    cache.insert(1, "one");
    cache.insert(2, "two");
    assert_eq!(cache.len(), 0);
    assert_eq!(cache.remove(&2), None);
    assert_eq!(cache.capacity(), 0);
}

#[test]
fn capacity_one_holds_the_last_key() {
    let mut cache = LruCache::new(1);
    for i in 0..5u64 {
        cache.insert(i, i + 1);
        assert_eq!(cache.len(), 1);
        assert_eq!(cache.get(&i), Some(&(i + 1)));
        if i > 0 {
            assert_eq!(cache.get(&(i - 1)), None);
        }
    }
}

#[test]
fn many_operations_agree_with_a_plain_list() {
    // A list of (key, value) pairs, least recently used first, kept by hand.
    let capacity = 4usize;
    let mut cache = LruCache::new(capacity);
    let mut list: Vec<(u32, u32)> = Vec::new();
    let mut x: u32 = 12345;
    for step in 0..2000u32 {
        x = x.wrapping_mul(1103515245).wrapping_add(12345);
        let key = (x >> 16) % 7;
        let at = list.iter().position(|e| e.0 == key);
        match (x >> 8) % 3 {
            0 => {
                let got = cache.get(&key).copied();
                let want = at.map(|i| {
                    let e = list.remove(i);
                    list.push(e);
                    e.1
                });
                assert_eq!(got, want);
            }
            1 => {
                cache.insert(key, step);
                match at {
                    Some(i) => {
                        let e = list.remove(i);
                        list.push(e);
                    }
                    None => {
                        if list.len() == capacity {
                            list.remove(0);
                        }
                        list.push((key, step));
                    }
                }
            }
            _ => {
                let got = cache.remove(&key);
                let want = at.map(|i| list.remove(i).1);
                assert_eq!(got, want);
            }
        }
        assert_eq!(cache.len(), list.len());
        assert!(cache.len() <= cache.capacity());
    }
    // Drain by eviction order: the front of the list leaves first.
    for (key, value) in list.clone() {
        assert_eq!(cache.remove(&key), Some(value));
    }
    assert_eq!(cache.len(), 0);
}
