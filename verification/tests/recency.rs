use lru::{LruCache, ZeroCapacity};

#[test]
fn new_cache_is_empty() {
    let mut cache: LruCache<u32, u32> = LruCache::new(3);
    assert_eq!(cache.size(), 0);
    assert_eq!(cache.keys(), Vec::<u32>::new());
    assert_eq!(cache.get(7), None);
    assert_eq!(cache.size(), 0);
}

#[test]
fn size_never_exceeds_capacity() {
    let mut cache = LruCache::new(3);
    for k in 0u32..10 {
        cache.put(k, k * 10);
        assert!(cache.size() <= 3);
        let filled: usize = if k < 3 { k as usize + 1 } else { 3 };
        assert_eq!(cache.size(), filled);
        cache.get(k / 2);
        assert!(cache.size() <= 3);
    }
    cache.delete(9);
    assert_eq!(cache.size(), 2);
    cache.delete(9);
    assert_eq!(cache.size(), 2);
    cache.reset();
    assert_eq!(cache.size(), 0);
}

#[test]
fn keys_run_from_least_to_most_recently_used() {
    let mut cache = LruCache::new(4);
    cache.put("a", 1);
    cache.put("b", 2);
    cache.put("c", 3);
    assert_eq!(cache.keys(), vec!["a", "b", "c"]);
    assert_eq!(cache.get("a"), Some(1));
    assert_eq!(cache.keys(), vec!["b", "c", "a"]);
    cache.put("d", 4);
    assert_eq!(cache.keys(), vec!["b", "c", "a", "d"]);
    assert_eq!(cache.size(), 4);
}

#[test]
fn every_key_is_walked_once() {
    let mut cache = LruCache::new(5);
    for k in [3u8, 1, 4, 1, 5, 9, 2, 6, 5, 3, 5] {
        cache.put(k, ());
        let keys = cache.keys();
        assert_eq!(keys.len(), cache.size());
        for (i, a) in keys.iter().enumerate() {
            for b in &keys[i + 1..] {
                assert_ne!(a, b);
            }
        }
    }
    assert_eq!(cache.keys(), vec![9, 2, 6, 3, 5]);
}

#[test]
fn put_at_capacity_evicts_least_recently_touched() {
    let mut cache = LruCache::new(3);
    cache.put(1, "one");
    cache.put(2, "two");
    cache.put(3, "three");
    // touch 1 by a read and 2 by a write: 3 is now the least recently touched
    assert_eq!(cache.get(1), Some("one"));
    cache.put(2, "deux");
    cache.put(4, "four");
    assert_eq!(cache.keys(), vec![1, 2, 4]);
    assert_eq!(cache.get(3), None);
    assert_eq!(cache.get(1), Some("one"));
    assert_eq!(cache.get(2), Some("deux"));
    assert_eq!(cache.get(4), Some("four"));
}

#[test]
fn put_with_room_evicts_nothing() {
    let mut cache = LruCache::new(3);
    cache.put(1, 10);
    cache.put(2, 20);
    assert_eq!(cache.size(), 2);
    cache.put(3, 30);
    assert_eq!(cache.size(), 3);
    assert_eq!(cache.keys(), vec![1, 2, 3]);
}

#[test]
fn get_promotes_to_most_recently_used() {
    let mut cache = LruCache::new(3);
    cache.put(1, 1);
    cache.put(2, 2);
    cache.put(3, 3);
    assert_eq!(cache.get(1), Some(1));
    assert_eq!(cache.keys().last(), Some(&1));
    // two insertions at full capacity take 2 and 3, not 1
    cache.put(4, 4);
    assert_eq!(cache.keys(), vec![3, 1, 4]);
    cache.put(5, 5);
    assert_eq!(cache.keys(), vec![1, 4, 5]);
    // every other entry has been touched since: now 1 goes
    cache.put(6, 6);
    assert_eq!(cache.keys(), vec![4, 5, 6]);
    assert_eq!(cache.get(1), None);
}

#[test]
fn get_of_most_recent_key_keeps_order() {
    let mut cache = LruCache::new(3);
    cache.put(1, 1);
    cache.put(2, 2);
    assert_eq!(cache.get(2), Some(2));
    assert_eq!(cache.get(2), Some(2));
    assert_eq!(cache.keys(), vec![1, 2]);
}

#[test]
fn get_of_absent_key_changes_nothing() {
    let mut cache = LruCache::new(3);
    cache.put(1, 1);
    cache.put(2, 2);
    assert_eq!(cache.get(9), None);
    assert_eq!(cache.keys(), vec![1, 2]);
    assert_eq!(cache.size(), 2);
}

#[test]
fn put_on_existing_key_updates_in_place() {
    let mut cache = LruCache::new(2);
    cache.put(1, "old");
    cache.put(2, "two");
    cache.put(1, "new");
    assert_eq!(cache.size(), 2);
    assert_eq!(cache.keys(), vec![2, 1]);
    assert_eq!(cache.get(2), Some("two"));
    assert_eq!(cache.get(1), Some("new"));
}

#[test]
fn put_on_existing_key_at_capacity_evicts_nothing() {
    let mut cache = LruCache::new(3);
    cache.put(1, 1);
    cache.put(2, 2);
    cache.put(3, 3);
    cache.put(1, 100);
    assert_eq!(cache.keys(), vec![2, 3, 1]);
    assert_eq!(cache.get(2), Some(2));
    assert_eq!(cache.get(3), Some(3));
    assert_eq!(cache.get(1), Some(100));
}

#[test]
fn delete_of_absent_key_is_a_no_op() {
    let mut cache = LruCache::new(3);
    cache.put(1, 1);
    cache.put(2, 2);
    cache.delete(3);
    assert_eq!(cache.keys(), vec![1, 2]);
    assert_eq!(cache.get(1), Some(1));
    assert_eq!(cache.get(2), Some(2));
}

#[test]
fn delete_twice_is_the_same_as_once() {
    let mut cache = LruCache::new(3);
    cache.put(1, 1);
    cache.put(2, 2);
    cache.put(3, 3);
    cache.delete(2);
    assert_eq!(cache.keys(), vec![1, 3]);
    cache.delete(2);
    assert_eq!(cache.keys(), vec![1, 3]);
    assert_eq!(cache.get(2), None);
    assert_eq!(cache.size(), 2);
}

#[test]
fn delete_at_each_place_keeps_the_others_in_order() {
    for victim in 1u32..=5 {
        let mut cache = LruCache::new(5);
        for k in 1u32..=5 {
            cache.put(k, k + 100);
        }
        cache.delete(victim);
        let expected: Vec<u32> = (1u32..=5).filter(|k| *k != victim).collect();
        assert_eq!(cache.keys(), expected);
        for k in 1u32..=5 {
            let found = if k == victim { None } else { Some(k + 100) };
            assert_eq!(cache.get(k), found);
        }
        assert_eq!(cache.keys(), expected);
    }
}

#[test]
fn deleted_room_is_used_before_evicting() {
    let mut cache = LruCache::new(3);
    cache.put(1, 1);
    cache.put(2, 2);
    cache.put(3, 3);
    cache.delete(1);
    cache.put(4, 4);
    assert_eq!(cache.keys(), vec![2, 3, 4]);
    cache.put(5, 5);
    assert_eq!(cache.keys(), vec![3, 4, 5]);
}

#[test]
fn deleted_key_can_be_put_again() {
    let mut cache = LruCache::new(2);
    cache.put(1, "a");
    cache.put(2, "b");
    cache.delete(1);
    cache.put(1, "c");
    assert_eq!(cache.keys(), vec![2, 1]);
    assert_eq!(cache.get(1), Some("c"));
}

#[test]
fn reset_forgets_every_key_and_keeps_capacity() {
    let mut cache = LruCache::new(2);
    cache.put(1, 1);
    cache.put(2, 2);
    cache.put(3, 3);
    cache.reset();
    assert_eq!(cache.size(), 0);
    assert_eq!(cache.keys(), Vec::<i32>::new());
    for k in 1..=3 {
        assert_eq!(cache.get(k), None);
    }
    cache.put(4, 4);
    cache.put(5, 5);
    cache.put(6, 6);
    assert_eq!(cache.size(), 2);
    assert_eq!(cache.keys(), vec![5, 6]);
}

#[test]
fn reset_of_empty_cache() {
    let mut cache: LruCache<u8, u8> = LruCache::new(1);
    cache.reset();
    assert_eq!(cache.size(), 0);
    cache.put(1, 1);
    assert_eq!(cache.get(1), Some(1));
}

#[test]
fn capacity_one_holds_the_last_key_only() {
    let mut cache = LruCache::new(1);
    cache.put(1, "a");
    assert_eq!(cache.get(1), Some("a"));
    cache.put(2, "b");
    assert_eq!(cache.get(1), None);
    assert_eq!(cache.get(2), Some("b"));
    cache.put(2, "c");
    assert_eq!(cache.size(), 1);
    assert_eq!(cache.get(2), Some("c"));
    cache.delete(2);
    assert_eq!(cache.size(), 0);
    assert_eq!(cache.get(2), None);
}

#[test]
fn owned_keys_and_values() {
    let mut cache = LruCache::new(2);
    cache.put(String::from("x"), vec![String::from("1")]);
    cache.put(String::from("y"), vec![]);
    assert_eq!(cache.get(String::from("x")), Some(vec![String::from("1")]));
    cache.put(String::from("z"), vec![String::from("3")]);
    assert_eq!(cache.get(String::from("y")), None);
    assert_eq!(cache.keys(), vec![String::from("x"), String::from("z")]);
}

#[test]
fn get_returns_a_copy_of_the_value() {
    let mut cache = LruCache::new(1);
    cache.put(1, vec![1, 2]);
    let mut copy = cache.get(1).unwrap();
    copy.push(3);
    assert_eq!(copy, vec![1, 2, 3]);
    assert_eq!(cache.get(1), Some(vec![1, 2]));
}

#[test]
fn largest_capacity_needs_no_room_up_front() {
    let mut cache = LruCache::new(usize::MAX);
    for k in 0u32..100 {
        cache.put(k, k);
    }
    assert_eq!(cache.size(), 100);
    assert_eq!(cache.get(0), Some(0));
    assert_eq!(cache.keys().last(), Some(&0));
}

#[test]
fn capacity_zero_is_refused() {
    let made: Result<LruCache<u32, u32>, ZeroCapacity> = LruCache::try_new(0);
    assert!(made.is_err());
}

#[test]
fn positive_capacity_is_accepted() {
    let mut cache = LruCache::try_new(1).unwrap();
    assert_eq!(cache.size(), 0);
    cache.put("a", 1);
    cache.put("b", 2);
    assert_eq!(cache.keys(), vec!["b"]);
}
