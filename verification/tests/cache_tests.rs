use cache::model::Cache;

#[test]
fn put_then_get_returns_the_value() {
    let mut cache = Cache::new(3);
    cache.put("A", String::from("value_a"));
    assert_eq!(cache.get("A"), Some(&String::from("value_a")));
}

#[test]
fn put_two_then_get_both() {
    let mut cache = Cache::new(3);
    cache.put("A", String::from("value_a"));
    cache.put("B", String::from("value_b"));
    assert_eq!(cache.get("A"), Some(&String::from("value_a")));
    assert_eq!(cache.get("B"), Some(&String::from("value_b")));
    assert_eq!(cache.len(), 2);
}

#[test]
fn new_cache_is_empty() {
    let mut cache: Cache<&str, i32> = Cache::new(3);
    assert_eq!(cache.len(), 0);
    assert!(!cache.contains(&"A"));
    assert_eq!(cache.get("A"), None);
}

#[test]
fn resident_keys_never_exceed_capacity() {
    let capacity: usize = 4;
    let mut cache: Cache<u32, u32> = Cache::new(capacity);
    let mut expected: usize = 0;
    for key in 0u32..20u32 {
        cache.put(key, key * 10);
        if expected < capacity {
            expected += 1;
        }
        assert_eq!(cache.len(), expected);
        assert!(cache.len() <= capacity);
    }
    for key in 0u32..20u32 {
        cache.put(key % 3, key);
        assert!(cache.len() <= capacity);
    }
    assert_eq!(cache.len(), 4);
}

#[test]
fn get_after_put_finds_the_value() {
    let mut cache: Cache<u64, String> = Cache::new(2);
    cache.put(7, String::from("seven"));
    assert_eq!(cache.get(7), Some(&String::from("seven")));
    cache.put(8, String::from("eight"));
    assert_eq!(cache.get(7), Some(&String::from("seven")));
    assert_eq!(cache.get(8), Some(&String::from("eight")));
}

#[test]
fn first_key_is_evicted_after_one_put_too_many() {
    let capacity: usize = 5;
    let mut cache: Cache<usize, usize> = Cache::new(capacity);
    for key in 0..capacity + 1 {
        cache.put(key, key + 100);
    }
    assert_eq!(cache.len(), capacity);
    assert!(!cache.contains(&0));
    assert_eq!(cache.get(0), None);
    for key in 1..capacity + 1 {
        assert!(cache.contains(&key));
        assert_eq!(cache.get(key), Some(&(key + 100)));
    }
}

#[test]
fn keys_leave_in_the_order_they_came() {
    let mut cache: Cache<u8, u8> = Cache::new(2);
    cache.put(1, 1);
    cache.put(2, 2);
    cache.put(3, 3);
    assert!(!cache.contains(&1));
    assert!(cache.contains(&2));
    cache.put(4, 4);
    assert!(!cache.contains(&2));
    assert!(cache.contains(&3));
    assert!(cache.contains(&4));
}

#[test]
fn get_refreshes_recency() {
    let mut cache = Cache::new(2);
    cache.put("A", 1);
    cache.put("B", 2);
    assert_eq!(cache.get("A"), Some(&1));
    cache.put("C", 3);
    assert_eq!(cache.get("B"), None);
    assert_eq!(cache.get("A"), Some(&1));
    assert_eq!(cache.get("C"), Some(&3));
    assert_eq!(cache.len(), 2);
}

#[test]
fn overwrite_does_not_evict() {
    let mut cache = Cache::new(1);
    cache.put("A", 1);
    cache.put("A", 2);
    assert_eq!(cache.len(), 1);
    assert_eq!(cache.get("A"), Some(&2));
}

#[test]
fn overwrite_in_a_full_cache_keeps_the_other_keys() {
    let mut cache = Cache::new(3);
    cache.put("A", 1);
    cache.put("B", 2);
    cache.put("C", 3);
    cache.put("B", 20);
    assert_eq!(cache.len(), 3);
    assert_eq!(cache.get("A"), Some(&1));
    assert_eq!(cache.get("B"), Some(&20));
    assert_eq!(cache.get("C"), Some(&3));
}

#[test]
fn overwrite_refreshes_recency() {
    let mut cache = Cache::new(2);
    cache.put("A", 1);
    cache.put("B", 2);
    cache.put("A", 10);
    cache.put("C", 3);
    assert!(!cache.contains(&"B"));
    assert_eq!(cache.get("A"), Some(&10));
    assert_eq!(cache.get("C"), Some(&3));
}

#[test]
fn miss_returns_none_and_changes_nothing() {
    let mut cache = Cache::new(2);
    cache.put("A", 1);
    cache.put("B", 2);
    assert_eq!(cache.get("X"), None);
    assert_eq!(cache.get("X"), None);
    assert_eq!(cache.get("X"), None);
    assert_eq!(cache.len(), 2);
    assert!(!cache.contains(&"X"));
    cache.put("C", 3);
    assert!(!cache.contains(&"A"));
    assert!(cache.contains(&"B"));
    assert!(cache.contains(&"C"));
}

#[test]
fn miss_on_an_empty_cache() {
    let mut cache: Cache<String, u8> = Cache::new(4);
    assert_eq!(cache.get(String::from("nothing")), None);
    assert_eq!(cache.len(), 0);
}

#[test]
fn capacity_three_scenario() {
    let mut cache = Cache::new(3);
    cache.put("A", 1);
    cache.put("B", 2);
    cache.put("C", 3);
    cache.put("D", 4);
    assert_eq!(cache.get("A"), None);
    assert_eq!(cache.get("B"), Some(&2));
    assert_eq!(cache.get("C"), Some(&3));
    assert_eq!(cache.get("D"), Some(&4));
}

#[test]
fn zero_capacity_retains_nothing() {
    let mut cache = Cache::new(0);
    cache.put("A", 1);
    assert_eq!(cache.len(), 0);
    assert!(!cache.contains(&"A"));
    assert_eq!(cache.get("A"), None);
    cache.put("A", 2);
    cache.put("B", 3);
    assert_eq!(cache.len(), 0);
    assert_eq!(cache.get("A"), None);
    assert_eq!(cache.get("B"), None);
}

#[test]
fn capacity_one_holds_the_last_key() {
    let mut cache: Cache<i64, i64> = Cache::new(1);
    cache.put(-1, 10);
    cache.put(-2, 20);
    assert_eq!(cache.len(), 1);
    assert_eq!(cache.get(-1), None);
    assert_eq!(cache.get(-2), Some(&20));
}

#[test]
fn contains_does_not_touch() {
    let mut cache = Cache::new(2);
    cache.put("A", 1);
    cache.put("B", 2);
    assert!(cache.contains(&"A"));
    cache.put("C", 3);
    assert!(!cache.contains(&"A"));
    assert!(cache.contains(&"B"));
    assert!(cache.contains(&"C"));
}

#[test]
fn repeated_get_keeps_a_single_position() {
    let mut cache = Cache::new(3);
    cache.put("A", 1);
    cache.put("B", 2);
    cache.put("C", 3);
    assert_eq!(cache.get("A"), Some(&1));
    assert_eq!(cache.get("A"), Some(&1));
    assert_eq!(cache.get("A"), Some(&1));
    assert_eq!(cache.len(), 3);
    cache.put("D", 4);
    cache.put("E", 5);
    assert!(!cache.contains(&"B"));
    assert!(!cache.contains(&"C"));
    assert!(cache.contains(&"A"));
    assert!(cache.contains(&"D"));
    assert!(cache.contains(&"E"));
    cache.put("F", 6);
    assert!(!cache.contains(&"A"));
}

#[test]
fn owned_string_keys() {
    let mut cache: Cache<String, Vec<u8>> = Cache::new(2);
    cache.put(String::from("one"), vec![1]);
    cache.put(String::from("two"), vec![2, 2]);
    assert_eq!(cache.get(String::from("one")), Some(&vec![1]));
    cache.put(String::from("three"), vec![3, 3, 3]);
    assert_eq!(cache.get(String::from("two")), None);
    assert_eq!(cache.get(String::from("one")), Some(&vec![1]));
    assert_eq!(cache.get(String::from("three")), Some(&vec![3, 3, 3]));
}

#[test]
fn evicted_key_can_come_back() {
    let mut cache = Cache::new(2);
    cache.put("A", 1);
    cache.put("B", 2);
    cache.put("C", 3);
    assert_eq!(cache.get("A"), None);
    cache.put("A", 11);
    assert_eq!(cache.get("A"), Some(&11));
    assert!(!cache.contains(&"B"));
    assert!(cache.contains(&"C"));
    assert_eq!(cache.len(), 2);
}
