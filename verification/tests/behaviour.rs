use sieve_cache::{EvictCondition, SieveCache, Unconditional};

fn key(name: &str) -> String {
    name.to_string()
}

fn short_value(_key: &String, value: &String) -> bool {
    value.len() < 6
}

fn odd_key(key: &u32, _value: &u32) -> bool {
    key % 2 == 1
}

#[test]
fn zero_capacity_is_refused() {
    let made = SieveCache::<String, String>::new(0);
    assert_eq!(made.err(), Some("capacity must be greater than 0"));
    let made = SieveCache::<String, String, _>::with_evict_condition(0, short_value);
    assert_eq!(made.err(), Some("capacity must be greater than 0"));
}

#[test]
fn new_cache_is_empty() {
    let mut cache = SieveCache::<u32, u32>::new(4).unwrap();
    assert_eq!(cache.capacity(), 4);
    assert_eq!(cache.len(), 0);
    assert!(cache.is_empty());
    assert!(!cache.contains_key(&1));
    assert_eq!(cache.get(&1), None);
    assert_eq!(cache.get_mut(&1), None);
    assert_eq!(cache.remove(&1), None);
}

#[test]
fn len_follows_inserts_and_removes() {
    let mut cache = SieveCache::new(3).unwrap();
    assert_eq!(cache.insert(1u32, 10u32), (true, true));
    assert_eq!(cache.len(), 1);
    assert!(!cache.is_empty());
    assert_eq!(cache.insert(2, 20), (true, true));
    assert_eq!(cache.insert(3, 30), (true, true));
    assert_eq!(cache.len(), 3);
    assert_eq!(cache.insert(4, 40), (true, true));
    assert_eq!(cache.len(), 3);
    assert_eq!(cache.capacity(), 3);
    assert_eq!(cache.remove(&4), Some(40));
    assert_eq!(cache.len(), 2);
    assert_eq!(cache.remove(&4), None);
    assert_eq!(cache.len(), 2);
}

#[test]
fn contains_key_does_not_shield() {
    let mut cache = SieveCache::new(2).unwrap();
    cache.insert(1u32, 10u32);
    cache.insert(2, 20);
    assert!(cache.contains_key(&1));
    assert!(!cache.contains_key(&3));
    cache.insert(3, 30);
    assert!(!cache.contains_key(&1));
    assert!(cache.contains_key(&2));
    assert!(cache.contains_key(&3));
}

#[test]
fn insert_twice_updates() {
    let mut cache = SieveCache::new(2).unwrap();
    assert_eq!(cache.insert(key("k"), key("v")), (true, true));
    assert_eq!(cache.insert(key("k"), key("v2")), (false, true));
    assert_eq!(cache.len(), 1);
    assert_eq!(cache.get(&key("k")), Some(&key("v2")));
}

#[test]
fn update_does_not_move_the_entry() {
    let mut cache = SieveCache::new(3).unwrap();
    cache.insert(1u32, 10u32);
    cache.insert(2, 20);
    cache.insert(3, 30);
    // 2 is updated: it is shielded once and stays between 1 and 3.
    assert_eq!(cache.insert(2, 21), (false, true));
    assert_eq!(cache.insert(4, 40), (true, true));
    assert!(!cache.contains_key(&1));
    assert_eq!(cache.insert(5, 50), (true, true));
    // The scan went on from 2, cleared its mark and evicted 3.
    assert!(cache.contains_key(&2));
    assert!(!cache.contains_key(&3));
    assert_eq!(cache.insert(6, 60), (true, true));
    // The hand stood on 4, the next newer entry.
    assert!(cache.contains_key(&2));
    assert!(!cache.contains_key(&4));
    assert!(cache.contains_key(&5));
    assert!(cache.contains_key(&6));
}

#[test]
fn first_inserted_is_evicted_first() {
    let mut cache = SieveCache::new(3).unwrap();
    for k in 0u32..4 {
        assert_eq!(cache.insert(k, k * 10), (true, true));
    }
    assert_eq!(cache.len(), 3);
    assert!(!cache.contains_key(&0));
    assert!(cache.contains_key(&1));
    assert!(cache.contains_key(&2));
    assert!(cache.contains_key(&3));
}

#[test]
fn capacity_one_replaces_the_entry() {
    let mut cache = SieveCache::new(1).unwrap();
    assert_eq!(cache.insert(1u32, 10u32), (true, true));
    assert_eq!(cache.insert(2, 20), (true, true));
    assert_eq!(cache.len(), 1);
    assert_eq!(cache.get(&1), None);
    assert_eq!(cache.get(&2), Some(&20));
    // The only entry is visited: the scan clears the mark and gives up.
    assert_eq!(cache.insert(3, 30), (false, false));
    assert_eq!(cache.get(&3), None);
    assert_eq!(cache.len(), 1);
}

#[test]
fn read_shields_from_the_next_scan() {
    let mut cache = SieveCache::new(3).unwrap();
    cache.insert(1u32, 10u32);
    cache.insert(2, 20);
    cache.insert(3, 30);
    assert_eq!(cache.get(&1), Some(&10));
    assert_eq!(cache.insert(4, 40), (true, true));
    assert!(cache.contains_key(&1));
    assert!(!cache.contains_key(&2));
    assert!(cache.contains_key(&3));
    assert!(cache.contains_key(&4));
}

#[test]
fn shield_lasts_one_scan() {
    let mut cache = SieveCache::new(2).unwrap();
    cache.insert(1u32, 10u32);
    cache.insert(2, 20);
    cache.get(&1);
    // The scan passes 1, clears its mark and evicts 2; the hand is cleared.
    assert_eq!(cache.insert(3, 30), (true, true));
    assert!(cache.contains_key(&1));
    assert!(!cache.contains_key(&2));
    // The next scan starts at the oldest entry again, which is 1.
    assert_eq!(cache.insert(4, 40), (true, true));
    assert!(!cache.contains_key(&1));
    assert!(cache.contains_key(&3));
    assert!(cache.contains_key(&4));
}

#[test]
fn scan_wraps_around() {
    let mut cache = SieveCache::new(3).unwrap();
    cache.insert(1u32, 10u32);
    cache.insert(2, 20);
    cache.insert(3, 30);
    // Evicts 1; the hand stands on 2.
    cache.insert(4, 40);
    cache.get(&2);
    cache.get(&3);
    cache.get(&4);
    // Everything is visited: the scan passes 2, 3 and 4 and gives up.
    assert_eq!(cache.insert(5, 50), (false, false));
    assert_eq!(cache.len(), 3);
    // All marks are cleared now, and the hand still stands on 2.
    assert_eq!(cache.insert(5, 50), (true, true));
    assert!(!cache.contains_key(&2));
    assert!(cache.contains_key(&3));
    assert!(cache.contains_key(&4));
    assert!(cache.contains_key(&5));
    // The hand went on to 3. With 3 visited, the scan takes 4.
    cache.get(&3);
    assert_eq!(cache.insert(6, 60), (true, true));
    assert!(cache.contains_key(&3));
    assert!(!cache.contains_key(&4));
    // The hand stands on 5; from the newest entry the scan goes on to the oldest.
    cache.get(&5);
    cache.get(&6);
    assert_eq!(cache.insert(7, 70), (true, true));
    assert!(!cache.contains_key(&3));
    assert!(cache.contains_key(&5));
    assert!(cache.contains_key(&6));
    assert!(cache.contains_key(&7));
}

#[test]
fn get_mut_changes_the_value_and_shields() {
    let mut cache = SieveCache::new(2).unwrap();
    cache.insert(1u32, key("one"));
    cache.insert(2, key("two"));
    match cache.get_mut(&1) {
        Some(value) => {
            assert_eq!(value, &key("one"));
            value.push_str("!");
        }
        None => panic!("the key is there"),
    }
    assert_eq!(cache.len(), 2);
    assert_eq!(cache.insert(3, key("three")), (true, true));
    assert_eq!(cache.get(&1), Some(&key("one!")));
    assert_eq!(cache.get(&2), None);
    assert_eq!(cache.get(&3), Some(&key("three")));
}

#[test]
fn remove_returns_the_value() {
    let mut cache = SieveCache::new(3).unwrap();
    cache.insert(key("a"), 1u32);
    cache.insert(key("b"), 2);
    cache.insert(key("c"), 3);
    assert_eq!(cache.remove(&key("b")), Some(2));
    assert_eq!(cache.remove(&key("b")), None);
    assert_eq!(cache.remove(&key("z")), None);
    assert_eq!(cache.len(), 2);
    assert_eq!(cache.get(&key("a")), Some(&1));
    assert_eq!(cache.get(&key("c")), Some(&3));
    assert_eq!(cache.remove(&key("a")), Some(1));
    assert_eq!(cache.remove(&key("c")), Some(3));
    assert!(cache.is_empty());
    assert_eq!(cache.insert(key("d"), 4), (true, true));
    assert_eq!(cache.get(&key("d")), Some(&4));
}

#[test]
fn removing_the_hand_moves_it_on() {
    let mut cache = SieveCache::new(4).unwrap();
    for k in 1u32..=4 {
        cache.insert(k, k);
    }
    // Evicts 1; the hand stands on 2.
    cache.insert(5, 5);
    assert_eq!(cache.remove(&2), Some(2));
    // The hand stands on 3 now.
    cache.insert(6, 6);
    assert_eq!(cache.len(), 4);
    cache.insert(7, 7);
    assert!(!cache.contains_key(&3));
    assert!(cache.contains_key(&4));
    assert!(cache.contains_key(&5));
    assert!(cache.contains_key(&6));
    assert!(cache.contains_key(&7));
}

#[test]
fn removing_the_newest_under_the_hand_clears_the_hand() {
    let mut cache = SieveCache::new(2).unwrap();
    cache.insert(1u32, 1u32);
    cache.insert(2, 2);
    cache.get(&2);
    // Evicts 1; the hand stands on 2, which is the newest entry but for 3.
    cache.insert(3, 3);
    assert_eq!(cache.remove(&3), Some(3));
    assert_eq!(cache.remove(&2), Some(2));
    assert!(cache.is_empty());
    cache.insert(4, 4);
    cache.insert(5, 5);
    cache.insert(6, 6);
    assert!(!cache.contains_key(&4));
    assert!(cache.contains_key(&5));
    assert!(cache.contains_key(&6));
}

#[test]
fn many_removals_keep_the_order() {
    let mut cache = SieveCache::new(5).unwrap();
    for k in 1u32..=5 {
        cache.insert(k, k * 100);
    }
    assert_eq!(cache.remove(&1), Some(100));
    assert_eq!(cache.remove(&3), Some(300));
    assert_eq!(cache.remove(&5), Some(500));
    cache.insert(6, 600);
    cache.insert(7, 700);
    cache.insert(8, 800);
    assert_eq!(cache.len(), 5);
    // The order is 2, 4, 6, 7, 8.
    cache.insert(9, 900);
    assert!(!cache.contains_key(&2));
    cache.insert(10, 1000);
    assert!(!cache.contains_key(&4));
    cache.insert(11, 1100);
    assert!(!cache.contains_key(&6));
    assert_eq!(cache.get(&7), Some(&700));
    assert_eq!(cache.get(&8), Some(&800));
    assert_eq!(cache.get(&9), Some(&900));
    assert_eq!(cache.get(&10), Some(&1000));
    assert_eq!(cache.get(&11), Some(&1100));
}

#[test]
fn condition_that_rejects_all_blocks_the_insert() {
    let mut cache = SieveCache::with_evict_condition(2, short_value).unwrap();
    assert_eq!(cache.insert(key("a"), key("aaaaaa")), (true, true));
    assert_eq!(cache.insert(key("b"), key("bbbbbb")), (true, true));
    assert_eq!(cache.insert(key("c"), key("c")), (false, false));
    assert_eq!(cache.len(), 2);
    assert!(cache.contains_key(&key("a")));
    assert!(cache.contains_key(&key("b")));
    assert!(!cache.contains_key(&key("c")));
    // An update needs no room.
    assert_eq!(cache.insert(key("a"), key("a")), (false, true));
    assert_eq!(cache.get(&key("a")), Some(&key("a")));
}

#[test]
fn visited_wins_over_the_condition() {
    let mut cache = SieveCache::with_evict_condition(2, short_value).unwrap();
    cache.insert(key("a"), key("a"));
    cache.insert(key("b"), key("bbbbbb"));
    cache.get(&key("a"));
    // "a" is visited and "b" is protected: nothing can go.
    assert_eq!(cache.insert(key("c"), key("c")), (false, false));
    assert!(cache.contains_key(&key("a")));
    assert!(cache.contains_key(&key("b")));
    // The failed scan has cleared the mark of "a".
    assert_eq!(cache.insert(key("c"), key("c")), (true, true));
    assert!(!cache.contains_key(&key("a")));
    assert!(cache.contains_key(&key("b")));
    assert!(cache.contains_key(&key("c")));
}

#[test]
fn condition_skips_protected_entries() {
    let mut cache = SieveCache::with_evict_condition(3, short_value).unwrap();
    cache.insert(key("a"), key("aaaaaa"));
    cache.insert(key("b"), key("b"));
    cache.insert(key("c"), key("c"));
    assert_eq!(cache.insert(key("d"), key("d")), (true, true));
    assert!(cache.contains_key(&key("a")));
    assert!(!cache.contains_key(&key("b")));
    // The hand stands on "c".
    assert_eq!(cache.insert(key("e"), key("e")), (true, true));
    assert!(cache.contains_key(&key("a")));
    assert!(!cache.contains_key(&key("c")));
    assert!(cache.contains_key(&key("d")));
    assert!(cache.contains_key(&key("e")));
}

#[test]
fn closure_as_condition() {
    let limit = 100u32;
    let mut cache = SieveCache::with_evict_condition(2, move |_k: &u32, v: &u32| *v < limit).unwrap();
    cache.insert(1u32, 500u32);
    cache.insert(2, 5);
    assert_eq!(cache.insert(3, 7), (true, true));
    assert!(cache.contains_key(&1));
    assert!(!cache.contains_key(&2));
    assert!(cache.contains_key(&3));
}

#[test]
fn condition_on_the_key() {
    let mut cache = SieveCache::with_evict_condition(2, odd_key).unwrap();
    cache.insert(2u32, 0u32);
    cache.insert(3, 0);
    assert_eq!(cache.insert(4, 0), (true, true));
    assert!(cache.contains_key(&2));
    assert!(!cache.contains_key(&3));
    assert_eq!(cache.insert(6, 0), (false, false));
    assert!(cache.contains_key(&2));
    assert!(cache.contains_key(&4));
    assert!(!cache.contains_key(&6));
}

#[test]
fn unconditional_allows_everything() {
    assert!(EvictCondition::<u32, u32>::may_evict(&Unconditional, &1, &2));
    let mut cache = SieveCache::with_evict_condition(1, Unconditional).unwrap();
    cache.insert(1u32, 1u32);
    assert_eq!(cache.insert(2, 2), (true, true));
    assert!(!cache.contains_key(&1));
    assert!(cache.contains_key(&2));
}

#[test]
fn function_is_a_condition() {
    assert!(short_value.may_evict(&key("k"), &key("short")));
    assert!(!short_value.may_evict(&key("k"), &key("longer")));
}

fn is_send<T: Send>(_value: &T) -> bool {
    true
}

#[test]
fn cache_can_move_to_another_owner() {
    let mut cache = SieveCache::new(2).unwrap();
    cache.insert(key("a"), key("b"));
    assert!(is_send(&cache));
    let mut moved = cache;
    assert_eq!(moved.get(&key("a")), Some(&key("b")));
}
