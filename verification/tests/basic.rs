use sieve_cache::SieveCache;

fn evict_string_cond(_k: &String, v: &String) -> bool {
    v.len() < 6
}

#[test]
fn test() {
    let mut cache = SieveCache::new(3).unwrap();
    assert!(cache.insert("foo".to_string(), "foocontent".to_string()).0);
    assert!(cache.insert("bar".to_string(), "barcontent".to_string()).0);
    cache.remove(&"bar".to_string());
    assert!(
        cache
            .insert("bar2".to_string(), "bar2content".to_string())
            .0
    );
    assert!(
        cache
            .insert("bar3".to_string(), "bar3content".to_string())
            .0
    );
    assert_eq!(cache.get(&"foo".to_string()), Some(&"foocontent".to_string()));
    assert_eq!(cache.get(&"bar".to_string()), None);
    assert_eq!(cache.get(&"bar2".to_string()), Some(&"bar2content".to_string()));
    assert_eq!(cache.get(&"bar3".to_string()), Some(&"bar3content".to_string()));
}

#[test]
fn test_visited_flag_update() {
    let mut cache = SieveCache::new(2).unwrap();
    cache.insert("key1".to_string(), "value1".to_string());
    cache.insert("key2".to_string(), "value2".to_string());
    // update `key1` entry.
    cache.insert("key1".to_string(), "updated".to_string());
    // new entry is added.
    cache.insert("key3".to_string(), "value3".to_string());
    assert_eq!(cache.get(&"key1".to_string()), Some(&"updated".to_string()));
}

#[test]
fn test_with_eviction() {
    let mut cache = SieveCache::with_evict_condition(3, evict_string_cond).unwrap();
    assert!(cache.insert("a".to_string(), "aaaaaa".to_string()).0);
    assert!(cache.insert("b".to_string(), "bbbbbb".to_string()).0);
    assert!(cache.insert("c".to_string(), "cccccc".to_string()).0);
    assert!(cache.insert("bar".to_string(), "barc".to_string()).1 == false);
    assert_eq!(cache.get(&"a".to_string()), Some(&"aaaaaa".to_string()));
    assert_eq!(cache.get(&"b".to_string()), Some(&"bbbbbb".to_string()));
    assert_eq!(cache.get(&"c".to_string()), Some(&"cccccc".to_string()));
    assert_eq!(cache.get(&"bar".to_string()), None);
}

#[test]
fn test_with_eviction_2() {
    let mut cache = SieveCache::with_evict_condition(3, evict_string_cond).unwrap();
    assert!(cache.insert("a".to_string(), "aaaaaa".to_string()).0);
    assert!(cache.insert("b".to_string(), "bbbbbb".to_string()).0);
    assert!(cache.insert("c".to_string(), "c".to_string()).0);
    assert!(cache.insert("bar".to_string(), "barc".to_string()).1 == true);
    assert_eq!(cache.get(&"a".to_string()), Some(&"aaaaaa".to_string()));
    assert_eq!(cache.get(&"b".to_string()), Some(&"bbbbbb".to_string()));
    assert_eq!(cache.get(&"bar".to_string()), Some(&"barc".to_string()));
    assert_eq!(cache.get(&"c".to_string()), None);
}
