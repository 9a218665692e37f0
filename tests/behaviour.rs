use rust_evaluation::cache::my_lru_cache::MyLruCache;

fn keys(cache: &MyLruCache<&'static str, i32>) -> Vec<&'static str> {
    cache.key_order.clone()
}

#[test]
fn new_key_in_full_cache_evicts_oldest() {
    let mut cache = MyLruCache::new(2);
    cache.insert_into_cache("a", 1);
    cache.insert_into_cache("b", 2);
    cache.insert_into_cache("c", 3);
    assert_eq!(cache.get_cache_content(&"a"), None);
    assert_eq!(cache.get_cache_content(&"b"), Some(&2));
    assert_eq!(cache.get_cache_content(&"c"), Some(&3));
}

#[test]
fn lookup_saves_key_from_eviction() {
    let mut cache = MyLruCache::new(2);
    cache.insert_into_cache("a", 1);
    cache.insert_into_cache("b", 2);
    cache.get_cache_content(&"a");
    cache.insert_into_cache("c", 3);
    assert_eq!(cache.get_cache_content(&"b"), None);
    assert_eq!(cache.get_cache_content(&"a"), Some(&1));
    assert_eq!(cache.get_cache_content(&"c"), Some(&3));
}

#[test]
fn reinsert_updates_in_place() {
    let mut cache = MyLruCache::new(2);
    cache.insert_into_cache("a", 1);
    cache.insert_into_cache("b", 2);
    cache.insert_into_cache("a", 99);
    assert_eq!(cache.get_cache_content(&"a"), Some(&99));
    assert_eq!(cache.get_cache_content(&"b"), Some(&2));
    assert_eq!(cache.len(), 2);
}

#[test]
fn capacity_one_keeps_latest_key() {
    let mut cache = MyLruCache::new(1);
    cache.insert_into_cache("a", 1);
    cache.insert_into_cache("b", 2);
    assert_eq!(cache.get_cache_content(&"a"), None);
    assert_eq!(cache.get_cache_content(&"b"), Some(&2));
    assert_eq!(cache.len(), 1);
}

#[test]
fn capacity_one_reinsert_same_key() {
    let mut cache = MyLruCache::new(1);
    cache.insert_into_cache("a", 1);
    cache.insert_into_cache("a", 2);
    assert_eq!(cache.get_cache_content(&"a"), Some(&2));
    assert_eq!(cache.len(), 1);
}

#[test]
fn empty_cache_misses() {
    let mut cache: MyLruCache<&'static str, i32> = MyLruCache::new(3);
    assert_eq!(cache.get_cache_content(&"x"), None);
    assert_eq!(cache.len(), 0);
}

#[test]
fn capacity_zero_holds_nothing() {
    let mut cache = MyLruCache::new(0);
    cache.insert_into_cache("a", 1);
    cache.insert_into_cache("b", 2);
    assert_eq!(cache.len(), 0);
    assert_eq!(cache.get_cache_content(&"a"), None);
    assert!(cache.key_order.is_empty());
}

#[test]
fn len_never_exceeds_capacity() {
    let mut cache = MyLruCache::new(3);
    for i in 0..20 {
        cache.insert_into_cache(i % 7, i);
        if i % 3 == 0 {
            cache.get_cache_content(&(i % 5));
        }
        assert!(cache.len() <= 3);
        assert_eq!(cache.len(), cache.key_order.len());
        assert_eq!(cache.len(), cache.cache_content.len());
    }
}

#[test]
fn keys_are_inserted_minus_evicted_without_duplicates() {
    let mut cache = MyLruCache::new(3);
    cache.insert_into_cache("a", 1);
    cache.insert_into_cache("b", 2);
    cache.insert_into_cache("a", 3);
    cache.insert_into_cache("c", 4);
    cache.insert_into_cache("d", 5);
    assert_eq!(keys(&cache), vec!["d", "c", "a"]);
    assert_eq!(cache.get_cache_content(&"b"), None);
    assert_eq!(cache.get_cache_content(&"a"), Some(&3));
    assert_eq!(cache.get_cache_content(&"c"), Some(&4));
    assert_eq!(cache.get_cache_content(&"d"), Some(&5));
}

#[test]
fn more_recent_key_outlives_older_one() {
    let mut cache = MyLruCache::new(3);
    cache.insert_into_cache("a", 1);
    cache.insert_into_cache("b", 2);
    cache.insert_into_cache("c", 3);
    cache.get_cache_content(&"b");
    cache.insert_into_cache("d", 4);
    assert_eq!(keys(&cache), vec!["d", "b", "c"]);
    cache.insert_into_cache("e", 5);
    assert_eq!(keys(&cache), vec!["e", "d", "b"]);
}

#[test]
fn second_lookup_keeps_order() {
    let mut cache = MyLruCache::new(3);
    cache.insert_into_cache("a", 1);
    cache.insert_into_cache("b", 2);
    cache.insert_into_cache("c", 3);
    assert_eq!(cache.get_cache_content(&"a"), Some(&1));
    let after_first = keys(&cache);
    assert_eq!(after_first, vec!["a", "c", "b"]);
    assert_eq!(cache.get_cache_content(&"a"), Some(&1));
    assert_eq!(keys(&cache), after_first);
}

#[test]
fn miss_leaves_order_unchanged() {
    let mut cache = MyLruCache::new(3);
    cache.insert_into_cache("a", 1);
    cache.insert_into_cache("b", 2);
    assert_eq!(cache.get_cache_content(&"z"), None);
    assert_eq!(keys(&cache), vec!["b", "a"]);
    assert_eq!(cache.len(), 2);
}
