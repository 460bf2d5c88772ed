use lru_cache::cache_lru::LruCache;
use lru_cache::cache_trait::CacheTrait;

#[test]
fn test_lru_cache() {
    let mut cache: LruCache<String> = LruCache::new(3);
    cache.put("A", String::from("value_a"));
    cache.put("B", String::from("value_b"));
    cache.put("C", String::from("value_c"));
    cache.put("D", String::from("value_d"));

    let my_value = cache.get("A");
    assert_eq!(my_value, None);

    let my_value = cache.get("D");
    assert_eq!(my_value, Some(&String::from("value_d")));

    let my_value = cache.get("B");
    assert_eq!(my_value, Some(&String::from("value_b")));

    let my_value = cache.get("C");
    assert_eq!(my_value, Some(&String::from("value_c")));

    let my_value = cache.get("X");
    assert_eq!(my_value, None);

    cache.put("A", String::from("value_a"));

    cache.put("X", String::from("value_x"));

    let my_value = cache.get("B");
    assert_eq!(my_value, None);

    let my_value = cache.get("D");
    assert_eq!(my_value, None);
}

#[test]
fn test_put() {
    let mut cache: LruCache<String> = LruCache::new(3);

    cache.put("A", String::from("value_a"));

    let my_value = cache.get("A");
    assert_eq!(my_value, Some(&String::from("value_a")));
}

#[test]
fn test_size() {
    let mut cache: LruCache<String> = LruCache::new(3);

    cache.put("A", String::from("value_a"));
    cache.put("B", String::from("value_b"));
    cache.put("C", String::from("value_c"));

    assert_eq!(cache.size(), 3);

    cache.put("D", String::from("value_d"));

    assert_eq!(cache.size(), 3);
}
