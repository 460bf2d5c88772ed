use lru_cache::cache_lru::LruCache;
use lru_cache::cache_trait::CacheTrait;

fn text(s: &str) -> String {
    String::from(s)
}

fn filled_abcd() -> LruCache<String> {
    let mut cache: LruCache<String> = LruCache::new(3);
    cache.put("A", text("va"));
    cache.put("B", text("vb"));
    cache.put("C", text("vc"));
    cache.put("D", text("vd"));
    cache
}

#[test]
fn basic_eviction() {
    let mut cache = filled_abcd();
    assert_eq!(cache.get("A"), None);
    assert_eq!(cache.get("B"), Some(&text("vb")));
    assert_eq!(cache.get("C"), Some(&text("vc")));
    assert_eq!(cache.get("D"), Some(&text("vd")));
    assert_eq!(cache.size(), 3);
}

#[test]
fn lookup_promotes_recency() {
    let mut cache = filled_abcd();
    assert_eq!(cache.get("D"), Some(&text("vd")));
    assert_eq!(cache.get("B"), Some(&text("vb")));
    assert_eq!(cache.get("C"), Some(&text("vc")));
    cache.put("A", text("va"));
    assert_eq!(cache.get("D"), None);
    assert_eq!(cache.get("A"), Some(&text("va")));
    assert_eq!(cache.get("B"), Some(&text("vb")));
    assert_eq!(cache.get("C"), Some(&text("vc")));
    assert_eq!(cache.size(), 3);
}

#[test]
fn reinsert_does_not_evict() {
    let mut cache: LruCache<String> = LruCache::new(3);
    cache.put("A", text("va"));
    cache.put("B", text("vb"));
    cache.put("C", text("vc"));
    cache.put("A", text("va2"));
    assert_eq!(cache.size(), 3);
    assert_eq!(cache.get("B"), Some(&text("vb")));
    assert_eq!(cache.get("C"), Some(&text("vc")));
    assert_eq!(cache.get("A"), Some(&text("va2")));
}

#[test]
fn insert_after_reinsert_evicts_oldest() {
    let mut cache: LruCache<String> = LruCache::new(3);
    cache.put("A", text("va"));
    cache.put("B", text("vb"));
    cache.put("C", text("vc"));
    cache.put("A", text("va2"));
    cache.put("X", text("vx"));
    assert_eq!(cache.size(), 3);
    assert_eq!(cache.get("B"), None);
    assert_eq!(cache.get("A"), Some(&text("va2")));
    assert_eq!(cache.get("C"), Some(&text("vc")));
    assert_eq!(cache.get("X"), Some(&text("vx")));
}

#[test]
fn absent_lookup_is_inert() {
    let mut cache: LruCache<String> = LruCache::new(3);
    cache.put("A", text("va"));
    cache.put("B", text("vb"));
    assert_eq!(cache.get("Z"), None);
    assert_eq!(cache.size(), 2);
    cache.put("C", text("vc"));
    cache.put("D", text("vd"));
    assert_eq!(cache.get("A"), None);
    assert_eq!(cache.get("B"), Some(&text("vb")));
    assert_eq!(cache.get("C"), Some(&text("vc")));
    assert_eq!(cache.get("D"), Some(&text("vd")));
}

#[test]
fn capacity_one() {
    let mut cache: LruCache<String> = LruCache::new(1);
    cache.put("A", text("va"));
    cache.put("B", text("vb"));
    assert_eq!(cache.get("A"), None);
    assert_eq!(cache.get("B"), Some(&text("vb")));
    assert_eq!(cache.size(), 1);
}

#[test]
fn capacity_zero_stays_empty() {
    let mut cache: LruCache<String> = LruCache::new(0);
    assert_eq!(cache.size(), 0);
    cache.put("A", text("va"));
    assert_eq!(cache.size(), 0);
    assert_eq!(cache.get("A"), None);
    cache.put("A", text("va2"));
    cache.put("B", text("vb"));
    assert_eq!(cache.size(), 0);
    assert_eq!(cache.get("A"), None);
    assert_eq!(cache.get("B"), None);
}

#[test]
fn new_cache_is_empty() {
    let mut cache: LruCache<u32> = LruCache::new(4);
    assert_eq!(cache.size(), 0);
    assert_eq!(cache.get("A"), None);
    assert_eq!(cache.get(""), None);
    assert_eq!(cache.size(), 0);
}

#[test]
fn huge_capacity_is_accepted() {
    let mut cache: LruCache<u8> = LruCache::new(usize::MAX);
    cache.put("A", 1);
    cache.put("B", 2);
    assert_eq!(cache.size(), 2);
    assert_eq!(cache.get("A"), Some(&1));
    assert_eq!(cache.get("B"), Some(&2));
}

#[test]
fn keys_are_told_apart_by_their_text() {
    let mut cache: LruCache<u32> = LruCache::new(8);
    cache.put("", 0);
    cache.put("a", 1);
    cache.put("A", 2);
    cache.put("a ", 3);
    cache.put("ab", 4);
    cache.put("\u{e9}", 5);
    cache.put("e\u{301}", 6);
    assert_eq!(cache.size(), 7);
    assert_eq!(cache.get(""), Some(&0));
    assert_eq!(cache.get("a"), Some(&1));
    assert_eq!(cache.get("A"), Some(&2));
    assert_eq!(cache.get("a "), Some(&3));
    assert_eq!(cache.get("ab"), Some(&4));
    assert_eq!(cache.get("\u{e9}"), Some(&5));
    assert_eq!(cache.get("e\u{301}"), Some(&6));
    assert_eq!(cache.get("b"), None);
}

#[test]
fn key_is_copied_on_insert() {
    let mut cache: LruCache<u32> = LruCache::new(2);
    let mut key = String::from("alpha");
    cache.put(&key, 1);
    key.push('!');
    assert_eq!(cache.get("alpha"), Some(&1));
    assert_eq!(cache.get(&key), None);
}

struct Opaque {
    tag: u64,
}

#[test]
fn values_need_no_equality_or_clone() {
    let mut cache: LruCache<Opaque> = LruCache::new(2);
    cache.put("x", Opaque { tag: 7 });
    cache.put("y", Opaque { tag: 8 });
    cache.put("x", Opaque { tag: 9 });
    cache.put("z", Opaque { tag: 10 });
    assert_eq!(cache.size(), 2);
    assert!(cache.get("y").is_none());
    assert_eq!(cache.get("x").map(|v| v.tag), Some(9));
    assert_eq!(cache.get("z").map(|v| v.tag), Some(10));
}

fn fill<C: CacheTrait<i32>>(cache: &mut C, keys: &[&str]) -> usize {
    let mut n: i32 = 0;
    for key in keys {
        cache.put(key, n);
        n += 1;
    }
    cache.size()
}

#[test]
fn usable_through_the_trait() {
    let mut cache: LruCache<i32> = LruCache::new(2);
    let size = fill(&mut cache, &["p", "q", "r", "q"]);
    assert_eq!(size, 2);
    assert_eq!(cache.get("p"), None);
    assert_eq!(cache.get("q"), Some(&3));
    assert_eq!(cache.get("r"), Some(&2));
}

#[test]
fn caches_are_independent() {
    let mut first: LruCache<u32> = LruCache::new(1);
    let mut second: LruCache<u32> = LruCache::new(1);
    first.put("k", 1);
    second.put("k", 2);
    second.put("l", 3);
    assert_eq!(first.get("k"), Some(&1));
    assert_eq!(second.get("k"), None);
    assert_eq!(second.get("l"), Some(&3));
}
