use alice_cache::tiered::{TieredCache, TieredConfig};

fn small_config() -> TieredConfig {
    TieredConfig {
        hot_capacity: 3,
        warm_capacity: 5,
        promote_threshold: 2,
    }
}

#[test]
fn put_and_get() {
    let mut cache = TieredCache::new(small_config());
    cache.put("k1", vec![1, 2, 3]);
    assert_eq!(cache.get("k1"), Some(vec![1, 2, 3]));
}

#[test]
fn get_miss() {
    let mut cache = TieredCache::new(small_config());
    assert!(cache.get("nope").is_none());
}

#[test]
fn remove_existing() {
    let mut cache = TieredCache::new(small_config());
    cache.put("k1", vec![1]);
    assert!(cache.remove("k1"));
    assert!(cache.get("k1").is_none());
}

#[test]
fn remove_nonexistent() {
    let mut cache = TieredCache::new(small_config());
    assert!(!cache.remove("nope"));
}

#[test]
fn spill_to_warm() {
    let mut cache = TieredCache::new(small_config());
    cache.put("a", vec![1]);
    cache.put("b", vec![2]);
    cache.put("c", vec![3]);
    // Hot is full, next insert should spill
    cache.put("d", vec![4]);
    assert_eq!(cache.hot_len(), 3);
    assert_eq!(cache.warm_len(), 1);
    assert_eq!(cache.demotions(), 1);
}

#[test]
fn promote_from_warm() {
    let mut cache = TieredCache::new(small_config());
    cache.put("a", vec![1]);
    cache.put("b", vec![2]);
    cache.put("c", vec![3]);
    cache.put("d", vec![4]); // "a" spills to warm

    // "a" は warm にいるはず。2回アクセスで昇格
    let _ = cache.get("a"); // access_count = 1
    let _ = cache.get("a"); // access_count = 2 → 昇格
    assert_eq!(cache.promotions(), 1);
    assert!(cache.hot_contains("a"));
}

#[test]
fn evict_warm() {
    let config = TieredConfig {
        hot_capacity: 2,
        warm_capacity: 2,
        promote_threshold: 10,
    };
    let mut cache = TieredCache::new(config);
    // Fill hot
    cache.put("a", vec![1]);
    cache.put("b", vec![2]);
    // Spill to warm
    cache.put("c", vec![3]); // a → warm
    cache.put("d", vec![4]); // b → warm, warm full
    cache.put("e", vec![5]); // c → warm, warm evicts oldest
    assert!(cache.evictions() > 0);
}

#[test]
fn len_and_empty() {
    let mut cache = TieredCache::new(small_config());
    assert!(cache.is_empty());
    assert_eq!(cache.len(), 0);

    cache.put("k1", vec![1]);
    assert!(!cache.is_empty());
    assert_eq!(cache.len(), 1);
}

#[test]
fn contains() {
    let mut cache = TieredCache::new(small_config());
    cache.put("k1", vec![1]);
    assert!(cache.contains("k1"));
    assert!(!cache.contains("k2"));
}

#[test]
fn clear() {
    let mut cache = TieredCache::new(small_config());
    cache.put("a", vec![1]);
    cache.put("b", vec![2]);
    cache.clear();
    assert!(cache.is_empty());
}

#[test]
fn overwrite_existing_key() {
    let mut cache = TieredCache::new(small_config());
    cache.put("k1", vec![1]);
    cache.put("k1", vec![2]);
    assert_eq!(cache.get("k1"), Some(vec![2]));
    assert_eq!(cache.len(), 1);
}

#[test]
fn tiered_default_config() {
    let config = TieredConfig::default();
    assert_eq!(config.hot_capacity, 1000);
    assert_eq!(config.warm_capacity, 10000);
    assert_eq!(config.promote_threshold, 3);
}

#[test]
fn with_defaults() {
    let cache = TieredCache::with_defaults();
    assert!(cache.is_empty());
}
