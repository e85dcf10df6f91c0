use alice_cache::{AliceCache, CacheConfig, Sketch4K, StandardCache, VERSION};
use std::sync::atomic::Ordering;

/// Hits over lookups, as a float (0 when there were no lookups).
fn lib_hit_rate<K: Clone + Eq + std::hash::Hash, V: Clone>(cache: &AliceCache<K, V>) -> f64 {
    let (hits, lookups) = cache.hit_counts();
    if lookups == 0 {
        0.0
    } else {
        hits as f64 / lookups as f64
    }
}

#[test]
fn test_integration() {
    let cache = AliceCache::<&str, i32>::new(100);

    cache.put("a", 1);
    cache.put("b", 2);
    cache.put("c", 3);

    assert_eq!(cache.get(&"a"), Some(1));
    assert_eq!(cache.get(&"b"), Some(2));
    assert_eq!(cache.get(&"d"), None);

    assert!(lib_hit_rate(&cache) > 0.0);
}

#[test]
fn test_jump_hash_integration() {
    let config = CacheConfig {
        capacity: 100,
        num_nodes: 5,
        node_id: 2,
        ..Default::default()
    };
    let cache = AliceCache::<u64, u64>::with_config(config);

    // Keys should be distributed
    let mut node_counts = [0u32; 5];
    for key in 0..1000u64 {
        let owner = cache.owner_node(&key);
        node_counts[owner as usize] += 1;
    }

    // Each node should have some keys
    for count in node_counts {
        assert!(count > 100);
        assert!(count < 300);
    }
}

#[test]
fn test_oracle_integration() {
    let cache = AliceCache::<u32, u32>::new(100);

    // Train sequential pattern
    for _ in 0..100 {
        cache.put(1, 10);
        cache.get(&1);
        cache.put(2, 20);
        cache.get(&2);
    }

    // Should predict 2 after 1
    assert!(cache.should_prefetch(&1, &2));
}

#[test]
fn test_sketch_standalone() {
    let mut sketch = Sketch4K::new();

    for _ in 0..100 {
        sketch.add(1);
    }
    for _ in 0..50 {
        sketch.add(2);
    }

    assert!(sketch.estimate(1) > sketch.estimate(2));
    assert!(sketch.estimate(3) == 0);
}

#[test]
fn test_version_constant() {
    assert_eq!(VERSION, "0.2.0-charred");
}

#[test]
fn test_standard_cache_alias() {
    // StandardCache<K, V> should be interchangeable with AliceCache<K, V>
    let cache: StandardCache<u32, u32> = StandardCache::new(100);
    cache.put(1, 10);
    assert_eq!(cache.get(&1), Some(10));
}

#[test]
fn test_integration_clear() {
    let mut cache = AliceCache::<u32, u32>::new(100);

    cache.put(1, 10);
    cache.put(2, 20);
    assert_eq!(cache.len(), 2);

    cache.clear();
    assert_eq!(cache.len(), 0);
    assert!(cache.is_empty());
    assert_eq!(cache.get(&1), None);
}
