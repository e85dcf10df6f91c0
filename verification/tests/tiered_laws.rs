use alice_cache::tiered::{TieredCache, TieredConfig};

fn config(hot: usize, warm: usize, promote: u32) -> TieredConfig {
    TieredConfig { hot_capacity: hot, warm_capacity: warm, promote_threshold: promote }
}

#[test]
fn tiered_put_then_get_returns_value() {
    let mut c = TieredCache::new(config(2, 2, 5));
    for i in 0..6u8 {
        let key = format!("k{i}");
        c.put(&key, vec![i, i]);
        assert_eq!(c.get(&key), Some(vec![i, i]));
    }
}

#[test]
fn tiered_spill_takes_least_accessed_first_in_key_order() {
    let mut c = TieredCache::new(config(2, 4, 100));
    c.put("b", vec![2]);
    c.put("a", vec![1]);
    let _ = c.get("a");
    c.put("c", vec![3]);
    assert!(c.hot_contains("a"));
    assert!(c.hot_contains("c"));
    assert!(!c.hot_contains("b"));
    assert!(c.contains("b"));
    assert_eq!(c.demotions(), 1);
}

#[test]
fn tiered_spill_ties_go_to_first_key() {
    let mut c = TieredCache::new(config(2, 4, 100));
    c.put("y", vec![2]);
    c.put("x", vec![1]);
    c.put("z", vec![3]);
    assert!(!c.hot_contains("x"));
    assert!(c.hot_contains("y"));
    assert!(c.hot_contains("z"));
}

#[test]
fn tiered_warm_eviction_bounds_size() {
    let mut c = TieredCache::new(config(1, 1, 100));
    c.put("a", vec![1]);
    c.put("b", vec![2]);
    c.put("c", vec![3]);
    assert_eq!(c.hot_len(), 1);
    assert_eq!(c.warm_len(), 1);
    assert_eq!(c.len(), 2);
    assert_eq!(c.evictions(), 1);
    assert!(!c.contains("a"));
}

#[test]
fn tiered_remove_then_absent() {
    let mut c = TieredCache::new(config(1, 3, 100));
    c.put("a", vec![1]);
    c.put("b", vec![2]);
    assert!(c.remove("a"));
    assert!(!c.contains("a"));
    assert_eq!(c.get("a"), None);
    assert!(!c.remove("a"));
    assert_eq!(c.get("b"), Some(vec![2]));
}

#[test]
fn tiered_promotion_counts() {
    let mut c = TieredCache::new(config(1, 4, 2));
    c.put("a", vec![1]);
    c.put("b", vec![2]);
    assert_eq!(c.get("a"), Some(vec![1]));
    assert_eq!(c.promotions(), 0);
    assert_eq!(c.get("a"), Some(vec![1]));
    assert_eq!(c.promotions(), 1);
    assert!(c.hot_contains("a"));
    assert!(!c.hot_contains("b"));
    assert_eq!(c.demotions(), 2);
}

#[test]
fn tiered_zero_capacity_keeps_latest() {
    let mut c = TieredCache::new(config(0, 0, 100));
    c.put("a", vec![1]);
    c.put("b", vec![2]);
    assert_eq!(c.hot_len(), 1);
    assert!(c.len() <= 2);
    assert_eq!(c.get("b"), Some(vec![2]));
}

#[test]
fn tiered_warm_eviction_takes_least_accessed_warm_entry() {
    let mut c = TieredCache::new(config(1, 2, 100));
    c.put("a", vec![1]);
    c.put("b", vec![2]);
    c.put("c", vec![3]);
    let _ = c.get("a");
    c.put("d", vec![4]);
    assert_eq!(c.evictions(), 1);
    assert!(c.contains("a"));
    assert!(!c.contains("b"));
    assert!(c.contains("c"));
    assert!(c.hot_contains("d"));
    assert_eq!(c.len(), 3);
}

#[test]
fn tiered_remove_lowers_len_and_keeps_counters() {
    let mut c = TieredCache::new(config(1, 3, 100));
    c.put("a", vec![1]);
    c.put("b", vec![2]);
    let before = c.len();
    assert!(c.remove("a"));
    assert_eq!(c.len(), before - 1);
    assert_eq!(c.demotions(), 1);
    assert_eq!(c.evictions(), 0);
    assert!(!c.remove("zz"));
    assert_eq!(c.len(), before - 1);
}
