use alice_cache::cache::{AliceCache, CacheConfig, PaddedAtomicU64, DEFAULT_SHARDS};
use std::sync::atomic::Ordering;

/// Hits over lookups, as a float (0 when there were no lookups).
fn hit_rate<K: Clone + Eq + std::hash::Hash, V: Clone>(cache: &AliceCache<K, V>) -> f64 {
    let (hits, lookups) = cache.hit_counts();
    if lookups == 0 {
        0.0
    } else {
        hits as f64 / lookups as f64
    }
}

#[test]
fn test_cache_basic() {
    let cache = AliceCache::<u32, String>::new(100);

    cache.put(1, "one".to_string());
    cache.put(2, "two".to_string());
    cache.put(3, "three".to_string());

    assert_eq!(cache.get(&1), Some("one".to_string()));
    assert_eq!(cache.get(&2), Some("two".to_string()));
    assert_eq!(cache.get(&3), Some("three".to_string()));
    assert_eq!(cache.get(&4), None);
}

#[test]
fn test_cache_stats() {
    let cache = AliceCache::<u32, u32>::new(100);

    cache.put(1, 10);

    // Hit
    cache.get(&1);
    // Miss
    cache.get(&2);

    assert_eq!(cache.stats().hits.load(Ordering::Relaxed), 1);
    assert_eq!(cache.stats().misses.load(Ordering::Relaxed), 1);
    assert!((hit_rate(&cache) - 0.5).abs() < 0.01);
}

#[test]
fn test_cache_eviction() {
    let config = CacheConfig {
        capacity: 100,
        num_shards: 4, // Fewer shards for predictable testing
        ..Default::default()
    };
    let cache = AliceCache::<u32, u32>::with_config(config);

    // Insert more than capacity
    for i in 0..200 {
        cache.put(i, i * 10);
    }

    // Should have evicted some items
    assert!(cache.len() <= 100);
}

#[test]
fn test_cache_oracle_prediction() {
    let cache = AliceCache::<u32, u32>::new(100);

    // Train pattern: 1 -> 2 -> 3 -> 1 -> 2 -> 3 ...
    for _ in 0..50 {
        cache.put(1, 10);
        cache.get(&1);
        cache.put(2, 20);
        cache.get(&2);
        cache.put(3, 30);
        cache.get(&3);
    }

    // Oracle should learn the pattern
    assert!(cache.should_prefetch(&1, &2));
    assert!(cache.should_prefetch(&2, &3));
}

#[test]
fn test_cache_remove() {
    let cache = AliceCache::<u32, String>::new(100);

    cache.put(1, "one".to_string());
    assert!(cache.contains(&1));

    let removed = cache.remove(&1);
    assert_eq!(removed, Some("one".to_string()));
    assert!(!cache.contains(&1));
}

#[test]
fn test_cache_distributed() {
    let config = CacheConfig {
        capacity: 100,
        num_nodes: 10,
        node_id: 3,
        ..Default::default()
    };
    let cache = AliceCache::<u64, u64>::with_config(config);

    // Verify consistent hashing
    let owner1 = cache.owner_node(&12345);
    let owner2 = cache.owner_node(&12345);
    assert_eq!(owner1, owner2);

    // Check local ownership
    let mut local_count = 0;
    for key in 0..1000u64 {
        if cache.is_local_owner(&key) {
            local_count += 1;
        }
    }
    // Should own ~10% of keys
    assert!(local_count > 50 && local_count < 200);
}

// ── Additional tests for quality improvement ──────────────────

#[test]
fn test_padded_atomic_u64_alignment() {
    // Verify that PaddedAtomicU64 is exactly 64 bytes (one cache line)
    assert_eq!(core::mem::size_of::<PaddedAtomicU64>(), 64);
    assert_eq!(core::mem::align_of::<PaddedAtomicU64>(), 64);
}

#[test]
fn test_cache_stats_all_misses() {
    let cache = AliceCache::<u32, u32>::new(100);

    // All misses
    for i in 0..10 {
        cache.get(&i);
    }

    assert_eq!(cache.stats().hits.load(Ordering::Relaxed), 0);
    assert_eq!(cache.stats().misses.load(Ordering::Relaxed), 10);
    assert!((hit_rate(&cache) - 0.0).abs() < f64::EPSILON);
}

#[test]
fn test_cache_stats_all_hits() {
    // 4シャードで各シャード容量25。10件挿入では退避が発生しない。
    let config = CacheConfig {
        capacity: 100,
        num_shards: 4,
        ..Default::default()
    };
    let cache = AliceCache::<u32, u32>::with_config(config);

    // Insert first, then all hits
    for i in 0..10 {
        cache.put(i, i * 10);
    }
    for i in 0..10 {
        assert!(cache.get(&i).is_some());
    }

    assert_eq!(cache.stats().hits.load(Ordering::Relaxed), 10);
    // Misses should be 0 (only the get() calls count, not put())
    assert_eq!(cache.stats().misses.load(Ordering::Relaxed), 0);
    assert!((hit_rate(&cache) - 1.0).abs() < f64::EPSILON);
}

#[test]
fn test_cache_stats_no_operations() {
    let cache = AliceCache::<u32, u32>::new(100);

    // No operations - hit rate should be 0.0 (not NaN or panic)
    assert!((hit_rate(&cache) - 0.0).abs() < f64::EPSILON);
    assert!(!hit_rate(&cache).is_nan());
}

#[test]
fn test_cache_stats_reset() {
    let cache = AliceCache::<u32, u32>::new(100);

    cache.put(1, 10);
    cache.get(&1);
    cache.get(&2);

    assert!(cache.stats().hits.load(Ordering::Relaxed) > 0);

    cache.stats().reset();

    assert_eq!(cache.stats().hits.load(Ordering::Relaxed), 0);
    assert_eq!(cache.stats().misses.load(Ordering::Relaxed), 0);
    assert_eq!(cache.stats().inserts.load(Ordering::Relaxed), 0);
    assert_eq!(cache.stats().evictions.load(Ordering::Relaxed), 0);
}

#[test]
fn test_cache_new_is_empty() {
    let cache = AliceCache::<u32, u32>::new(100);

    assert!(cache.is_empty());
    assert_eq!(cache.len(), 0);
    assert_eq!(cache.capacity(), 100);
}

#[test]
fn test_cache_contains() {
    let cache = AliceCache::<u32, u32>::new(100);

    assert!(!cache.contains(&1));
    cache.put(1, 10);
    assert!(cache.contains(&1));
    cache.remove(&1);
    assert!(!cache.contains(&1));
}

#[test]
fn test_cache_put_updates_existing() {
    let cache = AliceCache::<u32, String>::new(100);

    cache.put(1, "first".to_string());
    assert_eq!(cache.get(&1), Some("first".to_string()));

    cache.put(1, "second".to_string());
    assert_eq!(cache.get(&1), Some("second".to_string()));

    // Length should still be 1 (update, not new insert)
    // Note: len counts across all shards, the key is in exactly one shard
    // After update, the item count should not increase
    let len_after = cache.len();
    cache.put(1, "third".to_string());
    assert_eq!(cache.len(), len_after);
}

#[test]
fn test_cache_remove_nonexistent() {
    let cache = AliceCache::<u32, u32>::new(100);

    assert_eq!(cache.remove(&999), None);
}

#[test]
fn test_cache_without_oracle() {
    let config = CacheConfig {
        capacity: 100,
        enable_oracle: false,
        ..Default::default()
    };
    let cache = AliceCache::<u32, u32>::with_config(config);

    cache.put(1, 10);
    assert_eq!(cache.get(&1), Some(10));

    // should_prefetch should always return false when oracle is disabled
    assert!(!cache.should_prefetch(&1, &2));
}

#[test]
fn test_cache_is_local_owner_single_node() {
    let config = CacheConfig {
        capacity: 100,
        num_nodes: 1,
        node_id: 0,
        ..Default::default()
    };
    let cache = AliceCache::<u64, u64>::with_config(config);

    // With only 1 node, all keys should be locally owned
    for key in 0..100u64 {
        assert!(cache.is_local_owner(&key));
    }
}

#[test]
fn test_cache_string_keys() {
    let cache = AliceCache::<String, Vec<u8>>::new(1000);

    cache.put("hello".to_string(), vec![1, 2, 3]);
    cache.put("world".to_string(), vec![4, 5, 6]);

    assert_eq!(cache.get(&"hello".to_string()), Some(vec![1, 2, 3]));
    assert_eq!(cache.get(&"world".to_string()), Some(vec![4, 5, 6]));
    assert_eq!(cache.get(&"missing".to_string()), None);
}

#[test]
fn test_cache_large_capacity() {
    let cache = AliceCache::<u64, u64>::new(100_000);

    // Insert many items
    for i in 0..10_000u64 {
        cache.put(i, i);
    }

    // Verify some items are retrievable
    let mut found = 0;
    for i in 0..10_000u64 {
        if cache.get(&i).is_some() {
            found += 1;
        }
    }
    // All should be present since we're well under capacity
    assert_eq!(found, 10_000);
}

#[test]
fn test_cache_config_default() {
    let config = CacheConfig::default();

    assert_eq!(config.capacity, 10000);
    assert_eq!(config.num_shards, DEFAULT_SHARDS);
    assert_eq!(config.num_nodes, 1);
    assert_eq!(config.node_id, 0);
    assert!(config.enable_oracle);
}

// ── 新規テスト (16件) ──────────────────────────────────────────

/// inserts カウンタが put ごとに加算されることを確認する。
#[test]
fn test_cache_stats_inserts_counter() {
    let cache = AliceCache::<u32, u32>::new(1000);

    for i in 0..20 {
        cache.put(i, i);
    }

    assert_eq!(cache.stats().inserts.load(Ordering::Relaxed), 20);
}

/// put で同一キーを上書きしても inserts は増え続けることを確認する。
#[test]
fn test_cache_stats_inserts_on_update() {
    let cache = AliceCache::<u32, u32>::new(1000);

    cache.put(1, 10);
    cache.put(1, 20);
    cache.put(1, 30);

    // 毎回 put が呼ばれるので 3 回カウント
    assert_eq!(cache.stats().inserts.load(Ordering::Relaxed), 3);
}

/// clear() 後に統計がリセットされ、キャッシュが空になることを確認する。
#[test]
fn test_cache_stats_cleared_after_clear() {
    let config = CacheConfig {
        capacity: 200,
        num_shards: 4,
        ..Default::default()
    };
    let mut cache = AliceCache::<u32, u32>::with_config(config);

    for i in 0..10 {
        cache.put(i, i);
        cache.get(&i);
    }

    assert!(cache.stats().hits.load(Ordering::Relaxed) > 0);
    assert!(cache.stats().inserts.load(Ordering::Relaxed) > 0);

    cache.clear();

    assert_eq!(cache.stats().hits.load(Ordering::Relaxed), 0);
    assert_eq!(cache.stats().misses.load(Ordering::Relaxed), 0);
    assert_eq!(cache.stats().inserts.load(Ordering::Relaxed), 0);
    assert_eq!(cache.len(), 0);
}

/// capacity() は設定した値を返すことを確認する。
#[test]
fn test_cache_capacity_matches_config() {
    let cache = AliceCache::<u32, u32>::new(54321);
    assert_eq!(cache.capacity(), 54321);
}

/// remove() は存在しないキーに対して None を返すことを確認する。
#[test]
fn test_cache_remove_missing_key_returns_none() {
    let cache = AliceCache::<u64, u64>::new(1000);
    cache.put(1, 100);
    assert_eq!(cache.remove(&9999), None);
    // 元のキーはまだ存在する
    assert!(cache.contains(&1));
}

/// owner_node() の戻り値が [0, num_nodes) の範囲内であることを確認する。
#[test]
fn test_cache_owner_node_in_range() {
    let config = CacheConfig {
        capacity: 1000,
        num_nodes: 7,
        node_id: 0,
        ..Default::default()
    };
    let cache = AliceCache::<u64, u64>::with_config(config);

    for key in 0..500u64 {
        let owner = cache.owner_node(&key);
        assert!(owner < 7, "owner_node {owner} out of range for key {key}");
    }
}

/// is_local_owner() の一貫性: 同じキーで結果が変わらないことを確認する。
#[test]
fn test_cache_is_local_owner_consistent() {
    let config = CacheConfig {
        capacity: 1000,
        num_nodes: 3,
        node_id: 1,
        ..Default::default()
    };
    let cache = AliceCache::<u64, u64>::with_config(config);

    for key in 0..100u64 {
        let first = cache.is_local_owner(&key);
        let second = cache.is_local_owner(&key);
        assert_eq!(first, second, "is_local_owner not consistent for key {key}");
    }
}

/// CacheConfig::clone() が独立したコピーを返すことを確認する。
#[test]
fn test_cache_config_clone() {
    let config = CacheConfig {
        capacity: 500,
        num_shards: 8,
        num_nodes: 3,
        node_id: 1,
        enable_oracle: false,
    };
    // clone() が独立したコピーを返すことを確認する。
    // 元の config をキャッシュ構築に使い、cloned で値を検証する。
    let _cache = AliceCache::<u32, u32>::with_config(config.clone());
    let cloned = config;
    assert_eq!(cloned.capacity, 500);
    assert_eq!(cloned.num_shards, 8);
    assert_eq!(cloned.num_nodes, 3);
    assert_eq!(cloned.node_id, 1);
    assert!(!cloned.enable_oracle);
}

/// put → remove → is_empty の一連の流れを確認する。
#[test]
fn test_cache_is_empty_after_remove_all() {
    let config = CacheConfig {
        capacity: 100,
        num_shards: 4,
        ..Default::default()
    };
    let cache = AliceCache::<u32, u32>::with_config(config);

    for i in 0..5 {
        cache.put(i, i * 10);
    }
    assert!(!cache.is_empty());

    for i in 0..5 {
        cache.remove(&i);
    }
    assert!(cache.is_empty());
    assert_eq!(cache.len(), 0);
}

/// hit_rate() は hits=0, misses=0 のとき NaN にならないことを確認する。
#[test]
fn test_cache_hit_rate_no_nan_on_zero() {
    let cache = AliceCache::<u32, u32>::new(100);
    let rate = hit_rate(&cache);
    assert!(!rate.is_nan());
    assert!((rate - 0.0).abs() < f64::EPSILON);
}

/// evictions カウンタは退避が起きたシャードで加算されることを確認する。
/// (AliceCache::put は shard.put を呼ぶが evictions の計上は shard 側で行わない。
///  ここでは退避後に len が容量以下に収まることを検証する。)
#[test]
fn test_cache_eviction_keeps_len_bounded() {
    let config = CacheConfig {
        capacity: 40,
        num_shards: 4,
        enable_oracle: false,
        ..Default::default()
    };
    let cache = AliceCache::<u32, u32>::with_config(config);

    // 容量の 5 倍を挿入
    for i in 0..200u32 {
        cache.put(i, i);
    }

    assert!(cache.len() <= 40, "len {} exceeds capacity 40", cache.len());
}

/// oracle なしキャッシュでの基本的な get/put を確認する。
#[test]
fn test_cache_no_oracle_get_put() {
    let config = CacheConfig {
        capacity: 400,
        num_shards: 4,
        enable_oracle: false,
        ..Default::default()
    };
    let cache = AliceCache::<u32, u32>::with_config(config);

    for i in 0..100u32 {
        cache.put(i, i * 2);
    }
    for i in 0..100u32 {
        assert_eq!(cache.get(&i), Some(i * 2));
    }
}

/// should_prefetch は oracle なしのとき常に false を返すことを確認する。
#[test]
fn test_cache_should_prefetch_false_without_oracle() {
    let config = CacheConfig {
        capacity: 100,
        enable_oracle: false,
        ..Default::default()
    };
    let cache = AliceCache::<u32, u32>::with_config(config);

    // いくら使っても false
    for i in 0..50u32 {
        cache.put(i, i);
        cache.get(&i);
    }
    assert!(!cache.should_prefetch(&0, &1));
}

/// 大量のシャード数(256)で 256 件挿入した場合でも全件取得できることを確認する。
#[test]
fn test_cache_256_shards_no_eviction() {
    // 各シャード容量 = 256.div_ceil(256) = 1 は退避が起きうるため、
    // 容量を 2560 にして各シャード 10 件を確保する。
    let config = CacheConfig {
        capacity: 2560,
        num_shards: 256,
        enable_oracle: false,
        ..Default::default()
    };
    let cache = AliceCache::<u32, u32>::with_config(config);

    for i in 0..256u32 {
        cache.put(i, i * 3);
    }
    for i in 0..256u32 {
        assert_eq!(
            cache.get(&i),
            Some(i * 3),
            "key {i} missing after 256-shard insert"
        );
    }
}

/// PaddedAtomicU64::new でゼロ以外の初期値を設定できることを確認する。
#[test]
fn test_padded_atomic_u64_initial_value() {
    let p = PaddedAtomicU64::new(42);
    assert_eq!(p.load(Ordering::Relaxed), 42);
}

/// CacheStats の hit_rate() が正しい割合を返すことを確認する。
#[test]
fn test_cache_stats_hit_rate_ratio() {
    let config = CacheConfig {
        capacity: 400,
        num_shards: 4,
        ..Default::default()
    };
    let cache = AliceCache::<u32, u32>::with_config(config);

    // 100 件挿入して 50 件ヒット、50 件ミス
    for i in 0..100u32 {
        cache.put(i, i);
    }
    for i in 0..50u32 {
        cache.get(&i); // ヒット
    }
    for i in 100..150u32 {
        cache.get(&i); // ミス
    }

    let rate = hit_rate(&cache);
    assert!(
        (rate - 0.5).abs() < 0.01,
        "Expected hit_rate ~0.5, got {rate}"
    );
}
