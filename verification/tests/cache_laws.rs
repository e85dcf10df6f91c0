use alice_cache::cache::{lookup_counts, owner_of_hash, shard_capacity, shard_index, AliceCache, CacheConfig};

#[test]
fn shard_capacity_spreads_exactly() {
    assert_eq!((0..4).map(|i| shard_capacity(100, 4, i)).collect::<Vec<_>>(), vec![25, 25, 25, 25]);
    assert_eq!((0..4).map(|i| shard_capacity(101, 4, i)).collect::<Vec<_>>(), vec![26, 25, 25, 25]);
    assert_eq!((0..16).map(|i| shard_capacity(17, 16, i)).sum::<usize>(), 17);
    assert_eq!(shard_capacity(17, 16, 0), 2);
    assert_eq!(shard_capacity(17, 16, 1), 1);
    assert_eq!(shard_capacity(0, 8, 3), 0);
    assert_eq!(shard_capacity(usize::MAX, 1, 0), usize::MAX);
    assert_eq!((0..256).map(|i| shard_capacity(10000, 256, i)).sum::<usize>(), 10000);
}

#[test]
fn cache_len_stays_within_capacity_when_shards_do_not_divide_it() {
    let cache = AliceCache::<u32, u64>::with_config(CacheConfig {
        capacity: 17,
        num_shards: 16,
        num_nodes: 1,
        node_id: 0,
        enable_oracle: false,
    });
    for k in 0..2000u32 {
        cache.put(k, k as u64);
        assert!(cache.len() <= 17);
    }
}

#[test]
fn shard_index_masks_low_bits() {
    assert_eq!(shard_index(0x1234, 0xFF), 0x34);
    assert_eq!(shard_index(u64::MAX, 3), 3);
    assert_eq!(shard_index(17, 0), 0);
}

#[test]
fn owner_of_hash_is_jump_bucket() {
    for h in 0..300u64 {
        assert_eq!(owner_of_hash(h, 9), alice_cache::jump_hash(h, 9) as u32);
        assert!(owner_of_hash(h, 9) < 9);
        assert_eq!(owner_of_hash(h, 0), 0);
    }
}

#[test]
fn cache_update_keeps_one_entry() {
    let cache = AliceCache::<u32, u32>::with_config(CacheConfig { capacity: 64, num_shards: 2, ..Default::default() });
    cache.put(5, 1);
    cache.put(5, 2);
    assert_eq!(cache.len(), 1);
    assert_eq!(cache.get(&5), Some(2));
}

#[test]
fn cache_len_never_exceeds_shard_bounds() {
    let cache = AliceCache::<u32, u32>::with_config(CacheConfig { capacity: 10, num_shards: 4, ..Default::default() });
    for i in 0..1000u32 {
        cache.put(i, i);
        assert!(cache.len() <= 12);
    }
}

#[test]
fn hit_counts_count_hits_and_lookups() {
    let cache = AliceCache::<u32, u32>::new(100);
    assert_eq!(cache.hit_counts(), (0, 0));
    cache.put(1, 10);
    assert_eq!(cache.get(&1), Some(10));
    assert_eq!(cache.get(&2), None);
    assert_eq!(cache.get(&1), Some(10));
    assert_eq!(cache.hit_counts(), (2, 3));
    assert_eq!(cache.stats().hit_counts(), (2, 3));
}

#[test]
fn lookup_counts_saturate() {
    assert_eq!(lookup_counts(3, 4), (3, 7));
    assert_eq!(lookup_counts(u64::MAX - 1, 5), (u64::MAX - 1, u64::MAX));
    assert_eq!(lookup_counts(0, 0), (0, 0));
}

#[test]
fn owner_node_matches_is_local_owner() {
    let cache = AliceCache::<u32, u32>::with_config(CacheConfig {
        capacity: 64,
        num_shards: 4,
        num_nodes: 5,
        node_id: 2,
        enable_oracle: true,
    });
    for k in 0..200u32 {
        let n = cache.owner_node(&k);
        assert!(n < 5);
        assert_eq!(cache.is_local_owner(&k), n == 2);
    }
}
