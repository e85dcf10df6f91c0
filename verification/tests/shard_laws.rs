use alice_cache::shard::{xorshift64, CacheShard, ShardInner, EVICTION_SAMPLES, RNG_SEED};
use alice_cache::sketch::CountMinSketch;

#[test]
fn xorshift64_known_values() {
    assert_eq!(xorshift64(1), 0x40822041);
    assert_eq!(xorshift64(0xDEAD_BEEF_CAFE_BABE), 0x27dc5c1b2d04284b);
    assert_eq!(xorshift64(0), 0);
}

#[test]
fn shard_inner_reads_back_writes() {
    let mut s = ShardInner::<u64, String>::new(8);
    s.put(3, "three".to_string(), 3, 8);
    s.put(4, "four".to_string(), 4, 8);
    assert_eq!(s.get(&3, 3), Some("three".to_string()));
    s.put(3, "THREE".to_string(), 3, 8);
    assert_eq!(s.get(&3, 3), Some("THREE".to_string()));
    assert_eq!(s.len(), 2);
    assert_eq!(s.remove(&3), Some("THREE".to_string()));
    assert_eq!(s.get(&3, 3), None);
    assert!(!s.contains(&3));
    assert!(s.contains(&4));
}

#[test]
fn shard_inner_full_evicts_one_other_key() {
    let mut s = ShardInner::<u64, u64>::new(4);
    for k in 0..4u64 {
        s.put(k, k * 10, k, 4);
    }
    assert_eq!(s.len(), 4);
    s.put(99, 990, 99, 4);
    assert_eq!(s.len(), 4);
    assert_eq!(s.get(&99, 99), Some(990));
    let survivors = (0..4u64).filter(|k| s.contains(k)).count();
    assert_eq!(survivors, 3);
    for k in 0..4u64 {
        if s.contains(&k) {
            assert_eq!(s.get(&k, k), Some(k * 10));
        }
    }
}

#[test]
fn shard_inner_update_never_evicts() {
    let mut s = ShardInner::<u64, u64>::new(2);
    s.put(1, 1, 1, 2);
    s.put(2, 2, 2, 2);
    s.put(1, 11, 1, 2);
    assert_eq!(s.len(), 2);
    assert_eq!(s.get(&1, 1), Some(11));
    assert_eq!(s.get(&2, 2), Some(2));
}

#[test]
fn shard_capacity_zero_keeps_latest() {
    let mut s = ShardInner::<u64, u64>::new(0);
    s.put(1, 1, 1, 0);
    assert_eq!(s.len(), 1);
    s.put(2, 2, 2, 0);
    assert_eq!(s.len(), 1);
    assert_eq!(s.get(&2, 2), Some(2));
    assert!(!s.contains(&1));
}

#[test]
fn shard_inner_clear_empties() {
    let mut s = ShardInner::<u64, u64>::new(10);
    for k in 0..5u64 {
        s.put(k, k, k, 10);
    }
    s.clear();
    assert!(s.is_empty());
    assert_eq!(s.get(&1, 1), None);
}

#[test]
fn cache_shard_locked_operations() {
    let mut shard = CacheShard::<u64, u64>::new(3);
    shard.put(1, 10, 1);
    assert!(shard.contains(&1));
    assert_eq!(shard.remove(&1), Some(10));
    assert!(shard.is_empty());
    shard.put(2, 20, 2);
    shard.clear();
    assert_eq!(shard.len(), 0);
}

#[test]
fn shard_inner_evicts_the_sampled_least_frequent_slot() {
    let mut s = ShardInner::<u64, u64>::new(4);
    let mut model = CountMinSketch::<256, 4>::new();
    for k in 0..4u64 {
        s.put(k, k, k, 4);
        model.add(k);
    }
    for k in [0u64, 0, 1, 3, 3, 3] {
        assert_eq!(s.get(&k, k), Some(k));
        model.add(k);
    }
    s.put(99, 99, 99, 4);
    model.add(99);
    let mut state = RNG_SEED;
    let mut least = 255u8;
    let mut victim = 0u64;
    for _ in 0..EVICTION_SAMPLES {
        state = xorshift64(state);
        let pos = (state as usize % 4) as u64;
        let rating = model.estimate(pos);
        if rating < least {
            least = rating;
            victim = pos;
        }
    }
    assert!(!s.contains(&victim));
    for k in 0..4u64 {
        if k != victim {
            assert!(s.contains(&k));
        }
    }
    assert!(s.contains(&99));
    assert_eq!(s.len(), 4);
}
