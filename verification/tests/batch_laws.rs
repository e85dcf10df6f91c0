use alice_cache::cache::AliceCache;

#[test]
fn batch_get_hits_count_found_values() {
    let cache = AliceCache::<u32, u32>::new(1000);
    cache.batch_put(&[1, 3, 5], &[10, 30, 50]);
    let r = cache.batch_get(&[5, 6, 1, 1, 2]);
    assert_eq!(r.values, vec![Some(50), None, Some(10), Some(10), None]);
    assert_eq!(r.hits, 3);
    assert_eq!(r.misses, 2);
    assert_eq!(r.hits, r.values.iter().filter(|v| v.is_some()).count());
}

#[test]
fn batch_remove_reports_each_key() {
    let cache = AliceCache::<u32, u32>::new(1000);
    cache.batch_put(&[1, 2], &[10, 20]);
    assert_eq!(cache.batch_remove(&[2, 2, 1]), vec![Some(20), None, Some(10)]);
    assert!(cache.is_empty());
}
