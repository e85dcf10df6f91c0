use alice_cache::cache::AliceCache;

#[test]
fn test_batch_put_get() {
    let cache = AliceCache::<u32, u32>::new(100);
    let keys = [1, 2, 3, 4, 5];
    let vals = [10, 20, 30, 40, 50];
    cache.batch_put(&keys, &vals);

    let result = cache.batch_get(&keys);
    assert_eq!(result.hits, 5);
    assert_eq!(result.misses, 0);
    assert_eq!(result.values[0], Some(10));
    assert_eq!(result.values[4], Some(50));
}

#[test]
fn test_batch_get_partial_miss() {
    let cache = AliceCache::<u32, u32>::new(100);
    cache.put(1, 10);
    cache.put(3, 30);

    let result = cache.batch_get(&[1, 2, 3, 4]);
    assert_eq!(result.hits, 2);
    assert_eq!(result.misses, 2);
    assert_eq!(result.values[0], Some(10));
    assert_eq!(result.values[1], None);
    assert_eq!(result.values[2], Some(30));
    assert_eq!(result.values[3], None);
}

#[test]
fn test_batch_remove() {
    let cache = AliceCache::<u32, u32>::new(100);
    cache.batch_put(&[1, 2, 3], &[10, 20, 30]);

    let removed = cache.batch_remove(&[1, 4, 3]);
    assert_eq!(removed[0], Some(10));
    assert_eq!(removed[1], None);
    assert_eq!(removed[2], Some(30));
    assert_eq!(cache.get(&1), None);
}

#[test]
fn test_batch_put_empty() {
    let cache = AliceCache::<u32, u32>::new(100);
    cache.batch_put(&[], &[]);
    assert!(cache.is_empty());
}

#[test]
fn test_batch_get_empty() {
    let cache = AliceCache::<u32, u32>::new(100);
    let result = cache.batch_get(&[]);
    assert_eq!(result.hits, 0);
    assert_eq!(result.misses, 0);
    assert!(result.values.is_empty());
}

#[test]
fn test_batch_get_result_order() {
    let cache = AliceCache::<u32, String>::new(100);
    let keys = [10, 20, 30];
    let vals = ["a".into(), "b".into(), "c".into()];
    cache.batch_put(&keys, &vals);

    let result = cache.batch_get(&[30, 10, 20]);
    assert_eq!(result.values[0], Some("c".to_string()));
    assert_eq!(result.values[1], Some("a".to_string()));
    assert_eq!(result.values[2], Some("b".to_string()));
}

#[test]
fn test_batch_large() {
    let cache = AliceCache::<u32, u32>::new(10000);
    let keys: Vec<u32> = (0..1000).collect();
    let vals: Vec<u32> = (0..1000).map(|i| i * 10).collect();
    cache.batch_put(&keys, &vals);

    let result = cache.batch_get(&keys);
    assert_eq!(result.hits, 1000);
    assert_eq!(result.misses, 0);
}
