use alice_cache::crypto_bridge::{CryptoCache, SignedEntry};

#[test]
fn test_signed_entry() {
    let entry = SignedEntry::new(b"hello cache".to_vec());
    assert!(entry.verify());

    // Tamper
    let mut tampered = entry.clone();
    tampered.data[0] ^= 0xFF;
    assert!(!tampered.verify());
}

#[test]
fn test_encrypted_roundtrip() {
    let mut cache = CryptoCache::new().unwrap();

    let data = b"secret cached data";
    let entry = cache.encrypt(data).unwrap();
    assert_eq!(cache.encrypted_count, 1);

    let recovered = cache.decrypt(&entry).unwrap();
    assert_eq!(&recovered, data);
    assert_eq!(cache.decrypted_count, 1);
}

#[test]
fn test_entries_equal() {
    let mut cache = CryptoCache::new().unwrap();

    let e1 = cache.encrypt(b"same data").unwrap();
    let e2 = cache.encrypt(b"same data").unwrap();
    let e3 = cache.encrypt(b"different data").unwrap();

    assert!(CryptoCache::entries_equal(&e1, &e2));
    assert!(!CryptoCache::entries_equal(&e1, &e3));
}

#[test]
fn test_wrong_key_fails() {
    let mut cache1 = CryptoCache::new().unwrap();
    let mut cache2 = CryptoCache::new().unwrap();

    let entry = cache1.encrypt(b"test").unwrap();

    // Decrypting with wrong key should fail
    assert!(cache2.decrypt(&entry).is_err());
}
