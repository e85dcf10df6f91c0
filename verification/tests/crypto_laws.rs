use alice_cache::crypto_bridge::{CryptoCache, CryptoError, EncryptedEntry, SignedEntry, SEAL_OVERHEAD};

#[test]
fn signed_entry_digest_of_empty_data() {
    let e = SignedEntry::new(Vec::new());
    let expected: [u8; 32] = [
        0xaf, 0x13, 0x49, 0xb9, 0xf5, 0xf9, 0xa1, 0xa6, 0xa0, 0x40, 0x4d, 0xea, 0x36, 0xdc, 0xc9, 0x49,
        0x9b, 0xcb, 0x25, 0xc9, 0xad, 0xc1, 0x12, 0xb7, 0xcc, 0x9a, 0x93, 0xca, 0xe4, 0x1f, 0x32, 0x62,
    ];
    assert_eq!(e.hash, expected);
    assert!(e.verify());
}

#[test]
fn signed_entry_detects_replaced_digest() {
    let mut e = SignedEntry::new(b"value".to_vec());
    e.hash[31] ^= 1;
    assert!(!e.verify());
}

#[test]
fn encrypt_sizes_and_counts() {
    let mut c = CryptoCache::new().unwrap();
    let e = c.encrypt(b"abcdef").unwrap();
    assert_eq!(e.ciphertext.len(), 6 + SEAL_OVERHEAD);
    assert_ne!(&e.ciphertext[24..30], b"abcdef");
    assert_eq!(e.plaintext_hash, SignedEntry::new(b"abcdef".to_vec()).hash);
    assert_eq!(c.encrypted_count, 1);
    assert_eq!(c.decrypt(&e).unwrap(), b"abcdef".to_vec());
    assert_eq!(c.decrypted_count, 1);
}

#[test]
fn decrypt_short_input_is_buffer_too_small() {
    let mut c = CryptoCache::new().unwrap();
    let e = EncryptedEntry { ciphertext: vec![0u8; 10], plaintext_hash: [0u8; 32] };
    assert_eq!(c.decrypt(&e), Err(CryptoError::BufferTooSmall));
    assert_eq!(c.decrypted_count, 0);
}

#[test]
fn decrypt_tampered_ciphertext_fails_authentication() {
    let mut c = CryptoCache::new().unwrap();
    let mut e = c.encrypt(b"payload").unwrap();
    e.ciphertext[30] ^= 0x80;
    assert_eq!(c.decrypt(&e), Err(CryptoError::DecryptionFailed));
    assert_eq!(c.integrity_failures, 0);
}

#[test]
fn decrypt_wrong_digest_counts_integrity_failure() {
    let mut c = CryptoCache::new().unwrap();
    let mut e = c.encrypt(b"payload").unwrap();
    e.plaintext_hash[0] ^= 0xFF;
    assert_eq!(c.decrypt(&e), Err(CryptoError::DecryptionFailed));
    assert_eq!(c.integrity_failures, 1);
    assert_eq!(c.decrypted_count, 0);
}

#[test]
fn with_key_round_trip() {
    let key = alice_crypto::Key::from_bytes([7u8; 32]);
    let mut a = CryptoCache::with_key(*key.as_bytes());
    let e = a.encrypt(b"shared").unwrap();
    let mut b = CryptoCache::with_key([7u8; 32]);
    assert_eq!(b.decrypt(&e).unwrap(), b"shared".to_vec());
    assert!(CryptoCache::entries_equal(&e, &a.encrypt(b"shared").unwrap()));
}

#[test]
fn accept_plaintext_checks_digest() {
    let mut c = CryptoCache::new().unwrap();
    let e = c.encrypt(b"content").unwrap();
    assert_eq!(c.accept_plaintext(&e, b"content".to_vec()), Ok(b"content".to_vec()));
    assert_eq!(c.decrypted_count, 1);
    assert_eq!(c.accept_plaintext(&e, b"other".to_vec()), Err(CryptoError::DecryptionFailed));
    assert_eq!(c.integrity_failures, 1);
    assert_eq!(c.decrypted_count, 1);
}

#[test]
fn with_key_other_key_does_not_open() {
    let mut a = CryptoCache::with_key([1u8; 32]);
    let e = a.encrypt(b"sealed under one key").unwrap();
    let mut b = CryptoCache::with_key([2u8; 32]);
    assert_eq!(b.decrypt(&e), Err(CryptoError::DecryptionFailed));
    assert_eq!(b.integrity_failures, 0);
    assert_eq!(b.decrypted_count, 0);
    assert_eq!(a.decrypt(&e).unwrap(), b"sealed under one key".to_vec());
}
