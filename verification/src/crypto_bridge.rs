//! Tamper-evident and encrypted cache entries.
//!
//! A signed entry keeps a BLAKE3 digest of its data and checks it on demand.
//! An encrypted entry keeps the XChaCha20-Poly1305 sealing of its data and
//! the digest of the plaintext, which decryption checks again.
use vstd::prelude::*;
use alice_crypto::{CipherError, Key};

verus! {

/// Bytes that sealing adds: a 24-byte nonce in front, a 16-byte tag behind.
pub const SEAL_OVERHEAD: usize = 40;

/// The BLAKE3 digest of a byte string (32 bytes).
pub uninterp spec fn blake3_digest(data: Seq<u8>) -> Seq<u8>;

/// Calls `alice_crypto::hash`: the BLAKE3 digest of `data`, a function of
/// `data` alone.
#[verifier::external_body]
fn digest(data: &[u8]) -> (h: [u8; 32])
    ensures
        h@ == blake3_digest(data@),
{
    *alice_crypto::hash(data).as_bytes()
}

/// What XChaCha20-Poly1305 opening gives for a 32-byte key and sealed bytes
/// laid out as nonce, ciphertext and tag: the plaintext when the tag
/// authenticates, `None` otherwise. A function of the key and the sealed bytes
/// alone.
pub uninterp spec fn xchacha_open(key: Seq<u8>, sealed: Seq<u8>) -> Option<Seq<u8>>;

/// Calls `alice_crypto::Key::generate` and hands out the key's bytes. The key
/// comes from the operating system's random source: nothing is stated of its
/// bytes or of when it fails. Failure is reported as `RandomFailed`, never a
/// panic.
#[verifier::external_body]
pub(crate) fn generate_key() -> (r: Result<[u8; 32], CryptoError>)
    ensures
        r matches Err(e) ==> e == CryptoError::RandomFailed,
{
    match Key::generate() {
        Ok(k) => Ok(*k.as_bytes()),
        Err(_) => Err(CryptoError::RandomFailed),
    }
}

/// Calls `alice_crypto::seal` under the key with bytes `key`: `plaintext`
/// encrypted with a fresh random nonce, laid out as nonce, ciphertext and tag.
/// On success the output is `SEAL_OVERHEAD` bytes longer than the plaintext,
/// and opening it under the same key gives the plaintext back (`open` reads
/// the nonce from where `seal` put it). Which bytes come out depends on the
/// random nonce and is not stated, nor is when the random source fails. It
/// fails with `RandomFailed` when the nonce cannot be drawn, or
/// `EncryptionFailed` when the cipher refuses the input; the error is carried
/// over variant for variant.
#[verifier::external_body]
fn seal_with(key: &[u8; 32], plaintext: &[u8]) -> (r: Result<Vec<u8>, CryptoError>)
    requires
        plaintext@.len() + SEAL_OVERHEAD <= usize::MAX,
    ensures
        r matches Ok(c) ==> c@.len() == plaintext@.len() + SEAL_OVERHEAD,
        r matches Ok(c) ==> xchacha_open(key@, c@) == Some(plaintext@),
        r matches Err(e) ==> e == CryptoError::RandomFailed || e == CryptoError::EncryptionFailed,
{
    match alice_crypto::seal(&Key::from_bytes(*key), plaintext) {
        Ok(c) => Ok(c),
        Err(CipherError::EncryptionFailed) => Err(CryptoError::EncryptionFailed),
        Err(CipherError::DecryptionFailed) => Err(CryptoError::DecryptionFailed),
        Err(CipherError::RandomFailed) => Err(CryptoError::RandomFailed),
        Err(CipherError::BufferTooSmall) => Err(CryptoError::BufferTooSmall),
    }
}

/// Calls `alice_crypto::open` under the key with bytes `key`: it fails exactly
/// when opening gives nothing, and otherwise gives the opened plaintext. Input
/// shorter than `SEAL_OVERHEAD` fails with `BufferTooSmall`; longer input that
/// does not authenticate fails with `DecryptionFailed`. An opened plaintext is
/// `SEAL_OVERHEAD` bytes shorter than the input. The error is carried over
/// variant for variant.
#[verifier::external_body]
fn open_with(key: &[u8; 32], sealed: &[u8]) -> (r: Result<Vec<u8>, CryptoError>)
    ensures
        r is Err <==> xchacha_open(key@, sealed@) is None,
        r matches Ok(p) ==> xchacha_open(key@, sealed@) == Some(p@),
        r matches Err(e) ==> (e == CryptoError::BufferTooSmall) == (sealed@.len() < SEAL_OVERHEAD),
        r matches Err(e) ==> e == CryptoError::BufferTooSmall || e == CryptoError::DecryptionFailed,
        r matches Ok(p) ==> p@.len() + SEAL_OVERHEAD == sealed@.len(),
{
    match alice_crypto::open(&Key::from_bytes(*key), sealed) {
        Ok(p) => Ok(p),
        Err(CipherError::EncryptionFailed) => Err(CryptoError::EncryptionFailed),
        Err(CipherError::DecryptionFailed) => Err(CryptoError::DecryptionFailed),
        Err(CipherError::RandomFailed) => Err(CryptoError::RandomFailed),
        Err(CipherError::BufferTooSmall) => Err(CryptoError::BufferTooSmall),
    }
}

/// Why an encryption or decryption failed.
#[derive(Debug, Clone, Copy, PartialEq, Eq, Structural)]
pub enum CryptoError {
    /// Encryption failed.
    EncryptionFailed,
    /// Authentication or the plaintext digest check failed.
    DecryptionFailed,
    /// The random source failed.
    RandomFailed,
    /// The input was too short.
    BufferTooSmall,
}

/// Whether two digests are equal, byte by byte.
fn digests_equal(a: &[u8; 32], b: &[u8; 32]) -> (r: bool)
    ensures
        r == (a@ == b@),
{
    let mut i: usize = 0;
    while i < 32
        invariant
            i <= 32,
            a@.len() == 32,
            b@.len() == 32,
            forall|j: int| 0 <= j < i ==> a@[j] == b@[j],
        decreases 32 - i,
    {
        if a[i] != b[i] {
            return false;
        }
        i = i + 1;
    }
    proof {
        assert(a@ =~= b@);
    }
    true
}

/// Data with the digest it had when the entry was made.
#[derive(Clone)]
pub struct SignedEntry {
    /// The data.
    pub data: Vec<u8>,
    /// BLAKE3 digest of the data when the entry was made.
    pub hash: [u8; 32],
}

impl SignedEntry {
    /// The stored digest is the digest of the data.
    pub open spec fn is_intact(&self) -> bool {
        self.hash@ == blake3_digest(self.data@)
    }

    /// An entry holding `data` and its digest.
    pub fn new(data: Vec<u8>) -> (e: Self)
        ensures
            e.data@ == data@,
            e.hash@ == blake3_digest(data@),
            e.is_intact(),
    {
        let h = digest(data.as_slice());
        SignedEntry { data, hash: h }
    }

    /// Whether the data still has the stored digest.
    pub fn verify(&self) -> (r: bool)
        ensures
            r == self.is_intact(),
    {
        let h = digest(self.data.as_slice());
        digests_equal(&h, &self.hash)
    }
}

/// Sealed data with the digest of its plaintext.
#[derive(Clone)]
pub struct EncryptedEntry {
    /// Nonce, ciphertext and tag.
    pub ciphertext: Vec<u8>,
    /// BLAKE3 digest of the plaintext.
    pub plaintext_hash: [u8; 32],
}

/// What decrypting `entry` under the key with bytes `key` gives: the opened
/// plaintext when opening succeeds and its digest is the recorded one.
pub open spec fn decrypted(key: Seq<u8>, entry: EncryptedEntry) -> Option<Seq<u8>> {
    match xchacha_open(key, entry.ciphertext@) {
        Some(p) => if blake3_digest(p) == entry.plaintext_hash@ {
            Some(p)
        } else {
            None
        },
        None => None,
    }
}

/// Decrypting an entry that `encrypt` made, under the same key, gives the
/// plaintext back.
pub proof fn lemma_encrypt_then_decrypt(key: Seq<u8>, plaintext: Seq<u8>, entry: EncryptedEntry)
    requires
        xchacha_open(key, entry.ciphertext@) == Some(plaintext),
        entry.plaintext_hash@ == blake3_digest(plaintext),
    ensures
        decrypted(key, entry) == Some(plaintext),
{
}

/// Encrypts and decrypts entries under one key, counting what it did.
pub struct CryptoCache {
    key: [u8; 32],
    /// Entries encrypted.
    pub encrypted_count: u64,
    /// Entries decrypted.
    pub decrypted_count: u64,
    /// Decryptions whose plaintext did not have the recorded digest.
    pub integrity_failures: u64,
}

impl CryptoCache {
    /// Encryptions, decryptions and integrity failures counted so far.
    pub closed spec fn counts(&self) -> (u64, u64, u64) {
        (self.encrypted_count, self.decrypted_count, self.integrity_failures)
    }

    /// The bytes of the key entries are sealed and opened under.
    pub closed spec fn spec_key(&self) -> Seq<u8> {
        self.key@
    }

    /// A cache with a fresh random key; fails when the random source does.
    pub fn new() -> (r: Result<Self, CryptoError>)
        ensures
            r matches Ok(c) ==> c.counts().0 == 0 && c.counts().1 == 0
                && c.counts().2 == 0 && c.spec_key().len() == 32,
            r is Err ==> r == Err::<Self, CryptoError>(CryptoError::RandomFailed),
    {
        match generate_key() {
            Ok(key) => Ok(CryptoCache { key, encrypted_count: 0, decrypted_count: 0, integrity_failures: 0 }),
            Err(e) => Err(e),
        }
    }

    /// A cache using the key with bytes `key`.
    pub fn with_key(key: [u8; 32]) -> (c: Self)
        ensures
            c.counts().0 == 0,
            c.counts().1 == 0,
            c.counts().2 == 0,
            c.spec_key() == key@,
    {
        CryptoCache { key, encrypted_count: 0, decrypted_count: 0, integrity_failures: 0 }
    }

    /// Seal `plaintext`, recording its digest; counts the encryption. On
    /// success the sealed bytes open, under this cache's key, to `plaintext`.
    pub fn encrypt(&mut self, plaintext: &[u8]) -> (r: Result<EncryptedEntry, CryptoError>)
        requires
            plaintext@.len() + SEAL_OVERHEAD <= usize::MAX,
            old(self).counts().0 < u64::MAX,
        ensures
            final(self).spec_key() == old(self).spec_key(),
            final(self).counts().1 == old(self).counts().1,
            final(self).counts().2 == old(self).counts().2,
            r is Err ==> final(self).counts().0 == old(self).counts().0,
            r matches Err(e) ==> e == CryptoError::RandomFailed || e == CryptoError::EncryptionFailed,
            r matches Ok(e) ==> {
                &&& e.plaintext_hash@ == blake3_digest(plaintext@)
                &&& e.ciphertext@.len() == plaintext@.len() + SEAL_OVERHEAD
                &&& xchacha_open(old(self).spec_key(), e.ciphertext@) == Some(plaintext@)
                &&& decrypted(old(self).spec_key(), e) == Some(plaintext@)
                &&& final(self).counts().0 == old(self).counts().0 + 1
            },
    {
        let plaintext_hash = digest(plaintext);
        match seal_with(&self.key, plaintext) {
            Ok(ciphertext) => {
                self.encrypted_count = self.encrypted_count + 1;
                let e = EncryptedEntry { ciphertext, plaintext_hash };
                proof {
                    lemma_encrypt_then_decrypt(self.key@, plaintext@, e);
                }
                Ok(e)
            },
            Err(e) => Err(e),
        }
    }

    /// Open an entry under this cache's key and check the plaintext against
    /// the recorded digest. It succeeds, counting a decryption, exactly when
    /// `decrypted` gives a plaintext, and returns that plaintext. When opening
    /// fails nothing is counted; when the digest does not match, an integrity
    /// failure is counted and the result is `DecryptionFailed`.
    pub fn decrypt(&mut self, entry: &EncryptedEntry) -> (r: Result<Vec<u8>, CryptoError>)
        requires
            old(self).counts().1 < u64::MAX,
            old(self).counts().2 < u64::MAX,
        ensures
            final(self).spec_key() == old(self).spec_key(),
            final(self).counts().0 == old(self).counts().0,
            r is Ok <==> decrypted(old(self).spec_key(), *entry) is Some,
            r matches Ok(p) ==> decrypted(old(self).spec_key(), *entry) == Some(p@),
            r is Ok ==> final(self).counts().1 == old(self).counts().1 + 1
                && final(self).counts().2 == old(self).counts().2,
            xchacha_open(old(self).spec_key(), entry.ciphertext@) is None ==> {
                &&& final(self).counts().1 == old(self).counts().1
                &&& final(self).counts().2 == old(self).counts().2
            },
            xchacha_open(old(self).spec_key(), entry.ciphertext@) matches Some(p)
                && blake3_digest(p) != entry.plaintext_hash@ ==> {
                &&& r == Err::<Vec<u8>, CryptoError>(CryptoError::DecryptionFailed)
                &&& final(self).counts().1 == old(self).counts().1
                &&& final(self).counts().2 == old(self).counts().2 + 1
            },
            entry.ciphertext@.len() < SEAL_OVERHEAD ==> r == Err::<Vec<u8>, CryptoError>(
                CryptoError::BufferTooSmall,
            ),
            entry.ciphertext@.len() >= SEAL_OVERHEAD && r is Err ==> r == Err::<Vec<u8>, CryptoError>(
                CryptoError::DecryptionFailed,
            ),
            r matches Ok(p) ==> p@.len() + SEAL_OVERHEAD == entry.ciphertext@.len(),
    {
        let plaintext = match open_with(&self.key, entry.ciphertext.as_slice()) {
            Ok(p) => p,
            Err(e) => {
                return Err(e);
            },
        };
        self.accept_plaintext(entry, plaintext)
    }

    /// The last step of `decrypt`, on the plaintext that opening gave: it is
    /// returned, and a decryption counted, exactly when its digest is the one
    /// the entry recorded; otherwise an integrity failure is counted and the
    /// result is `DecryptionFailed`.
    pub fn accept_plaintext(&mut self, entry: &EncryptedEntry, plaintext: Vec<u8>) -> (r: Result<
        Vec<u8>,
        CryptoError,
    >)
        requires
            old(self).counts().1 < u64::MAX,
            old(self).counts().2 < u64::MAX,
        ensures
            final(self).spec_key() == old(self).spec_key(),
            final(self).counts().0 == old(self).counts().0,
            blake3_digest(plaintext@) == entry.plaintext_hash@ ==> {
                &&& r == Ok::<Vec<u8>, CryptoError>(plaintext)
                &&& final(self).counts().1 == old(self).counts().1 + 1
                &&& final(self).counts().2 == old(self).counts().2
            },
            blake3_digest(plaintext@) != entry.plaintext_hash@ ==> {
                &&& r == Err::<Vec<u8>, CryptoError>(CryptoError::DecryptionFailed)
                &&& final(self).counts().1 == old(self).counts().1
                &&& final(self).counts().2 == old(self).counts().2 + 1
            },
    {
        let h = digest(plaintext.as_slice());
        if !digests_equal(&h, &entry.plaintext_hash) {
            self.integrity_failures = self.integrity_failures + 1;
            return Err(CryptoError::DecryptionFailed);
        }
        self.decrypted_count = self.decrypted_count + 1;
        Ok(plaintext)
    }

    /// Whether two entries hold the same plaintext, judged by their digests.
    pub fn entries_equal(a: &EncryptedEntry, b: &EncryptedEntry) -> (r: bool)
        ensures
            r == (a.plaintext_hash@ == b.plaintext_hash@),
    {
        digests_equal(&a.plaintext_hash, &b.plaintext_hash)
    }
}

} // verus!
