//! The sharded cache: keys are hashed once, the low bits of the hash pick a
//! shard, each shard evicts by sampling, a shared oracle learns access
//! transitions, and jump hashing names the node that owns a key.
//!
//! Shards sit behind locks and counters are relaxed atomics, so what a call
//! returns depends on what other threads did; the contracts here state what
//! holds whatever that was, and the shard contracts in `shard` state what the
//! locked state does.
use vstd::prelude::*;
use vstd::std_specs::hash::obeys_key_model;
use std::hash::Hash;
use std::sync::atomic::{AtomicU64, Ordering};

use crate::jump_hash::{jump_bucket, jump_hash};
use crate::oracle::SharedOracle;
use crate::shard::{clone_is_copy, CacheShard};
use crate::sketch::sat_add_u64;

verus! {

/// Default number of shards.
pub const DEFAULT_SHARDS: usize = 256;

/// Makes `ahash::RandomState` usable in signatures and fields; its seeds
/// stay private to it.
#[verifier::external_type_specification]
#[verifier::external_body]
pub struct ExRandomState(ahash::RandomState);

/// Makes the 512-bit integer vector type usable in fields; it is used only
/// for its 64-byte alignment.
#[verifier::external_type_specification]
#[verifier::external_body]
pub struct ExVector512(core::arch::x86_64::__m512i);

/// Calls `ahash::RandomState::with_seeds`: a hash builder keyed by the four
/// seeds, which it only combines with constants, so it cannot fail. Nothing is
/// stated of the builder.
#[verifier::external_body]
fn seeded_hash_builder(k0: u64, k1: u64, k2: u64, k3: u64) -> ahash::RandomState {
    ahash::RandomState::with_seeds(k0, k1, k2, k3)
}

/// `256^n`.
pub open spec fn pow256(n: nat) -> nat
    decreases n,
{
    if n == 0 {
        1
    } else {
        256 * pow256((n - 1) as nat)
    }
}

/// Value of a byte string read as a big-endian number.
pub open spec fn be_value(s: Seq<u8>) -> nat
    decreases s.len(),
{
    if s.len() == 0 {
        0
    } else {
        be_value(s.drop_last()) * 256 + s.last() as nat
    }
}

proof fn lemma_pow256_grows(i: nat, j: nat)
    requires
        i <= j,
    ensures
        pow256(i) <= pow256(j),
    decreases j,
{
    if i < j {
        lemma_pow256_grows(i, (j - 1) as nat);
    }
}

/// The eight bytes of `b` from `start` on, read as a big-endian `u64`.
fn u64_from_bytes(b: &[u8; 32], start: usize) -> (r: u64)
    requires
        start + 8 <= 32,
    ensures
        r == be_value(b@.subrange(start as int, start + 8)),
{
    proof {
        assert(pow256(7) == 0x100_0000_0000_0000) by {
            reveal_with_fuel(pow256, 8);
        }
    }
    let mut acc: u64 = 0;
    let mut j: usize = 0;
    while j < 8
        invariant
            j <= 8,
            start + 8 <= 32,
            b@.len() == 32,
            pow256(7) == 0x100_0000_0000_0000,
            acc == be_value(b@.subrange(start as int, start + j)),
            acc < pow256(j as nat),
        decreases 8 - j,
    {
        let byte = b[start + j];
        proof {
            lemma_pow256_grows(j as nat, 7);
            let p = pow256(j as nat);
            assert(acc * 256 + byte < p * 256 && p * 256 <= 0x1_0000_0000_0000_0000) by (nonlinear_arith)
                requires
                    acc < p,
                    p <= 0x100_0000_0000_0000,
                    byte < 256,
            ;
            let s = b@.subrange(start as int, start + j + 1);
            assert(s.drop_last() =~= b@.subrange(start as int, start + j));
        }
        acc = acc * 256 + byte as u64;
        j = j + 1;
    }
    acc
}

/// A hash builder for a new cache: keyed by 32 bytes from the operating
/// system's random source, or by all-zero seeds when that source fails.
fn new_hash_builder() -> ahash::RandomState {
    match crate::crypto_bridge::generate_key() {
        Ok(bytes) => {
            let k0 = u64_from_bytes(&bytes, 0);
            let k1 = u64_from_bytes(&bytes, 8);
            let k2 = u64_from_bytes(&bytes, 16);
            let k3 = u64_from_bytes(&bytes, 24);
            seeded_hash_builder(k0, k1, k2, k3)
        },
        Err(_) => seeded_hash_builder(0, 0, 0, 0),
    }
}

/// Calls `ahash::RandomState::hash_one` on `key`. The hash depends on the
/// builder's random seeds, so nothing is stated of it.
#[verifier::external_body]
fn hash_one<K: Hash>(builder: &ahash::RandomState, key: &K) -> u64 {
    builder.hash_one(key)
}

/// An atomic counter alone on a 64-byte cache line, so that counters updated
/// by different cores do not share a line.
pub struct PaddedAtomicU64 {
    /// The counter.
    pub value: AtomicU64,
    _pad: [u8; 56],
    _align: [core::arch::x86_64::__m512i; 0],
}

impl PaddedAtomicU64 {
    /// The counter.
    pub closed spec fn counter(&self) -> AtomicU64 {
        self.value
    }

    /// A counter starting at `v`.
    pub fn new(v: u64) -> Self {
        PaddedAtomicU64 { value: AtomicU64::new(v), _pad: [0u8; 56], _align: [] }
    }
}

impl Default for PaddedAtomicU64 {
    fn default() -> Self {
        PaddedAtomicU64::new(0)
    }
}

impl std::ops::Deref for PaddedAtomicU64 {
    type Target = AtomicU64;

    fn deref(&self) -> (r: &AtomicU64)
        ensures
            *r == self.counter(),
    {
        &self.value
    }
}

/// Hit, miss, insert and eviction counters, each on its own cache line.
pub struct CacheStats {
    /// Lookups that found their key.
    pub hits: PaddedAtomicU64,
    /// Lookups that did not.
    pub misses: PaddedAtomicU64,
    /// Calls of `put`.
    pub inserts: PaddedAtomicU64,
    /// Evictions.
    pub evictions: PaddedAtomicU64,
}

impl Default for CacheStats {
    fn default() -> Self {
        CacheStats {
            hits: PaddedAtomicU64::new(0),
            misses: PaddedAtomicU64::new(0),
            inserts: PaddedAtomicU64::new(0),
            evictions: PaddedAtomicU64::new(0),
        }
    }
}

impl CacheStats {
    /// Set every counter to zero.
    pub fn reset(&self) {
        self.hits.value.store(0, Ordering::Relaxed);
        self.misses.value.store(0, Ordering::Relaxed);
        self.inserts.value.store(0, Ordering::Relaxed);
        self.evictions.value.store(0, Ordering::Relaxed);
    }

    /// Hits, and lookups (hits plus misses, saturating at `u64::MAX`), as the
    /// counters read now: the hit rate is the first over the second.
    pub fn hit_counts(&self) -> (r: (u64, u64))
        ensures
            r.0 <= r.1,
            exists|hits: u64, misses: u64| r == (hits, sat_add_u64(hits, misses)),
    {
        let hits = self.hits.value.load(Ordering::Relaxed);
        let misses = self.misses.value.load(Ordering::Relaxed);
        lookup_counts(hits, misses)
    }
}

/// Hits and lookups from hit and miss counts: lookups are hits plus misses,
/// saturating at `u64::MAX`.
pub fn lookup_counts(hits: u64, misses: u64) -> (r: (u64, u64))
    ensures
        r == (hits, sat_add_u64(hits, misses)),
{
    if hits > u64::MAX - misses {
        (hits, u64::MAX)
    } else {
        (hits, hits + misses)
    }
}

/// Cache settings.
#[derive(Debug, Clone)]
pub struct CacheConfig {
    /// Entries the whole cache keeps, spread over the shards.
    pub capacity: usize,
    /// Number of shards; a power of two.
    pub num_shards: usize,
    /// Number of nodes keys are distributed over.
    pub num_nodes: i32,
    /// This node's number.
    pub node_id: u32,
    /// Whether the prefetch oracle learns access transitions.
    pub enable_oracle: bool,
}

impl Default for CacheConfig {
    fn default() -> (c: Self)
        ensures
            c.capacity == 10000,
            c.num_shards == DEFAULT_SHARDS,
            c.num_nodes == 1,
            c.node_id == 0,
            c.enable_oracle,
    {
        CacheConfig {
            capacity: 10000,
            num_shards: DEFAULT_SHARDS,
            num_nodes: 1,
            node_id: 0,
            enable_oracle: true,
        }
    }
}

/// Whether `n` is a power of two.
pub open spec fn is_power_of_two(n: usize) -> bool {
    n > 0 && n & ((n - 1) as usize) == 0
}

/// `a / b` rounded up.
pub open spec fn div_ceil(a: nat, b: nat) -> nat {
    if a % b == 0 {
        a / b
    } else {
        a / b + 1
    }
}

/// Capacity of shard `i` when `capacity` entries are spread over `num_shards`
/// shards: the quotient, and one more for each of the first
/// `capacity % num_shards` shards.
pub open spec fn spec_shard_capacity(capacity: nat, num_shards: nat, i: nat) -> nat {
    capacity / num_shards + if i < capacity % num_shards {
        1nat
    } else {
        0nat
    }
}

/// Sum of the capacities of the first `m` shards.
pub open spec fn total_shard_capacity(capacity: nat, num_shards: nat, m: nat) -> nat
    decreases m,
{
    if m == 0 {
        0
    } else {
        total_shard_capacity(capacity, num_shards, (m - 1) as nat) + spec_shard_capacity(
            capacity,
            num_shards,
            (m - 1) as nat,
        )
    }
}

/// The capacities of all the shards add up to the cache's capacity, and none
/// is above the capacity divided by the number of shards, rounded up.
pub proof fn lemma_shard_capacities(capacity: nat, num_shards: nat)
    requires
        num_shards > 0,
    ensures
        total_shard_capacity(capacity, num_shards, num_shards) == capacity,
        forall|i: nat| #[trigger] spec_shard_capacity(capacity, num_shards, i) <= div_ceil(capacity, num_shards),
{
    lemma_partial_shard_capacity(capacity, num_shards, num_shards);
    vstd::arithmetic::div_mod::lemma_fundamental_div_mod(capacity as int, num_shards as int);
}

/// The first `m` shards hold `m` quotients and one more per shard below the
/// remainder.
proof fn lemma_partial_shard_capacity(capacity: nat, num_shards: nat, m: nat)
    requires
        num_shards > 0,
    ensures
        total_shard_capacity(capacity, num_shards, m) == m * (capacity / num_shards) + if m < capacity
            % num_shards {
            m
        } else {
            capacity % num_shards
        },
    decreases m,
{
    let q = capacity / num_shards;
    if m == 0 {
        assert(0 * q == 0);
    } else {
        lemma_partial_shard_capacity(capacity, num_shards, (m - 1) as nat);
        assert(m * q == (m - 1) * q + q) by (nonlinear_arith);
    }
}

/// Capacity of shard `i` when `capacity` entries are spread over
/// `num_shards` shards, so that the shard capacities add up to `capacity`.
pub fn shard_capacity(capacity: usize, num_shards: usize, i: usize) -> (c: usize)
    requires
        num_shards > 0,
    ensures
        c == spec_shard_capacity(capacity as nat, num_shards as nat, i as nat),
        c <= div_ceil(capacity as nat, num_shards as nat),
{
    let q = capacity / num_shards;
    let r = capacity % num_shards;
    assert(r != 0 ==> q < usize::MAX) by (nonlinear_arith)
        requires
            num_shards > 0,
            q == capacity / num_shards,
            r == capacity % num_shards,
    ;
    if i < r {
        q + 1
    } else {
        q
    }
}

/// Sum of the numbers of `s`.
pub open spec fn seq_sum(s: Seq<usize>) -> nat
    decreases s.len(),
{
    if s.len() == 0 {
        0
    } else {
        seq_sum(s.drop_last()) + s.last() as nat
    }
}

/// The sum of the numbers of `s`, or `usize::MAX` when it is larger.
pub open spec fn capped_sum(s: Seq<usize>) -> nat {
    if seq_sum(s) > usize::MAX {
        usize::MAX as nat
    } else {
        seq_sum(s)
    }
}

/// Shard of a key hash: its low bits under `mask`.
pub fn shard_index(hash: u64, mask: usize) -> (i: usize)
    ensures
        i == (hash as usize) & mask,
        i <= mask,
{
    let h = hash as usize;
    assert(h & mask <= mask) by (bit_vector);
    h & mask
}

/// Node that owns a key hash among `num_nodes` nodes (node 0 when there are
/// none).
pub fn owner_of_hash(hash: u64, num_nodes: i32) -> (n: u32)
    ensures
        n == jump_bucket(hash, num_nodes) as u32,
        num_nodes > 0 ==> n < num_nodes,
        num_nodes <= 0 ==> n == 0,
{
    let b = jump_hash(hash, num_nodes);
    b as u32
}

/// Sharded cache with sampled eviction, a prefetch oracle and node routing.
#[verifier::reject_recursive_types(K)]
#[verifier::reject_recursive_types(V)]
pub struct AliceCache<K: Clone, V> {
    shards: Vec<CacheShard<K, V>>,
    shard_mask: usize,
    hash_builder: ahash::RandomState,
    stats: CacheStats,
    oracle: Option<SharedOracle>,
    config: CacheConfig,
}

impl<K: Clone, V> AliceCache<K, V> {
    /// One shard per configured shard, the mask selects among them, and the
    /// oracle is there exactly when enabled.
    pub closed spec fn wf(&self) -> bool {
        &&& self.shards@.len() == self.config.num_shards
        &&& self.shard_mask + 1 == self.config.num_shards
        &&& is_power_of_two(self.config.num_shards)
        &&& (self.oracle is Some <==> self.config.enable_oracle)
        &&& (self.oracle matches Some(o) ==> o.wf())
        &&& forall|i: int|
            0 <= i < self.shards@.len() ==> #[trigger] self.shards@[i].spec_capacity() == spec_shard_capacity(
                self.config.capacity as nat,
                self.config.num_shards as nat,
                i as nat,
            )
    }

    /// Number of shards.
    pub closed spec fn shard_count(&self) -> int {
        self.shards@.len() as int
    }

    /// Shard `i`.
    pub closed spec fn shard(&self, i: int) -> CacheShard<K, V> {
        self.shards@[i]
    }

    /// The prefetch oracle (meaningful when it is enabled).
    pub closed spec fn spec_oracle(&self) -> SharedOracle {
        self.oracle->Some_0
    }

    /// The shard that the low bits of a key hash `h` select.
    pub closed spec fn shard_of(&self, h: u64) -> CacheShard<K, V> {
        self.shards@[((h as usize) & self.shard_mask) as int]
    }

    /// The settings the cache was made with.
    pub closed spec fn spec_config(&self) -> CacheConfig {
        self.config
    }

    /// The cache's counters.
    pub closed spec fn spec_stats(&self) -> CacheStats {
        self.stats
    }
}

impl<K: Eq + Hash + Clone, V: Clone> AliceCache<K, V> {
    /// A cache of `capacity` entries with the default settings otherwise.
    pub fn new(capacity: usize) -> (c: Self)
        requires
            div_ceil(capacity as nat, DEFAULT_SHARDS as nat) <= u32::MAX,
            obeys_key_model::<K>(),
            clone_is_copy::<K>(),
        ensures
            c.wf(),
            c.spec_config().capacity == capacity,
            c.spec_config().num_shards == DEFAULT_SHARDS,
            c.spec_config().num_nodes == 1,
            c.spec_config().node_id == 0,
            c.spec_config().enable_oracle,
    {
        let d = CacheConfig::default();
        assert((256usize & 255usize) == 0usize) by (bit_vector);
        Self::with_config(
            CacheConfig {
                capacity,
                num_shards: d.num_shards,
                num_nodes: d.num_nodes,
                node_id: d.node_id,
                enable_oracle: d.enable_oracle,
            },
        )
    }

    /// A cache with the given settings: `num_shards` shards whose capacities
    /// spread `capacity` over them (`shard_capacity`) and add up to it.
    pub fn with_config(config: CacheConfig) -> (c: Self)
        requires
            is_power_of_two(config.num_shards),
            div_ceil(config.capacity as nat, config.num_shards as nat) <= u32::MAX,
            obeys_key_model::<K>(),
            clone_is_copy::<K>(),
        ensures
            c.wf(),
            c.spec_config() == config,
            c.shard_count() == config.num_shards,
            forall|i: int|
                0 <= i < c.shard_count() ==> #[trigger] c.shard(i).spec_capacity() == spec_shard_capacity(
                    config.capacity as nat,
                    config.num_shards as nat,
                    i as nat,
                ),
    {
        let mut shards: Vec<CacheShard<K, V>> = Vec::with_capacity(config.num_shards);
        let mut i: usize = 0;
        while i < config.num_shards
            invariant
                i <= config.num_shards,
                shards@.len() == i,
                config.num_shards > 0,
                div_ceil(config.capacity as nat, config.num_shards as nat) <= u32::MAX,
                obeys_key_model::<K>(),
                clone_is_copy::<K>(),
                forall|j: int|
                    0 <= j < i ==> #[trigger] shards@[j].spec_capacity() == spec_shard_capacity(
                        config.capacity as nat,
                        config.num_shards as nat,
                        j as nat,
                    ),
            decreases config.num_shards - i,
        {
            let cap = shard_capacity(config.capacity, config.num_shards, i);
            shards.push(CacheShard::new(cap));
            i = i + 1;
        }
        let oracle = if config.enable_oracle {
            Some(SharedOracle::new())
        } else {
            None
        };
        let shard_mask = config.num_shards - 1;
        AliceCache {
            shards,
            shard_mask,
            hash_builder: new_hash_builder(),
            stats: CacheStats::default(),
            oracle,
            config,
        }
    }

    /// Value of `key`, if cached; counts a hit or a miss, and a hit is
    /// recorded by the oracle.
    pub fn get(&self, key: &K) -> (r: Option<V>)
        requires
            self.wf(),
        ensures
            exists|h: u64|
                self.hashes(key, h) && #[trigger] call_ensures(CacheShard::<K, V>::get, (&self.shard_of(h), key, h), r),
            exists|h: u64|
                {
                    &&& self.hashes(key, h)
                    &&& #[trigger] call_ensures(CacheShard::<K, V>::get, (&self.shard_of(h), key, h), r)
                    &&& r is Some && self.spec_config().enable_oracle ==> call_ensures(
                        SharedOracle::record,
                        (&self.spec_oracle(), h),
                        (),
                    )
                },
    {
        let (shard_idx, hash) = self.get_shard_idx(key);
        let found = self.shards[shard_idx].get(key, hash);
        let r = self.finish_lookup(found, hash);
        proof {
            assert(call_ensures(CacheShard::<K, V>::get, (&self.shard_of(hash), key, hash), r));
        }
        r
    }

    /// Count the outcome of a lookup of a key with hash `hash`: a miss, or a
    /// hit that the oracle, when there is one, records. The outcome is handed
    /// back unchanged.
    fn finish_lookup(&self, found: Option<V>, hash: u64) -> (r: Option<V>)
        requires
            self.wf(),
        ensures
            r == found,
            found is Some && self.spec_config().enable_oracle ==> call_ensures(
                SharedOracle::record,
                (&self.spec_oracle(), hash),
                (),
            ),
    {
        match found {
            None => {
                let _ = self.stats.misses.value.fetch_add(1, Ordering::Relaxed);
                None
            },
            Some(val) => {
                let _ = self.stats.hits.value.fetch_add(1, Ordering::Relaxed);
                match &self.oracle {
                    Some(oracle) => {
                        oracle.record(hash);
                        proof {
                            assert(call_ensures(SharedOracle::record, (&self.spec_oracle(), hash), ()));
                        }
                    },
                    None => {},
                }
                Some(val)
            },
        }
    }

    /// Store `value` under `key` in its shard, which may evict; counts an
    /// insert, and the oracle records the access.
    pub fn put(&self, key: K, value: V)
        requires
            self.wf(),
        ensures
            exists|h: u64|
                self.hashes(&key, h) && #[trigger] call_ensures(
                    CacheShard::<K, V>::put,
                    (&self.shard_of(h), key, value, h),
                    (),
                ),
            exists|h: u64|
                {
                    &&& self.hashes(&key, h)
                    &&& #[trigger] call_ensures(CacheShard::<K, V>::put, (&self.shard_of(h), key, value, h), ())
                    &&& self.spec_config().enable_oracle ==> call_ensures(
                        SharedOracle::record,
                        (&self.spec_oracle(), h),
                        (),
                    )
                },
    {
        let (shard_idx, hash) = self.get_shard_idx(&key);
        let ghost (k, v) = (key, value);
        self.shards[shard_idx].put(key, value, hash);
        proof {
            assert(call_ensures(CacheShard::<K, V>::put, (&self.shard_of(hash), k, v, hash), ()));
        }
        let _ = self.stats.inserts.value.fetch_add(1, Ordering::Relaxed);
        match &self.oracle {
            Some(oracle) => {
                oracle.record(hash);
                proof {
                    assert(call_ensures(SharedOracle::record, (&self.spec_oracle(), hash), ()));
                }
            },
            None => {},
        }
    }

    /// Remove `key`, returning its value when it was cached.
    pub fn remove(&self, key: &K) -> (r: Option<V>)
        requires
            self.wf(),
        ensures
            exists|h: u64|
                self.hashes(key, h) && #[trigger] call_ensures(CacheShard::<K, V>::remove, (&self.shard_of(h), key), r),
    {
        let (shard_idx, hash) = self.get_shard_idx(key);
        let r = self.shards[shard_idx].remove(key);
        proof {
            assert(call_ensures(CacheShard::<K, V>::remove, (&self.shard_of(hash), key), r));
        }
        r
    }

    /// Whether `key` is cached.
    pub fn contains(&self, key: &K) -> (r: bool)
        requires
            self.wf(),
        ensures
            exists|h: u64|
                self.hashes(key, h) && #[trigger] call_ensures(CacheShard::<K, V>::contains, (&self.shard_of(h), key), r),
    {
        let (shard_idx, hash) = self.get_shard_idx(key);
        let r = self.shards[shard_idx].contains(key);
        proof {
            assert(call_ensures(CacheShard::<K, V>::contains, (&self.shard_of(hash), key), r));
        }
        r
    }

    /// Whether the oracle recommends prefetching `candidate` after `current`;
    /// always false without an oracle.
    pub fn should_prefetch(&self, current: &K, candidate: &K) -> (r: bool)
        requires
            self.wf(),
        ensures
            !self.spec_config().enable_oracle ==> !r,
            self.spec_config().enable_oracle ==> exists|h1: u64, h2: u64|
                {
                    &&& self.hashes(current, h1)
                    &&& self.hashes(candidate, h2)
                    &&& #[trigger] call_ensures(SharedOracle::should_prefetch, (&self.spec_oracle(), h1, h2), r)
                },
    {
        match &self.oracle {
            Some(oracle) => {
                let current_hash = self.hash_key(current);
                let candidate_hash = self.hash_key(candidate);
                let r = oracle.should_prefetch(current_hash, candidate_hash);
                proof {
                    assert(call_ensures(
                        SharedOracle::should_prefetch,
                        (&self.spec_oracle(), current_hash, candidate_hash),
                        r,
                    ));
                }
                r
            },
            None => false,
        }
    }

    /// Node that owns `key`, by jump hashing its hash over the configured
    /// number of nodes.
    pub fn owner_node(&self, key: &K) -> (n: u32)
        ensures
            self.spec_config().num_nodes > 0 ==> n < self.spec_config().num_nodes,
            self.spec_config().num_nodes <= 0 ==> n == 0,
            exists|h: u64| self.hashes(key, h) && n == #[trigger] jump_bucket(h, self.spec_config().num_nodes) as u32,
    {
        let hash = self.hash_key(key);
        let n = owner_of_hash(hash, self.config.num_nodes);
        proof {
            assert(self.hashes(key, hash) && n == jump_bucket(hash, self.spec_config().num_nodes) as u32);
        }
        n
    }

    /// Whether this node owns `key`.
    pub fn is_local_owner(&self, key: &K) -> (r: bool)
        ensures
            self.spec_config().num_nodes <= 1 ==> r == (self.spec_config().node_id == 0),
            exists|h: u64|
                self.hashes(key, h) && r == (#[trigger] jump_bucket(h, self.spec_config().num_nodes) as u32
                    == self.spec_config().node_id),
    {
        proof {
            crate::jump_hash::lemma_jump_bucket_range(0, self.config.num_nodes);
        }
        self.owner_node(key) == self.config.node_id
    }

    /// Number of cached entries: the sum of what the shards report, in shard
    /// order, saturating at `usize::MAX`.
    pub fn len(&self) -> (n: usize)
        requires
            self.wf(),
        ensures
            exists|lens: Seq<usize>|
                {
                    &&& lens.len() == self.shard_count()
                    &&& forall|i: int|
                        0 <= i < lens.len() ==> #[trigger] call_ensures(
                            CacheShard::<K, V>::len,
                            (&self.shard(i),),
                            lens[i],
                        )
                    &&& n == capped_sum(lens)
                },
    {
        let mut total: usize = 0;
        let mut i: usize = 0;
        let ghost mut lens: Seq<usize> = Seq::empty();
        while i < self.shards.len()
            invariant
                i <= self.shards@.len(),
                lens.len() == i,
                forall|j: int|
                    0 <= j < i ==> #[trigger] call_ensures(CacheShard::<K, V>::len, (&self.shard(j),), lens[j]),
                total == capped_sum(lens),
            decreases self.shards@.len() - i,
        {
            let n = self.shards[i].len();
            proof {
                assert(lens.push(n).drop_last() =~= lens);
                lens = lens.push(n);
            }
            total = total.saturating_add(n);
            i = i + 1;
        }
        total
    }

    /// Whether the cache is empty: true when every shard reports empty, false
    /// as soon as one reports entries.
    pub fn is_empty(&self) -> (r: bool)
        requires
            self.wf(),
        ensures
            r ==> forall|i: int|
                0 <= i < self.shard_count() ==> #[trigger] call_ensures(
                    CacheShard::<K, V>::is_empty,
                    (&self.shard(i),),
                    true,
                ),
            !r ==> exists|i: int|
                0 <= i < self.shard_count() && #[trigger] call_ensures(
                    CacheShard::<K, V>::is_empty,
                    (&self.shard(i),),
                    false,
                ),
    {
        let mut i: usize = 0;
        while i < self.shards.len()
            invariant
                i <= self.shards@.len(),
                forall|j: int|
                    0 <= j < i ==> #[trigger] call_ensures(CacheShard::<K, V>::is_empty, (&self.shard(j),), true),
            decreases self.shards@.len() - i,
        {
            let e = self.shards[i].is_empty();
            if !e {
                proof {
                    assert(call_ensures(CacheShard::<K, V>::is_empty, (&self.shard(i as int),), false));
                }
                return false;
            }
            i = i + 1;
        }
        true
    }

    /// Total capacity from the settings.
    pub fn capacity(&self) -> (c: usize)
        ensures
            c == self.spec_config().capacity,
    {
        self.config.capacity
    }

    /// Hits and lookups counted so far (see `CacheStats::hit_counts`).
    pub fn hit_counts(&self) -> (r: (u64, u64))
        ensures
            r.0 <= r.1,
            exists|hits: u64, misses: u64| r == (hits, sat_add_u64(hits, misses)),
    {
        self.stats.hit_counts()
    }

    /// The counters.
    pub fn stats(&self) -> (s: &CacheStats)
        ensures
            *s == self.spec_stats(),
    {
        &self.stats
    }

    /// Empty every shard, and reset the counters and the oracle.
    pub fn clear(&mut self)
        requires
            old(self).wf(),
        ensures
            final(self).wf(),
            final(self).spec_config() == old(self).spec_config(),
            final(self).spec_oracle() == old(self).spec_oracle(),
            old(self).spec_config().enable_oracle ==> call_ensures(
                SharedOracle::reset,
                (&old(self).spec_oracle(),),
                (),
            ),
    {
        let ghost o0 = self.spec_oracle();
        let mut i: usize = 0;
        while i < self.shards.len()
            invariant
                i <= self.shards@.len(),
                self.wf(),
                self.spec_config() == old(self).spec_config(),
                self.spec_oracle() == o0,
            decreases self.shards@.len() - i,
        {
            self.shards[i].clear();
            i = i + 1;
        }
        self.stats.reset();
        match &self.oracle {
            Some(oracle) => {
                oracle.reset();
                proof {
                    assert(call_ensures(SharedOracle::reset, (&o0,), ()));
                }
            },
            None => {},
        }
    }

    /// Shard of `key`, with the key's hash.
    fn get_shard_idx(&self, key: &K) -> (r: (usize, u64))
        requires
            self.wf(),
        ensures
            r.0 < self.spec_config().num_shards,
            r.0 == (r.1 as usize) & self.shard_mask,
            self.hashes(key, r.1),
    {
        let hash = self.hash_key(key);
        (shard_index(hash, self.shard_mask), hash)
    }

    /// Whether `h` is a hash that this cache's hash builder gives `key`.
    pub closed spec fn hashes(&self, key: &K, h: u64) -> bool {
        call_ensures(hash_one::<K>, (&self.hash_builder, key), h)
    }

    /// Hash of `key` under this cache's hash builder.
    fn hash_key(&self, key: &K) -> (h: u64)
        ensures
            self.hashes(key, h),
    {
        hash_one(&self.hash_builder, key)
    }
}

/// The cache under its usual name.
pub type StandardCache<K, V> = AliceCache<K, V>;


/// A lookup that finds its key records the key's own hash with the oracle,
/// when the cache has one: the oracle's last access is swapped for that hash,
/// and the transition from the access it replaces (if any) is counted.
pub proof fn lemma_hit_is_recorded<K: Eq + Hash + Clone, V: Clone>(c: AliceCache<K, V>, key: &K, r: Option<V>)
    requires
        call_ensures(AliceCache::<K, V>::get, (&c, key), r),
        r is Some,
        c.spec_config().enable_oracle,
    ensures
        exists|h: u64, prev: u64|
            {
                &&& #[trigger] c.hashes(key, h)
                &&& #[trigger] c.spec_oracle().swapped_last(h, prev)
                &&& prev != 0 ==> c.spec_oracle().counted(prev, h)
            },
{
    let h = choose|h: u64|
        {
            &&& c.hashes(key, h)
            &&& #[trigger] call_ensures(CacheShard::<K, V>::get, (&c.shard_of(h), key, h), r)
            &&& r is Some && c.spec_config().enable_oracle ==> call_ensures(
                SharedOracle::record,
                (&c.spec_oracle(), h),
                (),
            )
        };
    crate::oracle::lemma_record_counts_previous_transition(c.spec_oracle(), h);
}

/// Clearing a cache with an oracle leaves the oracle cold: zero has been
/// stored in both counters of every transition, and the last access and the
/// transition counter were set to zero.
pub proof fn lemma_clear_cools_oracle<K: Eq + Hash + Clone, V: Clone>(
    c: &mut AliceCache<K, V>,
    from: u64,
    to: u64,
    row: int,
)
    requires
        call_ensures(AliceCache::<K, V>::clear, (c,), ()),
        mut_ref_current(c).wf(),
        mut_ref_current(c).spec_config().enable_oracle,
        0 <= row < 2,
    ensures
        mut_ref_future(c).spec_oracle().zeroed(
            crate::oracle::cell_pos(crate::oracle::spec_mix(from, to), row, 1024),
        ),
        mut_ref_future(c).spec_oracle().access_forgotten(),
{
    let o = mut_ref_current(c).spec_oracle();
    assert(o.wf());
    crate::oracle::lemma_reset_clears_every_transition(o, from, to, row);
}


/// A put of a key that the locked state of its shard already holds only
/// rewrites that key: the put goes to the shard of the key's hash, works on
/// the state that locking that shard handed out, and leaves it with the key
/// mapped to the new value and every other entry kept.
pub proof fn lemma_put_of_present_key_evicts_nothing<K: Eq + Hash + Clone, V: Clone>(
    c: AliceCache<K, V>,
    key: K,
    value: V,
)
    requires
        call_ensures(AliceCache::<K, V>::put, (&c, key, value), ()),
    ensures
        exists|h: u64|
            {
                &&& #[trigger] c.hashes(&key, h)
                &&& exists|g: &mut crate::shard::ShardInner<K, V>, m: &mut crate::shard::ShardInner<K, V>|
                    {
                        &&& #[trigger] c.shard_of(h).handed_out(g)
                        &&& #[trigger] call_ensures(
                            crate::shard::ShardInner::<K, V>::put,
                            (m, key, value, h, c.shard_of(h).spec_capacity()),
                            (),
                        )
                        &&& mut_ref_current(m) == mut_ref_current(g)
                        &&& mut_ref_current(g)@.contains_key(key) ==> mut_ref_future(m)@ == mut_ref_current(
                            g,
                        )@.insert(key, value)
                    }
            },
{
    let h = choose|h: u64|
        c.hashes(&key, h) && #[trigger] call_ensures(
            CacheShard::<K, V>::put,
            (&c.shard_of(h), key, value, h),
            (),
        );
    crate::shard::lemma_locked_put_of_present_key_evicts_nothing(c.shard_of(h), key, value, h);
}

} // verus!
