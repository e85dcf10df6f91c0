//! One shard of the cache: a dense slab of entries, a key index into it, a
//! frequency sketch, and sampled eviction.
//!
//! Entries sit in a `Vec` so that eviction can probe random positions in
//! constant time; a hash map gives each key's position. When the shard is
//! full, five random positions are probed and the entry whose key hash the
//! sketch rates least frequent is evicted.
//!
//! `ShardInner` carries the logic and its contracts. `CacheShard` puts it
//! behind a `parking_lot` mutex, with the capacity its puts evict at. The state
//! behind the mutex changes under other threads too, so each locked operation
//! states what `ShardInner` does to the state it found under the lock.
use vstd::prelude::*;
use vstd::pervasive::strictly_cloned;
use vstd::std_specs::hash::obeys_key_model;
use std::collections::HashMap;
use std::hash::Hash;
use parking_lot::{Mutex, MutexGuard};

use crate::sketch::{sat_add_u64, sat_add_u8, spec_index, CountMinSketch};

verus! {

/// Number of random positions probed per eviction.
pub const EVICTION_SAMPLES: usize = 5;

/// Number of sampled accesses after which the sketch is halved.
pub const AGING_SAMPLES: u64 = 10000;

/// Initial state of the eviction random number generator.
pub const RNG_SEED: u64 = 0xDEAD_BEEF_CAFE_BABE;

/// Whether cloning a `T` always gives back an equal value.
pub open spec fn clone_is_copy<T: Clone>() -> bool {
    forall|a: T, b: T| #[trigger] strictly_cloned(a, b) ==> a == b
}

/// One step of the xorshift64 generator.
pub open spec fn spec_xorshift64(x: u64) -> u64 {
    let a = x ^ (x << 13u64);
    let b = a ^ (a >> 7u64);
    b ^ (b << 17u64)
}

/// Most entries a shard of capacity `capacity` holds: a shard of capacity 0
/// still keeps the latest entry.
pub open spec fn shard_bound(capacity: usize) -> nat {
    if capacity == 0 {
        1
    } else {
        capacity as nat
    }
}

/// Xorshift64 pseudo-random step.
pub fn xorshift64(x: u64) -> (r: u64)
    ensures
        r == spec_xorshift64(x),
        x != 0 ==> r != 0,
{
    let a = x ^ (x << 13u64);
    let b = a ^ (a >> 7u64);
    let c = b ^ (b << 17u64);
    assert(x != 0 ==> c != 0) by (bit_vector)
        requires
            a == x ^ (x << 13u64),
            b == a ^ (a >> 7u64),
            c == b ^ (b << 17u64),
    ;
    c
}

/// An entry of the slab: its key, value and key hash.
struct Entry<K, V> {
    key: K,
    value: V,
    hash: u64,
}

/// Dense entries with an index from key to position.
struct Slab<K, V> {
    entries: Vec<Entry<K, V>>,
    lookup: HashMap<K, u32>,
}

/// Outcome of `probes` eviction probes over entries with key hashes `hashes`,
/// rated by `sketch`, starting from generator state `rng`: the chosen
/// position, its rating, and the generator state after the probes.
pub open spec fn probe_victim(
    sketch: CountMinSketch<256, 4>,
    hashes: Seq<u64>,
    rng: u64,
    probes: nat,
) -> (int, u8, u64)
    decreases probes,
{
    if probes == 0 {
        (0, 255u8, rng)
    } else {
        let (victim, least, state) = probe_victim(sketch, hashes, rng, (probes - 1) as nat);
        let next = spec_xorshift64(state);
        let pos = ((next as usize) as nat % hashes.len()) as int;
        let rating = sketch.spec_estimate(hashes[pos]);
        if rating < least {
            (pos, rating, next)
        } else {
            (victim, least, next)
        }
    }
}

impl<K, V> Slab<K, V> {
    /// Keys in slab order.
    spec fn keys(&self) -> Seq<K> {
        self.entries@.map_values(|e: Entry<K, V>| e.key)
    }

    /// Key hashes in slab order.
    spec fn hashes(&self) -> Seq<u64> {
        self.entries@.map_values(|e: Entry<K, V>| e.hash)
    }

    /// The index maps each entry's key to its position and nothing else.
    spec fn wf(&self) -> bool {
        &&& self.entries@.len() <= u32::MAX + 1
        &&& forall|i: int|
            0 <= i < self.entries@.len() ==> self.lookup@.contains_key(#[trigger] self.entries@[i].key)
                && self.lookup@[self.entries@[i].key] == i
        &&& forall|k: K|
            #[trigger] self.lookup@.contains_key(k) ==> self.lookup@[k] < self.entries@.len()
                && self.entries@[self.lookup@[k] as int].key == k
    }

    /// Key to value.
    spec fn view(&self) -> Map<K, V> {
        Map::new(
            |k: K| self.lookup@.contains_key(k),
            |k: K| self.entries@[self.lookup@[k] as int].value,
        )
    }

    /// The number of keys is the number of entries.
    proof fn lemma_len(&self)
        requires
            self.wf(),
        ensures
            self.view().dom().finite(),
            self.view().dom().len() == self.entries@.len(),
    {
        let ks = self.keys();
        assert forall|i: int, j: int| 0 <= i < ks.len() && 0 <= j < ks.len() && i != j implies ks[i]
            != ks[j] by {
            assert(self.lookup@[self.entries@[i].key] == i);
            assert(self.lookup@[self.entries@[j].key] == j);
        }
        assert(ks.no_duplicates());
        ks.unique_seq_to_set();
        assert forall|k: K| self.view().dom().contains(k) == ks.to_set().contains(k) by {
            if self.lookup@.contains_key(k) {
                assert(ks[self.lookup@[k] as int] == k);
            }
            if ks.to_set().contains(k) {
                let i = choose|i: int| 0 <= i < ks.len() && ks[i] == k;
                assert(self.lookup@.contains_key(self.entries@[i].key));
            }
        }
        assert(self.view().dom() =~= ks.to_set());
    }

    /// An empty slab.
    fn empty() -> (s: Self)
        ensures
            s.wf(),
            s.view() == Map::<K, V>::empty(),
            s.entries@.len() == 0,
    {
        let s = Slab { entries: Vec::new(), lookup: HashMap::new() };
        proof {
            assert(s.view() =~= Map::<K, V>::empty());
        }
        s
    }

    /// An empty slab with room for `capacity` entries.
    fn with_capacity(capacity: usize) -> (s: Self)
        ensures
            s.wf(),
            s.view() == Map::<K, V>::empty(),
            s.entries@.len() == 0,
    {
        let s = Slab { entries: Vec::with_capacity(capacity), lookup: HashMap::with_capacity(capacity) };
        proof {
            assert(s.view() =~= Map::<K, V>::empty());
        }
        s
    }

    /// Number of entries.
    fn len(&self) -> (n: usize)
        ensures
            n == self.entries@.len(),
    {
        self.entries.len()
    }
}

impl<K: Eq + Hash + Clone, V> Slab<K, V> {
    /// Position of `key`, if present.
    fn find(&self, key: &K) -> (r: Option<usize>)
        requires
            self.wf(),
            obeys_key_model::<K>(),
        ensures
            r is None <==> !self.view().contains_key(*key),
            r matches Some(i) ==> i < self.entries@.len() && self.entries@[i as int].key == *key,
    {
        match self.lookup.get(key) {
            Some(idx) => Some(*idx as usize),
            None => None,
        }
    }

    /// Replace the value at position `i`.
    fn set_value(&mut self, i: usize, value: V)
        requires
            old(self).wf(),
            i < old(self).entries@.len(),
        ensures
            final(self).wf(),
            final(self).view() == old(self).view().insert(old(self).entries@[i as int].key, value),
            final(self).keys() == old(self).keys(),
            final(self).hashes() == old(self).hashes(),
    {
        let ghost before = *self;
        self.entries[i].value = value;
        proof {
            assert(self.keys() =~= before.keys());
            assert(self.hashes() =~= before.hashes());
            assert(self.view() =~= before.view().insert(before.entries@[i as int].key, value));
        }
    }

    /// Append a new entry for a key not yet present.
    fn push_new(&mut self, key: K, value: V, hash: u64)
        requires
            old(self).wf(),
            !old(self).view().contains_key(key),
            old(self).entries@.len() < u32::MAX,
            obeys_key_model::<K>(),
            clone_is_copy::<K>(),
        ensures
            final(self).wf(),
            final(self).view() == old(self).view().insert(key, value),
            final(self).entries@.len() == old(self).entries@.len() + 1,
    {
        let ghost before = *self;
        let idx = self.entries.len() as u32;
        let copy = key.clone();
        assert(strictly_cloned(key, copy));
        assert(copy == key);
        let _ = self.lookup.insert(copy, idx);
        self.entries.push(Entry { key, value, hash });
        proof {
            assert forall|k: K| #[trigger] self.lookup@.contains_key(k) implies self.lookup@[k]
                < self.entries@.len() && self.entries@[self.lookup@[k] as int].key == k by {
                if k != key {
                    assert(before.lookup@.contains_key(k));
                }
            }
            assert(self.view() =~= before.view().insert(key, value));
        }
    }

    /// Remove the entry at `idx`, whose key has already left the index, by
    /// moving the last entry into its place.
    fn swap_remove(&mut self, idx: usize) -> (v: V)
        requires
            idx < old(self).entries@.len(),
            old(self).entries@.len() <= u32::MAX + 1,
            !old(self).lookup@.contains_key(old(self).entries@[idx as int].key),
            forall|i: int|
                0 <= i < old(self).entries@.len() && i != idx ==> old(self).lookup@.contains_key(
                    #[trigger] old(self).entries@[i].key,
                ) && old(self).lookup@[old(self).entries@[i].key] == i,
            forall|k: K|
                #[trigger] old(self).lookup@.contains_key(k) ==> old(self).lookup@[k] < old(
                    self,
                ).entries@.len() && old(self).entries@[old(self).lookup@[k] as int].key == k,
            obeys_key_model::<K>(),
            clone_is_copy::<K>(),
        ensures
            final(self).wf(),
            final(self).view() == old(self).view(),
            final(self).entries@.len() == old(self).entries@.len() - 1,
            v == old(self).entries@[idx as int].value,
    {
        let ghost before = *self;
        let last_idx = self.entries.len() - 1;
        let entry = self.entries.swap_remove(idx);
        if idx != last_idx && self.entries.len() > 0 {
            let moved = self.entries[idx].key.clone();
            assert(strictly_cloned(self.entries@[idx as int].key, moved));
            assert(moved == before.entries@[last_idx as int].key);
            let _ = self.lookup.insert(moved, idx as u32);
        }
        proof {
            let n = before.entries@.len() - 1;
            assert forall|i: int| 0 <= i < self.entries@.len() implies self.lookup@.contains_key(
                #[trigger] self.entries@[i].key,
            ) && self.lookup@[self.entries@[i].key] == i by {
                if i == idx {
                    assert(self.entries@[i] == before.entries@[n]);
                } else {
                    assert(self.entries@[i] == before.entries@[i]);
                    if idx != n {
                        assert(before.entries@[i].key != before.entries@[n].key);
                    }
                }
            }
            assert forall|k: K| #[trigger] self.lookup@.contains_key(k) implies self.lookup@[k]
                < self.entries@.len() && self.entries@[self.lookup@[k] as int].key == k by {
                if idx != n && k == before.entries@[n].key {
                } else {
                    assert(before.lookup@.contains_key(k));
                    assert(before.lookup@[k] != idx);
                    if before.lookup@[k] == n {
                        assert(before.entries@[n].key == k);
                    }
                }
            }
            assert forall|k: K| #[trigger] self.view().contains_key(k) == before.view().contains_key(k)
                && (self.view().contains_key(k) ==> self.view()[k] == before.view()[k]) by {
                if idx != n && k == before.entries@[n].key {
                    assert(before.lookup@.contains_key(before.entries@[n].key));
                } else if before.lookup@.contains_key(k) {
                    assert(before.lookup@[k] != n || idx == n);
                }
            }
            assert(self.view() =~= before.view());
        }
        entry.value
    }

    /// Remove `key`, returning its value when it was present.
    fn remove_key(&mut self, key: &K) -> (r: Option<V>)
        requires
            old(self).wf(),
            obeys_key_model::<K>(),
            clone_is_copy::<K>(),
        ensures
            final(self).wf(),
            final(self).view() == old(self).view().remove(*key),
            r is None <==> !old(self).view().contains_key(*key),
            r matches Some(v) ==> v == old(self).view()[*key],
            r is Some ==> final(self).entries@.len() == old(self).entries@.len() - 1,
            r is None ==> final(self).entries@.len() == old(self).entries@.len(),
    {
        let ghost before = *self;
        match self.lookup.remove(key) {
            Some(idx) => {
                proof {
                    assert(before.entries@[idx as int].key == *key);
                    assert forall|i: int|
                        0 <= i < self.entries@.len() && i != idx implies self.lookup@.contains_key(
                        #[trigger] self.entries@[i].key,
                    ) && self.lookup@[self.entries@[i].key] == i by {
                        assert(before.lookup@[before.entries@[i].key] == i);
                    }
                }
                let ghost mid = *self;
                let v = self.swap_remove(idx as usize);
                proof {
                    assert(mid.view() =~= before.view().remove(*key));
                }
                Some(v)
            },
            None => {
                proof {
                    assert(before.view().remove(*key) =~= before.view());
                }
                None
            },
        }
    }

    /// Remove the entry at position `idx`.
    fn evict_at(&mut self, idx: usize)
        requires
            old(self).wf(),
            idx < old(self).entries@.len(),
            obeys_key_model::<K>(),
            clone_is_copy::<K>(),
        ensures
            final(self).wf(),
            final(self).view() == old(self).view().remove(old(self).entries@[idx as int].key),
            final(self).entries@.len() == old(self).entries@.len() - 1,
    {
        let ghost before = *self;
        let _ = self.lookup.remove(&self.entries[idx].key);
        proof {
            let key = before.entries@[idx as int].key;
            assert forall|i: int|
                0 <= i < self.entries@.len() && i != idx implies self.lookup@.contains_key(
                #[trigger] self.entries@[i].key,
            ) && self.lookup@[self.entries@[i].key] == i by {
                assert(before.lookup@[before.entries@[i].key] == i);
            }
        }
        let ghost mid = *self;
        let _ = self.swap_remove(idx);
        proof {
            assert(mid.view() =~= before.view().remove(before.entries@[idx as int].key));
        }
    }

    /// Remove every entry.
    fn clear(&mut self)
        ensures
            final(self).wf(),
            final(self).view() == Map::<K, V>::empty(),
            final(self).entries@.len() == 0,
    {
        self.entries.clear();
        self.lookup.clear();
        proof {
            assert(self.view() =~= Map::<K, V>::empty());
        }
    }
}

/// Makes `parking_lot`'s mutex type (`lock_api::Mutex`) usable in fields and
/// signatures; what it holds stays private to it.
#[verifier::external_type_specification]
#[verifier::external_body]
#[verifier::reject_recursive_types(R)]
#[verifier::reject_recursive_types(T)]
pub struct ExMutex<R, T: ?Sized>(parking_lot::lock_api::Mutex<R, T>);

/// Makes `parking_lot`'s raw mutex usable as the mutex's lock type.
#[verifier::external_type_specification]
#[verifier::external_body]
pub struct ExRawMutex(parking_lot::RawMutex);

/// A held lock on a shard. `parking_lot`'s guard type carries a bound on an
/// outside trait, which a type declaration here cannot carry, so the guard is
/// kept in an opaque field.
#[verifier::external_body]
#[verifier::reject_recursive_types(K)]
#[verifier::reject_recursive_types(V)]
struct ShardGuard<'a, K: Clone, V> {
    guard: MutexGuard<'a, ShardInner<K, V>>,
}

/// Calls `parking_lot::Mutex::new`: an unlocked mutex holding `value`. What a
/// mutex holds is not part of its value here, so nothing is stated.
#[verifier::external_body]
fn new_mutex<T>(value: T) -> Mutex<T> {
    Mutex::new(value)
}

/// Calls `parking_lot::Mutex::lock`: waits until the mutex is free and returns
/// the guard that holds it. Nothing is stated of the guarded value. The call
/// never returns if the calling thread already holds the mutex; no function
/// here holds two guards at once.
#[verifier::external_body]
fn lock_shard<'a, K: Clone, V>(m: &'a Mutex<ShardInner<K, V>>) -> ShardGuard<'a, K, V> {
    ShardGuard { guard: m.lock() }
}

/// Calls `DerefMut::deref_mut` on a `parking_lot` mutex guard: the shard the
/// held mutex protects. Nothing is stated of it beyond its type invariant.
#[verifier::external_body]
fn guarded<'a, 'b, K: Clone, V>(g: &'a mut ShardGuard<'b, K, V>) -> &'a mut ShardInner<K, V> {
    &mut *g.guard
}

/// A shard's state: entries, key index, frequency sketch, eviction random
/// state and aging counter.
pub struct ShardInner<K: Clone, V> {
    slab: Slab<K, V>,
    sketch: CountMinSketch<256, 4>,
    rng_state: u64,
    sample_count: u64,
}

impl<K: Clone, V> ShardInner<K, V> {
    /// The index matches the entries, the shard holds at most its bound, and
    /// keys hash and clone faithfully.
    #[verifier::type_invariant]
    spec fn inv(&self) -> bool {
        &&& self.slab.wf()
        &&& self.sketch.wf()
        &&& self.sample_count < AGING_SAMPLES
        &&& self.slab.entries@.len() <= u32::MAX
        &&& obeys_key_model::<K>()
        &&& clone_is_copy::<K>()
    }

    /// The frequency sketch that rates keys for eviction.
    pub closed spec fn spec_sketch(&self) -> CountMinSketch<256, 4> {
        self.sketch
    }

    /// State of the eviction random number generator.
    pub closed spec fn spec_rng(&self) -> u64 {
        self.rng_state
    }

    /// Accesses counted since the sketch was last halved.
    pub closed spec fn spec_samples(&self) -> u64 {
        self.sample_count
    }

    /// Keys in the order of the positions that eviction probes.
    pub closed spec fn slot_keys(&self) -> Seq<K> {
        self.slab.keys()
    }

    /// Key hashes in the order of the positions that eviction probes.
    pub closed spec fn slot_hashes(&self) -> Seq<u64> {
        self.slab.hashes()
    }
}

/// Whether `after`, with `after_samples` accesses counted since aging, is
/// `before` (with `before_samples`) after one access of `hash` is recorded:
/// the access is counted in the sketch, and when it completes an aging period
/// of `AGING_SAMPLES` accesses every counter and the total are then halved and
/// the period starts again.
pub open spec fn records_access(
    after: CountMinSketch<256, 4>,
    after_samples: u64,
    before: CountMinSketch<256, 4>,
    before_samples: u64,
    hash: u64,
) -> bool {
    if before_samples + 1 < AGING_SAMPLES {
        &&& after_samples == before_samples + 1
        &&& after.counts_more(before, hash, 1)
        &&& after.spec_total() == sat_add_u64(before.spec_total(), 1)
    } else {
        &&& after_samples == 0
        &&& forall|r: int, c: int|
            0 <= r < 4 && 0 <= c < 256 ==> #[trigger] after.cell(r, c) == (if c == spec_index(
                hash,
                r as nat,
                256,
            ) {
                sat_add_u8(before.cell(r, c), 1)
            } else {
                before.cell(r, c)
            }) / 2
        &&& after.spec_total() == sat_add_u64(before.spec_total(), 1) / 2
    }
}

/// What a lookup of `key` (hash `hash`) in the shard `pre` does, leaving
/// `post` and returning `r`: the entries stay, the result is a clone of the
/// value stored for `key` or `None` when it is absent, and the access is
/// recorded in the sketch.
pub open spec fn get_result<K: Clone, V: Clone>(
    pre: ShardInner<K, V>,
    post: ShardInner<K, V>,
    key: K,
    hash: u64,
    r: Option<V>,
) -> bool {
    &&& post@ == pre@
    &&& (r is None <==> !pre@.contains_key(key))
    &&& (r matches Some(v) ==> cloned(pre@[key], v))
    &&& records_access(post.spec_sketch(), post.spec_samples(), pre.spec_sketch(), pre.spec_samples(), hash)
    &&& post.spec_rng() == pre.spec_rng()
    &&& post.slot_keys() == pre.slot_keys()
    &&& post.slot_hashes() == pre.slot_hashes()
}

/// What storing `value` under `key` (hash `hash`) in the shard `pre` with
/// capacity `capacity` does, leaving `post`: the access is recorded in the
/// sketch; a present key has its value replaced; a new key is added, after
/// the eviction of the entry that the sampled probes pick when the shard is
/// full; and a shard within its bound stays within it.
pub open spec fn put_result<K: Clone, V>(
    pre: ShardInner<K, V>,
    post: ShardInner<K, V>,
    key: K,
    value: V,
    hash: u64,
    capacity: usize,
) -> bool {
    &&& post@.contains_key(key)
    &&& post@[key] == value
    &&& records_access(post.spec_sketch(), post.spec_samples(), pre.spec_sketch(), pre.spec_samples(), hash)
    &&& (pre@.contains_key(key) || pre@.dom().len() < capacity || pre@.dom().len() == 0 ==> post@ == pre@.insert(
        key,
        value,
    ) && post.spec_rng() == pre.spec_rng())
    &&& (!pre@.contains_key(key) && pre@.dom().len() >= capacity && pre@.dom().len() > 0 ==> {
        let (victim, least, state) = probe_victim(
            post.spec_sketch(),
            pre.slot_hashes(),
            pre.spec_rng(),
            EVICTION_SAMPLES as nat,
        );
        &&& 0 <= victim < pre.slot_keys().len()
        &&& pre@.contains_key(pre.slot_keys()[victim])
        &&& post@ == pre@.remove(pre.slot_keys()[victim]).insert(key, value)
        &&& post.spec_rng() == state
    })
    &&& (pre@.dom().len() <= shard_bound(capacity) ==> post@.dom().len() <= shard_bound(capacity))
}

impl<K: Clone, V> View for ShardInner<K, V> {
    type V = Map<K, V>;

    /// Key to value.
    closed spec fn view(&self) -> Map<K, V> {
        self.slab.view()
    }
}

impl<K: Eq + Hash + Clone, V: Clone> ShardInner<K, V> {
    /// An empty shard with room reserved for `capacity` entries.
    pub fn new(capacity: usize) -> (s: Self)
        requires
            obeys_key_model::<K>(),
            clone_is_copy::<K>(),
        ensures
            s@ == Map::<K, V>::empty(),
            s.spec_sketch().all_zero(),
            s.spec_sketch().spec_total() == 0,
            s.spec_samples() == 0,
            s.spec_rng() == RNG_SEED,
    {
        ShardInner {
            slab: Slab::with_capacity(capacity),
            sketch: CountMinSketch::new(),
            rng_state: RNG_SEED,
            sample_count: 0,
        }
    }

    /// Count one sampled access; at every `AGING_SAMPLES`-th, halve the sketch
    /// and start counting again.
    fn maybe_age_sketch(&mut self)
        ensures
            final(self).slab == old(self).slab,
            final(self).rng_state == old(self).rng_state,
            old(self).sample_count + 1 < AGING_SAMPLES ==> {
                &&& final(self).sample_count == old(self).sample_count + 1
                &&& final(self).sketch == old(self).sketch
            },
            old(self).sample_count + 1 >= AGING_SAMPLES ==> {
                &&& final(self).sample_count == 0
                &&& final(self).sketch.spec_total() == old(self).sketch.spec_total() / 2
                &&& forall|r: int, c: int|
                    0 <= r < 4 && 0 <= c < 256 ==> #[trigger] final(self).sketch.cell(r, c)
                        == old(self).sketch.cell(r, c) / 2
            },
    {
        proof {
            use_type_invariant(&*self);
        }
        if self.sample_count + 1 >= AGING_SAMPLES {
            self.sketch.halve();
            self.sample_count = 0;
        } else {
            self.sample_count = self.sample_count + 1;
        }
    }

    /// Record one access of `hash`: count it in the sketch, and at every
    /// `AGING_SAMPLES`-th access halve the sketch and start counting again.
    fn record_access(&mut self, hash: u64)
        ensures
            final(self).slab == old(self).slab,
            final(self).rng_state == old(self).rng_state,
            final(self).sketch.wf(),
            records_access(
                final(self).sketch,
                final(self).sample_count,
                old(self).sketch,
                old(self).sample_count,
                hash,
            ),
    {
        proof {
            use_type_invariant(&*self);
        }
        let ghost before = self.sketch;
        self.sketch.add(hash);
        let ghost mid = self.sketch;
        self.maybe_age_sketch();
        proof {
            use_type_invariant(&*self);
            if old(self).sample_count + 1 >= AGING_SAMPLES {
                assert forall|r: int, c: int| 0 <= r < 4 && 0 <= c < 256 implies #[trigger] self.sketch.cell(r, c)
                    == (if c == spec_index(hash, r as nat, 256) {
                    sat_add_u8(before.cell(r, c), 1)
                } else {
                    before.cell(r, c)
                }) / 2 by {
                    assert(mid.cell(r, c) == if c == spec_index(hash, r as nat, 256) {
                        sat_add_u8(before.cell(r, c), 1)
                    } else {
                        before.cell(r, c)
                    });
                }
            }
        }
    }

    /// Probe `EVICTION_SAMPLES` random positions and evict the entry whose key
    /// hash `sketch` rates least frequent (the first such probe on ties).
    /// Returns the new random state.
    fn sampled_evict(slab: &mut Slab<K, V>, sketch: &CountMinSketch<256, 4>, rng: u64) -> (next: u64)
        requires
            old(slab).wf(),
            sketch.wf(),
            obeys_key_model::<K>(),
            clone_is_copy::<K>(),
        ensures
            final(slab).wf(),
            old(slab).entries@.len() == 0 ==> *final(slab) == *old(slab) && next == rng,
            old(slab).entries@.len() > 0 ==> {
                let (victim, least, state) = probe_victim(
                    *sketch,
                    old(slab).hashes(),
                    rng,
                    EVICTION_SAMPLES as nat,
                );
                &&& 0 <= victim < old(slab).entries@.len()
                &&& final(slab).view() == old(slab).view().remove(old(slab).keys()[victim])
                &&& final(slab).entries@.len() == old(slab).entries@.len() - 1
                &&& next == state
            },
    {
        let len = slab.len();
        if len == 0 {
            return rng;
        }
        let mut victim_idx: usize = 0;
        let mut min_freq: u8 = 255;
        let mut state: u64 = rng;
        let mut probe: usize = 0;
        while probe < EVICTION_SAMPLES
            invariant
                len == slab.entries@.len(),
                len > 0,
                probe <= EVICTION_SAMPLES,
                slab.wf(),
                sketch.wf(),
                victim_idx < len,
                (victim_idx as int, min_freq, state) == probe_victim(*sketch, slab.hashes(), rng, probe as nat),
            decreases EVICTION_SAMPLES - probe,
        {
            state = xorshift64(state);
            let idx = (state as usize) % len;
            let hash = slab.entries[idx].hash;
            let freq = sketch.estimate(hash);
            if freq < min_freq {
                min_freq = freq;
                victim_idx = idx;
            }
            probe = probe + 1;
        }
        slab.evict_at(victim_idx);
        state
    }

    /// Value of `key`, cloned; the access is counted in the sketch whether or
    /// not the key is present.
    pub fn get(&mut self, key: &K, hash: u64) -> (r: Option<V>)
        ensures
            get_result(*old(self), *final(self), *key, hash, r),
    {
        proof {
            use_type_invariant(&*self);
        }
        self.record_access(hash);
        proof {
            use_type_invariant(&*self);
        }
        match self.slab.find(key) {
            Some(i) => Some(self.slab.entries[i].value.clone()),
            None => None,
        }
    }

    /// Store `value` under `key`. A present key has its value replaced; a new
    /// key is added, after one sampled eviction when the shard is full.
    pub fn put(&mut self, key: K, value: V, hash: u64, capacity: usize)
        requires
            capacity <= u32::MAX,
        ensures
            put_result(*old(self), *final(self), key, value, hash, capacity),
    {
        proof {
            use_type_invariant(&*self);
            self.slab.lemma_len();
        }
        let ghost before = self.slab.view();
        self.record_access(hash);
        proof {
            use_type_invariant(&*self);
        }
        let mut slab = Slab::empty();
        std::mem::swap(&mut slab, &mut self.slab);
        match slab.find(&key) {
            Some(i) => {
                slab.set_value(i, value);
                proof {
                    slab.lemma_len();
                    assert(slab.view().dom() =~= before.dom());
                }
                self.slab = slab;
                return;
            },
            None => {},
        }
        if slab.len() >= capacity {
            let ghost full = slab;
            self.rng_state = Self::sampled_evict(&mut slab, &self.sketch, self.rng_state);
            proof {
                if full.entries@.len() > 0 {
                    let (victim, least, state) = probe_victim(
                        self.sketch,
                        full.hashes(),
                        old(self).rng_state,
                        EVICTION_SAMPLES as nat,
                    );
                    let vk = full.keys()[victim];
                    assert(full.view().contains_key(vk)) by {
                        assert(full.lookup@.contains_key(full.entries@[victim].key));
                    }
                    assert(slab.view().insert(key, value) == before.remove(vk).insert(key, value));
                }
            }
        }
        proof {
            slab.lemma_len();
        }
        slab.push_new(key, value, hash);
        proof {
            slab.lemma_len();
        }
        self.slab = slab;
    }

    /// Remove `key`, returning its value when it was present.
    pub fn remove(&mut self, key: &K) -> (r: Option<V>)
        ensures
            final(self)@ == old(self)@.remove(*key),
            r is None <==> !old(self)@.contains_key(*key),
            r matches Some(v) ==> v == old(self)@[*key],
            final(self).spec_sketch() == old(self).spec_sketch(),
            final(self).spec_samples() == old(self).spec_samples(),
            final(self).spec_rng() == old(self).spec_rng(),
    {
        proof {
            use_type_invariant(&*self);
        }
        let mut slab = Slab::empty();
        std::mem::swap(&mut slab, &mut self.slab);
        let r = slab.remove_key(key);
        self.slab = slab;
        r
    }

    /// Whether `key` is present.
    pub fn contains(&self, key: &K) -> (r: bool)
        ensures
            r == self@.contains_key(*key),
    {
        proof {
            use_type_invariant(self);
        }
        self.slab.find(key).is_some()
    }

    /// Number of entries.
    pub fn len(&self) -> (n: usize)
        ensures
            n == self@.dom().len(),
            n <= u32::MAX,
    {
        proof {
            use_type_invariant(self);
            self.slab.lemma_len();
        }
        self.slab.len()
    }

    /// Whether the shard holds no entry.
    pub fn is_empty(&self) -> (r: bool)
        ensures
            r == (self@.dom().len() == 0),
    {
        proof {
            use_type_invariant(self);
            self.slab.lemma_len();
        }
        self.slab.len() == 0
    }

    /// Remove every entry and reset the sketch and its aging counter.
    pub fn clear(&mut self)
        ensures
            final(self)@ == Map::<K, V>::empty(),
            final(self).spec_sketch().all_zero(),
            final(self).spec_sketch().spec_total() == 0,
            final(self).spec_samples() == 0,
            final(self).spec_rng() == old(self).spec_rng(),
    {
        proof {
            use_type_invariant(&*self);
        }
        let mut slab = Slab::empty();
        std::mem::swap(&mut slab, &mut self.slab);
        slab.clear();
        self.slab = slab;
        self.sketch.clear();
        self.sample_count = 0;
    }
}

/// A shard behind a mutex, shared between threads, with the capacity its
/// puts evict at.
#[verifier::reject_recursive_types(K)]
#[verifier::reject_recursive_types(V)]
pub struct CacheShard<K: Clone, V> {
    inner: Mutex<ShardInner<K, V>>,
    capacity: usize,
}

impl<K: Clone, V> CacheShard<K, V> {
    /// The capacity fits the slab's `u32` positions.
    #[verifier::type_invariant]
    spec fn inv(&self) -> bool {
        self.capacity <= u32::MAX
    }

    /// Most entries the shard keeps before it evicts (at least one is kept).
    pub closed spec fn spec_capacity(&self) -> usize {
        self.capacity
    }

    /// `m` is what the mutex gave out when it was locked: the result of
    /// `guarded` on the guard that locking it returned, taken before anything
    /// else was done through that guard.
    pub closed spec fn handed_out(&self, m: &mut ShardInner<K, V>) -> bool {
        exists|g: &mut ShardGuard<K, V>|
            #[trigger] call_ensures(guarded::<K, V>, (g,), m) && call_ensures(
                lock_shard::<K, V>,
                (&self.inner,),
                mut_ref_current(g),
            )
    }
}

impl<K: Eq + Hash + Clone, V: Clone> CacheShard<K, V> {
    /// An empty shard keeping at most `capacity` entries (at least one).
    pub fn new(capacity: usize) -> (s: Self)
        requires
            capacity <= u32::MAX,
            obeys_key_model::<K>(),
            clone_is_copy::<K>(),
        ensures
            s.spec_capacity() == capacity,
    {
        CacheShard { inner: new_mutex(ShardInner::new(capacity)), capacity }
    }

    /// `ShardInner::get` under the lock: the result is what a lookup gives in
    /// the state the lock holds.
    pub fn get(&self, key: &K, hash: u64) -> (r: Option<V>)
        ensures
            exists|pre: ShardInner<K, V>, post: ShardInner<K, V>| get_result(pre, post, *key, hash, r),
    {
        let mut guard = lock_shard(&self.inner);
        let inner = guarded(&mut guard);
        let ghost pre = *inner;
        let r = inner.get(key, hash);
        proof {
            assert(get_result(pre, *inner, *key, hash, r));
        }
        r
    }

    /// `ShardInner::put` under the lock, with this shard's capacity.
    pub fn put(&self, key: K, value: V, hash: u64)
        ensures
            exists|pre: ShardInner<K, V>, post: ShardInner<K, V>|
                put_result(pre, post, key, value, hash, self.spec_capacity()),
            exists|m: &mut ShardInner<K, V>|
                #[trigger] call_ensures(ShardInner::<K, V>::put, (m, key, value, hash, self.spec_capacity()), ()),
            exists|g: &mut ShardInner<K, V>, m: &mut ShardInner<K, V>|
                {
                    &&& #[trigger] self.handed_out(g)
                    &&& #[trigger] call_ensures(ShardInner::<K, V>::put, (m, key, value, hash, self.spec_capacity()), ())
                    &&& mut_ref_current(m) == mut_ref_current(g)
                },
    {
        proof {
            use_type_invariant(self);
        }
        let mut guard = lock_shard(&self.inner);
        let inner = guarded(&mut guard);
        let ghost pre = *inner;
        let ghost g0 = inner;
        let ghost (k, v) = (key, value);
        inner.put(key, value, hash, self.capacity);
        proof {
            assert(put_result(pre, *inner, k, v, hash, self.spec_capacity()));
            assert(exists|m: &mut ShardInner<K, V>|
                #[trigger] call_ensures(ShardInner::<K, V>::put, (m, k, v, hash, self.spec_capacity()), ()));
            assert(self.handed_out(g0));
            assert(mut_ref_current(g0) == pre);
        }
    }

    /// `ShardInner::remove` under the lock.
    pub fn remove(&self, key: &K) -> (r: Option<V>)
        ensures
            exists|pre: ShardInner<K, V>| {
                &&& (r is None <==> !pre@.contains_key(*key))
                &&& (r matches Some(v) ==> v == pre@[*key])
            },
    {
        let mut guard = lock_shard(&self.inner);
        let inner = guarded(&mut guard);
        let ghost pre = *inner;
        let r = inner.remove(key);
        r
    }

    /// `ShardInner::contains` under the lock.
    pub fn contains(&self, key: &K) -> (r: bool)
        ensures
            exists|s: ShardInner<K, V>| r == s@.contains_key(*key),
    {
        let mut guard = lock_shard(&self.inner);
        let inner = guarded(&mut guard);
        inner.contains(key)
    }

    /// `ShardInner::len` under the lock.
    pub fn len(&self) -> (n: usize)
        ensures
            exists|s: ShardInner<K, V>| n == s@.dom().len(),
            n <= u32::MAX,
    {
        let mut guard = lock_shard(&self.inner);
        let inner = guarded(&mut guard);
        inner.len()
    }

    /// `ShardInner::is_empty` under the lock.
    pub fn is_empty(&self) -> (r: bool)
        ensures
            exists|s: ShardInner<K, V>| r == (s@.dom().len() == 0),
    {
        let mut guard = lock_shard(&self.inner);
        let inner = guarded(&mut guard);
        inner.is_empty()
    }

    /// `ShardInner::clear` under the lock; the capacity stays.
    pub fn clear(&mut self)
        ensures
            final(self).spec_capacity() == old(self).spec_capacity(),
    {
        let mut guard = lock_shard(&self.inner);
        let inner = guarded(&mut guard);
        inner.clear();
    }
}


/// Storing under a key that the shard already holds replaces that key's value
/// and keeps every other entry with its value: nothing is evicted, whatever
/// the capacity, and the entry count stays.
pub proof fn lemma_put_present_key_evicts_nothing<K: Eq + Hash + Clone, V: Clone>(
    m: &mut ShardInner<K, V>,
    key: K,
    value: V,
    hash: u64,
    capacity: usize,
)
    requires
        call_ensures(ShardInner::<K, V>::put, (m, key, value, hash, capacity), ()),
        mut_ref_current(m)@.contains_key(key),
    ensures
        mut_ref_future(m)@[key] == value,
        forall|k: K| k != key ==> #[trigger] mut_ref_future(m)@.contains_key(k) == mut_ref_current(m)@.contains_key(k),
        forall|k: K| k != key && mut_ref_current(m)@.contains_key(k) ==> #[trigger] mut_ref_future(m)@[k] == mut_ref_current(m)@[k],
        mut_ref_future(m)@.dom() == mut_ref_current(m)@.dom(),
{
    assert(mut_ref_future(m)@.dom() =~= mut_ref_current(m)@.dom());
}


/// A locked put works on the shard state that locking handed out: when that
/// state already holds the key, the state it leaves maps the key to the new
/// value and keeps every other entry, and the entry count stays.
pub proof fn lemma_locked_put_of_present_key_evicts_nothing<K: Eq + Hash + Clone, V: Clone>(
    s: CacheShard<K, V>,
    key: K,
    value: V,
    hash: u64,
)
    requires
        call_ensures(CacheShard::<K, V>::put, (&s, key, value, hash), ()),
    ensures
        exists|g: &mut ShardInner<K, V>, m: &mut ShardInner<K, V>|
            {
                &&& #[trigger] s.handed_out(g)
                &&& #[trigger] call_ensures(ShardInner::<K, V>::put, (m, key, value, hash, s.spec_capacity()), ())
                &&& mut_ref_current(m) == mut_ref_current(g)
                &&& mut_ref_current(g)@.contains_key(key) ==> mut_ref_future(m)@ == mut_ref_current(g)@.insert(
                    key,
                    value,
                )
                &&& mut_ref_current(g)@.contains_key(key) ==> mut_ref_future(m)@.dom() == mut_ref_current(g)@.dom()
            },
{
    let (g, m) = choose|g: &mut ShardInner<K, V>, m: &mut ShardInner<K, V>|
        {
            &&& #[trigger] s.handed_out(g)
            &&& #[trigger] call_ensures(ShardInner::<K, V>::put, (m, key, value, hash, s.spec_capacity()), ())
            &&& mut_ref_current(m) == mut_ref_current(g)
        };
    if mut_ref_current(g)@.contains_key(key) {
        lemma_put_present_key_evicts_nothing(m, key, value, hash, s.spec_capacity());
        assert(mut_ref_future(m)@ =~= mut_ref_current(g)@.insert(key, value));
    }
}

} // verus!
