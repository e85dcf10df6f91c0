//! Batch operations: many keys at once, as inference loops prefill and decode
//! key/value caches.
use vstd::prelude::*;
use std::hash::Hash;

use crate::cache::AliceCache;
use crate::shard::CacheShard;

verus! {

/// Results of a batch lookup.
pub struct BatchGetResult<V> {
    /// One result per key, in key order (`None` for a miss).
    pub values: Vec<Option<V>>,
    /// Number of keys found.
    pub hits: usize,
    /// Number of keys not found.
    pub misses: usize,
}

/// Number of found results.
pub open spec fn count_hits<V>(results: Seq<Option<V>>) -> nat
    decreases results.len(),
{
    if results.len() == 0 {
        0
    } else {
        count_hits(results.drop_last()) + if results.last() is Some {
            1nat
        } else {
            0nat
        }
    }
}

impl<K: Eq + Hash + Clone, V: Clone> AliceCache<K, V> {
    /// Store each value under the key at the same position.
    pub fn batch_put(&self, keys: &[K], values: &[V])
        requires
            self.wf(),
            keys@.len() == values@.len(),
        ensures
            forall|i: int| 0 <= i < keys@.len() ==> #[trigger] self.put_called(keys@[i], values@[i]),
            self.puts_each(keys@, values@),
    {
        let mut i: usize = 0;
        while i < keys.len()
            invariant
                self.wf(),
                keys@.len() == values@.len(),
                i <= keys@.len(),
                forall|j: int| 0 <= j < i ==> #[trigger] self.put_called(keys@[j], values@[j]),
            decreases keys@.len() - i,
        {
            let k = keys[i].clone();
            let v = values[i].clone();
            let ghost (gk, gv) = (k, v);
            self.put(k, v);
            proof {
                assert(call_ensures(AliceCache::<K, V>::put, (self, gk, gv), ()));
                assert(self.put_called(keys@[i as int], values@[i as int]));
            }
            i = i + 1;
        }
    }

    /// For each position, `put` was called with clones of the key and the
    /// value there.
    pub open spec fn puts_each(&self, keys: Seq<K>, values: Seq<V>) -> bool {
        forall|i: int| 0 <= i < keys.len() ==> #[trigger] self.put_called(keys[i], values[i])
    }

    /// `put` was called with a clone of `key` and a clone of `value`.
    pub open spec fn put_called(&self, key: K, value: V) -> bool {
        exists|k: K, v: V|
            cloned(key, k) && cloned(value, v) && #[trigger] call_ensures(AliceCache::<K, V>::put, (self, k, v), ())
    }

    /// Look up every key, in order, counting hits and misses.
    pub fn batch_get(&self, keys: &[K]) -> (r: BatchGetResult<V>)
        requires
            self.wf(),
        ensures
            r.values@.len() == keys@.len(),
            forall|i: int|
                0 <= i < keys@.len() ==> #[trigger] call_ensures(
                    AliceCache::<K, V>::get,
                    (self, &keys@[i]),
                    r.values@[i],
                ),
            r.hits == count_hits(r.values@),
            r.hits + r.misses == keys@.len(),
    {
        let mut values: Vec<Option<V>> = Vec::with_capacity(keys.len());
        let mut hits: usize = 0;
        let mut misses: usize = 0;
        let mut i: usize = 0;
        while i < keys.len()
            invariant
                self.wf(),
                i <= keys@.len(),
                values@.len() == i,
                forall|j: int|
                    0 <= j < i ==> #[trigger] call_ensures(AliceCache::<K, V>::get, (self, &keys@[j]), values@[j]),
                hits == count_hits(values@),
                hits + misses == i,
            decreases keys@.len() - i,
        {
            let ghost before = values@;
            let found = self.get(&keys[i]);
            proof {
                assert(call_ensures(AliceCache::<K, V>::get, (self, &keys@[i as int]), found));
            }
            match found {
                Some(v) => {
                    values.push(Some(v));
                    hits = hits + 1;
                },
                None => {
                    values.push(None);
                    misses = misses + 1;
                },
            }
            proof {
                assert(values@.drop_last() =~= before);
            }
            i = i + 1;
        }
        BatchGetResult { values, hits, misses }
    }

    /// Remove every key, in order, returning what each held.
    pub fn batch_remove(&self, keys: &[K]) -> (r: Vec<Option<V>>)
        requires
            self.wf(),
        ensures
            r@.len() == keys@.len(),
            forall|i: int|
                0 <= i < keys@.len() ==> #[trigger] call_ensures(AliceCache::<K, V>::remove, (self, &keys@[i]), r@[i]),
    {
        let mut out: Vec<Option<V>> = Vec::with_capacity(keys.len());
        let mut i: usize = 0;
        while i < keys.len()
            invariant
                self.wf(),
                i <= keys@.len(),
                out@.len() == i,
                forall|j: int|
                    0 <= j < i ==> #[trigger] call_ensures(AliceCache::<K, V>::remove, (self, &keys@[j]), out@[j]),
            decreases keys@.len() - i,
        {
            let removed = self.remove(&keys[i]);
            proof {
                assert(call_ensures(AliceCache::<K, V>::remove, (self, &keys@[i as int]), removed));
            }
            out.push(removed);
            i = i + 1;
        }
        out
    }
}


/// A batch put stores every pair: for each position, `put` was called with a
/// clone of the key and a clone of the value there, routed to the shard of
/// that key's hash.
pub proof fn lemma_batch_put_stores_every_pair<K: Eq + Hash + Clone, V: Clone>(
    c: AliceCache<K, V>,
    keys: &[K],
    values: &[V],
    i: int,
)
    requires
        call_ensures(AliceCache::<K, V>::batch_put, (&c, keys, values), ()),
        0 <= i < keys@.len(),
        keys@.len() == values@.len(),
        c.wf(),
    ensures
        exists|k: K, v: V|
            {
                &&& cloned(keys@[i], k)
                &&& cloned(values@[i], v)
                &&& exists|h: u64|
                    c.hashes(&k, h) && #[trigger] call_ensures(
                        CacheShard::<K, V>::put,
                        (&c.shard_of(h), k, v, h),
                        (),
                    )
            },
{
    assert(c.puts_each(keys@, values@));
    assert(c.put_called(keys@[i], values@[i]));
    let (k, v) = choose|k: K, v: V|
        cloned(keys@[i], k) && cloned(values@[i], v) && #[trigger] call_ensures(AliceCache::<K, V>::put, (&c, k, v), ());
    assert(call_ensures(AliceCache::<K, V>::put, (&c, k, v), ()));
}

} // verus!
