//! Two-tier store: a hot tier and a warm overflow tier.
//!
//! New values go to the hot tier. When it is full, its least accessed entry
//! (the first in key order among equals) spills to the warm tier, whose own
//! least accessed entry is evicted when it is full. A warm entry accessed often
//! enough is promoted back to the hot tier.
use vstd::prelude::*;

use crate::str_map::{
    key_bytes, lemma_encode_injective, lemma_lex_irreflexive, lemma_lex_total, lemma_lex_transitive, lex_lt,
    StrMap,
};

verus! {

/// Tier settings.
#[derive(Debug, Clone, Copy)]
pub struct TieredConfig {
    /// Most entries the hot tier holds before spilling.
    pub hot_capacity: usize,
    /// Most entries the warm tier holds before evicting.
    pub warm_capacity: usize,
    /// Accesses in the warm tier that promote an entry to the hot tier.
    pub promote_threshold: u32,
}

impl Default for TieredConfig {
    fn default() -> (c: Self)
        ensures
            c.hot_capacity == 1000,
            c.warm_capacity == 10000,
            c.promote_threshold == 3,
    {
        TieredConfig { hot_capacity: 1000, warm_capacity: 10000, promote_threshold: 3 }
    }
}

/// A stored value with its access count.
#[derive(Debug, Clone)]
struct TieredEntry {
    value: Vec<u8>,
    access_count: u32,
}

/// Index of the first smallest element among the first `n` elements of `s`.
pub open spec fn first_min(s: Seq<u32>, n: int) -> int
    decreases n,
{
    if n <= 1 {
        0
    } else {
        let m = first_min(s, n - 1);
        if s[n - 1] < s[m] {
            n - 1
        } else {
            m
        }
    }
}

/// Most entries a tier of capacity `cap` ever holds.
pub open spec fn tier_bound(cap: usize) -> nat {
    if cap == 0 {
        1
    } else {
        cap as nat
    }
}

/// Hot and warm tiers with promotion, demotion and eviction counters.
#[derive(Debug)]
pub struct TieredCache {
    config: TieredConfig,
    hot: StrMap<TieredEntry>,
    warm: StrMap<TieredEntry>,
    promotions: u64,
    demotions: u64,
    evictions: u64,
}

/// Contents of a tier: per key, the value and its access count.
spec fn tier_view(m: StrMap<TieredEntry>) -> Map<Seq<char>, (Seq<u8>, u32)> {
    Map::new(
        |k: Seq<char>| m.view().contains_key(k),
        |k: Seq<char>| (m.view()[k].value@, m.view()[k].access_count),
    )
}

/// Access counts of a tier, in key order.
spec fn tier_counts(m: StrMap<TieredEntry>) -> Seq<u32> {
    m.values().map_values(|e: TieredEntry| e.access_count)
}

/// Key of the entry a full tier gives up: the first least accessed one.
spec fn tier_victim(m: StrMap<TieredEntry>) -> Seq<char> {
    m.keys()[first_min(tier_counts(m), m.keys().len() as int)]
}

/// Whether `k` is the entry a full tier with contents `m` gives up: it has
/// the fewest accesses, and comes first by the UTF-8 bytes of its key among
/// the entries with that many.
pub open spec fn is_victim(m: Map<Seq<char>, (Seq<u8>, u32)>, k: Seq<char>) -> bool {
    &&& m.contains_key(k)
    &&& forall|j: Seq<char>| #[trigger] m.contains_key(j) ==> m[k].1 <= m[j].1
    &&& forall|j: Seq<char>|
        #[trigger] m.contains_key(j) && j != k && m[j].1 == m[k].1 ==> lex_lt(key_bytes(k), key_bytes(j))
}

/// The entry a full tier with contents `m` gives up.
pub open spec fn victim(m: Map<Seq<char>, (Seq<u8>, u32)>) -> Seq<char> {
    choose|k: Seq<char>| is_victim(m, k)
}

/// Whether making room in a hot tier of capacity `cap` with contents `hot`
/// spills an entry: the tier is full and not empty.
pub open spec fn spills(hot: Map<Seq<char>, (Seq<u8>, u32)>, cap: usize) -> bool {
    hot.dom().len() >= cap && hot.dom().len() > 0
}

/// Whether a spill into a warm tier of capacity `cap` with contents `warm`
/// first evicts its victim: the tier is full and not empty.
pub open spec fn spill_evicts(warm: Map<Seq<char>, (Seq<u8>, u32)>, cap: usize) -> bool {
    warm.dom().len() >= cap && warm.dom().len() > 0
}

/// The warm tier after a spill: the hot victim, its access count reset to
/// zero, joins the warm tier, after the warm victim is evicted when
/// `spill_evicts` says so.
pub open spec fn spilled_warm(
    hot: Map<Seq<char>, (Seq<u8>, u32)>,
    warm: Map<Seq<char>, (Seq<u8>, u32)>,
    cap: usize,
) -> Map<Seq<char>, (Seq<u8>, u32)> {
    let w = if spill_evicts(warm, cap) {
        warm.remove(victim(warm))
    } else {
        warm
    };
    w.insert(victim(hot), (hot[victim(hot)].0, 0u32))
}

/// A non-empty finite tier has a victim, and only one.
pub proof fn lemma_victim(m: Map<Seq<char>, (Seq<u8>, u32)>)
    requires
        m.dom().finite(),
        m.dom().len() > 0,
    ensures
        is_victim(m, victim(m)),
        forall|k: Seq<char>| #[trigger] is_victim(m, k) ==> k == victim(m),
{
    lemma_victim_exists(m);
    assert forall|k: Seq<char>| #[trigger] is_victim(m, k) implies k == victim(m) by {
        lemma_victim_unique(m, k, victim(m));
    }
}

/// Two victims of one tier are the same key.
proof fn lemma_victim_unique(m: Map<Seq<char>, (Seq<u8>, u32)>, a: Seq<char>, b: Seq<char>)
    requires
        is_victim(m, a),
        is_victim(m, b),
    ensures
        a == b,
{
    if a != b {
        assert(m[a].1 <= m[b].1 && m[b].1 <= m[a].1);
        assert(lex_lt(key_bytes(a), key_bytes(b)));
        assert(lex_lt(key_bytes(b), key_bytes(a)));
        lemma_lex_transitive(key_bytes(a), key_bytes(b), key_bytes(a));
        lemma_lex_irreflexive(key_bytes(a));
    }
}

/// Every non-empty finite tier has a victim.
proof fn lemma_victim_exists(m: Map<Seq<char>, (Seq<u8>, u32)>)
    requires
        m.dom().finite(),
        m.dom().len() > 0,
    ensures
        exists|k: Seq<char>| is_victim(m, k),
    decreases m.dom().len(),
{
    let k = m.dom().choose();
    assert(m.dom().contains(k));
    let r = m.remove(k);
    assert(r.dom() =~= m.dom().remove(k));
    if r.dom().len() == 0 {
        assert forall|j: Seq<char>| #[trigger] m.contains_key(j) implies j == k by {
            if j != k {
                assert(r.dom().contains(j));
            }
        }
        assert(is_victim(m, k));
    } else {
        lemma_victim_exists(r);
        let v = choose|v: Seq<char>| is_victim(r, v);
        assert(v != k);
        let kb = key_bytes(k);
        let vb = key_bytes(v);
        if kb == vb {
            lemma_encode_injective(k, v);
        }
        lemma_lex_total(kb, vb);
        if m[k].1 < m[v].1 || (m[k].1 == m[v].1 && lex_lt(kb, vb)) {
            assert forall|j: Seq<char>|
                #[trigger] m.contains_key(j) && j != k && m[j].1 == m[k].1 implies lex_lt(kb, key_bytes(j)) by {
                assert(r.contains_key(j));
                if j != v {
                    assert(lex_lt(vb, key_bytes(j)));
                    lemma_lex_transitive(kb, vb, key_bytes(j));
                }
            }
            assert forall|j: Seq<char>| #[trigger] m.contains_key(j) implies m[k].1 <= m[j].1 by {
                if j != k {
                    assert(r.contains_key(j));
                }
            }
            assert(is_victim(m, k));
        } else {
            assert forall|j: Seq<char>| #[trigger] m.contains_key(j) implies m[v].1 <= m[j].1 by {
                if j != k {
                    assert(r.contains_key(j));
                }
            }
            assert forall|j: Seq<char>|
                #[trigger] m.contains_key(j) && j != v && m[j].1 == m[v].1 implies lex_lt(vb, key_bytes(j)) by {
                if j != k {
                    assert(r.contains_key(j));
                }
            }
            assert(is_victim(m, v));
        }
    }
}

/// `first_min` picks, among the first `n` elements, one no larger than any
/// other, and strictly smaller than every element before it.
proof fn lemma_first_min(s: Seq<u32>, n: int)
    requires
        0 < n <= s.len(),
    ensures
        0 <= first_min(s, n) < n,
        forall|j: int| 0 <= j < n ==> s[first_min(s, n)] <= #[trigger] s[j],
        forall|j: int| 0 <= j < first_min(s, n) ==> s[first_min(s, n)] < #[trigger] s[j],
    decreases n,
{
    if n > 1 {
        lemma_first_min(s, n - 1);
    }
}

/// The entry a sorted tier gives up is its victim.
proof fn lemma_tier_victim(m: StrMap<TieredEntry>)
    requires
        m.wf(),
        m.keys().len() > 0,
    ensures
        victim(tier_view(m)) == tier_victim(m),
        is_victim(tier_view(m), tier_victim(m)),
{
    let n = m.keys().len() as int;
    let c = tier_counts(m);
    let i = first_min(c, n);
    lemma_first_min(c, n);
    m.lemma_at(i);
    let v = tier_view(m);
    let k = m.keys()[i];
    assert(v.contains_key(k));
    assert forall|j: Seq<char>| #[trigger] v.contains_key(j) implies v[k].1 <= v[j].1 && (j != k && v[j].1
        == v[k].1 ==> lex_lt(key_bytes(k), key_bytes(j))) by {
        let idx = m.keys().index_of(j);
        m.lemma_at(idx);
        assert(c[idx] == m.values()[idx].access_count);
        assert(c[i] == m.values()[i].access_count);
        if j != k && v[j].1 == v[k].1 {
            assert(idx != i);
            if idx < i {
                assert(c[i] < c[idx]);
            }
        }
    }
    assert(is_victim(v, k));
    m.lemma_len();
    lemma_tier_dom(m);
    lemma_victim(v);
}

impl TieredCache {
    /// Sorted tiers, no key in both, and each tier within its bound.
    pub closed spec fn wf(&self) -> bool {
        &&& self.hot.wf()
        &&& self.warm.wf()
        &&& self.hot.view().dom().disjoint(self.warm.view().dom())
        &&& self.hot.keys().len() <= tier_bound(self.config.hot_capacity)
        &&& self.warm.keys().len() <= tier_bound(self.config.warm_capacity)
    }

    /// In a well-formed store each tier is finite and within its bound, and
    /// no key is in both tiers.
    pub proof fn lemma_wf(&self)
        requires
            self.wf(),
        ensures
            self.hot_view().dom().finite(),
            self.warm_view().dom().finite(),
            self.hot_view().dom().len() <= tier_bound(self.spec_config().hot_capacity),
            self.warm_view().dom().len() <= tier_bound(self.spec_config().warm_capacity),
            self.hot_view().dom().disjoint(self.warm_view().dom()),
    {
        self.hot.lemma_len();
        self.warm.lemma_len();
        lemma_tier_dom(self.hot);
        lemma_tier_dom(self.warm);
    }

    /// Contents of the hot tier.
    pub closed spec fn hot_view(&self) -> Map<Seq<char>, (Seq<u8>, u32)> {
        tier_view(self.hot)
    }

    /// Contents of the warm tier.
    pub closed spec fn warm_view(&self) -> Map<Seq<char>, (Seq<u8>, u32)> {
        tier_view(self.warm)
    }

    /// The settings.
    pub closed spec fn spec_config(&self) -> TieredConfig {
        self.config
    }

    /// Promotion, demotion and eviction counters.
    pub closed spec fn counters(&self) -> (u64, u64, u64) {
        (self.promotions, self.demotions, self.evictions)
    }

    /// The value stored for `k`, in whichever tier holds it.
    pub open spec fn lookup(&self, k: Seq<char>) -> Option<Seq<u8>> {
        if self.hot_view().contains_key(k) {
            Some(self.hot_view()[k].0)
        } else if self.warm_view().contains_key(k) {
            Some(self.warm_view()[k].0)
        } else {
            None
        }
    }

    /// An empty store with the given settings.
    pub fn new(config: TieredConfig) -> (c: Self)
        ensures
            c.wf(),
            c.spec_config() == config,
            c.hot_view() == Map::<Seq<char>, (Seq<u8>, u32)>::empty(),
            c.warm_view() == Map::<Seq<char>, (Seq<u8>, u32)>::empty(),
            c.counters() == (0u64, 0u64, 0u64),
    {
        let c = TieredCache {
            config,
            hot: StrMap::new(),
            warm: StrMap::new(),
            promotions: 0,
            demotions: 0,
            evictions: 0,
        };
        proof {
            c.hot.lemma_len();
            c.warm.lemma_len();
            assert(c.hot_view() =~= Map::<Seq<char>, (Seq<u8>, u32)>::empty());
            assert(c.warm_view() =~= Map::<Seq<char>, (Seq<u8>, u32)>::empty());
        }
        c
    }

    /// An empty store with the default settings.
    pub fn with_defaults() -> (c: Self)
        ensures
            c.wf(),
            c.spec_config().hot_capacity == 1000,
            c.spec_config().warm_capacity == 10000,
            c.spec_config().promote_threshold == 3,
            c.hot_view() == Map::<Seq<char>, (Seq<u8>, u32)>::empty(),
            c.warm_view() == Map::<Seq<char>, (Seq<u8>, u32)>::empty(),
            c.counters() == (0u64, 0u64, 0u64),
    {
        Self::new(TieredConfig::default())
    }

    /// Position of the first least accessed entry of a non-empty tier.
    fn victim_index(m: &StrMap<TieredEntry>) -> (i: usize)
        requires
            m.keys().len() > 0,
        ensures
            i == first_min(tier_counts(*m), m.keys().len() as int),
            i < m.keys().len(),
    {
        let n = m.len();
        let mut best: usize = 0;
        let mut i: usize = 1;
        while i < n
            invariant
                n == m.keys().len(),
                1 <= i <= n,
                best == first_min(tier_counts(*m), i as int),
                best < i,
            decreases n - i,
        {
            if m.value_at(i).access_count < m.value_at(best).access_count {
                best = i;
            }
            i = i + 1;
        }
        best
    }

    /// Evict the first least accessed warm entry, if any.
    fn evict_warm(&mut self)
        requires
            old(self).warm.wf(),
            old(self).warm.keys().len() > 0 ==> old(self).evictions < u64::MAX,
        ensures
            final(self).warm.wf(),
            final(self).hot == old(self).hot,
            final(self).config == old(self).config,
            final(self).promotions == old(self).promotions,
            final(self).demotions == old(self).demotions,
            old(self).warm.keys().len() == 0 ==> final(self).warm == old(self).warm && final(self).evictions
                == old(self).evictions,
            old(self).warm.keys().len() > 0 ==> {
                &&& final(self).warm.view() == old(self).warm.view().remove(tier_victim(old(self).warm))
                &&& final(self).warm.keys().len() == old(self).warm.keys().len() - 1
                &&& final(self).evictions == old(self).evictions + 1
            },
    {
        if self.warm.len() == 0 {
            return;
        }
        let i = Self::victim_index(&self.warm);
        let _ = self.warm.remove_at(i);
        self.evictions = self.evictions + 1;
    }

    /// Move the first least accessed hot entry to the warm tier, resetting its
    /// access count, after evicting from a full warm tier.
    fn spill_one(&mut self)
        requires
            old(self).wf(),
            old(self).demotions < u64::MAX,
            old(self).evictions < u64::MAX,
        ensures
            final(self).wf(),
            final(self).config == old(self).config,
            final(self).promotions == old(self).promotions,
            old(self).hot.keys().len() == 0 ==> *final(self) == *old(self),
            old(self).hot.keys().len() > 0 ==> {
                &&& tier_view(final(self).hot) == tier_view(old(self).hot).remove(victim(tier_view(old(self).hot)))
                &&& tier_view(final(self).warm) == spilled_warm(
                    tier_view(old(self).hot),
                    tier_view(old(self).warm),
                    old(self).config.warm_capacity,
                )
                &&& final(self).hot.keys().len() == old(self).hot.keys().len() - 1
                &&& final(self).demotions == old(self).demotions + 1
                &&& final(self).evictions == old(self).evictions + if spill_evicts(
                    tier_view(old(self).warm),
                    old(self).config.warm_capacity,
                ) {
                    1int
                } else {
                    0int
                }
            },
            forall|k: Seq<char>| #[trigger] final(self).lookup(k) == old(self).lookup(k) || final(self).lookup(k) is None,
    {
        if self.hot.len() == 0 {
            return;
        }
        let ghost before = *self;
        let ghost h0 = self.hot;
        let ghost w0 = self.warm;
        let i = Self::victim_index(&self.hot);
        proof {
            h0.lemma_at(i as int);
        }
        let (key, mut entry) = self.hot.remove_at(i);
        entry.access_count = 0;
        self.demotions = self.demotions + 1;
        if self.warm.len() >= self.config.warm_capacity {
            self.evict_warm();
        }
        let ghost w1 = self.warm;
        proof {
            h0.lemma_len();
            w0.lemma_len();
            w1.lemma_len();
            assert(!w1.view().contains_key(key@));
        }
        let _ = self.warm.insert(key.as_str(), entry);
        proof {
            self.hot.lemma_len();
            self.warm.lemma_len();
            let k = key@;
            assert(tier_view(self.hot) =~= tier_view(h0).remove(k));
            assert(tier_view(self.warm) =~= tier_view(w1).insert(k, (tier_view(h0)[k].0, 0u32)));
            if w0.keys().len() >= self.config.warm_capacity {
                assert(tier_view(w1) =~= tier_view(w0).remove(tier_victim(w0)));
            } else {
                assert(tier_view(w1) =~= tier_view(w0));
            }
            assert(self.warm.view().dom() =~= w1.view().dom().insert(k));
            assert(self.hot.view().dom().disjoint(self.warm.view().dom()));
            lemma_tier_dom(h0);
            lemma_tier_dom(w0);
            lemma_tier_victim(h0);
            if w0.keys().len() > 0 {
                lemma_tier_victim(w0);
            }
            assert(tier_view(w0).dom().len() == w0.keys().len());
            assert forall|j: Seq<char>| #[trigger] self.lookup(j) == before.lookup(j) || self.lookup(j) is None by {
                if j == k {
                    assert(tier_view(h0).contains_key(j));
                } else if tier_view(h0).contains_key(j) {
                    assert(tier_view(self.hot).contains_key(j));
                }
            }
        }
    }

    /// Put `entry` in the hot tier under `key`, spilling first if it is full.
    fn promote_to_hot(&mut self, key: &str, entry: TieredEntry)
        requires
            old(self).wf(),
            !old(self).hot.view().contains_key(key@),
            !old(self).warm.view().contains_key(key@),
            old(self).promotions < u64::MAX,
            old(self).demotions < u64::MAX,
            old(self).evictions < u64::MAX,
        ensures
            final(self).wf(),
            final(self).config == old(self).config,
            final(self).hot_view().contains_key(key@),
            final(self).hot_view()[key@] == (entry.value@, entry.access_count),
            final(self).hot_view() == (if spills(old(self).hot_view(), old(self).config.hot_capacity) {
                old(self).hot_view().remove(victim(old(self).hot_view()))
            } else {
                old(self).hot_view()
            }).insert(key@, (entry.value@, entry.access_count)),
            final(self).warm_view() == if spills(old(self).hot_view(), old(self).config.hot_capacity) {
                spilled_warm(old(self).hot_view(), old(self).warm_view(), old(self).config.warm_capacity)
            } else {
                old(self).warm_view()
            },
            final(self).promotions == old(self).promotions + 1,
            final(self).demotions == old(self).demotions + if spills(
                old(self).hot_view(),
                old(self).config.hot_capacity,
            ) {
                1int
            } else {
                0int
            },
            final(self).evictions == old(self).evictions + if spills(
                old(self).hot_view(),
                old(self).config.hot_capacity,
            ) && spill_evicts(old(self).warm_view(), old(self).config.warm_capacity) {
                1int
            } else {
                0int
            },
            forall|k: Seq<char>|
                k != key@ ==> #[trigger] final(self).lookup(k) == old(self).lookup(k) || final(self).lookup(k)
                    is None,
    {
        let ghost before = *self;
        proof {
            lemma_tier_dom(before.hot);
            lemma_tier_dom(before.warm);
            assert(before.lookup(key@) is None);
        }
        if self.hot.len() >= self.config.hot_capacity {
            self.spill_one();
        }
        let ghost mid = *self;
        proof {
            lemma_tier_dom(mid.hot);
            lemma_tier_dom(mid.warm);
            assert(mid.lookup(key@) is None);
            mid.hot.lemma_len();
            mid.warm.lemma_len();
            before.hot.lemma_len();
            before.warm.lemma_len();
            assert(tier_view(before.hot).dom().len() == before.hot.keys().len());
            assert(tier_view(before.warm).dom().len() == before.warm.keys().len());
        }
        let _ = self.hot.insert(key, entry);
        self.promotions = self.promotions + 1;
        proof {
            self.hot.lemma_len();
            assert(self.hot.view().dom() =~= mid.hot.view().dom().insert(key@));
            assert(tier_view(self.hot) =~= tier_view(mid.hot).insert(key@, (entry.value@, entry.access_count)));
            assert(self.hot.view().dom().disjoint(self.warm.view().dom()));
            assert forall|k: Seq<char>| k != key@ implies #[trigger] self.lookup(k) == before.lookup(k)
                || self.lookup(k) is None by {
                assert(self.lookup(k) == mid.lookup(k));
                assert(mid.lookup(k) == before.lookup(k) || mid.lookup(k) is None);
            }
        }
    }

    /// Value of `key`, searching the hot tier then the warm tier; counts the
    /// access, and promotes a warm entry that reaches the threshold.
    pub fn get(&mut self, key: &str) -> (r: Option<Vec<u8>>)
        requires
            old(self).wf(),
            old(self).hot_view().contains_key(key@) ==> old(self).hot_view()[key@].1 < u32::MAX,
            old(self).warm_view().contains_key(key@) ==> old(self).warm_view()[key@].1 < u32::MAX,
            old(self).counters().0 < u64::MAX,
            old(self).counters().1 < u64::MAX,
            old(self).counters().2 < u64::MAX,
        ensures
            final(self).wf(),
            final(self).spec_config() == old(self).spec_config(),
            r is None <==> old(self).lookup(key@) is None,
            r matches Some(v) ==> old(self).lookup(key@) == Some(v@),
            final(self).lookup(key@) == old(self).lookup(key@),
            r is None ==> *final(self) == *old(self),
            forall|k: Seq<char>|
                k != key@ ==> #[trigger] final(self).lookup(k) == old(self).lookup(k) || final(self).lookup(k)
                    is None,
            old(self).hot_view().contains_key(key@) ==> final(self).hot_view() == old(self).hot_view().insert(
                key@,
                (old(self).hot_view()[key@].0, (old(self).hot_view()[key@].1 + 1) as u32),
            ) && final(self).warm_view() == old(self).warm_view() && final(self).counters() == old(self).counters(),
            !old(self).hot_view().contains_key(key@) && old(self).warm_view().contains_key(key@) ==> {
                let c = (old(self).warm_view()[key@].1 + 1) as u32;
                let w0 = old(self).warm_view().remove(key@);
                let sp = spills(old(self).hot_view(), old(self).spec_config().hot_capacity);
                if c >= old(self).spec_config().promote_threshold {
                    &&& final(self).hot_view() == (if sp {
                        old(self).hot_view().remove(victim(old(self).hot_view()))
                    } else {
                        old(self).hot_view()
                    }).insert(key@, (old(self).warm_view()[key@].0, c))
                    &&& final(self).warm_view() == if sp {
                        spilled_warm(old(self).hot_view(), w0, old(self).spec_config().warm_capacity)
                    } else {
                        w0
                    }
                    &&& final(self).counters().0 == old(self).counters().0 + 1
                    &&& final(self).counters().1 == old(self).counters().1 + if sp {
                        1int
                    } else {
                        0int
                    }
                    &&& final(self).counters().2 == old(self).counters().2 + if sp && spill_evicts(
                        w0,
                        old(self).spec_config().warm_capacity,
                    ) {
                        1int
                    } else {
                        0int
                    }
                } else {
                    &&& final(self).warm_view() == old(self).warm_view().insert(key@, (old(self).warm_view()[key@].0, c))
                    &&& final(self).hot_view() == old(self).hot_view()
                    &&& final(self).counters() == old(self).counters()
                }
            },
    {
        let ghost before = *self;
        if let Some(i) = self.hot.find(key) {
            proof {
                self.hot.lemma_at(i as int);
            }
            let placeholder = TieredEntry { value: Vec::new(), access_count: 0 };
            let mut entry = self.hot.replace_at(i, placeholder);
            entry.access_count = entry.access_count + 1;
            let result = entry.value.clone();
            proof {
                assert(result@ =~= entry.value@);
            }
            let _ = self.hot.replace_at(i, entry);
            proof {
                self.hot.lemma_len();
                before.hot.lemma_len();
                assert(self.hot.view() =~= before.hot.view().insert(key@, entry));
                assert(tier_view(self.hot) =~= tier_view(before.hot).insert(key@, (entry.value@, entry.access_count)));
                assert(self.hot.view().dom() =~= before.hot.view().dom());
            }
            return Some(result);
        }
        let should_promote = match self.warm.get(key) {
            Some(e) => e.access_count + 1 >= self.config.promote_threshold,
            None => false,
        };
        if should_promote {
            match self.warm.remove(key) {
                Some(mut entry) => {
                    entry.access_count = entry.access_count + 1;
                    let result = entry.value.clone();
                    let ghost s1 = *self;
                    proof {
                        assert(result@ =~= entry.value@);
                        lemma_shrink(before.warm, self.warm, key@);
                        assert(tier_view(self.warm) =~= tier_view(before.warm).remove(key@));
                        assert forall|k: Seq<char>| k != key@ implies #[trigger] s1.lookup(k) == before.lookup(k) by {}
                        self.warm.lemma_len();
                        before.warm.lemma_len();
                        assert(self.warm.view().dom() =~= before.warm.view().dom().remove(key@));
                        assert forall|k: Seq<char>| k != key@ implies #[trigger] tier_view(self.warm).contains_key(k) == tier_view(before.warm).contains_key(k)
                            && (tier_view(self.warm).contains_key(k) ==> tier_view(self.warm)[k] == tier_view(before.warm)[k]) by {}
                    }
                    self.promote_to_hot(key, entry);
                    proof {
                        assert forall|k: Seq<char>| k != key@ implies #[trigger] self.lookup(k) == before.lookup(k)
                            || self.lookup(k) is None by {
                            assert(s1.lookup(k) == before.lookup(k));
                        }
                    }
                    return Some(result);
                },
                None => {
                    return None;
                },
            }
        }
        if let Some(i) = self.warm.find(key) {
            proof {
                self.warm.lemma_at(i as int);
            }
            let placeholder = TieredEntry { value: Vec::new(), access_count: 0 };
            let mut entry = self.warm.replace_at(i, placeholder);
            entry.access_count = entry.access_count + 1;
            let result = entry.value.clone();
            proof {
                assert(result@ =~= entry.value@);
            }
            let _ = self.warm.replace_at(i, entry);
            proof {
                self.warm.lemma_len();
                before.warm.lemma_len();
                assert(self.warm.view() =~= before.warm.view().insert(key@, entry));
                assert(tier_view(self.warm) =~= tier_view(before.warm).insert(key@, (entry.value@, entry.access_count)));
                assert(self.warm.view().dom() =~= before.warm.view().dom());
            }
            return Some(result);
        }
        None
    }

    /// Store `value` under `key` in the hot tier (access count 1), removing any
    /// warm copy and spilling first when the hot tier is full.
    pub fn put(&mut self, key: &str, value: Vec<u8>)
        requires
            old(self).wf(),
            old(self).counters().1 < u64::MAX,
            old(self).counters().2 < u64::MAX,
        ensures
            final(self).wf(),
            final(self).spec_config() == old(self).spec_config(),
            final(self).hot_view().contains_key(key@),
            final(self).hot_view()[key@] == (value@, 1u32),
            final(self).lookup(key@) == Some(value@),
            !final(self).warm_view().contains_key(key@),
            final(self).counters().0 == old(self).counters().0,
            ({
                let w0 = old(self).warm_view().remove(key@);
                let sp = spills(old(self).hot_view(), old(self).spec_config().hot_capacity)
                    && !old(self).hot_view().contains_key(key@);
                &&& final(self).hot_view() == (if sp {
                    old(self).hot_view().remove(victim(old(self).hot_view()))
                } else {
                    old(self).hot_view()
                }).insert(key@, (value@, 1u32))
                &&& final(self).warm_view() == if sp {
                    spilled_warm(old(self).hot_view(), w0, old(self).spec_config().warm_capacity)
                } else {
                    w0
                }
                &&& final(self).counters().1 == old(self).counters().1 + if sp {
                    1int
                } else {
                    0int
                }
                &&& final(self).counters().2 == old(self).counters().2 + if sp && spill_evicts(
                    w0,
                    old(self).spec_config().warm_capacity,
                ) {
                    1int
                } else {
                    0int
                }
            }),
            forall|k: Seq<char>|
                k != key@ ==> #[trigger] final(self).lookup(k) == old(self).lookup(k) || final(self).lookup(k)
                    is None,
    {
        let ghost before = *self;
        let _ = self.warm.remove(key);
        proof {
            lemma_shrink(before.warm, self.warm, key@);
            assert(tier_view(self.warm) =~= tier_view(before.warm).remove(key@));
        }
        let ghost s1 = *self;
        let entry = TieredEntry { value, access_count: 1 };
        let spill = self.hot.len() >= self.config.hot_capacity && !self.hot.contains_key(key);
        if spill {
            self.spill_one();
        }
        let ghost mid = *self;
        proof {
            lemma_tier_dom(s1.hot);
            lemma_tier_dom(s1.warm);
            lemma_tier_dom(mid.hot);
            lemma_tier_dom(mid.warm);
            if spill {
                assert(s1.lookup(key@) is None);
                assert(mid.lookup(key@) is None);
            }
            assert(!mid.warm.view().contains_key(key@));
            mid.hot.lemma_len();
            s1.hot.lemma_len();
            s1.warm.lemma_len();
            assert(tier_view(s1.hot).dom().len() == s1.hot.keys().len());
            assert(tier_view(s1.warm).dom().len() == s1.warm.keys().len());
            assert(s1.hot.view().contains_key(key@) == tier_view(s1.hot).contains_key(key@));
        }
        let _ = self.hot.insert(key, entry);
        proof {
            self.hot.lemma_len();
            assert(self.hot.view().dom() =~= mid.hot.view().dom().insert(key@));
            assert(tier_view(self.hot) =~= tier_view(mid.hot).insert(key@, (entry.value@, 1u32)));
            assert(self.hot.view().dom().disjoint(self.warm.view().dom()));
            if !spill && mid.hot.view().contains_key(key@) {
                assert(self.hot.view().dom() =~= mid.hot.view().dom());
            }
            assert forall|k: Seq<char>| k != key@ implies #[trigger] self.lookup(k) == before.lookup(k)
                || self.lookup(k) is None by {
                assert(self.lookup(k) == mid.lookup(k));
                assert(s1.lookup(k) == before.lookup(k));
                assert(mid.lookup(k) == s1.lookup(k) || mid.lookup(k) is None);
            }
        }
    }

    /// Remove `key` from whichever tier holds it; whether it was present.
    pub fn remove(&mut self, key: &str) -> (r: bool)
        requires
            old(self).wf(),
        ensures
            final(self).wf(),
            final(self).spec_config() == old(self).spec_config(),
            final(self).counters() == old(self).counters(),
            r == (old(self).lookup(key@) is Some),
            final(self).hot_view() == old(self).hot_view().remove(key@),
            final(self).warm_view() == old(self).warm_view().remove(key@),
            final(self).lookup(key@) is None,
            forall|k: Seq<char>| k != key@ ==> #[trigger] final(self).lookup(k) == old(self).lookup(k),
    {
        let ghost before = *self;
        proof {
            lemma_tier_dom(before.hot);
            lemma_tier_dom(before.warm);
        }
        let in_hot = self.hot.remove(key).is_some();
        proof {
            lemma_shrink(before.hot, self.hot, key@);
            assert(tier_view(self.hot) =~= tier_view(before.hot).remove(key@));
        }
        if in_hot {
            proof {
                assert(!before.warm.view().contains_key(key@));
                assert(tier_view(self.warm) =~= tier_view(before.warm).remove(key@));
            }
            return true;
        }
        let ghost s1 = *self;
        let r = self.warm.remove(key).is_some();
        proof {
            lemma_shrink(s1.warm, self.warm, key@);
            assert(tier_view(self.warm) =~= tier_view(before.warm).remove(key@));
        }
        r
    }

    /// Whether the hot tier holds `key`.
    pub fn hot_contains(&self, key: &str) -> (r: bool)
        requires
            self.wf(),
        ensures
            r == self.hot_view().contains_key(key@),
    {
        proof {
            lemma_tier_dom(self.hot);
        }
        self.hot.contains_key(key)
    }

    /// Number of hot entries.
    pub fn hot_len(&self) -> (n: usize)
        requires
            self.wf(),
        ensures
            n == self.hot_view().dom().len(),
    {
        proof {
            self.hot.lemma_len();
            assert(self.hot_view().dom() =~= self.hot.view().dom());
        }
        self.hot.len()
    }

    /// Number of warm entries.
    pub fn warm_len(&self) -> (n: usize)
        requires
            self.wf(),
        ensures
            n == self.warm_view().dom().len(),
    {
        proof {
            self.warm.lemma_len();
            assert(self.warm_view().dom() =~= self.warm.view().dom());
        }
        self.warm.len()
    }

    /// Number of entries in both tiers.
    pub fn len(&self) -> (n: usize)
        requires
            self.wf(),
            self.hot_view().dom().len() + self.warm_view().dom().len() <= usize::MAX,
        ensures
            n == self.hot_view().dom().len() + self.warm_view().dom().len(),
    {
        proof {
            self.hot.lemma_len();
            self.warm.lemma_len();
            assert(self.hot_view().dom() =~= self.hot.view().dom());
            assert(self.warm_view().dom() =~= self.warm.view().dom());
        }
        self.hot.len() + self.warm.len()
    }

    /// Whether both tiers are empty.
    pub fn is_empty(&self) -> (r: bool)
        requires
            self.wf(),
        ensures
            r == (self.hot_view().dom().len() == 0 && self.warm_view().dom().len() == 0),
    {
        proof {
            self.hot.lemma_len();
            self.warm.lemma_len();
            assert(self.hot_view().dom() =~= self.hot.view().dom());
            assert(self.warm_view().dom() =~= self.warm.view().dom());
        }
        self.hot.len() == 0 && self.warm.len() == 0
    }

    /// Whether either tier holds `key`.
    pub fn contains(&self, key: &str) -> (r: bool)
        requires
            self.wf(),
        ensures
            r == (self.lookup(key@) is Some),
    {
        self.hot.contains_key(key) || self.warm.contains_key(key)
    }

    /// Number of promotions to the hot tier.
    pub fn promotions(&self) -> (n: u64)
        ensures
            n == self.counters().0,
    {
        self.promotions
    }

    /// Number of demotions to the warm tier.
    pub fn demotions(&self) -> (n: u64)
        ensures
            n == self.counters().1,
    {
        self.demotions
    }

    /// Number of evictions from the warm tier.
    pub fn evictions(&self) -> (n: u64)
        ensures
            n == self.counters().2,
    {
        self.evictions
    }

    /// Empty both tiers (the counters are kept).
    pub fn clear(&mut self)
        requires
            old(self).wf(),
        ensures
            final(self).wf(),
            final(self).spec_config() == old(self).spec_config(),
            final(self).counters() == old(self).counters(),
            final(self).hot_view() == Map::<Seq<char>, (Seq<u8>, u32)>::empty(),
            final(self).warm_view() == Map::<Seq<char>, (Seq<u8>, u32)>::empty(),
    {
        self.hot.clear();
        self.warm.clear();
        proof {
            self.hot.lemma_len();
            self.warm.lemma_len();
            assert(self.hot_view() =~= Map::<Seq<char>, (Seq<u8>, u32)>::empty());
            assert(self.warm_view() =~= Map::<Seq<char>, (Seq<u8>, u32)>::empty());
        }
    }
}

/// A tier's contents have the same keys as the tier itself.
proof fn lemma_tier_dom(m: StrMap<TieredEntry>)
    ensures
        tier_view(m).dom() == m.view().dom(),
{
    assert(tier_view(m).dom() =~= m.view().dom());
}

/// Removing a key from a sorted tier removes it from its key set and never
/// makes it longer.
proof fn lemma_shrink(a: StrMap<TieredEntry>, b: StrMap<TieredEntry>, k: Seq<char>)
    requires
        a.wf(),
        b.wf(),
        b.view() == a.view().remove(k),
    ensures
        b.view().dom() == a.view().dom().remove(k),
        b.keys().len() <= a.keys().len(),
        a.view().contains_key(k) ==> b.keys().len() == a.keys().len() - 1,
{
    a.lemma_len();
    b.lemma_len();
    assert(b.view().dom() =~= a.view().dom().remove(k));
    if !a.view().contains_key(k) {
        assert(a.view().dom().remove(k) =~= a.view().dom());
    }
}

} // verus!
