//! Distributed key invalidation as a CRDT.
//!
//! Each node keeps, per invalidated key, the clock of its latest invalidation
//! and the node that issued it. Merging two logs keeps, per key, the entry with
//! the newer clock, so replicas converge whatever the order of merges.
use vstd::prelude::*;

use crate::str_map::{key_bytes, lemma_prefix_excludes, lemma_prefix_push, lex_lt, StrMap};

verus! {

/// Logical clock: a timestamp and a counter that orders events within it.
#[derive(Debug, Clone, Copy, PartialEq, Eq, PartialOrd, Ord, Structural)]
pub struct CrdtClock {
    /// Logical timestamp.
    pub timestamp: u64,
    /// Counter within the timestamp.
    pub counter: u32,
}

/// Clock order: by timestamp, then by counter (the order that `Ord` derives).
pub open spec fn clock_lt(a: CrdtClock, b: CrdtClock) -> bool {
    a.timestamp < b.timestamp || (a.timestamp == b.timestamp && a.counter < b.counter)
}

/// `a` is at least `b` in clock order.
pub open spec fn clock_ge(a: CrdtClock, b: CrdtClock) -> bool {
    !clock_lt(a, b)
}

/// The clock that merging `a` with `b` produces.
pub open spec fn spec_clock_merge(a: CrdtClock, b: CrdtClock) -> CrdtClock {
    let ts = if a.timestamp > b.timestamp { a.timestamp } else { b.timestamp };
    let ctr = if a.timestamp == b.timestamp {
        if a.counter > b.counter { a.counter } else { b.counter }
    } else if a.timestamp > b.timestamp {
        a.counter
    } else {
        b.counter
    };
    CrdtClock { timestamp: ts, counter: (ctr + 1) as u32 }
}

/// Whether merging `a` with `b` keeps the counter in range.
pub open spec fn clock_merge_fits(a: CrdtClock, b: CrdtClock) -> bool {
    if a.timestamp == b.timestamp {
        a.counter < u32::MAX && b.counter < u32::MAX
    } else if a.timestamp > b.timestamp {
        a.counter < u32::MAX
    } else {
        b.counter < u32::MAX
    }
}

/// Whether `a < b` in clock order.
pub fn clock_less(a: CrdtClock, b: CrdtClock) -> (r: bool)
    ensures
        r == clock_lt(a, b),
{
    a.timestamp < b.timestamp || (a.timestamp == b.timestamp && a.counter < b.counter)
}

impl CrdtClock {
    /// A clock with the given timestamp and counter.
    pub fn new(timestamp: u64, counter: u32) -> (c: Self)
        ensures
            c.timestamp == timestamp,
            c.counter == counter,
    {
        CrdtClock { timestamp, counter }
    }

    /// The next clock: same timestamp, counter plus one.
    pub fn tick(self) -> (c: Self)
        requires
            self.counter < u32::MAX,
        ensures
            c.timestamp == self.timestamp,
            c.counter == self.counter + 1,
            clock_lt(self, c),
    {
        CrdtClock { timestamp: self.timestamp, counter: self.counter + 1 }
    }

    /// Merge with a remote clock: the larger timestamp, with the counter that
    /// goes with it (the larger one on a tie), plus one.
    pub fn merge(self, other: Self) -> (c: Self)
        requires
            clock_merge_fits(self, other),
        ensures
            c == spec_clock_merge(self, other),
            clock_lt(self, c),
            clock_lt(other, c),
    {
        let ts = if self.timestamp > other.timestamp {
            self.timestamp
        } else {
            other.timestamp
        };
        let ctr = if self.timestamp == other.timestamp {
            if self.counter > other.counter {
                self.counter
            } else {
                other.counter
            }
        } else if self.timestamp > other.timestamp {
            self.counter
        } else {
            other.counter
        };
        CrdtClock { timestamp: ts, counter: ctr + 1 }
    }
}

impl Default for CrdtClock {
    fn default() -> (c: Self)
        ensures
            c.timestamp == 0,
            c.counter == 0,
    {
        CrdtClock::new(0, 0)
    }
}

/// Clock merge is commutative.
pub proof fn lemma_clock_merge_commutative(a: CrdtClock, b: CrdtClock)
    ensures
        spec_clock_merge(a, b) == spec_clock_merge(b, a),
        clock_merge_fits(a, b) == clock_merge_fits(b, a),
{
}

/// A merged clock is strictly newer than both of its inputs.
pub proof fn lemma_clock_merge_dominates(a: CrdtClock, b: CrdtClock)
    requires
        clock_merge_fits(a, b),
    ensures
        clock_lt(a, spec_clock_merge(a, b)),
        clock_lt(b, spec_clock_merge(a, b)),
{
}

/// One invalidation event.
#[derive(Debug, Clone, PartialEq, Eq)]
pub struct InvalidationEntry {
    /// The invalidated key.
    pub key: String,
    /// Clock of the invalidation.
    pub clock: CrdtClock,
    /// Node that issued it.
    pub node_id: u32,
}

/// Per-key entry of a merged log: the local entry unless the remote one has a
/// strictly newer clock.
pub open spec fn merge_entry(
    local: Map<Seq<char>, (CrdtClock, u32)>,
    remote: Map<Seq<char>, (CrdtClock, u32)>,
    k: Seq<char>,
) -> (CrdtClock, u32) {
    if local.contains_key(k) && (!remote.contains_key(k) || clock_ge(local[k].0, remote[k].0)) {
        local[k]
    } else {
        remote[k]
    }
}

/// The entries of `local` after merging `remote` into it.
pub open spec fn merge_maps(
    local: Map<Seq<char>, (CrdtClock, u32)>,
    remote: Map<Seq<char>, (CrdtClock, u32)>,
) -> Map<Seq<char>, (CrdtClock, u32)> {
    Map::new(
        |k: Seq<char>| local.contains_key(k) || remote.contains_key(k),
        |k: Seq<char>| merge_entry(local, remote, k),
    )
}

/// Merging the same remote log a second time changes nothing.
pub proof fn lemma_merge_idempotent(
    local: Map<Seq<char>, (CrdtClock, u32)>,
    remote: Map<Seq<char>, (CrdtClock, u32)>,
)
    ensures
        merge_maps(merge_maps(local, remote), remote) == merge_maps(local, remote),
{
    let m = merge_maps(local, remote);
    assert forall|k: Seq<char>| #[trigger] merge_maps(m, remote).contains_key(k) implies merge_maps(
        m,
        remote,
    )[k] == m[k] by {
        if remote.contains_key(k) {
            assert(clock_ge(m[k].0, remote[k].0));
        }
    }
    assert(merge_maps(m, remote) =~= m);
}

/// Merging in either order gives the same keys with the same clocks (only the
/// issuing node of two entries with equal clocks may differ).
pub proof fn lemma_merge_commutative_clocks(
    a: Map<Seq<char>, (CrdtClock, u32)>,
    b: Map<Seq<char>, (CrdtClock, u32)>,
)
    ensures
        merge_maps(a, b).dom() == merge_maps(b, a).dom(),
        forall|k: Seq<char>|
            #[trigger] merge_maps(a, b).contains_key(k) ==> merge_maps(a, b)[k].0 == merge_maps(
                b,
                a,
            )[k].0,
{
    assert(merge_maps(a, b).dom() =~= merge_maps(b, a).dom());
}

/// After a merge every key holds a clock at least as new as either side's.
pub proof fn lemma_merge_keeps_newest(
    a: Map<Seq<char>, (CrdtClock, u32)>,
    b: Map<Seq<char>, (CrdtClock, u32)>,
    k: Seq<char>,
)
    ensures
        a.contains_key(k) ==> clock_ge(merge_maps(a, b)[k].0, a[k].0),
        b.contains_key(k) ==> clock_ge(merge_maps(a, b)[k].0, b[k].0),
{
}

/// Invalidation log: a grow-only set of invalidated keys with their latest clocks.
#[derive(Debug)]
pub struct InvalidationLog {
    entries: StrMap<(CrdtClock, u32)>,
    clock: CrdtClock,
    node_id: u32,
}

impl InvalidationLog {
    /// The entries are kept sorted by key.
    pub closed spec fn wf(&self) -> bool {
        self.entries.wf()
    }

    /// Invalidated keys, each with its clock and issuing node.
    pub closed spec fn view(&self) -> Map<Seq<char>, (CrdtClock, u32)> {
        self.entries.view()
    }

    /// Local clock.
    pub closed spec fn spec_clock(&self) -> CrdtClock {
        self.clock
    }

    /// This node's id.
    pub closed spec fn spec_node_id(&self) -> u32 {
        self.node_id
    }

    /// Keys in the order `entries` lists them.
    pub closed spec fn key_order(&self) -> Seq<Seq<char>> {
        self.entries.keys()
    }

    /// In a well-formed log the invalidated keys are finitely many, and
    /// `key_order` lists each of them once, in increasing order of their
    /// UTF-8 bytes.
    pub proof fn lemma_wf(&self)
        requires
            self.wf(),
        ensures
            self@.dom().finite(),
            self.key_order().len() == self@.dom().len(),
            self.key_order().to_set() == self@.dom(),
            self.key_order().no_duplicates(),
            forall|i: int, j: int|
                0 <= i < j < self.key_order().len() ==> lex_lt(
                    key_bytes(#[trigger] self.key_order()[i]),
                    key_bytes(#[trigger] self.key_order()[j]),
                ),
    {
        self.entries.lemma_len();
        self.entries.lemma_distinct();
        assert(self.key_order().to_set() =~= self@.dom());
    }

    /// An empty log for node `node_id`.
    pub fn new(node_id: u32) -> (l: Self)
        ensures
            l.wf(),
            l@ == Map::<Seq<char>, (CrdtClock, u32)>::empty(),
            l.spec_clock() == (CrdtClock { timestamp: 0, counter: 0 }),
            l.spec_node_id() == node_id,
    {
        InvalidationLog { entries: StrMap::new(), clock: CrdtClock::new(0, 0), node_id }
    }

    /// Set the local clock (for instance to resume from a persisted clock).
    pub fn set_clock(&mut self, clock: CrdtClock)
        requires
            old(self).wf(),
        ensures
            final(self).wf(),
            final(self)@ == old(self)@,
            final(self).spec_clock() == clock,
            final(self).spec_node_id() == old(self).spec_node_id(),
    {
        self.clock = clock;
    }

    /// Invalidate `key`: tick the local clock and record it for the key.
    pub fn invalidate(&mut self, key: &str) -> (c: CrdtClock)
        requires
            old(self).wf(),
            old(self).spec_clock().counter < u32::MAX,
        ensures
            final(self).wf(),
            c.timestamp == old(self).spec_clock().timestamp,
            c.counter == old(self).spec_clock().counter + 1,
            final(self).spec_clock() == c,
            final(self).spec_node_id() == old(self).spec_node_id(),
            final(self)@ == old(self)@.insert(key@, (c, old(self).spec_node_id())),
            final(self)@.dom().finite(),
    {
        self.clock = self.clock.tick();
        let clock = self.clock;
        self.entries.insert(key, (clock, self.node_id));
        proof {
            self.entries.lemma_len();
        }
        clock
    }

    /// Whether `key` has been invalidated.
    pub fn is_invalid(&self, key: &str) -> (r: bool)
        requires
            self.wf(),
        ensures
            r == self@.contains_key(key@),
    {
        self.entries.contains_key(key)
    }

    /// Clock of the latest invalidation of `key`.
    pub fn invalidation_clock(&self, key: &str) -> (r: Option<CrdtClock>)
        requires
            self.wf(),
        ensures
            r is None <==> !self@.contains_key(key@),
            r matches Some(c) ==> c == self@[key@].0,
    {
        match self.entries.get(key) {
            Some(e) => Some(e.0),
            None => None,
        }
    }

    /// Whether `key` was invalidated after `insert_clock`.
    pub fn is_stale(&self, key: &str, insert_clock: CrdtClock) -> (r: bool)
        requires
            self.wf(),
        ensures
            r == (self@.contains_key(key@) && clock_lt(insert_clock, self@[key@].0)),
    {
        match self.entries.get(key) {
            Some(e) => clock_less(insert_clock, e.0),
            None => false,
        }
    }

    /// Merge a remote log: advance the local clock past both clocks and keep,
    /// per key, the entry with the newer clock (the local one on a tie).
    pub fn merge(&mut self, remote: &Self)
        requires
            old(self).wf(),
            remote.wf(),
            clock_merge_fits(old(self).spec_clock(), remote.spec_clock()),
        ensures
            final(self).wf(),
            final(self).spec_clock() == spec_clock_merge(old(self).spec_clock(), remote.spec_clock()),
            final(self).spec_node_id() == old(self).spec_node_id(),
            final(self)@ == merge_maps(old(self)@, remote@),
            final(self)@.dom().finite(),
    {
        self.clock = self.clock.merge(remote.clock);
        let ghost local = self.entries.view();
        let ghost rkeys = remote.entries.keys();
        let n = remote.entries.len();
        proof {
            remote.entries.lemma_distinct();
        }
        let mut i: usize = 0;
        while i < n
            invariant
                n == rkeys.len(),
                i <= n,
                rkeys == remote.entries.keys(),
                rkeys.no_duplicates(),
                remote.entries.wf(),
                self.entries.wf(),
                self.clock == spec_clock_merge(old(self).clock, remote.clock),
                self.node_id == old(self).node_id,
                local == old(self).entries.view(),
                forall|k: Seq<char>|
                    #[trigger] self.entries.view().contains_key(k) == (local.contains_key(k)
                        || rkeys.subrange(0, i as int).contains(k)),
                forall|k: Seq<char>|
                    #[trigger] self.entries.view().contains_key(k) ==> self.entries.view()[k] == if rkeys.subrange(
                        0,
                        i as int,
                    ).contains(k) {
                        merge_entry(local, remote.entries.view(), k)
                    } else {
                        local[k]
                    },
            decreases n - i,
        {
            let key = remote.entries.key_at(i).as_str();
            let rv = *remote.entries.value_at(i);
            let ghost rk = rkeys[i as int];
            proof {
                remote.entries.lemma_at(i as int);
                lemma_prefix_excludes(rkeys, i as int);
            }
            let keep = match self.entries.get(key) {
                Some(lv) => !clock_less(lv.0, rv.0),
                None => false,
            };
            let ghost before = self.entries.view();
            if !keep {
                self.entries.insert(key, rv);
            }
            proof {
                assert forall|k: Seq<char>| rkeys.subrange(0, i + 1).contains(k) == (rkeys.subrange(
                    0,
                    i as int,
                ).contains(k) || k == rk) by {
                    lemma_prefix_push(rkeys, i as int, k);
                }
            }
            i = i + 1;
        }
        proof {
            assert(rkeys.subrange(0, n as int) =~= rkeys);
            assert forall|k: Seq<char>| rkeys.contains(k) == remote.entries.view().contains_key(k) by {}
            assert(self.entries.view() =~= merge_maps(local, remote.entries.view()));
            self.entries.lemma_len();
        }
    }

    /// The invalidation events, in key order.
    pub fn entries(&self) -> (v: Vec<InvalidationEntry>)
        requires
            self.wf(),
        ensures
            v@.len() == self.key_order().len(),
            v@.len() == self@.dom().len(),
            forall|i: int, j: int|
                0 <= i < j < v@.len() ==> lex_lt(key_bytes((#[trigger] v@[i]).key@), key_bytes((#[trigger] v@[j]).key@)),
            forall|k: Seq<char>| #[trigger] self@.contains_key(k) ==> exists|i: int| 0 <= i < v@.len() && (#[trigger] v@[i]).key@ == k,
            forall|i: int|
                0 <= i < v@.len() ==> {
                    &&& (#[trigger] v@[i]).key@ == self.key_order()[i]
                    &&& self@.contains_key(v@[i].key@)
                    &&& v@[i].clock == self@[v@[i].key@].0
                    &&& v@[i].node_id == self@[v@[i].key@].1
                },
    {
        let n = self.entries.len();
        let mut v: Vec<InvalidationEntry> = Vec::with_capacity(n);
        let mut i: usize = 0;
        while i < n
            invariant
                n == self.key_order().len(),
                self.entries.wf(),
                i <= n,
                v@.len() == i,
                forall|j: int|
                    0 <= j < i ==> {
                        &&& (#[trigger] v@[j]).key@ == self.key_order()[j]
                        &&& self@.contains_key(v@[j].key@)
                        &&& v@[j].clock == self@[v@[j].key@].0
                        &&& v@[j].node_id == self@[v@[j].key@].1
                    },
            decreases n - i,
        {
            let k = self.entries.key_at(i).clone();
            let e = *self.entries.value_at(i);
            proof {
                self.entries.lemma_at(i as int);
            }
            v.push(InvalidationEntry { key: k, clock: e.0, node_id: e.1 });
            i = i + 1;
        }
        proof {
            self.lemma_wf();
            assert forall|k: Seq<char>| #[trigger] self@.contains_key(k) implies exists|i: int|
                0 <= i < v@.len() && (#[trigger] v@[i]).key@ == k by {
                let i = self.key_order().index_of(k);
                assert(v@[i].key@ == k);
            }
        }
        v
    }

    /// Number of invalidated keys.
    pub fn len(&self) -> (n: usize)
        requires
            self.wf(),
        ensures
            n == self@.dom().len(),
            self@.dom().finite(),
    {
        proof {
            self.entries.lemma_len();
        }
        self.entries.len()
    }

    /// Whether no key has been invalidated.
    pub fn is_empty(&self) -> (r: bool)
        requires
            self.wf(),
        ensures
            r == (self@.dom().len() == 0),
    {
        proof {
            self.entries.lemma_len();
        }
        self.entries.len() == 0
    }

    /// Drop every entry whose clock is older than `threshold`.
    pub fn purge_before(&mut self, threshold: CrdtClock)
        requires
            old(self).wf(),
        ensures
            final(self).wf(),
            final(self).spec_clock() == old(self).spec_clock(),
            final(self).spec_node_id() == old(self).spec_node_id(),
            forall|k: Seq<char>|
                #[trigger] final(self)@.contains_key(k) == (old(self)@.contains_key(k) && clock_ge(
                    old(self)@[k].0,
                    threshold,
                )),
            forall|k: Seq<char>| #[trigger] final(self)@.contains_key(k) ==> final(self)@[k] == old(self)@[k],
    {
        let ghost orig = self.entries.view();
        let ghost okeys = self.entries.keys();
        let ghost ovals = self.entries.values();
        proof {
            self.entries.lemma_distinct();
            assert(okeys.subrange(0, okeys.len() as int) =~= okeys);
            assert(ovals.subrange(0, ovals.len() as int) =~= ovals);
        }
        let mut i: usize = self.entries.len();
        while i > 0
            invariant
                i <= okeys.len(),
                self.entries.wf(),
                orig == old(self).entries.view(),
                okeys == old(self).entries.keys(),
                ovals == old(self).entries.values(),
                okeys.no_duplicates(),
                self.clock == old(self).clock,
                self.node_id == old(self).node_id,
                i <= self.entries.keys().len(),
                self.entries.keys().subrange(0, i as int) == okeys.subrange(0, i as int),
                self.entries.values().subrange(0, i as int) == ovals.subrange(0, i as int),
                forall|k: Seq<char>|
                    #[trigger] self.entries.view().contains_key(k) == (orig.contains_key(k) && (
                    okeys.subrange(0, i as int).contains(k) || clock_ge(orig[k].0, threshold))),
                forall|k: Seq<char>|
                    #[trigger] self.entries.view().contains_key(k) ==> self.entries.view()[k] == orig[k],
            decreases i,
        {
            i = i - 1;
            let c = self.entries.value_at(i).0;
            let ghost k = okeys[i as int];
            proof {
                assert(self.entries.keys()[i as int] == self.entries.keys().subrange(0, i + 1)[i as int]);
                assert(self.entries.values()[i as int] == self.entries.values().subrange(0, i + 1)[i as int]);
                self.entries.lemma_at(i as int);
                assert forall|k2: Seq<char>| okeys.subrange(0, i + 1).contains(k2) == (okeys.subrange(
                    0,
                    i as int,
                ).contains(k2) || k2 == k) by {
                    lemma_prefix_push(okeys, i as int, k2);
                }
                lemma_prefix_excludes(okeys, i as int);
            }
            if clock_less(c, threshold) {
                let ghost before = self.entries;
                self.entries.remove_at(i);
                proof {
                    assert(self.entries.keys().subrange(0, i as int) =~= before.keys().subrange(0, i as int));
                    assert(self.entries.values().subrange(0, i as int) =~= before.values().subrange(0, i as int));
                }
            } else {
                proof {
                    assert(self.entries.keys().subrange(0, i as int) =~= self.entries.keys().subrange(0, i + 1).subrange(0, i as int));
                    assert(self.entries.values().subrange(0, i as int) =~= self.entries.values().subrange(0, i + 1).subrange(0, i as int));
                    assert(okeys.subrange(0, i as int) =~= okeys.subrange(0, i + 1).subrange(0, i as int));
                    assert(ovals.subrange(0, i as int) =~= ovals.subrange(0, i + 1).subrange(0, i as int));
                }
            }
        }
        proof {
            assert forall|k: Seq<char>| !okeys.subrange(0, 0).contains(k) by {}
        }
    }

    /// The local clock.
    pub fn current_clock(&self) -> (c: CrdtClock)
        ensures
            c == self.spec_clock(),
    {
        self.clock
    }

    /// This node's id.
    pub fn node_id(&self) -> (n: u32)
        ensures
            n == self.spec_node_id(),
    {
        self.node_id
    }
}

impl Default for InvalidationLog {
    /// An empty log for node 0, its clock at zero.
    fn default() -> (l: Self)
        ensures
            l.wf(),
            l@ == Map::<Seq<char>, (CrdtClock, u32)>::empty(),
            l.spec_clock() == (CrdtClock { timestamp: 0, counter: 0 }),
            l.spec_node_id() == 0,
    {
        Self::new(0)
    }
}

impl Clone for InvalidationLog {
    fn clone(&self) -> (c: Self)
        ensures
            self.wf() ==> c.wf(),
            c@ == self@,
            c.spec_clock() == self.spec_clock(),
            c.spec_node_id() == self.spec_node_id(),
    {
        InvalidationLog { entries: self.entries.clone(), clock: self.clock, node_id: self.node_id }
    }
}

} // verus!
