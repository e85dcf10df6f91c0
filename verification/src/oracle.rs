//! Markov prefetch oracle: counts transitions between consecutive accesses in a
//! Count-Min sketch and recommends prefetching a candidate once the transition
//! from the current key to it has been seen often enough.
//!
//! `MarkovOracle` is owned by one user and keeps plain counters, so its
//! behaviour is stated exactly. `SharedOracle` is shared between threads and
//! keeps its counters in relaxed atomics: what a load returns depends on the
//! other threads, so only the decisions taken on loaded values are stated.
use vstd::prelude::*;
use vstd::wrapping::u64_specs::{wrapping_add, wrapping_mul};
use std::sync::atomic::{AtomicU64, AtomicU8, Ordering};

use crate::sketch::{min_u8, sat_add_u8, spec_index, CountMinSketch, GOLDEN};

verus! {

/// Transition count from which a candidate is worth prefetching.
pub const PREFETCH_THRESHOLD: u8 = 3;

/// Number of recorded transitions between two halvings of the counters.
pub const AGING_PERIOD: u64 = 50000;

/// Key of the transition from `a` to `b`: `a` exclusive-or `b` rotated left by
/// 32 bits.
pub open spec fn spec_mix(a: u64, b: u64) -> u64 {
    a ^ ((b << 32u64) | (b >> 32u64))
}

/// Whether an estimated transition count recommends prefetching.
pub open spec fn spec_should_prefetch(estimate: u8) -> bool {
    estimate >= PREFETCH_THRESHOLD
}

/// Whether a transition count calls for halving the counters.
pub open spec fn spec_aging_due(count: u64) -> bool {
    count % AGING_PERIOD == 0
}

/// Whether an estimated transition count recommends prefetching.
pub fn prefetch_decision(estimate: u8) -> (r: bool)
    ensures
        r == spec_should_prefetch(estimate),
{
    estimate >= PREFETCH_THRESHOLD
}

/// Whether the counters are halved after the transition numbered `count`.
pub fn aging_due(count: u64) -> (r: bool)
    ensures
        r == spec_aging_due(count),
{
    count % AGING_PERIOD == 0
}

/// Column of `key_hash` in row `row` of a sketch `w` counters wide, by masking
/// (`w` a power of two).
pub open spec fn spec_mask_index(key_hash: u64, row: usize, w: usize) -> usize {
    (wrapping_add(key_hash, wrapping_mul(row as u64, GOLDEN)) as usize) & ((w - 1) as usize)
}

/// A counter after one more occurrence: one more, or 255 when it is already
/// there.
pub open spec fn spec_sat_inc(v: u8) -> u8 {
    if v < 255 {
        (v + 1) as u8
    } else {
        v
    }
}

/// A counter after one more occurrence: one more, or 255 when it is already
/// there.
pub fn sat_inc(v: u8) -> (r: u8)
    ensures
        r == spec_sat_inc(v),
        r == if v < 255 {
            (v + 1) as u8
        } else {
            v
        },
{
    if v < 255 {
        v + 1
    } else {
        v
    }
}

/// A counter halved by aging, rounding down.
pub fn halved(v: u8) -> (r: u8)
    ensures
        r == v / 2,
{
    assert(v >> 1u8 == v / 2) by (bit_vector);
    v >> 1u8
}

/// Smallest of the counters of `s`, or 255 when there are none.
pub open spec fn spec_row_min(s: Seq<u8>) -> u8
    decreases s.len(),
{
    if s.len() == 0 {
        255
    } else {
        min_u8(spec_row_min(s.drop_last()), s.last())
    }
}

/// Smallest of the counters read from the rows, or 255 when there are none.
pub fn row_min(vals: &[u8]) -> (e: u8)
    ensures
        e == spec_row_min(vals@),
{
    let mut m: u8 = 255;
    let mut i: usize = 0;
    while i < vals.len()
        invariant
            i <= vals@.len(),
            m == spec_row_min(vals@.subrange(0, i as int)),
        decreases vals@.len() - i,
    {
        proof {
            assert(vals@.subrange(0, i + 1).drop_last() =~= vals@.subrange(0, i as int));
        }
        if vals[i] < m {
            m = vals[i];
        }
        i = i + 1;
    }
    proof {
        assert(vals@.subrange(0, vals@.len() as int) =~= vals@);
    }
    m
}

/// Count-Min sketch of `D` rows of `W` atomic counters, flattened row by row.
struct AtomicSketch<const W: usize, const D: usize> {
    table: Vec<AtomicU8>,
}

/// A position as an integer.
pub open spec fn widen(i: usize) -> int {
    i as int
}

/// Position in a flattened table `w` counters wide of the counter that
/// `key_hash` maps to in row `row`.
pub open spec fn cell_pos(key_hash: u64, row: int, w: usize) -> int {
    row * w + spec_mask_index(key_hash, row as usize, w) as int
}

impl<const W: usize, const D: usize> AtomicSketch<W, D> {
    /// The table holds `W * D` counters.
    spec fn wf(&self) -> bool {
        self.table@.len() == W * D
    }

    /// A load of the counter at position `pos` gave `v`.
    spec fn loaded(&self, pos: int, v: u8) -> bool {
        call_ensures(AtomicU8::load, (&self.table@[pos], Ordering::Relaxed), v)
    }

    /// `v` was stored in the counter at position `pos`.
    spec fn stored(&self, pos: int, v: u8) -> bool {
        call_ensures(AtomicU8::store, (&self.table@[pos], v, Ordering::Relaxed), ())
    }

    /// The counter at position `pos` was read, and, unless the value read was
    /// 255, that value plus one was stored back.
    spec fn counted_at(&self, pos: int) -> bool {
        exists|v: u8| #[trigger] self.loaded(pos, v) && (v < 255 ==> self.stored(pos, spec_sat_inc(v)))
    }

    /// The counter at position `pos` was read and half the value read was
    /// stored back.
    spec fn halved_at(&self, pos: int) -> bool {
        exists|v: u8| #[trigger] self.loaded(pos, v) && self.stored(pos, v / 2)
    }

    /// A table of `W * D` counters at zero.
    fn new() -> (s: Self)
        requires
            W * D <= usize::MAX,
        ensures
            s.wf(),
    {
        let len = W * D;
        let mut table: Vec<AtomicU8> = Vec::new();
        let mut i: usize = 0;
        while i < len
            invariant
                len == W * D,
                i <= len,
                table@.len() == i,
            decreases len - i,
        {
            table.push(AtomicU8::new(0));
            i = i + 1;
        }
        AtomicSketch { table }
    }

    /// Position of row `row`, column `col` in the flattened table.
    fn offset(row: usize, col: usize) -> (o: usize)
        requires
            row < D,
            col < W,
            W * D <= usize::MAX,
        ensures
            o == row * W + col,
            o < W * D,
    {
        assert(row * W + col < W * D) by (nonlinear_arith)
            requires
                row < D,
                col < W,
        ;
        row * W + col
    }

    /// Count one more occurrence of `key_hash` in each row; a counter at 255
    /// stays there.
    fn add(&self, key_hash: u64)
        requires
            self.wf(),
            W > 0,
            W * D <= usize::MAX,
        ensures
            forall|i: int| 0 <= i < D ==> #[trigger] self.counted_at(cell_pos(key_hash, i, W)),
    {
        let mut i: usize = 0;
        while i < D
            invariant
                self.wf(),
                W > 0,
                W * D <= usize::MAX,
                i <= D,
                forall|j: int| 0 <= j < i ==> #[trigger] self.counted_at(cell_pos(key_hash, j, W)),
            decreases D - i,
        {
            let o = Self::offset(i, Self::index(key_hash, i));
            let val = self.table[o].load(Ordering::Relaxed);
            if val < 255 {
                self.table[o].store(sat_inc(val), Ordering::Relaxed);
            }
            proof {
                assert(self.loaded(widen(o), val));
                assert(self.counted_at(cell_pos(key_hash, widen(i), W)));
            }
            i = i + 1;
        }
    }

    /// Smallest counter of `key_hash` over the rows (255 with no rows): the
    /// counters are read, one per row, and `row_min` takes their minimum.
    fn estimate(&self, key_hash: u64) -> (e: u8)
        requires
            self.wf(),
            W > 0,
            W * D <= usize::MAX,
        ensures
            exists|vals: Seq<u8>|
                {
                    &&& vals.len() == D
                    &&& e == #[trigger] spec_row_min(vals)
                    &&& forall|i: int| 0 <= i < D ==> self.loaded(cell_pos(key_hash, i, W), #[trigger] vals[i])
                },
    {
        let mut vals: Vec<u8> = Vec::with_capacity(D);
        let mut i: usize = 0;
        while i < D
            invariant
                self.wf(),
                W > 0,
                W * D <= usize::MAX,
                i <= D,
                vals@.len() == i,
                forall|j: int| 0 <= j < i ==> self.loaded(cell_pos(key_hash, j, W), #[trigger] vals@[j]),
            decreases D - i,
        {
            let o = Self::offset(i, Self::index(key_hash, i));
            let v = self.table[o].load(Ordering::Relaxed);
            vals.push(v);
            i = i + 1;
        }
        let e = row_min(vals.as_slice());
        proof {
            assert(vals@.len() == D && e == spec_row_min(vals@));
        }
        e
    }

    /// Halve every counter, rounding down.
    fn halve(&self)
        requires
            self.wf(),
        ensures
            forall|pos: int| 0 <= pos < self.table@.len() ==> #[trigger] self.halved_at(pos),
    {
        let mut i: usize = 0;
        while i < self.table.len()
            invariant
                i <= self.table@.len(),
                forall|pos: int| 0 <= pos < i ==> #[trigger] self.halved_at(pos),
            decreases self.table@.len() - i,
        {
            let val = self.table[i].load(Ordering::Relaxed);
            self.table[i].store(halved(val), Ordering::Relaxed);
            proof {
                assert(self.loaded(widen(i), val));
                assert(self.halved_at(widen(i)));
            }
            i = i + 1;
        }
    }

    /// Set every counter to zero.
    fn clear(&self)
        requires
            self.wf(),
        ensures
            forall|pos: int| 0 <= pos < self.table@.len() ==> #[trigger] self.stored(pos, 0),
    {
        let mut i: usize = 0;
        while i < self.table.len()
            invariant
                i <= self.table@.len(),
                forall|pos: int| 0 <= pos < i ==> #[trigger] self.stored(pos, 0),
            decreases self.table@.len() - i,
        {
            self.table[i].store(0, Ordering::Relaxed);
            proof {
                assert(self.stored(widen(i), 0));
            }
            i = i + 1;
        }
    }

    /// Column of `key_hash` in row `row`.
    fn index(key_hash: u64, row: usize) -> (col: usize)
        requires
            W > 0,
        ensures
            col == spec_mask_index(key_hash, row, W),
            col < W,
    {
        let mixed = key_hash.wrapping_add((row as u64).wrapping_mul(GOLDEN));
        let m: usize = W - 1;
        let x = mixed as usize;
        assert(x & m <= m) by (bit_vector);
        x & m
    }
}

/// Access-pattern predictor owned by one user.
pub struct MarkovOracle {
    transitions: CountMinSketch<1024, 2>,
    last_key_hash: Option<u64>,
    total_transitions: u64,
}

impl MarkovOracle {
    /// The counters are well formed.
    pub closed spec fn wf(&self) -> bool {
        self.transitions.wf()
    }

    /// Estimated number of transitions from `from` to `to`.
    pub closed spec fn spec_freq(&self, from: u64, to: u64) -> u8 {
        self.transitions.spec_estimate(spec_mix(from, to))
    }

    /// The transition counters.
    pub closed spec fn table(&self) -> CountMinSketch<1024, 2> {
        self.transitions
    }

    /// The last recorded access, if any since the last reset.
    pub closed spec fn last(&self) -> Option<u64> {
        self.last_key_hash
    }

    /// Number of transitions recorded since the last reset.
    pub closed spec fn recorded(&self) -> u64 {
        self.total_transitions
    }

    /// Every transition count is zero.
    pub closed spec fn is_cold(&self) -> bool {
        self.transitions.all_zero()
    }

    /// With all counters at zero, no transition has been seen.
    pub proof fn lemma_cold_freq(&self, from: u64, to: u64)
        requires
            self.wf(),
            self.is_cold(),
        ensures
            self.spec_freq(from, to) == 0,
    {
        self.transitions.lemma_zero_estimate(spec_mix(from, to));
    }

    /// An oracle that has seen nothing.
    pub fn new() -> (o: Self)
        ensures
            o.wf(),
            o.is_cold(),
            o.last() is None,
            o.recorded() == 0,
    {
        MarkovOracle { transitions: CountMinSketch::new(), last_key_hash: None, total_transitions: 0 }
    }

    /// Record an access. After a previous access `prev`, the transition from
    /// `prev` is counted, and every `AGING_PERIOD`-th transition halves all
    /// counters.
    pub fn record(&mut self, current_key_hash: u64)
        requires
            old(self).wf(),
            old(self).last() is Some ==> old(self).recorded() < u64::MAX,
        ensures
            final(self).wf(),
            final(self).last() == Some(current_key_hash),
            old(self).last() is None ==> final(self).recorded() == old(self).recorded() && (forall|
                a: u64,
                b: u64,
            | #[trigger] final(self).spec_freq(a, b) == old(self).spec_freq(a, b)),
            old(self).last() is None ==> final(self).table() == old(self).table(),
            old(self).last() matches Some(prev) ==> {
                let n = sat_add_u8(old(self).spec_freq(prev, current_key_hash), 1);
                &&& final(self).recorded() == old(self).recorded() + 1
                &&& !spec_aging_due(final(self).recorded()) ==> {
                    &&& final(self).spec_freq(prev, current_key_hash) == n
                    &&& forall|a: u64, b: u64|
                        #[trigger] final(self).spec_freq(a, b) >= old(self).spec_freq(a, b)
                }
                &&& !spec_aging_due(final(self).recorded()) ==> final(self).table().counts_more(
                    old(self).table(),
                    spec_mix(prev, current_key_hash),
                    1,
                )
                &&& spec_aging_due(final(self).recorded()) ==> final(self).spec_freq(
                    prev,
                    current_key_hash,
                ) == n / 2
                &&& spec_aging_due(final(self).recorded()) ==> forall|r: int, c: int|
                    0 <= r < 2 && 0 <= c < 1024 ==> #[trigger] final(self).table().cell(r, c) == (if c
                        == spec_index(spec_mix(prev, current_key_hash), r as nat, 1024) {
                        sat_add_u8(old(self).table().cell(r, c), 1)
                    } else {
                        old(self).table().cell(r, c)
                    }) / 2
            },
    {
        if let Some(prev) = self.last_key_hash {
            let h = Self::mix(prev, current_key_hash);
            let ghost before = self.transitions;
            self.transitions.add(h);
            let ghost mid = self.transitions;
            self.total_transitions = self.total_transitions + 1;
            if aging_due(self.total_transitions) {
                self.transitions.halve();
                proof {
                    assert forall|r: int, c: int| 0 <= r < 2 && 0 <= c < 1024 implies #[trigger] self.transitions.cell(
                        r,
                        c,
                    ) == (if c == spec_index(h, r as nat, 1024) {
                        sat_add_u8(before.cell(r, c), 1)
                    } else {
                        before.cell(r, c)
                    }) / 2 by {
                        assert(mid.cell(r, c) == if c == spec_index(h, r as nat, 1024) {
                            sat_add_u8(before.cell(r, c), 1)
                        } else {
                            before.cell(r, c)
                        });
                    }
                }
            }
        }
        self.last_key_hash = Some(current_key_hash);
    }

    /// Forget the last access, so that the next one starts a new chain.
    pub fn forget_last(&mut self)
        ensures
            final(self).wf() == old(self).wf(),
            final(self).last() is None,
            final(self).recorded() == old(self).recorded(),
            forall|a: u64, b: u64| #[trigger] final(self).spec_freq(a, b) == old(self).spec_freq(a, b),
    {
        self.last_key_hash = None;
    }

    /// Whether `candidate` is worth prefetching after `current`.
    pub fn should_prefetch(&self, current: u64, candidate: u64) -> (r: bool)
        requires
            self.wf(),
        ensures
            r == spec_should_prefetch(self.spec_freq(current, candidate)),
    {
        let h = Self::mix(current, candidate);
        prefetch_decision(self.transitions.estimate(h))
    }

    /// Estimated number of transitions from `from` to `to`.
    pub fn transition_freq(&self, from: u64, to: u64) -> (f: u8)
        requires
            self.wf(),
        ensures
            f == self.spec_freq(from, to),
    {
        let h = Self::mix(from, to);
        self.transitions.estimate(h)
    }

    /// Forget every transition and the last access.
    pub fn reset(&mut self)
        requires
            old(self).wf(),
        ensures
            final(self).wf(),
            final(self).is_cold(),
            final(self).last() is None,
            final(self).recorded() == 0,
    {
        self.transitions.clear();
        self.last_key_hash = None;
        self.total_transitions = 0;
    }

    /// Key of the transition from `a` to `b`.
    fn mix(a: u64, b: u64) -> (h: u64)
        ensures
            h == spec_mix(a, b),
    {
        a ^ ((b << 32u64) | (b >> 32u64))
    }
}

impl Default for MarkovOracle {
    fn default() -> (o: Self)
        ensures
            o.wf(),
            o.is_cold(),
            o.last() is None,
            o.recorded() == 0,
    {
        Self::new()
    }
}

/// Access-pattern predictor shared between threads; races between recorders
/// only blur the statistics.
pub struct SharedOracle {
    transitions: AtomicSketch<1024, 2>,
    last_key: AtomicU64,
    counter: AtomicU64,
}

impl SharedOracle {
    /// The counter table has its full size.
    pub closed spec fn wf(&self) -> bool {
        self.transitions.wf()
    }

    /// Number of counters: 2 rows of 1024.
    pub closed spec fn table_len(&self) -> int {
        self.transitions.table@.len() as int
    }

    /// A read of the counter that the transition from `from` to `to` maps to
    /// in row `row` gave `v`.
    pub closed spec fn read_cell(&self, from: u64, to: u64, row: int, v: u8) -> bool {
        self.transitions.loaded(cell_pos(spec_mix(from, to), row, 1024), v)
    }

    /// The transition from `from` to `to` was counted: in each of the 2 rows
    /// its counter was read and, below 255, stored back one higher.
    pub closed spec fn counted(&self, from: u64, to: u64) -> bool {
        forall|i: int| 0 <= i < 2 ==> #[trigger] self.transitions.counted_at(cell_pos(spec_mix(from, to), i, 1024))
    }

    /// Every counter was read and stored back halved.
    pub closed spec fn aged(&self) -> bool {
        forall|pos: int| 0 <= pos < self.transitions.table@.len() ==> #[trigger] self.transitions.halved_at(pos)
    }

    /// Zero was stored in the counter at position `pos`.
    pub closed spec fn zeroed(&self, pos: int) -> bool {
        self.transitions.stored(pos, 0)
    }

    /// The last access was swapped for `current`, and the swap gave `prev`.
    pub closed spec fn swapped_last(&self, current: u64, prev: u64) -> bool {
        call_ensures(AtomicU64::swap, (&self.last_key, current, Ordering::Relaxed), prev)
    }

    /// The transition counter was increased by one, and the increment read
    /// `count` before it.
    pub closed spec fn ticked(&self, count: u64) -> bool {
        call_ensures(AtomicU64::fetch_add, (&self.counter, 1u64, Ordering::Relaxed), count)
    }

    /// Zero was stored as the last access and as the transition counter.
    pub closed spec fn access_forgotten(&self) -> bool {
        &&& call_ensures(AtomicU64::store, (&self.last_key, 0u64, Ordering::Relaxed), ())
        &&& call_ensures(AtomicU64::store, (&self.counter, 0u64, Ordering::Relaxed), ())
    }

    /// An oracle that has seen nothing.
    pub fn new() -> (o: Self)
        ensures
            o.wf(),
    {
        SharedOracle {
            transitions: AtomicSketch::new(),
            last_key: AtomicU64::new(0),
            counter: AtomicU64::new(0),
        }
    }

    /// Record an access. When the previous access (swapped out atomically) is
    /// not 0, the transition from it is counted, and the counters are halved
    /// when the transition counter read before the increment is a multiple of
    /// `AGING_PERIOD`.
    pub fn record(&self, current_hash: u64)
        requires
            self.wf(),
        ensures
            exists|prev: u64|
                {
                    &&& #[trigger] self.swapped_last(current_hash, prev)
                    &&& prev != 0 ==> self.counted(prev, current_hash)
                    &&& prev != 0 ==> exists|count: u64|
                        #[trigger] self.ticked(count) && (spec_aging_due(count) ==> self.aged())
                },
    {
        let prev = self.last_key.swap(current_hash, Ordering::Relaxed);
        if prev != 0 {
            let h = Self::mix(prev, current_hash);
            self.transitions.add(h);
            let count = self.counter.fetch_add(1, Ordering::Relaxed);
            if aging_due(count) {
                self.transitions.halve();
            }
            proof {
                assert(self.ticked(count));
            }
        }
        proof {
            assert(self.swapped_last(current_hash, prev));
        }
    }

    /// Whether `candidate` is worth prefetching after `current`: the estimate
    /// read for the transition is at least `PREFETCH_THRESHOLD`.
    pub fn should_prefetch(&self, current: u64, candidate: u64) -> (r: bool)
        requires
            self.wf(),
        ensures
            exists|vals: Seq<u8>| vals.len() == 2 && r == spec_should_prefetch(#[trigger] spec_row_min(vals)),
            exists|vals: Seq<u8>|
                {
                    &&& vals.len() == 2
                    &&& r == spec_should_prefetch(#[trigger] spec_row_min(vals))
                    &&& forall|i: int| 0 <= i < 2 ==> self.read_cell(current, candidate, i, #[trigger] vals[i])
                },
    {
        let h = Self::mix(current, candidate);
        prefetch_decision(self.transitions.estimate(h))
    }

    /// Set every counter, the last access and the transition counter to zero.
    pub fn reset(&self)
        requires
            self.wf(),
        ensures
            forall|pos: int| 0 <= pos < self.table_len() ==> #[trigger] self.zeroed(pos),
            self.access_forgotten(),
    {
        self.transitions.clear();
        self.last_key.store(0, Ordering::Relaxed);
        self.counter.store(0, Ordering::Relaxed);
    }

    /// Key of the transition from `a` to `b`.
    fn mix(a: u64, b: u64) -> (h: u64)
        ensures
            h == spec_mix(a, b),
    {
        a ^ ((b << 32u64) | (b >> 32u64))
    }
}

impl Default for SharedOracle {
    fn default() -> (o: Self)
        ensures
            o.wf(),
    {
        Self::new()
    }
}


/// The prefetch decision for `candidate` after `current` is taken on the
/// counters of that ordered transition alone: it is true exactly when the
/// counter read for the transition from `current` to `candidate` is at least
/// `PREFETCH_THRESHOLD` in both rows.
pub proof fn lemma_prefetch_reads_forward_transition(o: SharedOracle, current: u64, candidate: u64, r: bool)
    requires
        call_ensures(SharedOracle::should_prefetch, (&o, current, candidate), r),
    ensures
        exists|v0: u8, v1: u8|
            {
                &&& #[trigger] o.read_cell(current, candidate, 0, v0)
                &&& #[trigger] o.read_cell(current, candidate, 1, v1)
                &&& (r <==> v0 >= PREFETCH_THRESHOLD && v1 >= PREFETCH_THRESHOLD)
            },
{
    let vals = choose|vals: Seq<u8>|
        {
            &&& vals.len() == 2
            &&& r == spec_should_prefetch(#[trigger] spec_row_min(vals))
            &&& forall|i: int| 0 <= i < 2 ==> o.read_cell(current, candidate, i, #[trigger] vals[i])
        };
    assert(o.read_cell(current, candidate, 0, vals[0]));
    assert(o.read_cell(current, candidate, 1, vals[1]));
    assert(vals.drop_last().drop_last().len() == 0);
    assert(vals.drop_last().last() == vals[0]);
    assert(vals.last() == vals[1]);
    reveal_with_fuel(spec_row_min, 3);
}

/// Recording an access counts, in every row, the transition from the access
/// it replaces (when there was one) to it, and nothing is counted without a
/// previous access.
pub proof fn lemma_record_counts_previous_transition(o: SharedOracle, current: u64)
    requires
        call_ensures(SharedOracle::record, (&o, current), ()),
    ensures
        exists|prev: u64| #[trigger] o.swapped_last(current, prev) && (prev != 0 ==> o.counted(prev, current)),
{
}

/// After a reset, zero has been stored in both counters of every transition,
/// and the last access and the transition counter were set to zero, so the
/// next access counts no transition.
pub proof fn lemma_reset_clears_every_transition(o: SharedOracle, from: u64, to: u64, row: int)
    requires
        call_ensures(SharedOracle::reset, (&o,), ()),
        o.wf(),
        0 <= row < 2,
    ensures
        o.zeroed(cell_pos(spec_mix(from, to), row, 1024)),
        o.access_forgotten(),
{
    lemma_cell_pos_in_table(spec_mix(from, to), row);
    assert(o.table_len() == 2048);
}

/// A transition's counter in row `row` lies in the table of 2 rows of 1024.
proof fn lemma_cell_pos_in_table(key: u64, row: int)
    requires
        0 <= row < 2,
    ensures
        0 <= cell_pos(key, row, 1024) < 2048,
{
    let m = spec_mask_index(key, row as usize, 1024);
    let x = wrapping_add(key, wrapping_mul(row as u64, GOLDEN)) as usize;
    assert(x & 1023usize <= 1023usize) by (bit_vector);
}

} // verus!
