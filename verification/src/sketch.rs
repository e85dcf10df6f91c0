//! Count-Min sketch: a fixed-size frequency counter that never underestimates.
//!
//! `W` counters per row, `D` rows. Each row maps a key hash to one counter;
//! the estimate of a key is the smallest of its `D` counters.
use vstd::prelude::*;
use vstd::wrapping::u64_specs::{wrapping_add, wrapping_mul};

verus! {

/// Golden-ratio constant used to derive one column per row.
pub const GOLDEN: u64 = 0x9E37_79B9_7F4A_7C15;

/// Column of `key_hash` in row `row` for a sketch `w` counters wide.
pub open spec fn spec_index(key_hash: u64, row: nat, w: nat) -> nat {
    (wrapping_add(key_hash, wrapping_mul(row as u64, GOLDEN)) as usize as nat) % w
}

/// Smallest of two counters.
pub open spec fn min_u8(a: u8, b: u8) -> u8 {
    if a <= b { a } else { b }
}

/// Saturating addition of two counters.
pub open spec fn sat_add_u8(a: u8, b: u8) -> u8 {
    if a + b > 255 { 255 } else { (a + b) as u8 }
}

/// Saturating addition of the running total.
pub open spec fn sat_add_u64(a: u64, b: u64) -> u64 {
    if a + b > u64::MAX { u64::MAX } else { (a + b) as u64 }
}

/// `a + b`, or 255 when that is larger.
fn sat_add_counter(a: u8, b: u8) -> (r: u8)
    ensures
        r == sat_add_u8(a, b),
    no_unwind
{
    if a > 255 - b {
        255
    } else {
        a + b
    }
}

/// `a + b`, or `u64::MAX` when that is larger.
fn sat_add_total(a: u64, b: u64) -> (r: u64)
    ensures
        r == sat_add_u64(a, b),
    no_unwind
{
    if a > u64::MAX - b {
        u64::MAX
    } else {
        a + b
    }
}

/// `key_hash + row * GOLDEN` modulo 2^64, computed on 128-bit integers.
fn mix_row(key_hash: u64, row: usize) -> (m: u64)
    ensures
        m == wrapping_add(key_hash, wrapping_mul(row as u64, GOLDEN)),
    no_unwind
{
    let r: u64 = row as u64;
    let prod: u128 = (r as u128) * (GOLDEN as u128);
    let low: u64 = (prod % 0x1_0000_0000_0000_0000u128) as u64;
    let sum: u128 = (key_hash as u128) + (low as u128);
    if sum > 0xffff_ffff_ffff_ffffu128 {
        (sum - 0x1_0000_0000_0000_0000u128) as u64
    } else {
        sum as u64
    }
}

/// Count-Min sketch with `W` counters per row and `D` rows.
///
/// Counters are `u8` and saturate at 255.
#[derive(Clone)]
pub struct CountMinSketch<const W: usize, const D: usize> {
    /// `D` rows of `W` counters each.
    table: Vec<Vec<u8>>,
    total: u64,
}

/// Standard sketch: 4 KiB of counters.
pub type Sketch4K = CountMinSketch<1024, 4>;

/// Compact sketch: 1 KiB of counters.
pub type Sketch1K = CountMinSketch<256, 4>;

/// Large sketch: 16 KiB of counters.
pub type Sketch16K = CountMinSketch<4096, 4>;

impl<const W: usize, const D: usize> CountMinSketch<W, D> {
    /// The table holds `D` rows of `W` counters.
    pub closed spec fn wf(&self) -> bool {
        &&& self.table@.len() == D
        &&& forall|r: int| 0 <= r < D ==> #[trigger] self.table@[r]@.len() == W
    }

    /// Counter in row `row`, column `col`.
    pub closed spec fn cell(&self, row: int, col: int) -> u8 {
        self.table@[row]@[col]
    }

    /// Number of items added so far (saturating, halved by aging).
    pub closed spec fn spec_total(&self) -> u64 {
        self.total
    }

    /// Minimum over the first `rows` rows of the counters that `key_hash` maps to.
    pub open spec fn min_over_rows(&self, key_hash: u64, rows: nat) -> u8
        decreases rows,
    {
        if rows == 0 {
            255
        } else {
            min_u8(
                self.min_over_rows(key_hash, (rows - 1) as nat),
                self.cell(rows - 1, spec_index(key_hash, (rows - 1) as nat, W as nat) as int),
            )
        }
    }

    /// Estimated frequency of `key_hash`: the smallest of its `D` counters.
    pub open spec fn spec_estimate(&self, key_hash: u64) -> u8 {
        self.min_over_rows(key_hash, D as nat)
    }

    /// `self` is `before` with `count` more occurrences of `key_hash` counted:
    /// one counter per row raised, saturating, and every other counter kept.
    pub open spec fn counts_more(&self, before: Self, key_hash: u64, count: u8) -> bool {
        forall|r: int, c: int|
            0 <= r < D && 0 <= c < W ==> #[trigger] self.cell(r, c) == if c == spec_index(
                key_hash,
                r as nat,
                W as nat,
            ) {
                sat_add_u8(before.cell(r, c), count)
            } else {
                before.cell(r, c)
            }
    }

    /// Every counter is zero.
    pub open spec fn all_zero(&self) -> bool {
        forall|r: int, c: int| 0 <= r < D && 0 <= c < W ==> #[trigger] self.cell(r, c) == 0
    }

    /// With every counter at zero, every estimate is zero (given at least one row).
    pub proof fn lemma_zero_estimate(&self, key_hash: u64)
        requires
            self.wf(),
            self.all_zero(),
            D > 0,
            W > 0,
        ensures
            self.spec_estimate(key_hash) == 0,
    {
        self.lemma_zero_rows(key_hash, D as nat);
    }

    proof fn lemma_zero_rows(&self, key_hash: u64, rows: nat)
        requires
            self.wf(),
            self.all_zero(),
            0 < rows <= D,
            W > 0,
        ensures
            self.min_over_rows(key_hash, rows) == 0,
        decreases rows,
    {
        let col = spec_index(key_hash, (rows - 1) as nat, W as nat) as int;
        assert(self.cell(rows - 1, col) == 0);
        if rows > 1 {
            self.lemma_zero_rows(key_hash, (rows - 1) as nat);
        }
    }

    /// Create an empty sketch.
    pub fn new() -> (s: Self)
        ensures
            s.wf(),
            s.all_zero(),
            s.spec_total() == 0,
    {
        let mut table: Vec<Vec<u8>> = Vec::with_capacity(D);
        let mut r: usize = 0;
        while r < D
            invariant
                r <= D,
                table@.len() == r,
                forall|i: int| 0 <= i < r ==> #[trigger] table@[i]@.len() == W,
                forall|i: int, c: int| 0 <= i < r && 0 <= c < W ==> #[trigger] table@[i]@[c] == 0,
            decreases D - r,
        {
            let mut row: Vec<u8> = Vec::with_capacity(W);
            let mut c: usize = 0;
            while c < W
                invariant
                    c <= W,
                    row@.len() == c,
                    forall|j: int| 0 <= j < c ==> row@[j] == 0,
                decreases W - c,
            {
                row.push(0);
                c = c + 1;
            }
            table.push(row);
            r = r + 1;
        }
        CountMinSketch { table, total: 0 }
    }

    /// Add one occurrence of `key_hash`.
    pub fn add(&mut self, key_hash: u64)
        requires
            old(self).wf(),
            W > 0,
        ensures
            final(self).wf(),
            final(self).counts_more(*old(self), key_hash, 1),
            final(self).spec_total() == sat_add_u64(old(self).spec_total(), 1),
            final(self).spec_estimate(key_hash) == sat_add_u8(old(self).spec_estimate(key_hash), 1),
            forall|k: u64| #[trigger] final(self).spec_estimate(k) >= old(self).spec_estimate(k),
        no_unwind
    {
        self.add_count(key_hash, 1);
    }

    /// Add `count` occurrences of `key_hash` (counters saturate at 255).
    pub fn add_count(&mut self, key_hash: u64, count: u8)
        requires
            old(self).wf(),
            W > 0,
        ensures
            final(self).wf(),
            final(self).counts_more(*old(self), key_hash, count),
            final(self).spec_total() == sat_add_u64(old(self).spec_total(), count as u64),
            final(self).spec_estimate(key_hash) == sat_add_u8(old(self).spec_estimate(key_hash), count),
            forall|k: u64| #[trigger] final(self).spec_estimate(k) >= old(self).spec_estimate(k),
        no_unwind
    {
        let ghost before = *self;
        self.total = sat_add_total(self.total, count as u64);
        let mut i: usize = 0;
        while i < D
            invariant
                W > 0,
                i <= D,
                self.wf(),
                before.wf(),
                before == *old(self),
                self.total == sat_add_u64(before.total, count as u64),
                forall|r: int, c: int|
                    0 <= r < D && 0 <= c < W ==> #[trigger] self.cell(r, c) == if r < i && c
                        == spec_index(key_hash, r as nat, W as nat) {
                        sat_add_u8(before.cell(r, c), count)
                    } else {
                        before.cell(r, c)
                    },
            decreases D - i,
        {
            let col = Self::index(key_hash, i);
            let v = sat_add_counter(self.table[i][col], count);
            assert(self.cell(i as int, col as int) == before.cell(i as int, col as int));
            assert(v == sat_add_u8(before.cell(i as int, col as int), count));
            self.set_cell(i, col, v);
            i = i + 1;
        }
        proof {
            lemma_min_add(&before, self, key_hash, count, D as nat);
            assert forall|k: u64| #[trigger] self.spec_estimate(k) >= before.spec_estimate(k) by {
                lemma_min_grows(&before, self, k, D as nat);
            }
        }
    }

    /// Estimated frequency of `key_hash` (never below the true count, up to 255).
    pub fn estimate(&self, key_hash: u64) -> (e: u8)
        requires
            self.wf(),
            W > 0,
        ensures
            e == self.spec_estimate(key_hash),
    {
        let mut min_count: u8 = 255;
        let mut i: usize = 0;
        while i < D
            invariant
                W > 0,
                i <= D,
                self.wf(),
                min_count == self.min_over_rows(key_hash, i as nat),
            decreases D - i,
        {
            let col = Self::index(key_hash, i);
            let v = self.table[i][col];
            if v < min_count {
                min_count = v;
            }
            i = i + 1;
        }
        min_count
    }

    /// Reset every counter and the total to zero.
    pub fn clear(&mut self)
        requires
            old(self).wf(),
        ensures
            final(self).wf(),
            final(self).all_zero(),
            final(self).spec_total() == 0,
        no_unwind
    {
        self.total = 0;
        let mut i: usize = 0;
        while i < D
            invariant
                i <= D,
                self.wf(),
                self.total == 0,
                forall|r: int, c: int| 0 <= r < i && 0 <= c < W ==> #[trigger] self.cell(r, c) == 0,
            decreases D - i,
        {
            let mut c: usize = 0;
            while c < W
                invariant
                    i < D,
                    c <= W,
                    self.wf(),
                    self.total == 0,
                    forall|r: int, c2: int| 0 <= r < i && 0 <= c2 < W ==> #[trigger] self.cell(r, c2) == 0,
                    forall|c2: int| 0 <= c2 < c ==> #[trigger] self.cell(i as int, c2) == 0,
                decreases W - c,
            {
                self.set_cell(i, c, 0);
                c = c + 1;
            }
            i = i + 1;
        }

    }

    /// Halve every counter and the total (rounding down): the aging step.
    pub fn halve(&mut self)
        requires
            old(self).wf(),
        ensures
            final(self).wf(),
            forall|r: int, c: int|
                0 <= r < D && 0 <= c < W ==> #[trigger] final(self).cell(r, c) == old(self).cell(r, c)
                    / 2,
            final(self).spec_total() == old(self).spec_total() / 2,
            D > 0 && W > 0 ==> forall|k: u64| #[trigger] final(self).spec_estimate(k) == old(self).spec_estimate(k) / 2,
        no_unwind
    {
        let ghost before = *self;
        let t = self.total;
        assert(t >> 1 == t / 2) by (bit_vector);
        self.total = t >> 1;
        let mut i: usize = 0;
        while i < D
            invariant
                i <= D,
                self.wf(),
                before.wf(),
                before == *old(self),
                self.total == before.total / 2,
                forall|r: int, c: int| 0 <= r < D && 0 <= c < W ==> #[trigger] self.cell(r, c) == if r < i {
                    before.cell(r, c) / 2
                } else {
                    before.cell(r, c)
                },
            decreases D - i,
        {
            let mut c: usize = 0;
            while c < W
                invariant
                    i < D,
                    c <= W,
                    self.wf(),
                    before.wf(),
                    before == *old(self),
                    self.total == before.total / 2,
                    forall|r: int, c2: int| 0 <= r < D && 0 <= c2 < W ==> #[trigger] self.cell(r, c2) == if r < i || (r == i && c2 < c) {
                        before.cell(r, c2) / 2
                    } else {
                        before.cell(r, c2)
                    },
                decreases W - c,
            {
                let v = self.table[i][c];
                assert(self.cell(i as int, c as int) == before.cell(i as int, c as int));
                assert(v >> 1 == v / 2) by (bit_vector);
                self.set_cell(i, c, v >> 1);
                c = c + 1;
            }
            i = i + 1;
        }
        proof {
            if D > 0 && W > 0 {
                assert forall|k: u64| #[trigger] self.spec_estimate(k) == before.spec_estimate(k) / 2 by {
                    lemma_min_halve(&before, self, k, D as nat);
                }
            }
        }
    }

    /// Number of items added so far.
    pub fn total(&self) -> (t: u64)
        ensures
            t == self.spec_total(),
    {
        self.total
    }

    /// Overwrite one counter, leaving every other counter unchanged.
    fn set_cell(&mut self, row: usize, col: usize, v: u8)
        requires
            old(self).wf(),
            row < D,
            col < W,
        ensures
            final(self).wf(),
            final(self).spec_total() == old(self).spec_total(),
            forall|r: int, c: int| 0 <= r < D && 0 <= c < W ==> #[trigger] final(self).cell(r, c) == if r == row && c == col {
                v
            } else {
                old(self).cell(r, c)
            },
        no_unwind
    {
        self.table[row][col] = v;
    }

    /// Column of `key_hash` in row `row`.
    fn index(key_hash: u64, row: usize) -> (col: usize)
        requires
            W > 0,
        ensures
            col == spec_index(key_hash, row as nat, W as nat),
            col < W,
        no_unwind
    {
        let mixed = mix_row(key_hash, row);
        (mixed as usize) % W
    }

    /// Memory taken by the counters and the total, in bytes.
    pub fn size_bytes() -> (n: usize)
        requires
            W * D + 8 <= usize::MAX,
        ensures
            n == W * D + 8,
    {
        W * D + 8
    }
}

impl<const W: usize, const D: usize> Default for CountMinSketch<W, D> {
    fn default() -> (s: Self)
        ensures
            s.wf(),
            s.all_zero(),
            s.spec_total() == 0,
    {
        Self::new()
    }
}

/// Total count added for `k` when `counts[i]` occurrences of `keys[i]` are
/// added, for each `i` in turn.
pub open spec fn added_count(keys: Seq<u64>, counts: Seq<u8>, k: u64) -> nat
    decreases keys.len(),
{
    if keys.len() == 0 {
        0
    } else {
        added_count(keys.drop_last(), counts.drop_last(), k) + if keys.last() == k {
            counts[keys.len() - 1] as nat
        } else {
            0nat
        }
    }
}

/// A Count-Min sketch never underestimates: adding `counts[i]` occurrences
/// of `keys[i]` for each `i` in turn to an all-zero sketch (`states[i + 1]` is
/// `states[i]` after `add_count(keys[i], counts[i])`, or after `add(keys[i])`
/// when `counts[i]` is 1), the estimate of any key is at least the total count
/// added for it, up to the saturation value 255.
pub proof fn lemma_never_underestimates<const W: usize, const D: usize>(
    states: Seq<CountMinSketch<W, D>>,
    keys: Seq<u64>,
    counts: Seq<u8>,
    k: u64,
)
    requires
        W > 0,
        states.len() == keys.len() + 1,
        counts.len() == keys.len(),
        states[0].wf(),
        states[0].all_zero(),
        forall|i: int|
            0 <= i < keys.len() ==> #[trigger] states[i + 1].counts_more(states[i], keys[i], counts[i]),
    ensures
        states.last().spec_estimate(k) >= if added_count(keys, counts, k) > 255 {
            255
        } else {
            added_count(keys, counts, k)
        },
    decreases keys.len(),
{
    if keys.len() == 0 {
        if D > 0 {
            states[0].lemma_zero_estimate(k);
        }
    } else {
        let n = keys.len() - 1;
        let prev_states = states.drop_last();
        let prev_keys = keys.drop_last();
        let prev_counts = counts.drop_last();
        assert forall|i: int| 0 <= i < prev_keys.len() implies #[trigger] prev_states[i + 1].counts_more(
            prev_states[i],
            prev_keys[i],
            prev_counts[i],
        ) by {
            assert(states[i + 1].counts_more(states[i], keys[i], counts[i]));
        }
        lemma_never_underestimates(prev_states, prev_keys, prev_counts, k);
        let a = states[n];
        let b = states[n + 1];
        assert(b.counts_more(a, keys[n], counts[n]));
        assert forall|r: int, c: int| 0 <= r < D && 0 <= c < W implies #[trigger] b.cell(r, c) >= a.cell(
            r,
            c,
        ) by {}
        lemma_min_grows(&a, &b, k, D as nat);
        if keys[n] == k {
            lemma_min_add(&a, &b, k, counts[n], D as nat);
        }
    }
}

proof fn lemma_min_add<const W: usize, const D: usize>(
    a: &CountMinSketch<W, D>,
    b: &CountMinSketch<W, D>,
    key_hash: u64,
    count: u8,
    rows: nat,
)
    requires
        rows <= D,
        W > 0,
        forall|r: int|
            0 <= r < rows ==> #[trigger] b.cell(r, spec_index(key_hash, r as nat, W as nat) as int)
                == sat_add_u8(a.cell(r, spec_index(key_hash, r as nat, W as nat) as int), count),
    ensures
        b.min_over_rows(key_hash, rows) == sat_add_u8(a.min_over_rows(key_hash, rows), count),
    decreases rows,
{
    if rows > 0 {
        lemma_min_add(a, b, key_hash, count, (rows - 1) as nat);
        let r = rows - 1;
        assert(b.cell(r, spec_index(key_hash, r as nat, W as nat) as int) == sat_add_u8(
            a.cell(r, spec_index(key_hash, r as nat, W as nat) as int),
            count,
        ));
    }
}

/// Counters that never shrink give a minimum that never shrinks.
proof fn lemma_min_grows<const W: usize, const D: usize>(
    a: &CountMinSketch<W, D>,
    b: &CountMinSketch<W, D>,
    key_hash: u64,
    rows: nat,
)
    requires
        rows <= D,
        W > 0,
        forall|r: int, c: int| 0 <= r < D && 0 <= c < W ==> #[trigger] b.cell(r, c) >= a.cell(r, c),
    ensures
        b.min_over_rows(key_hash, rows) >= a.min_over_rows(key_hash, rows),
    decreases rows,
{
    if rows > 0 {
        lemma_min_grows(a, b, key_hash, (rows - 1) as nat);
        let r = rows - 1;
        let c = spec_index(key_hash, r as nat, W as nat) as int;
        assert(b.cell(r, c) >= a.cell(r, c));
    }
}

/// Halving every counter halves the minimum (over at least one row).
proof fn lemma_min_halve<const W: usize, const D: usize>(
    a: &CountMinSketch<W, D>,
    b: &CountMinSketch<W, D>,
    key_hash: u64,
    rows: nat,
)
    requires
        0 < rows <= D,
        W > 0,
        forall|r: int, c: int| 0 <= r < D && 0 <= c < W ==> #[trigger] b.cell(r, c) == a.cell(r, c) / 2,
    ensures
        b.min_over_rows(key_hash, rows) == a.min_over_rows(key_hash, rows) / 2,
    decreases rows,
{
    let r = rows - 1;
    let c = spec_index(key_hash, r as nat, W as nat) as int;
    assert(b.cell(r, c) == a.cell(r, c) / 2);
    if rows > 1 {
        lemma_min_halve(a, b, key_hash, (rows - 1) as nat);
    } else {
        assert(a.min_over_rows(key_hash, 0) == 255);
        assert(b.min_over_rows(key_hash, 0) == 255);
    }
}

} // verus!
