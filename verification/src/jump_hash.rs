//! Jump consistent hashing: maps a 64-bit key to one of `n` buckets so that
//! growing `n` by one moves a key only to the new bucket, if at all.
//!
//! Each jump of the algorithm is the double-precision formula
//! `floor((b + 1) * (2^31 / ((key >> 33) + 1)))`. It is evaluated here exactly
//! with integers: values are kept in units of 2^-52 and rounded to 53
//! significant bits, ties to even, as IEEE-754 binary64 arithmetic rounds them.
use vstd::prelude::*;
use vstd::arithmetic::div_mod::{lemma_div_is_ordered, lemma_div_multiples_vanish, lemma_fundamental_div_mod};
use vstd::arithmetic::power2::{lemma2_to64, lemma2_to64_rest, lemma_pow2_adds, lemma_pow2_unfold, pow2};
use vstd::wrapping::u64_specs::{wrapping_add, wrapping_mul};

verus! {

/// Multiplier of the linear congruential step that advances the key.
pub const LCG_MULT: u64 = 2862933555777941757;

/// One, in units of 2^-52 (2^52).
pub const UNIT: u128 = 0x10_0000_0000_0000;

/// Smallest value with 54 significant bits (2^53).
pub const SIG_LIMIT: u128 = 0x20_0000_0000_0000;

/// 2^31 in units of 2^-52 (2^83).
pub const RATIO_NUMERATOR: u128 = 0x8_0000_0000_0000_0000_0000;

/// FNV-1a offset basis.
pub const FNV_OFFSET: u64 = 0xcbf29ce484222325;

/// FNV-1a prime.
pub const FNV_PRIME: u64 = 0x100000001b3;

/// `n / d` rounded to the nearest whole number, ties to the even one.
pub open spec fn round_half_even(n: nat, d: nat) -> nat {
    let q = n / d;
    let r = n % d;
    if 2 * r > d || (2 * r == d && q % 2 == 1) {
        q + 1
    } else {
        q
    }
}

/// `n / d` rounded to 53 significant bits, ties to even. For `n / d >= 2^52`
/// this is the binary64 value nearest to `n / d` when both are read in units
/// of 2^-52, and it is a whole number.
pub open spec fn round_sig(n: nat, d: nat) -> nat
    decreases n - d,
{
    if d == 0 {
        0
    } else if n < d * SIG_LIMIT {
        round_half_even(n, d)
    } else {
        2 * round_sig(n, 2 * d)
    }
}

/// The double `2^31 / d`, in units of 2^-52.
pub open spec fn jump_ratio(d: nat) -> nat {
    round_sig(RATIO_NUMERATOR as nat, d)
}

/// Divisor that a hash word gives: its top 31 bits, plus one.
pub open spec fn jump_divisor(key: u64) -> nat {
    (key >> 33) as nat + 1
}

/// Next jump from position `x - 1` under the hash word `key`:
/// `floor(x * (2^31 / ((key >> 33) + 1)))` in double precision.
#[verifier::opaque]
pub open spec fn jump_target(x: nat, key: u64) -> nat {
    round_sig(x * jump_ratio(jump_divisor(key)), 1) / (UNIT as nat)
}

/// The linear congruential step `key * LCG_MULT + 1` modulo 2^64.
pub open spec fn lcg_next(key: u64) -> u64 {
    wrapping_add(wrapping_mul(key, LCG_MULT), 1)
}

/// Bucket reached from position `j` (already below `n`) with hash state
/// `key`: the last position below `n` that the jumps visit.
#[verifier::opaque]
pub open spec fn jump_walk(key: u64, j: nat, n: nat) -> nat
    decreases n - j when j < n <= 0x8000_0000
{
    let next = lcg_next(key);
    let nj = jump_target(j + 1, next);
    if nj < n {
        proof {
            lemma_jump_target_advances(j + 1, next);
        }
        jump_walk(next, nj, n)
    } else {
        j
    }
}

/// Bucket of `key` among `num_buckets` buckets (0 when there are none).
pub open spec fn jump_bucket(key: u64, num_buckets: i32) -> i32 {
    if num_buckets <= 0 {
        0
    } else {
        jump_walk(key, 0, num_buckets as nat) as i32
    }
}

/// The 64-bit word a 128-bit key is hashed by: its two halves exclusive-ored.
pub open spec fn fold_u128(key: u128) -> u64 {
    (key as u64) ^ ((key >> 64) as u64)
}

/// FNV-1a hash of a byte string.
pub open spec fn fnv1a(data: Seq<u8>) -> u64
    decreases data.len(),
{
    if data.len() == 0 {
        FNV_OFFSET
    } else {
        wrapping_mul(fnv1a(data.drop_last()) ^ (data.last() as u64), FNV_PRIME)
    }
}

/// Whether `a` has at most 53 significant bits, so that a binary64 holds it
/// exactly.
pub open spec fn fits_sig(a: nat) -> bool
    decreases a,
{
    if a <= SIG_LIMIT {
        true
    } else {
        a % 2 == 0 && fits_sig(a / 2)
    }
}

/// A quotient that is at least `a` rounds to at least `a`.
proof fn lemma_round_half_even_ge(n: nat, d: nat, a: nat)
    requires
        d > 0,
        n >= d * a,
    ensures
        round_half_even(n, d) >= a,
{
    lemma_div_is_ordered((d * a) as int, n as int, d as int);
    lemma_div_multiples_vanish(a as int, d as int);
}

/// A quotient that is at most `a` rounds to at most `a`.
proof fn lemma_round_half_even_le(n: nat, d: nat, a: nat)
    requires
        d > 0,
        n <= d * a,
    ensures
        round_half_even(n, d) <= a,
{
    lemma_div_is_ordered(n as int, (d * a) as int, d as int);
    lemma_div_multiples_vanish(a as int, d as int);
    lemma_fundamental_div_mod(n as int, d as int);
    let q = n / d;
    if q == a {
        assert(n % d == 0);
    }
}

/// Doubling keeps a value within 53 significant bits.
proof fn lemma_fits_double(a: nat)
    requires
        fits_sig(a),
    ensures
        fits_sig(2 * a),
{
    if 2 * a > SIG_LIMIT {
        assert((2 * a) / 2 == a);
        assert((2 * a) % 2 == 0);
    }
}

/// `a * 2^e` has at most 53 significant bits when `a` does not exceed 2^53.
proof fn lemma_fits_scaled(a: nat, e: nat)
    requires
        a <= SIG_LIMIT,
    ensures
        fits_sig(a * pow2(e)),
    decreases e,
{
    if e == 0 {
        lemma2_to64();
        assert(a * pow2(0) == a) by (nonlinear_arith)
            requires
                pow2(0) == 1,
        ;
    } else {
        let p = pow2((e - 1) as nat);
        lemma_fits_scaled(a, (e - 1) as nat);
        lemma_pow2_unfold(e);
        assert(a * pow2(e) == 2 * (a * p)) by (nonlinear_arith)
            requires
                pow2(e) == 2 * p,
        ;
        lemma_fits_double(a * p);
    }
}

/// Rounding to 53 significant bits keeps a lower bound that has at most 53
/// significant bits.
proof fn lemma_round_sig_ge(n: nat, d: nat, a: nat)
    requires
        d > 0,
        fits_sig(a),
        n >= d * a,
    ensures
        round_sig(n, d) >= a,
    decreases n - d,
{
    if n < d * SIG_LIMIT {
        lemma_round_half_even_ge(n, d, a);
    } else if a <= SIG_LIMIT {
        lemma_round_sig_ge(n, 2 * d, UNIT as nat);
    } else {
        assert((2 * d) * (a / 2) == d * a) by (nonlinear_arith)
            requires
                a % 2 == 0,
        ;
        lemma_round_sig_ge(n, 2 * d, a / 2);
    }
}

/// Rounding to 53 significant bits keeps an upper bound that has at most 53
/// significant bits.
proof fn lemma_round_sig_le(n: nat, d: nat, a: nat)
    requires
        d > 0,
        fits_sig(a),
        n <= d * a,
    ensures
        round_sig(n, d) <= a,
    decreases n - d,
{
    if n < d * SIG_LIMIT {
        lemma_round_half_even_le(n, d, a);
    } else if a <= SIG_LIMIT {
        assert(a >= SIG_LIMIT) by (nonlinear_arith)
            requires
                d > 0,
                d * SIG_LIMIT <= n,
                n <= d * a,
        ;
        lemma_round_sig_le(n, 2 * d, UNIT as nat);
    } else {
        assert((2 * d) * (a / 2) == d * a) by (nonlinear_arith)
            requires
                a % 2 == 0,
        ;
        lemma_round_sig_le(n, 2 * d, a / 2);
    }
}

/// The powers of two used by the jump formula.
proof fn lemma_jump_powers()
    ensures
        pow2(52) == UNIT,
        pow2(83) == RATIO_NUMERATOR,
{
    lemma2_to64();
    lemma2_to64_rest();
    lemma_pow2_adds(52, 31);
    assert(52 + 31 == 83);
}

/// The double `2^31 / d` lies in `[1, 2^31]` (in units of 2^-52).
proof fn lemma_jump_ratio_bounds(d: nat)
    requires
        1 <= d <= 0x8000_0000,
    ensures
        UNIT <= jump_ratio(d) <= RATIO_NUMERATOR,
{
    lemma_jump_powers();
    lemma_fits_scaled(0x8000_0000, 52);
    assert(fits_sig(RATIO_NUMERATOR as nat));
    lemma_round_sig_ge(RATIO_NUMERATOR as nat, d, UNIT as nat);
    lemma_round_sig_le(RATIO_NUMERATOR as nat, d, RATIO_NUMERATOR as nat);
}

/// A jump from position `x - 1` lands at `x` or beyond, and at most at
/// `x * 2^31`.
pub proof fn lemma_jump_target_advances(x: nat, key: u64)
    requires
        1 <= x <= 0x8000_0000,
    ensures
        x <= jump_target(x, key) <= x * 0x8000_0000,
{
    reveal(jump_target);
    lemma_jump_powers();
    let k = key >> 33;
    assert(k <= 0x7fff_ffff) by (bit_vector)
        requires
            k == key >> 33,
    ;
    let d = jump_divisor(key);
    lemma_jump_ratio_bounds(d);
    let q = jump_ratio(d);
    let p = x * q;
    assert(1 * (x * UNIT) <= p <= 1 * (x * RATIO_NUMERATOR)) by (nonlinear_arith)
        requires
            p == x * q,
            UNIT <= q <= RATIO_NUMERATOR,
    ;
    lemma_fits_scaled(x, 52);
    lemma_fits_scaled(x, 83);
    lemma_round_sig_ge(p, 1, (x * UNIT) as nat);
    lemma_round_sig_le(p, 1, (x * RATIO_NUMERATOR) as nat);
    let r = round_sig(p, 1);
    assert(x <= r / (UNIT as nat) <= x * 0x8000_0000) by (nonlinear_arith)
        requires
            x * UNIT <= r <= x * RATIO_NUMERATOR,
            RATIO_NUMERATOR == UNIT * 0x8000_0000,
    ;
}

/// One step of the walk, unfolded.
proof fn lemma_jump_walk_step(key: u64, j: nat, n: nat)
    requires
        j < n <= 0x8000_0000,
    ensures
        jump_walk(key, j, n) == if jump_target(j + 1, lcg_next(key)) < n {
            jump_walk(lcg_next(key), jump_target(j + 1, lcg_next(key)), n)
        } else {
            j
        },
{
    reveal(jump_walk);
}

/// From a position below `n`, the walk ends at a position in `[j, n)`.
pub proof fn lemma_jump_walk_range(key: u64, j: nat, n: nat)
    requires
        j < n <= 0x8000_0000,
    ensures
        j <= jump_walk(key, j, n) < n,
    decreases n - j,
{
    let next = lcg_next(key);
    let nj = jump_target(j + 1, next);
    lemma_jump_target_advances(j + 1, next);
    lemma_jump_walk_step(key, j, n);
    if nj < n {
        lemma_jump_walk_range(next, nj, n);
    }
}

/// One more bucket leaves the walk's end where it was or moves it to the new
/// last bucket.
pub proof fn lemma_jump_walk_grow(key: u64, j: nat, n: nat)
    requires
        j < n,
        n + 1 <= 0x8000_0000,
    ensures
        jump_walk(key, j, n + 1) == jump_walk(key, j, n) || jump_walk(key, j, n + 1) == n,
    decreases n - j,
{
    let next = lcg_next(key);
    let nj = jump_target(j + 1, next);
    lemma_jump_target_advances(j + 1, next);
    lemma_jump_walk_step(key, j, n);
    lemma_jump_walk_step(key, j, n + 1);
    if nj < n {
        lemma_jump_walk_grow(next, nj, n);
    } else if nj == n {
        lemma_jump_target_advances(n + 1, lcg_next(next));
        lemma_jump_walk_step(next, n, n + 1);
    }
}

/// Every key lands in a bucket in `[0, num_buckets)`, and in bucket 0 when
/// there are no buckets.
pub proof fn lemma_jump_bucket_range(key: u64, num_buckets: i32)
    ensures
        num_buckets <= 0 ==> jump_bucket(key, num_buckets) == 0,
        num_buckets > 0 ==> 0 <= jump_bucket(key, num_buckets) < num_buckets,
{
    if num_buckets > 0 {
        lemma_jump_walk_range(key, 0, num_buckets as nat);
    }
}

/// Consistency: going from `n` to `n + 1` buckets, a key either stays in its
/// bucket or moves to the new bucket `n`.
pub proof fn lemma_jump_bucket_minimal_movement(key: u64, n: i32)
    requires
        n < i32::MAX,
    ensures
        jump_bucket(key, (n + 1) as i32) == jump_bucket(key, n) || jump_bucket(key, (n + 1) as i32) == n,
{
    if n > 0 {
        lemma_jump_walk_grow(key, 0, n as nat);
        lemma_jump_walk_range(key, 0, n as nat);
        lemma_jump_walk_range(key, 0, (n + 1) as nat);
    } else if n == 0 {
        lemma_jump_walk_range(key, 0, 1);
    }
}

/// `round_sig(n, d)` for `d <= 2^32` and `n < 2^120`.
fn round_sig_exec(n: u128, d: u128) -> (r: u128)
    requires
        0 < d <= 0x1_0000_0000,
        n < 0x100_0000_0000_0000_0000_0000_0000_0000,
    ensures
        r == round_sig(n as nat, d as nat),
{
    let mut dd: u128 = d;
    let mut scale: u128 = 1;
    while n >= dd * SIG_LIMIT
        invariant
            0 < dd < 0x40_0000_0000_0000_0000,
            1 <= scale <= dd,
            n < 0x100_0000_0000_0000_0000_0000_0000_0000,
            round_sig(n as nat, d as nat) == scale * round_sig(n as nat, dd as nat),
        decreases n - dd,
    {
        let ghost x = round_sig(n as nat, (2 * dd) as nat);
        assert(round_sig(n as nat, dd as nat) == 2 * x);
        assert(scale * (2 * x) == (2 * scale) * x) by (nonlinear_arith);
        dd = dd * 2;
        scale = scale * 2;
    }
    let q = n / dd;
    let rem = n % dd;
    assert(q < SIG_LIMIT) by (nonlinear_arith)
        requires
            q == n / dd,
            dd > 0,
            n < dd * SIG_LIMIT,
    ;
    let h = if rem * 2 > dd || (rem * 2 == dd && q % 2 == 1) {
        q + 1
    } else {
        q
    };
    assert(h == round_half_even(n as nat, dd as nat));
    assert(h * scale <= SIG_LIMIT * 0x40_0000_0000_0000_0000) by (nonlinear_arith)
        requires
            h <= SIG_LIMIT,
            scale < 0x40_0000_0000_0000_0000,
    ;
    assert(h * scale == scale * h) by (nonlinear_arith);
    h * scale
}

/// `jump_target(x, key)`.
fn jump_target_exec(x: u64, key: u64) -> (j: u64)
    requires
        1 <= x <= 0x8000_0000,
    ensures
        j == jump_target(x as nat, key),
        x <= j <= x * 0x8000_0000,
{
    proof {
        lemma_jump_target_advances(x as nat, key);
    }
    let k = key >> 33;
    assert(k <= 0x7fff_ffff) by (bit_vector)
        requires
            k == key >> 33u64,
    ;
    let d = (k + 1) as u128;
    let q = round_sig_exec(RATIO_NUMERATOR, d);
    proof {
        lemma_jump_ratio_bounds(d as nat);
    }
    assert(x * q <= 0x8000_0000 * RATIO_NUMERATOR) by (nonlinear_arith)
        requires
            x <= 0x8000_0000,
            q <= RATIO_NUMERATOR,
    ;
    let p = (x as u128) * q;
    let r = round_sig_exec(p, 1);
    proof {
        reveal(jump_target);
    }
    (r / UNIT) as u64
}

/// `lcg_next(key)`.
fn lcg_step(key: u64) -> (r: u64)
    ensures
        r == lcg_next(key),
{
    key.wrapping_mul(LCG_MULT).wrapping_add(1)
}

/// Bucket of `key` among `num_buckets` buckets; 0 when `num_buckets <= 0`.
pub fn jump_hash(key: u64, num_buckets: i32) -> (r: i32)
    ensures
        r == jump_bucket(key, num_buckets),
        num_buckets > 0 ==> 0 <= r < num_buckets,
        num_buckets <= 0 ==> r == 0,
{
    if num_buckets <= 0 {
        return 0;
    }
    let n: i64 = num_buckets as i64;
    let ghost nn: nat = num_buckets as nat;
    let mut state: u64 = lcg_step(key);
    let mut b: i64 = 0;
    let mut j: i64 = jump_target_exec(1, state) as i64;
    proof {
        lemma_jump_walk_step(key, 0, nn);
    }
    while j < n
        invariant
            n == num_buckets as i64,
            nn == n as nat,
            0 < n < 0x8000_0000,
            0 <= b < n,
            b < j <= 0x4000_0000_0000_0000,
            j < n ==> jump_walk(state, j as nat, nn) == jump_walk(key, 0, nn),
            j >= n ==> b as nat == jump_walk(key, 0, nn),
        decreases n - b,
    {
        proof {
            lemma_jump_walk_step(state, j as nat, nn);
        }
        b = j;
        state = lcg_step(state);
        j = jump_target_exec((b + 1) as u64, state) as i64;
    }
    proof {
        lemma_jump_walk_range(key, 0, nn);
    }
    b as i32
}

/// Bucket of a 128-bit key, hashed by its two halves exclusive-ored.
pub fn jump_hash_u128(key: u128, num_buckets: i32) -> (r: i32)
    ensures
        r == jump_bucket(fold_u128(key), num_buckets),
        num_buckets > 0 ==> 0 <= r < num_buckets,
        num_buckets <= 0 ==> r == 0,
{
    let mixed = (key as u64) ^ ((key >> 64) as u64);
    jump_hash(mixed, num_buckets)
}

/// Bucket of a byte string, hashed by FNV-1a.
pub fn jump_hash_bytes(key: &[u8], num_buckets: i32) -> (r: i32)
    ensures
        r == jump_bucket(fnv1a(key@), num_buckets),
        num_buckets > 0 ==> 0 <= r < num_buckets,
        num_buckets <= 0 ==> r == 0,
{
    let hash = fnv1a_hash(key);
    jump_hash(hash, num_buckets)
}

/// Bucket of each key, in order.
pub fn jump_hash_batch(keys: &[u64], num_buckets: i32) -> (r: Vec<i32>)
    ensures
        r@.len() == keys@.len(),
        forall|i: int| 0 <= i < keys@.len() ==> #[trigger] r@[i] == jump_bucket(keys@[i], num_buckets),
{
    let mut out: Vec<i32> = Vec::with_capacity(keys.len());
    let mut i: usize = 0;
    while i < keys.len()
        invariant
            i <= keys@.len(),
            out@.len() == i,
            forall|j: int| 0 <= j < i ==> #[trigger] out@[j] == jump_bucket(keys@[j], num_buckets),
        decreases keys@.len() - i,
    {
        out.push(jump_hash(keys[i], num_buckets));
        i = i + 1;
    }
    out
}

/// FNV-1a hash of `data`.
pub fn fnv1a_hash(data: &[u8]) -> (h: u64)
    ensures
        h == fnv1a(data@),
{
    let mut hash: u64 = FNV_OFFSET;
    let mut i: usize = 0;
    while i < data.len()
        invariant
            0 <= i <= data.len(),
            hash == fnv1a(data@.subrange(0, i as int)),
        decreases data.len() - i,
    {
        proof {
            let s = data@.subrange(0, i as int + 1);
            assert(s.drop_last() =~= data@.subrange(0, i as int));
            assert(s.last() == data@[i as int]);
        }
        hash = (hash ^ (data[i] as u64)).wrapping_mul(FNV_PRIME);
        i = i + 1;
    }
    proof {
        assert(data@.subrange(0, data@.len() as int) =~= data@);
    }
    hash
}

} // verus!
