//! Arithmetic of aligned power-of-two ranges.
//!
//! An aligned range of `bits` bits starts at a multiple of `2^bits` and
//! holds `2^bits` consecutive numbers. CIDR blocks are exactly these ranges,
//! and everything the aggregation proves about blocks rests on one fact:
//! two aligned ranges are either disjoint or one lies inside the other.

use vstd::prelude::*;
use vstd::arithmetic::power2::{pow2, lemma2_to64, lemma_pow2_pos, lemma_pow2_unfold, lemma_pow2_adds};
use vstd::arithmetic::div_mod::{lemma_fundamental_div_mod, lemma_mod_multiples_basic, lemma_small_mod};

verus! {

/// `first` is a non-negative multiple of `2^bits`.
pub open spec fn aligned(first: int, bits: nat) -> bool {
    first >= 0 && first % (pow2(bits) as int) == 0
}

/// Last number of the range of `2^bits` numbers that starts at `first`.
pub open spec fn range_last(first: int, bits: nat) -> int {
    first + pow2(bits) - 1
}

/// `2^(k+1)` is twice `2^k`, and powers of two are positive.
pub proof fn lemma_pow2_step(k: nat)
    ensures
        pow2(k + 1) == 2 * pow2(k),
        pow2(k) > 0,
{
    lemma_pow2_pos(k);
    lemma_pow2_unfold(k + 1);
}

/// Powers of two grow with the exponent.
pub proof fn lemma_pow2_monotone(a: nat, b: nat)
    requires
        a <= b,
    ensures
        0 < pow2(a) <= pow2(b),
        a < b ==> 2 * pow2(a) <= pow2(b),
    decreases b - a,
{
    lemma_pow2_pos(a);
    if a < b {
        lemma_pow2_monotone(a, (b - 1) as nat);
        lemma_pow2_step((b - 1) as nat);
    }
}

/// A smaller power of two divides a larger one.
pub proof fn lemma_pow2_split(a: nat, b: nat)
    requires
        a <= b,
    ensures
        pow2(b) == pow2(a) * pow2((b - a) as nat),
        pow2(b) as int % pow2(a) as int == 0,
{
    lemma_pow2_adds(a, (b - a) as nat);
    lemma_pow2_pos(a);
    let m = pow2(a) as int;
    let q = pow2((b - a) as nat) as int;
    assert(pow2(b) as int == q * m) by (nonlinear_arith)
        requires
            pow2(b) == pow2(a) * pow2((b - a) as nat),
            m == pow2(a),
            q == pow2((b - a) as nat),
    ;
    lemma_mod_multiples_basic(q, m);
}

/// A multiple of a larger power of two is a multiple of a smaller one.
pub proof fn lemma_aligned_lower(x: int, a: nat, b: nat)
    requires
        a <= b,
        aligned(x, b),
    ensures
        aligned(x, a),
{
    lemma_pow2_split(a, b);
    lemma_pow2_pos(a);
    lemma_pow2_pos(b);
    let m = pow2(a) as int;
    let n = pow2(b) as int;
    let q = pow2((b - a) as nat) as int;
    lemma_fundamental_div_mod(x, n);
    let k = x / n;
    assert(x == (k * q) * m) by (nonlinear_arith)
        requires
            x == n * k,
            n == m * q,
    ;
    lemma_mod_multiples_basic(k * q, m);
}

/// Two different multiples of `m` are at least `m` apart.
pub proof fn lemma_multiples_apart(x: int, y: int, m: int)
    requires
        m > 0,
        x % m == 0,
        y % m == 0,
        x < y,
    ensures
        x + m <= y,
{
    lemma_fundamental_div_mod(x, m);
    lemma_fundamental_div_mod(y, m);
    let p = x / m;
    let q = y / m;
    assert(x + m <= y) by (nonlinear_arith)
        requires
            m > 0,
            x == m * p,
            y == m * q,
            x < y,
    ;
}

/// Aligned ranges nest: when a range of `k1` bits and a range of at least as
/// many bits `k2` share a number, the first lies wholly inside the second.
pub proof fn lemma_nested_or_disjoint(f1: int, k1: nat, f2: int, k2: nat)
    requires
        k1 <= k2,
        aligned(f1, k1),
        aligned(f2, k2),
        f1 <= range_last(f2, k2),
        f2 <= range_last(f1, k1),
    ensures
        f2 <= f1,
        range_last(f1, k1) <= range_last(f2, k2),
{
    lemma_aligned_lower(f2, k1, k2);
    lemma_pow2_pos(k1);
    lemma_pow2_pos(k2);
    lemma_pow2_split(k1, k2);
    let m = pow2(k1) as int;
    if f1 < f2 {
        lemma_multiples_apart(f1, f2, m);
    }
    let e2 = f2 + pow2(k2);
    assert(e2 % m == 0) by {
        let n = pow2(k2) as int;
        lemma_fundamental_div_mod(f2, m);
        lemma_fundamental_div_mod(n, m);
        let a = f2 / m;
        let b = n / m;
        assert(e2 == (a + b) * m) by (nonlinear_arith)
            requires
                e2 == f2 + n,
                f2 == m * a,
                n == m * b,
        ;
        lemma_mod_multiples_basic(a + b, m);
    }
    if f1 < e2 {
        lemma_multiples_apart(f1, e2, m);
    }
}

/// Whether a multiple of `2^k` is also a multiple of `2^(k+1)` shows in the
/// parity of its quotient by `2^k`.
pub proof fn lemma_aligned_next(x: int, k: nat)
    requires
        aligned(x, k),
    ensures
        aligned(x, k + 1) <==> (x / (pow2(k) as int)) % 2 == 0,
{
    lemma_pow2_step(k);
    let m = pow2(k) as int;
    let n = pow2(k + 1) as int;
    lemma_fundamental_div_mod(x, m);
    let q = x / m;
    if q % 2 == 0 {
        let h = q / 2;
        assert(x == h * n) by (nonlinear_arith)
            requires
                x == m * q,
                q == 2 * h,
                n == 2 * m,
        ;
        lemma_mod_multiples_basic(h, n);
    }
    if x % n == 0 {
        lemma_fundamental_div_mod(x, n);
        let h = x / n;
        assert(q == 2 * h) by (nonlinear_arith)
            requires
                x == m * q,
                x == n * h,
                n == 2 * m,
                m > 0,
        ;
    }
}

/// A number below `2^bits` is a multiple of `2^bits` only if it is zero.
pub proof fn lemma_aligned_below(x: int, bits: nat)
    requires
        0 <= x < pow2(bits),
    ensures
        aligned(x, bits) <==> x == 0,
{
    lemma_small_mod(x as nat, pow2(bits));
}

/// An aligned range that starts inside a larger aligned range ends inside it.
pub proof fn lemma_aligned_fits(first: int, bits: nat, total: nat)
    requires
        bits <= total,
        aligned(first, bits),
        first < pow2(total),
    ensures
        range_last(first, bits) < pow2(total),
{
    lemma_pow2_split(bits, total);
    lemma_pow2_pos(bits);
    lemma_multiples_apart(first, pow2(total) as int, pow2(bits) as int);
}

/// The number of addresses, less one, in a range of `bits` bits: `2^bits - 1`.
/// Stated less one so that the whole 128-bit space has a value.
pub(crate) fn span_of_bits(bits: u8) -> (span: u128)
    requires
        bits <= 128,
    ensures
        span == pow2(bits as nat) - 1,
{
    let mut span: u128 = 0;
    let mut done: u8 = 0;
    proof {
        lemma2_to64();
    }
    while done < bits
        invariant
            done <= bits <= 128,
            span == pow2(done as nat) - 1,
        decreases bits - done,
    {
        proof {
            lemma_pow2_step(done as nat);
            lemma_pow2_monotone((done + 1) as nat, 128);
            crate::family::lemma_space_values();
        }
        span = 2 * span + 1;
        done = done + 1;
    }
    span
}

} // verus!
