//! Unsigned arithmetic shared by the planners: rounded-up division, bounds and
//! saturating products, each tied to its meaning on mathematical integers.

use vstd::prelude::*;

verus! {

/// The least `k` with `k * b >= a`, for a positive `b` and a natural `a`.
pub open spec fn ceil_div_int(a: int, b: int) -> int {
    (a + b - 1) / b
}

/// `x` held between `lo` and `hi`.
pub open spec fn clamp_int(x: int, lo: int, hi: int) -> int {
    if x < lo {
        lo
    } else if x > hi {
        hi
    } else {
        x
    }
}

/// A product held at the largest `usize`.
pub open spec fn sat_mul_int(a: int, b: int) -> int {
    vstd::math::min(a * b, usize::MAX as int)
}

/// Rounded-up division brackets its dividend: `k` blocks of `b` hold `a`
/// items, one block fewer does not.
pub proof fn lemma_ceil_div_brackets(a: int, b: int)
    requires
        a >= 0,
        b > 0,
    ensures
        ceil_div_int(a, b) * b >= a,
        a > 0 ==> (ceil_div_int(a, b) - 1) * b < a,
        0 <= ceil_div_int(a, b) <= a,
        a > 0 ==> ceil_div_int(a, b) >= 1,
{
    let q = (a + b - 1) / b;
    let r = (a + b - 1) % b;
    vstd::arithmetic::div_mod::lemma_fundamental_div_mod(a + b - 1, b);
    assert(0 <= r < b) by {
        vstd::arithmetic::div_mod::lemma_mod_bound(a + b - 1, b);
    }
    assert(q * b >= a && (q - 1) * b < a) by (nonlinear_arith)
        requires
            a + b - 1 == b * q + r,
            0 <= r < b,
    ;
    assert(q >= 0) by (nonlinear_arith)
        requires
            q * b >= a,
            a >= 0,
            b > 0,
    ;
    assert(q <= a) by (nonlinear_arith)
        requires
            (q - 1) * b < a,
            a >= 0,
            b > 0,
            a + b - 1 == b * q + r,
            0 <= r < b,
    ;
    if a > 0 {
        assert(q >= 1) by (nonlinear_arith)
            requires
                q * b >= a,
                a > 0,
                b > 0,
        ;
    }
}

/// Any block count that holds `a` items is at least the rounded-up quotient.
pub proof fn lemma_ceil_div_least(a: int, b: int, k: int)
    requires
        a >= 0,
        b > 0,
        k * b >= a,
    ensures
        ceil_div_int(a, b) <= k,
{
    lemma_ceil_div_brackets(a, b);
    let q = ceil_div_int(a, b);
    if q > k {
        assert((q - 1) * b >= k * b) by (nonlinear_arith)
            requires
                q - 1 >= k,
                b > 0,
        ;
        if a == 0 {
            assert(q * b < b) by {
                vstd::arithmetic::div_mod::lemma_fundamental_div_mod(b - 1, b);
                vstd::arithmetic::div_mod::lemma_small_mod((b - 1) as nat, b as nat);
                assert(q * b == 0) by (nonlinear_arith)
                    requires
                        b - 1 == b * q + (b - 1),
                ;
            }
            assert(q <= 0) by (nonlinear_arith)
                requires
                    q * b < b,
                    b > 0,
            ;
            assert(k < 0);
            assert(k * b < 0) by (nonlinear_arith)
                requires
                    k < 0,
                    b > 0,
            ;
        }
    }
}

/// Rounded-up division does not grow when the dividend shrinks.
pub proof fn lemma_ceil_div_monotone(a: int, c: int, b: int)
    requires
        0 <= a <= c,
        b > 0,
    ensures
        ceil_div_int(a, b) <= ceil_div_int(c, b),
{
    lemma_ceil_div_brackets(c, b);
    lemma_ceil_div_least(a, b, ceil_div_int(c, b));
}

/// A row-major position stays inside its matrix.
pub proof fn lemma_flat_index(i: int, j: int, n: int, d: int)
    requires
        0 <= i < n,
        0 <= j < d,
    ensures
        0 <= i * d,
        0 <= i * d + j < n * d,
        i * d + d <= n * d,
{
    assert(0 <= i * d && 0 <= i * d + j < n * d && i * d + d <= n * d) by (nonlinear_arith)
        requires
            0 <= i < n,
            0 <= j < d,
    ;
}

/// `a / b` rounded up.
pub fn ceil_div(a: usize, b: usize) -> (r: usize)
    requires
        b > 0,
    ensures
        r == ceil_div_int(a as int, b as int),
        r <= a,
{
    ceil_div_u64(a as u64, b as u64) as usize
}

/// `a / b` rounded up, on 32-bit counts.
pub fn ceil_div_u32(a: u32, b: u32) -> (r: u32)
    requires
        b > 0,
    ensures
        r == ceil_div_int(a as int, b as int),
        r <= a,
{
    ceil_div(a as usize, b as usize) as u32
}

/// `a / b` rounded up, on 64-bit sizes.
pub fn ceil_div_u64(a: u64, b: u64) -> (r: u64)
    requires
        b > 0,
    ensures
        r == ceil_div_int(a as int, b as int),
        r <= a,
{
    let q: u64 = a / b;
    let rem: u64 = a % b;
    proof {
        lemma_ceil_div_brackets(a as int, b as int);
        vstd::arithmetic::div_mod::lemma_fundamental_div_mod(a as int, b as int);
        vstd::arithmetic::div_mod::lemma_mod_bound(a as int, b as int);
        let k = ceil_div_int(a as int, b as int);
        assert(rem == 0 ==> k == q) by (nonlinear_arith)
            requires
                a == b * q + rem,
                0 <= rem < b,
                k * b >= a,
                a > 0 ==> (k - 1) * b < a,
                0 <= k <= a,
                b > 0,
        ;
        assert(rem > 0 ==> k == q + 1) by (nonlinear_arith)
            requires
                a == b * q + rem,
                0 <= rem < b,
                k * b >= a,
                a > 0 ==> (k - 1) * b < a,
                0 <= q,
                b > 0,
        ;
    }
    if rem == 0 {
        q
    } else {
        q + 1
    }
}

/// The smaller of two 64-bit sizes.
pub fn min_u64(a: u64, b: u64) -> (r: u64)
    ensures
        r == vstd::math::min(a as int, b as int),
{
    if a <= b {
        a
    } else {
        b
    }
}

/// The larger of two 64-bit sizes.
pub fn max_u64(a: u64, b: u64) -> (r: u64)
    ensures
        r == vstd::math::max(a as int, b as int),
{
    if a >= b {
        a
    } else {
        b
    }
}

/// `x` held between `lo` and `hi`, on 64-bit sizes.
pub fn clamp_u64(x: u64, lo: u64, hi: u64) -> (r: u64)
    requires
        lo <= hi,
    ensures
        r == clamp_int(x as int, lo as int, hi as int),
{
    if x < lo {
        lo
    } else if x > hi {
        hi
    } else {
        x
    }
}

/// The smaller of two counts.
pub fn min_usize(a: usize, b: usize) -> (r: usize)
    ensures
        r == vstd::math::min(a as int, b as int),
{
    if a <= b {
        a
    } else {
        b
    }
}

/// The larger of two counts.
pub fn max_usize(a: usize, b: usize) -> (r: usize)
    ensures
        r == vstd::math::max(a as int, b as int),
{
    if a >= b {
        a
    } else {
        b
    }
}

/// The larger of two 32-bit counts.
pub fn max_u32(a: u32, b: u32) -> (r: u32)
    ensures
        r == vstd::math::max(a as int, b as int),
{
    if a >= b {
        a
    } else {
        b
    }
}

/// `x` held between `lo` and `hi`.
pub fn clamp_usize(x: usize, lo: usize, hi: usize) -> (r: usize)
    requires
        lo <= hi,
    ensures
        r == clamp_int(x as int, lo as int, hi as int),
{
    if x < lo {
        lo
    } else if x > hi {
        hi
    } else {
        x
    }
}

/// A product that stops at the largest `usize` instead of overflowing.
pub fn saturating_mul(a: usize, b: usize) -> (r: usize)
    ensures
        r == sat_mul_int(a as int, b as int),
{
    match a.checked_mul(b) {
        Some(v) => v,
        None => usize::MAX,
    }
}

/// Two to the `k`.
pub fn two_pow(k: usize) -> (r: usize)
    requires
        vstd::arithmetic::power2::pow2(k as nat) <= usize::MAX,
    ensures
        r == vstd::arithmetic::power2::pow2(k as nat),
{
    let mut r: usize = 1;
    let mut i: usize = 0;
    proof {
        vstd::arithmetic::power2::lemma2_to64();
    }
    while i < k
        invariant
            i <= k,
            r == vstd::arithmetic::power2::pow2(i as nat),
            vstd::arithmetic::power2::pow2(k as nat) <= usize::MAX,
        decreases k - i,
    {
        proof {
            vstd::arithmetic::power2::lemma_pow2_unfold((i + 1) as nat);
            if i + 1 < k {
                vstd::arithmetic::power2::lemma_pow2_strictly_increases((i + 1) as nat, k as nat);
            }
        }
        r = r * 2;
        i = i + 1;
    }
    r
}

/// Whether `rows * cols` is exactly `len`; a product too large for a `usize`
/// never is.
pub fn product_is(rows: usize, cols: usize, len: usize) -> (r: bool)
    ensures
        r == (rows * cols == len),
{
    match rows.checked_mul(cols) {
        Some(v) => v == len,
        None => false,
    }
}

/// Holding a value between two bounds gives one between them, and changes a value
/// only to the bound that it lies beyond.
pub proof fn lemma_clamp(x: int, lo: int, hi: int)
    requires
        lo <= hi,
    ensures
        lo <= clamp_int(x, lo, hi) <= hi,
        lo <= x <= hi ==> clamp_int(x, lo, hi) == x,
        x < lo ==> clamp_int(x, lo, hi) == lo,
        x > hi ==> clamp_int(x, lo, hi) == hi,
{
}

/// A saturating product is the product wherever that fits, and the largest
/// `usize` elsewhere.
pub proof fn lemma_saturating_product(a: usize, b: usize)
    ensures
        a * b <= usize::MAX ==> sat_mul_int(a as int, b as int) == a * b,
        a * b > usize::MAX ==> sat_mul_int(a as int, b as int) == usize::MAX,
{
}

} // verus!
