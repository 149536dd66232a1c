//! Floating-point order on bit patterns. A value is held as its IEEE 754 bits;
//! comparisons read sign and magnitude, so that selection and sorting stay
//! integer work.

use vstd::arithmetic::power2::{lemma_pow2_pos, pow2};
use vstd::prelude::*;

verus! {

/// The sign bit of a 64-bit pattern, as a number.
pub const SIGN64: u64 = 0x8000_0000_0000_0000;

/// The pattern of 64-bit infinity: magnitudes above it are not numbers.
pub const INF64: u64 = 0x7FF0_0000_0000_0000;

/// The sign bit of a 32-bit pattern, as a number.
pub const SIGN32: u32 = 0x8000_0000;

/// The pattern without its sign.
pub open spec fn magnitude64(b: u64) -> int {
    if b >= SIGN64 {
        b - SIGN64
    } else {
        b as int
    }
}

/// Whether the pattern is not a number.
pub open spec fn is_nan64(b: u64) -> bool {
    magnitude64(b) > INF64
}

/// An integer that orders the numbers among the patterns as floating-point
/// comparison does; the two zeros share one value. The other patterns lie beyond
/// the infinities.
pub open spec fn order_value64(b: u64) -> int {
    if b >= SIGN64 {
        -magnitude64(b)
    } else {
        magnitude64(b)
    }
}

/// No pattern in the list is NaN.
pub open spec fn all_numbers(s: Seq<u64>) -> bool {
    forall|i: int| 0 <= i < s.len() ==> !is_nan64(#[trigger] s[i])
}

/// Floating-point `a < b` on patterns; false when either is not a number.
pub open spec fn lt64(a: u64, b: u64) -> bool {
    !is_nan64(a) && !is_nan64(b) && order_value64(a) < order_value64(b)
}

/// Floating-point `a <= b` on patterns.
pub open spec fn le64(a: u64, b: u64) -> bool {
    !is_nan64(a) && !is_nan64(b) && order_value64(a) <= order_value64(b)
}

/// An integer that orders all patterns as the IEEE 754 total order does.
pub open spec fn total_value64(b: u64) -> int {
    if b >= SIGN64 {
        -magnitude64(b) - 1
    } else {
        magnitude64(b)
    }
}

/// An integer that orders all 32-bit patterns as the total order does.
pub open spec fn total_value32(b: u32) -> int {
    if b >= SIGN32 {
        SIGN32 - b - 1
    } else {
        b as int
    }
}

/// Whether the pattern is not a number.
pub fn bits_is_nan(b: u64) -> (r: bool)
    ensures
        r == is_nan64(b),
{
    let m: u64 = if b >= SIGN64 {
        b - SIGN64
    } else {
        b
    };
    m > INF64
}

/// Whether `a` has the lower order value; on numbers this is floating-point
/// `a < b`.
pub fn bits_below(a: u64, b: u64) -> (r: bool)
    ensures
        r == (order_value64(a) < order_value64(b)),
{
    if a >= SIGN64 {
        if b >= SIGN64 {
            a > b
        } else {
            a > SIGN64 || b > 0
        }
    } else if b >= SIGN64 {
        false
    } else {
        a < b
    }
}

/// Floating-point `a < b` on patterns.
pub fn bits_lt(a: u64, b: u64) -> (r: bool)
    ensures
        r == lt64(a, b),
{
    !bits_is_nan(a) && !bits_is_nan(b) && bits_below(a, b)
}

/// The key of a 64-bit pattern: unsigned keys compare as the total order does.
pub fn f64_total_key(b: u64) -> (k: u64)
    ensures
        k == total_value64(b) + SIGN64,
{
    if b >= SIGN64 {
        u64::MAX - b
    } else {
        b + SIGN64
    }
}

/// The pattern behind a key.
pub fn f64_from_total_key(k: u64) -> (b: u64)
    ensures
        k == total_value64(b) + SIGN64,
{
    if k >= SIGN64 {
        k - SIGN64
    } else {
        u64::MAX - k
    }
}

/// The key of a 32-bit pattern.
pub fn f32_total_key(b: u32) -> (k: u32)
    ensures
        k == total_value32(b) + SIGN32,
{
    if b >= SIGN32 {
        u32::MAX - b
    } else {
        b + SIGN32
    }
}

/// The 32-bit pattern behind a key.
pub fn f32_from_total_key(k: u32) -> (b: u32)
    ensures
        k == total_value32(b) + SIGN32,
{
    if k >= SIGN32 {
        k - SIGN32
    } else {
        u32::MAX - k
    }
}

/// Keys lose nothing: two patterns with one total value are one pattern, so a
/// pattern survives the way to its key and back, and sorting keys sorts
/// patterns.
pub proof fn lemma_total_value_injective(a: u64, b: u64)
    requires
        total_value64(a) == total_value64(b),
    ensures
        a == b,
{
}

/// The 32-bit form of [`lemma_total_value_injective`].
pub proof fn lemma_total_value32_injective(a: u32, b: u32)
    requires
        total_value32(a) == total_value32(b),
    ensures
        a == b,
{
}

/// The total order refines floating-point order on numbers: it differs only in
/// putting the negative zero below the positive one.
pub proof fn lemma_total_refines_order(a: u64, b: u64)
    requires
        !is_nan64(a),
        !is_nan64(b),
    ensures
        lt64(a, b) ==> total_value64(a) < total_value64(b),
        total_value64(a) <= total_value64(b) ==> order_value64(a) <= order_value64(b),
{
}

/// The value of a finite pattern, in units of the smallest positive one, without
/// its sign.
pub open spec fn scaled_magnitude(m: int) -> int {
    let fraction = m % 0x10_0000_0000_0000;
    let exponent = m / 0x10_0000_0000_0000;
    if exponent == 0 {
        fraction
    } else {
        (0x10_0000_0000_0000 + fraction) * pow2((exponent - 1) as nat)
    }
}

/// The value of a finite pattern, in units of the smallest positive one.
pub open spec fn scaled_value(b: u64) -> int {
    if b < 0x8000_0000_0000_0000 {
        scaled_magnitude(b as int)
    } else {
        -scaled_magnitude(b - 0x8000_0000_0000_0000)
    }
}

proof fn lemma_scaled_grows(a: int, b: int)
    requires
        0 <= a < b,
    ensures
        scaled_magnitude(a) < scaled_magnitude(b),
        scaled_magnitude(a) >= 0,
{
    let u: int = 0x10_0000_0000_0000;
    let (e, f) = (a / u, a % u);
    let (g, h) = (b / u, b % u);
    if e > 0 {
        lemma_pow2_pos((e - 1) as nat);
        let p = pow2((e - 1) as nat) as int;
        assert((u + f) * p >= 0) by (nonlinear_arith)
            requires
                p >= 0,
                u + f >= 0,
        ;
    }
    if e == g {
        if e > 0 {
            let p = pow2((e - 1) as nat) as int;
            assert((u + f) * p < (u + h) * p) by (nonlinear_arith)
                requires
                    p > 0,
                    f < h,
            ;
        }
    } else {
        let q = pow2((g - 1) as nat) as int;
        lemma_pow2_pos((g - 1) as nat);
        assert((u + h) * q >= u * q) by (nonlinear_arith)
            requires
                q > 0,
                h >= 0,
        ;
        if e == 0 {
            assert(u * q >= u) by (nonlinear_arith)
                requires
                    q >= 1,
                    u > 0,
            ;
        } else {
            let p = pow2((e - 1) as nat) as int;
            if e < g - 1 {
                vstd::arithmetic::power2::lemma_pow2_strictly_increases(e as nat, (g - 1) as nat);
            }
            vstd::arithmetic::power2::lemma_pow2_unfold(e as nat);
            assert((u + f) * p < u * q) by (nonlinear_arith)
                requires
                    p > 0,
                    q >= 2 * p,
                    0 <= f < u,
            ;
        }
    }
}

/// Patterns compare as the values that they write down: sign, eleven bits of
/// exponent and fifty-two of fraction.
pub proof fn lemma_order_is_by_value(a: u64, b: u64)
    ensures
        order_value64(a) < order_value64(b) <==> scaled_value(a) < scaled_value(b),
        !is_nan64(a) && !is_nan64(b) ==> (lt64(a, b) <==> scaled_value(a) < scaled_value(b)),
        !is_nan64(a) && !is_nan64(b) ==> (le64(a, b) <==> scaled_value(a) <= scaled_value(b)),
{
    let x: int = if a < 0x8000_0000_0000_0000 {
        a as int
    } else {
        a - 0x8000_0000_0000_0000
    };
    let y: int = if b < 0x8000_0000_0000_0000 {
        b as int
    } else {
        b - 0x8000_0000_0000_0000
    };
    if x < y {
        lemma_scaled_grows(x, y);
    } else if y < x {
        lemma_scaled_grows(y, x);
    }
    if x > 0 {
        lemma_scaled_grows(0, x);
    }
    if y > 0 {
        lemma_scaled_grows(0, y);
    }
}

/// A pattern is not a number exactly when its exponent is full and its fraction
/// is not empty; no comparison holds of it.
pub proof fn lemma_nan_pattern(b: u64, other: u64)
    ensures
        is_nan64(b) <==> (b as int / 0x10_0000_0000_0000) % 0x800 == 0x7FF && b as int
            % 0x10_0000_0000_0000 != 0,
        is_nan64(b) ==> !lt64(b, other) && !lt64(other, b) && !le64(b, other) && !le64(other, b),
{
}

/// The total order puts all patterns in one line: by sign first, ascending among
/// the positive and descending among the negative ones.
pub proof fn lemma_total_order_line(a: u64, b: u64)
    ensures
        a >= 0x8000_0000_0000_0000 && b < 0x8000_0000_0000_0000 ==> total_value64(a)
            < total_value64(b),
        a < b < 0x8000_0000_0000_0000 ==> total_value64(a) < total_value64(b),
        0x8000_0000_0000_0000 <= a < b ==> total_value64(a) > total_value64(b),
{
}

/// The 32-bit form of [`lemma_total_order_line`].
pub proof fn lemma_total_order_line32(a: u32, b: u32)
    ensures
        a >= 0x8000_0000 && b < 0x8000_0000 ==> total_value32(a) < total_value32(b),
        a < b < 0x8000_0000 ==> total_value32(a) < total_value32(b),
        0x8000_0000 <= a < b ==> total_value32(a) > total_value32(b),
{
}

/// A list is all numbers exactly where no entry is NaN; one NaN spoils it.
pub proof fn lemma_all_numbers(s: Seq<u64>, i: int)
    ensures
        all_numbers(s) <==> forall|j: int| 0 <= j < s.len() ==> !is_nan64(#[trigger] s[j]),
        0 <= i < s.len() && is_nan64(s[i]) ==> !all_numbers(s),
        all_numbers(Seq::empty()),
{
}

} // verus!
