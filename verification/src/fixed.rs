//! Fixed-point scalars: an `i64` counts millionths of a unit.

use vstd::prelude::*;

verus! {

/// The fixed-point representation of 1.0.
pub const ONE: i64 = 1_000_000;

/// Largest magnitude that [`div_round`] accepts for its operands.
pub const DIV_LIMIT: i128 = 0x2000_0000_0000_0000_0000_0000_0000_0000;

/// `v` limited to the closed range `[lo, hi]`.
pub open spec fn clamp(v: int, lo: int, hi: int) -> int {
    if v < lo {
        lo
    } else if v > hi {
        hi
    } else {
        v
    }
}

/// `v` limited to the range of `i64`.
pub open spec fn clamp_i64(v: int) -> int {
    clamp(v, i64::MIN as int, i64::MAX as int)
}

/// `v` limited to the range of `i32`.
pub open spec fn clamp_i32(v: int) -> int {
    clamp(v, i32::MIN as int, i32::MAX as int)
}

/// The quotient `n / d` rounded to the nearest integer, halves away from zero.
pub open spec fn round_div(n: int, d: int) -> int
    recommends
        d > 0,
{
    if n >= 0 {
        (2 * n + d) / (2 * d)
    } else {
        -((2 * (-n) + d) / (2 * d))
    }
}

/// The magnitude of a rounded quotient never exceeds the magnitude of the
/// numerator, and keeps its sign.
pub proof fn lemma_round_div_bounds(n: int, d: int)
    requires
        d > 0,
    ensures
        n >= 0 ==> 0 <= round_div(n, d) <= n,
        n <= 0 ==> n <= round_div(n, d) <= 0,
{
    let m = if n >= 0 { n } else { -n };
    let q = (2 * m + d) / (2 * d);
    assert(0 <= q <= m) by (nonlinear_arith)
        requires
            m >= 0,
            d > 0,
            q == (2 * m + d) / (2 * d),
    ;
}

/// A rounded quotient is monotone in its numerator.
pub proof fn lemma_round_div_monotone(n1: int, n2: int, d: int)
    requires
        d > 0,
        n1 <= n2,
    ensures
        round_div(n1, d) <= round_div(n2, d),
{
    lemma_round_div_bounds(n1, d);
    lemma_round_div_bounds(n2, d);
    if n1 >= 0 {
        assert((2 * n1 + d) / (2 * d) <= (2 * n2 + d) / (2 * d)) by (nonlinear_arith)
            requires
                d > 0,
                n1 <= n2,
        ;
    } else if n2 < 0 {
        assert((2 * (-n2) + d) / (2 * d) <= (2 * (-n1) + d) / (2 * d)) by (nonlinear_arith)
            requires
                d > 0,
                n1 <= n2,
        ;
    }
}

/// An exact multiple divides without rounding.
pub proof fn lemma_round_div_exact(q: int, d: int)
    requires
        d > 0,
    ensures
        round_div(q * d, d) == q,
{
    if q >= 0 {
        assert(q * d >= 0) by (nonlinear_arith)
            requires
                q >= 0,
                d > 0,
        ;
        assert((2 * (q * d) + d) / (2 * d) == q) by (nonlinear_arith)
            requires
                q >= 0,
                d > 0,
        ;
    } else {
        assert(q * d < 0) by (nonlinear_arith)
            requires
                q < 0,
                d > 0,
        ;
        assert((2 * (-(q * d)) + d) / (2 * d) == -q) by (nonlinear_arith)
            requires
                q < 0,
                d > 0,
        ;
    }
}

/// Computes [`round_div`] on machine integers.
pub fn div_round(n: i128, d: i128) -> (q: i128)
    requires
        0 < d <= DIV_LIMIT,
        -DIV_LIMIT <= n <= DIV_LIMIT,
    ensures
        q == round_div(n as int, d as int),
{
    if n >= 0 {
        (2 * n + d) / (2 * d)
    } else {
        let m: i128 = -n;
        -((2 * m + d) / (2 * d))
    }
}

/// Limits a wide intermediate value to the range of a coordinate.
pub fn saturate(v: i128) -> (r: i64)
    ensures
        r == clamp_i64(v as int),
{
    if v < i64::MIN as i128 {
        i64::MIN
    } else if v > i64::MAX as i128 {
        i64::MAX
    } else {
        v as i64
    }
}

/// Limits a wide intermediate value to the range of a grid coordinate.
pub fn saturate_i32(v: i128) -> (r: i32)
    ensures
        r == clamp_i32(v as int),
{
    if v < i32::MIN as i128 {
        i32::MIN
    } else if v > i32::MAX as i128 {
        i32::MAX
    } else {
        v as i32
    }
}

/// `r` is the square root of `s`, rounded down.
pub open spec fn is_root_of(r: int, s: int) -> bool {
    &&& 0 <= r
    &&& r * r <= s
    &&& s < (r + 1) * (r + 1)
}

/// A number has one square root, rounded down.
pub proof fn lemma_root_is_unique(a: int, b: int, s: int)
    requires
        is_root_of(a, s),
        is_root_of(b, s),
    ensures
        a == b,
{
    if a < b {
        assert((a + 1) * (a + 1) <= b * b) by (nonlinear_arith)
            requires
                0 <= a,
                a + 1 <= b,
        ;
    } else if b < a {
        assert((b + 1) * (b + 1) <= a * a) by (nonlinear_arith)
            requires
                0 <= b,
                b + 1 <= a,
        ;
    }
}

/// The square root of `s`, rounded down.
pub fn square_root(s: u128) -> (r: u128)
    ensures
        is_root_of(r as int, s as int),
        r < 0x1_0000_0000_0000_0000,
{
    let mut low: u128 = 0;
    let mut high: u128 = 0x1_0000_0000_0000_0000;
    assert(high * high > s) by (nonlinear_arith)
        requires
            high == 0x1_0000_0000_0000_0000,
            s <= u128::MAX,
    ;
    while high - low > 1
        invariant
            low < high <= 0x1_0000_0000_0000_0000,
            low * low <= s,
            s < high * high,
        decreases high - low,
    {
        let middle: u128 = low + (high - low) / 2;
        assert(middle * middle <= 0xFFFF_FFFF_FFFF_FFFF * 0xFFFF_FFFF_FFFF_FFFF) by (nonlinear_arith)
            requires
                0 <= middle <= 0xFFFF_FFFF_FFFF_FFFF,
        ;
        if middle * middle <= s {
            low = middle;
        } else {
            high = middle;
        }
    }
    low
}

} // verus!
