//! Fixed-point arithmetic: the scale, truncating division and integer square root.

use vstd::prelude::*;

verus! {

/// The raw value of the number one: a raw step is a millionth of a layout unit.
pub const UNIT: i64 = 1_000_000;

/// The largest magnitude of a stored coordinate, radius or scalar parameter.
pub const LIMIT: i64 = 1_000_000_000_000;

/// A jitter value lies strictly between minus and plus this bound.
pub const JITTER_SPAN: i64 = 5_000;

/// An accumulated correction is damped to one tenth before it is applied.
pub const DAMPING_DIVISOR: i64 = 10;

/// Division that rounds toward zero.
pub open spec fn quot(a: int, d: int) -> int {
    if a >= 0 {
        a / d
    } else {
        -((-a) / d)
    }
}

/// The fixed-point product of two raw values.
pub open spec fn scale(a: int, b: int) -> int {
    quot(a * b, UNIT as int)
}

/// `r` is the square root of `n`, rounded down.
pub open spec fn is_floor_sqrt(n: int, r: int) -> bool {
    0 <= r && r * r <= n < (r + 1) * (r + 1)
}

/// The square root of `n`, rounded down.
pub open spec fn floor_sqrt(n: int) -> int {
    choose|r: int| is_floor_sqrt(n, r)
}

/// A number has at most one rounded-down square root.
pub proof fn lemma_floor_sqrt_unique(n: int, r1: int, r2: int)
    requires
        is_floor_sqrt(n, r1),
        is_floor_sqrt(n, r2),
    ensures
        r1 == r2,
{
    if r1 < r2 {
        assert((r1 + 1) * (r1 + 1) <= r2 * r2) by (nonlinear_arith)
            requires
                0 <= r1,
                r1 + 1 <= r2,
        ;
    } else if r2 < r1 {
        assert((r2 + 1) * (r2 + 1) <= r1 * r1) by (nonlinear_arith)
            requires
                0 <= r2,
                r2 + 1 <= r1,
        ;
    }
}

/// A rounded-down square root, once found, is the one `floor_sqrt` names.
pub proof fn lemma_floor_sqrt_is(n: int, r: int)
    requires
        is_floor_sqrt(n, r),
    ensures
        floor_sqrt(n) == r,
{
    lemma_floor_sqrt_unique(n, r, floor_sqrt(n));
}

/// The magnitude of a truncated quotient is at most that of the dividend.
pub proof fn lemma_quot_bound(a: int, d: int, bound: int)
    requires
        d >= 1,
        -bound <= a <= bound,
    ensures
        -bound <= quot(a, d) <= bound,
{
    if a >= 0 {
        assert(0 <= a / d <= a) by (nonlinear_arith)
            requires
                a >= 0,
                d >= 1,
        ;
    } else {
        assert(0 <= (-a) / d <= -a) by (nonlinear_arith)
            requires
                -a >= 0,
                d >= 1,
        ;
    }
}

/// Dividing a dividend of magnitude at most `bound * d` leaves at most `bound`.
pub proof fn lemma_quot_shrinks(a: int, d: int, bound: int)
    requires
        d >= 1,
        bound >= 0,
        -(bound * d) <= a <= bound * d,
    ensures
        -bound <= quot(a, d) <= bound,
{
    if a >= 0 {
        assert(0 <= a / d <= bound) by (nonlinear_arith)
            requires
                a >= 0,
                d >= 1,
                a <= bound * d,
        ;
    } else {
        assert(0 <= (-a) / d <= bound) by (nonlinear_arith)
            requires
                -a >= 0,
                d >= 1,
                -a <= bound * d,
        ;
    }
}

/// The magnitude of a product is at most the product of the magnitudes' bounds.
pub proof fn lemma_product_bound(a: int, b: int, bound_a: int, bound_b: int)
    requires
        -bound_a <= a <= bound_a,
        -bound_b <= b <= bound_b,
    ensures
        -(bound_a * bound_b) <= a * b <= bound_a * bound_b,
{
    assert(-(bound_a * bound_b) <= a * b <= bound_a * bound_b) by (nonlinear_arith)
        requires
            -bound_a <= a <= bound_a,
            -bound_b <= b <= bound_b,
    ;
}

/// Truncating division of machine integers.
pub fn quotient(a: i128, d: i128) -> (q: i128)
    requires
        d >= 1,
        a > i128::MIN,
    ensures
        q == quot(a as int, d as int),
{
    a / d
}

/// The square root of `n`, rounded down.
pub fn isqrt(n: u128) -> (r: u64)
    ensures
        is_floor_sqrt(n as int, r as int),
        r == floor_sqrt(n as int),
{
    let mut lo: u128 = 0;
    let mut hi: u128 = 0x1_0000_0000_0000_0000;
    assert(0x1_0000_0000_0000_0000int * 0x1_0000_0000_0000_0000int
        == 0x1_0000_0000_0000_0000_0000_0000_0000_0000int) by (nonlinear_arith);
    while hi - lo > 1
        invariant
            lo < hi <= 0x1_0000_0000_0000_0000,
            lo * lo <= n < hi * hi,
        decreases hi - lo,
    {
        let mid: u128 = lo + (hi - lo) / 2;
        assert(mid * mid <= 0xffff_ffff_ffff_ffff * 0xffff_ffff_ffff_ffff) by (nonlinear_arith)
            requires
                0 <= mid <= 0xffff_ffff_ffff_ffff,
        ;
        assert(0xffff_ffff_ffff_ffffint * 0xffff_ffff_ffff_ffffint < 0x1_0000_0000_0000_0000_0000_0000_0000_0000int) by (nonlinear_arith);
        if mid * mid <= n {
            lo = mid;
        } else {
            hi = mid;
        }
    }
    proof {
        lemma_floor_sqrt_is(n as int, lo as int);
    }
    lo as u64
}

} // verus!
