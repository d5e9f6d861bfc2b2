//! Single-precision floats as the host stores them: conversion between the bit
//! pattern of an IEEE 754 binary32 float and a raw fixed-point value.

use vstd::prelude::*;
use crate::fixed::{LIMIT, UNIT};

verus! {

/// Two to the power `e`.
pub open spec fn two_to(e: nat) -> nat
    decreases e,
{
    if e == 0 {
        1
    } else {
        2 * two_to((e - 1) as nat)
    }
}

/// The sign bit of a float: one for a negative float.
pub open spec fn float_sign(bits: u32) -> int {
    bits as int / 0x8000_0000
}

/// The exponent field of a float.
pub open spec fn float_exponent(bits: u32) -> int {
    (bits as int / 0x80_0000) % 0x100
}

/// The fraction field of a float.
pub open spec fn float_fraction(bits: u32) -> int {
    bits as int % 0x80_0000
}

/// A float that is a number: neither an infinity nor a NaN.
pub open spec fn float_is_finite(bits: u32) -> bool {
    float_exponent(bits) != 0xff
}

/// The significand of a finite float as an integer: the fraction, with the
/// hidden bit in front unless the float is subnormal.
pub open spec fn float_significand(bits: u32) -> int {
    if float_exponent(bits) == 0 {
        float_fraction(bits)
    } else {
        0x80_0000 + float_fraction(bits)
    }
}

/// The power of two by which the significand of a finite float is multiplied:
/// the magnitude of the float is `float_significand * 2^float_power`.
pub open spec fn float_power(bits: u32) -> int {
    if float_exponent(bits) == 0 {
        -149
    } else {
        float_exponent(bits) - 150
    }
}

/// The quotient of `n` by `d`, rounded to the nearest integer, halves upward.
pub open spec fn round_half_up(n: int, d: int) -> int {
    (2 * n + d) / (2 * d)
}

/// The magnitude of a finite float in raw fixed-point steps: its magnitude
/// times `UNIT`, rounded to the nearest integer, halves away from zero.
pub open spec fn float_magnitude(bits: u32) -> int {
    let n = float_significand(bits) * UNIT;
    let k = float_power(bits);
    if k >= 0 {
        n * two_to(k as nat)
    } else {
        round_half_up(n, two_to((-k) as nat) as int)
    }
}

/// The raw fixed-point value of a float: the float's value times `UNIT`,
/// rounded to the nearest integer. A float that is no number, or whose raw
/// value lies beyond the limit, has none.
pub open spec fn float_raw(bits: u32) -> Option<i64> {
    if !float_is_finite(bits) || float_magnitude(bits) > LIMIT {
        None
    } else if float_sign(bits) == 1 {
        Some((-float_magnitude(bits)) as i64)
    } else {
        Some(float_magnitude(bits) as i64)
    }
}

/// The value `r / UNIT` lies between two to the power `e` and the next power
/// of two: at least the one, less than the other.
pub open spec fn in_binade(r: int, e: int) -> bool {
    if e >= 0 {
        two_to(e as nat) * UNIT <= r < two_to((e + 1) as nat) * UNIT
    } else {
        UNIT <= r * two_to((-e) as nat) < 2 * UNIT
    }
}

/// The power of two at or next below the value `r / UNIT`.
pub open spec fn binade_of(r: int) -> int {
    choose|e: int| in_binade(r, e)
}

/// The quotient of `n` by `d`, rounded to the nearest integer, halves to the
/// even neighbour.
pub open spec fn round_half_even(n: int, d: int) -> int {
    let q = n / d;
    let rest = n % d;
    if 2 * rest < d || (2 * rest == d && q % 2 == 0) {
        q
    } else {
        q + 1
    }
}

/// The dividend and the divisor whose rounded quotient is the significand of
/// the float nearest to `r / UNIT`, a value of the binade `e`.
pub open spec fn significand_ratio(r: int, e: int) -> (int, int) {
    if e <= 23 {
        (r * two_to((23 - e) as nat), UNIT as int)
    } else {
        (r, UNIT * two_to((e - 23) as nat))
    }
}

/// The significand of the float nearest to the value `r / UNIT`: the value
/// divided by the spacing of the floats of its binade, rounded.
pub open spec fn significand_of(r: int) -> int {
    let ratio = significand_ratio(r, binade_of(r));
    round_half_even(ratio.0, ratio.1)
}

/// The bit pattern of the float nearest to a raw fixed-point value, of two
/// nearest floats the one with the even significand. A significand that
/// rounding carries up to the next power of two carries into the exponent field.
pub open spec fn float_bits(raw: i64) -> u32 {
    if raw == 0 {
        0
    } else {
        let r = if raw < 0 {
            -(raw as int)
        } else {
            raw as int
        };
        let sign = if raw < 0 {
            0x8000_0000int
        } else {
            0int
        };
        (sign + (binade_of(r) + 127) * 0x80_0000 + (significand_of(r) - 0x80_0000)) as u32
    }
}

/// Powers of two are positive and grow with the exponent.
pub proof fn lemma_two_to_grows(a: nat, b: nat)
    requires
        a <= b,
    ensures
        1 <= two_to(a) <= two_to(b),
    decreases b,
{
    if b > 0 {
        if a < b {
            lemma_two_to_grows(a, (b - 1) as nat);
        } else {
            lemma_two_to_grows((a - 1) as nat, (b - 1) as nat);
        }
    }
}

/// The power of a sum is the product of the powers.
pub proof fn lemma_two_to_adds(a: nat, b: nat)
    ensures
        two_to(a + b) == two_to(a) * two_to(b),
    decreases b,
{
    if b == 0 {
        assert(two_to(a) * 1 == two_to(a));
    } else {
        lemma_two_to_adds(a, (b - 1) as nat);
        assert(two_to(a + b) == 2 * two_to((a + b - 1) as nat));
        assert(2 * (two_to(a) * two_to((b - 1) as nat)) == two_to(a) * (2 * two_to((b - 1) as nat)))
            by (nonlinear_arith);
    }
}

/// Two to the power 20.
proof fn lemma_two_to_20()
    ensures
        two_to(20) == 0x10_0000,
{
    reveal_with_fuel(two_to, 21);
}

/// Two to the power 44.
proof fn lemma_two_to_44()
    ensures
        two_to(44) == 0x1000_0000_0000,
{
    reveal_with_fuel(two_to, 45);
}

/// Two to the power 64.
pub proof fn lemma_two_to_64()
    ensures
        two_to(64) == 0x1_0000_0000_0000_0000,
{
    reveal_with_fuel(two_to, 65);
}

/// Two to the power 126 fits a 128-bit integer.
proof fn lemma_two_to_126()
    ensures
        two_to(126) == 0x4000_0000_0000_0000_0000_0000_0000_0000,
{
    lemma_two_to_64();
    lemma_two_to_adds(64, 62);
    reveal_with_fuel(two_to, 63);
    assert(two_to(62) == 0x4000_0000_0000_0000);
    assert(0x1_0000_0000_0000_0000int * 0x4000_0000_0000_0000int
        == 0x4000_0000_0000_0000_0000_0000_0000_0000int) by (nonlinear_arith);
}

/// The raw value of a float, where it has one, lies within the limit.
pub proof fn lemma_float_raw_in_limit(bits: u32)
    requires
        float_raw(bits) is Some,
    ensures
        -LIMIT <= float_raw(bits)->Some_0 <= LIMIT,
{
    let n = float_significand(bits) * UNIT;
    let k = float_power(bits);
    assert(n >= 0) by (nonlinear_arith)
        requires
            float_significand(bits) >= 0,
            n == float_significand(bits) * UNIT,
    ;
    if k >= 0 {
        assert(n * two_to(k as nat) >= 0) by (nonlinear_arith)
            requires
                n >= 0,
        ;
    } else {
        let d = two_to((-k) as nat) as int;
        lemma_two_to_grows(0, (-k) as nat);
        assert((2 * n + d) / (2 * d) >= 0) by (nonlinear_arith)
            requires
                n >= 0,
                d >= 1,
        ;
    }
}

/// A value lies in one binade only.
pub proof fn lemma_binade_unique(r: int, e1: int, e2: int)
    requires
        in_binade(r, e1),
        in_binade(r, e2),
    ensures
        e1 == e2,
{
    if e1 < e2 {
        lemma_binades_apart(r, e1, e2);
    } else if e2 < e1 {
        lemma_binades_apart(r, e2, e1);
    }
}

/// A value in one binade is in no higher binade.
proof fn lemma_binades_apart(r: int, lo: int, hi: int)
    requires
        lo < hi,
        in_binade(r, lo),
    ensures
        !in_binade(r, hi),
{
    if lo >= 0 {
        lemma_two_to_grows((lo + 1) as nat, hi as nat);
        assert(two_to((lo + 1) as nat) * UNIT <= two_to(hi as nat) * UNIT) by (nonlinear_arith)
            requires
                two_to((lo + 1) as nat) <= two_to(hi as nat),
        ;
    } else if hi < 0 {
        let a = two_to((-hi) as nat);
        let b = two_to((-lo) as nat);
        lemma_two_to_grows((-hi + 1) as nat, (-lo) as nat);
        assert(two_to((-hi + 1) as nat) == 2 * a);
        assert(r >= 1) by (nonlinear_arith)
            requires
                r * b >= 1_000_000,
                b >= 1,
        ;
        assert(r * b >= r * (2 * a)) by (nonlinear_arith)
            requires
                r >= 1,
                b >= 2 * a,
        ;
        assert(r * (2 * a) == 2 * (r * a)) by (nonlinear_arith);
    } else {
        let b = two_to((-lo) as nat);
        lemma_two_to_grows(1, (-lo) as nat);
        assert(two_to(1) == 2) by {
            reveal_with_fuel(two_to, 2);
        }
        lemma_two_to_grows(0, hi as nat);
        if in_binade(r, hi) {
            assert(r >= UNIT) by (nonlinear_arith)
                requires
                    two_to(hi as nat) * UNIT <= r,
                    two_to(hi as nat) >= 1,
            ;
            assert(r * b >= 2 * UNIT) by (nonlinear_arith)
                requires
                    r >= UNIT,
                    b >= 2,
            ;
        }
    }
}

/// Every value from one raw step up to two to the power 63 lies in a binade.
pub proof fn lemma_binade_exists(r: int)
    requires
        1 <= r <= 0x8000_0000_0000_0000,
    ensures
        in_binade(r, binade_of(r)),
        -20 <= binade_of(r) <= 43,
{
    let e = if r >= UNIT {
        assert(two_to(0) == 1);
        lemma_binade_above(r, 0)
    } else {
        assert(two_to(0) == 1);
        assert(r * 1 == r);
        lemma_binade_below(r, 0)
    };
    lemma_binade_unique(r, e, binade_of(r));
    if e >= 44 {
        lemma_two_to_grows(44, e as nat);
        lemma_two_to_44();
        assert(two_to(e as nat) * UNIT >= 0x1000_0000_0000 * 1_000_000) by (nonlinear_arith)
            requires
                two_to(e as nat) >= 0x1000_0000_0000,
        ;
    }
    if e <= -21 {
        lemma_two_to_grows(21, (-e) as nat);
        lemma_two_to_20();
        assert(two_to(21) == 2 * two_to(20));
        assert(r * two_to((-e) as nat) >= 0x20_0000) by (nonlinear_arith)
            requires
                r >= 1,
                two_to((-e) as nat) >= 0x20_0000,
        ;
    }
}

/// A value of at least two to the power `e` lies in the binade `e` or above.
proof fn lemma_binade_above(r: int, e: int) -> (found: int)
    requires
        0 <= e,
        two_to(e as nat) * UNIT <= r,
    ensures
        found >= e,
        in_binade(r, found),
    decreases r - two_to(e as nat) * UNIT,
{
    assert(two_to((e + 1) as nat) == 2 * two_to(e as nat));
    lemma_two_to_grows(0, e as nat);
    if r < two_to((e + 1) as nat) * UNIT {
        e
    } else {
        assert(two_to((e + 1) as nat) * UNIT > two_to(e as nat) * UNIT) by (nonlinear_arith)
            requires
                two_to((e + 1) as nat) == 2 * two_to(e as nat),
                two_to(e as nat) >= 1,
        ;
        lemma_binade_above(r, e + 1)
    }
}

/// A value below two to the power `e + 1` lies in the binade `e` or below.
proof fn lemma_binade_below(r: int, e: int) -> (found: int)
    requires
        e <= 0,
        1 <= r,
        r * two_to((-e) as nat) < UNIT,
    ensures
        found < e,
        in_binade(r, found),
    decreases UNIT - r * two_to((-e) as nat),
{
    let k = two_to((-e) as nat) as int;
    assert(two_to((-e + 1) as nat) == 2 * k);
    lemma_two_to_grows(0, (-e) as nat);
    assert(r * (2 * k) == 2 * (r * k)) by (nonlinear_arith);
    assert(r * k >= 1) by (nonlinear_arith)
        requires
            r >= 1,
            k >= 1,
    ;
    if r * (2 * k) >= UNIT {
        e - 1
    } else {
        lemma_binade_below(r, e - 1)
    }
}

/// Before rounding, the significand of a value in the binade `e` has 24 bits.
pub proof fn lemma_significand_ratio(r: int, e: int)
    requires
        -20 <= e <= 43,
        in_binade(r, e),
    ensures
        significand_ratio(r, e).1 >= UNIT,
        0x80_0000 * significand_ratio(r, e).1 <= significand_ratio(r, e).0 < 0x100_0000
            * significand_ratio(r, e).1,
        significand_ratio(r, e).1 <= 0x10_0000 * UNIT,
{
    assert(two_to(23) == 0x80_0000) by {
        reveal_with_fuel(two_to, 24);
    }
    lemma_two_to_20();
    if e > 23 {
        let k = two_to((e - 23) as nat) as int;
        lemma_two_to_adds(23, (e - 23) as nat);
        lemma_two_to_grows((e - 23) as nat, 20);
        lemma_two_to_grows(0, (e - 23) as nat);
        let d = UNIT * k;
        assert(two_to((e + 1) as nat) == 2 * two_to(e as nat));
        assert(two_to(e as nat) * UNIT == 0x80_0000 * d) by (nonlinear_arith)
            requires
                two_to(e as nat) == 0x80_0000 * k,
                d == UNIT * k,
        ;
        assert(d >= UNIT && d <= 0x10_0000 * UNIT) by (nonlinear_arith)
            requires
                d == UNIT * k,
                1 <= k <= 0x10_0000,
        ;
    } else if e >= 0 {
        let k = two_to((23 - e) as nat) as int;
        let p = two_to(e as nat) as int;
        lemma_two_to_adds(e as nat, (23 - e) as nat);
        lemma_two_to_grows(0, (23 - e) as nat);
        assert(two_to((e + 1) as nat) == 2 * two_to(e as nat));
        assert(p * k == 0x80_0000);
        assert(0x80_0000 * UNIT <= r * k < 0x100_0000 * UNIT) by (nonlinear_arith)
            requires
                p * UNIT <= r < 2 * p * UNIT,
                p * k == 0x80_0000,
                k >= 1,
        ;
    } else {
        let k = two_to((23 - e) as nat) as int;
        let b = two_to((-e) as nat) as int;
        lemma_two_to_adds((-e) as nat, 23);
        assert(k == b * 0x80_0000);
        assert(0x80_0000 * UNIT <= r * k < 0x100_0000 * UNIT) by (nonlinear_arith)
            requires
                UNIT <= r * b < 2 * UNIT,
                k == b * 0x80_0000,
        ;
    }
}

/// The float nearest to a raw value is a number: encoding yields neither an
/// infinity nor a NaN.
pub proof fn lemma_float_bits_finite(raw: i64)
    ensures
        float_is_finite(float_bits(raw)),
{
    if raw != 0 {
        let r = if raw < 0 {
            -(raw as int)
        } else {
            raw as int
        };
        lemma_binade_exists(r);
        let e = binade_of(r);
        lemma_significand_ratio(r, e);
        let n = significand_ratio(r, e).0;
        let d = significand_ratio(r, e).1;
        let q = n / d;
        assert(0x80_0000 <= q < 0x100_0000) by (nonlinear_arith)
            requires
                d >= 1,
                0x80_0000 * d <= n < 0x100_0000 * d,
                q == n / d,
        ;
        let m = significand_of(r);
        let field = e + 127;
        let low = field * 0x80_0000 + (m - 0x80_0000);
        assert(field * 0x80_0000 <= low <= (field + 1) * 0x80_0000);
        assert(107 <= field <= 170);
        assert(107 <= low / 0x80_0000 <= 171);
        if raw < 0 {
            assert((0x8000_0000 + low) / 0x80_0000 == 0x100 + low / 0x80_0000);
        }
    }
}

/// Computes two to the power `e`.
pub fn power_of_two(e: u32) -> (p: u128)
    requires
        e < 127,
    ensures
        p == two_to(e as nat),
{
    let mut p: u128 = 1;
    let mut i: u32 = 0;
    proof {
        lemma_two_to_grows(0, 126);
    }
    while i < e
        invariant
            i <= e < 127,
            p == two_to(i as nat),
            p <= two_to(126),
        decreases e - i,
    {
        proof {
            lemma_two_to_grows((i + 1) as nat, 126);
            lemma_two_to_126();
        }
        p = p * 2;
        i += 1;
    }
    p
}

/// The raw fixed-point value of the float with the bit pattern `bits`.
pub fn raw_of_float(bits: u32) -> (raw: Option<i64>)
    ensures
        raw == float_raw(bits),
{
    let sign: u32 = bits / 0x8000_0000;
    let exponent: u32 = (bits / 0x80_0000) % 0x100;
    let fraction: u32 = bits % 0x80_0000;
    if exponent == 0xff {
        return None;
    }
    let significand: u128 = if exponent == 0 {
        fraction as u128
    } else {
        0x80_0000 + fraction as u128
    };
    let n: u128 = significand * (UNIT as u128);
    if exponent >= 150 {
        proof {
            let k = (exponent - 150) as nat;
            lemma_two_to_grows(0, k);
            assert(n * two_to(k) >= n) by (nonlinear_arith)
                requires
                    n >= 0,
                    two_to(k) >= 1,
            ;
        }
        return None;
    }
    let shift: u32 = if exponent == 0 {
        149
    } else {
        150 - exponent
    };
    let magnitude: u128 = if shift >= 64 {
        proof {
            let d = two_to(shift as nat) as int;
            lemma_two_to_grows(64, shift as nat);
            lemma_two_to_64();
            assert((2 * n + d) / (2 * d) == 0) by (nonlinear_arith)
                requires
                    0 <= 2 * n < d,
            ;
        }
        0
    } else {
        let d: u128 = power_of_two(shift);
        proof {
            lemma_two_to_grows(shift as nat, 64);
            lemma_two_to_64();
        }
        (2 * n + d) / (2 * d)
    };
    if magnitude > LIMIT as u128 {
        None
    } else if sign == 1 {
        Some(-(magnitude as i64))
    } else {
        Some(magnitude as i64)
    }
}

/// The binade of the value `r / UNIT`.
pub fn find_binade(r: u128) -> (e: i32)
    requires
        1 <= r <= 0x8000_0000_0000_0000,
    ensures
        -20 <= e <= 43,
        in_binade(r as int, e as int),
        e == binade_of(r as int),
{
    let mut e: i32 = 0;
    if r >= UNIT as u128 {
        let mut p: u128 = UNIT as u128;
        assert(two_to(0) == 1);
        while 2 * p <= r
            invariant
                0 <= e,
                p == two_to(e as nat) * UNIT,
                UNIT <= p <= r <= 0x8000_0000_0000_0000,
                e <= 63,
                p >= two_to(e as nat),
                two_to(e as nat) <= 0x8000_0000_0000_0000,
            decreases r - p,
        {
            proof {
                assert(two_to((e + 1) as nat) == 2 * two_to(e as nat));
                assert(2 * (two_to(e as nat) * UNIT) == (2 * two_to(e as nat)) * UNIT)
                    by (nonlinear_arith);
                assert(2 * p >= 2 * two_to(e as nat));
                if e >= 63 {
                    lemma_two_to_grows(63, e as nat);
                    lemma_two_to_64();
                    assert(two_to(64) == 2 * two_to(63));
                }
            }
            p = 2 * p;
            e = e + 1;
        }
        proof {
            assert(two_to((e + 1) as nat) == 2 * two_to(e as nat));
            assert(2 * (two_to(e as nat) * UNIT) == (2 * two_to(e as nat)) * UNIT)
                by (nonlinear_arith);
            if e >= 44 {
                lemma_two_to_grows(44, e as nat);
                lemma_two_to_44();
                assert(two_to(e as nat) * UNIT >= 0x1000_0000_0000 * 1_000_000) by (nonlinear_arith)
                    requires
                        two_to(e as nat) >= 0x1000_0000_0000,
                ;
            }
        }
    } else {
        let mut q: u128 = r;
        assert(two_to(0) == 1);
        assert(r * 1 == r);
        while q < UNIT as u128
            invariant
                e <= 0,
                e >= -20,
                1 <= r < UNIT,
                q == r * two_to((-e) as nat),
                1 <= q < 2 * UNIT,
                q >= two_to((-e) as nat),
            decreases 2 * UNIT - q,
        {
            proof {
                assert(two_to((-e + 1) as nat) == 2 * two_to((-e) as nat));
                assert(2 * (r * two_to((-e) as nat)) == r * (2 * two_to((-e) as nat)))
                    by (nonlinear_arith);
                if e == -20 {
                    lemma_two_to_20();
                }
            }
            q = 2 * q;
            e = e - 1;
        }
    }
    proof {
        assert(in_binade(r as int, e as int));
        lemma_binade_unique(r as int, e as int, binade_of(r as int));
    }
    e
}

/// The bit pattern of the float nearest to a raw fixed-point value.
pub fn float_of_raw(raw: i64) -> (bits: u32)
    ensures
        bits == float_bits(raw),
{
    if raw == 0 {
        return 0;
    }
    let wide: i128 = raw as i128;
    let r: u128 = if raw < 0 {
        (-wide) as u128
    } else {
        wide as u128
    };
    let sign: u32 = if raw < 0 {
        0x8000_0000
    } else {
        0
    };
    let e: i32 = find_binade(r);
    proof {
        lemma_significand_ratio(r as int, e as int);
    }
    let n: u128;
    let d: u128;
    if e <= 23 {
        let k = power_of_two((23 - e) as u32);
        n = r * k;
        d = UNIT as u128;
    } else {
        let k = power_of_two((e - 23) as u32);
        n = r;
        d = (UNIT as u128) * k;
    }
    let q: u128 = n / d;
    let rest: u128 = n % d;
    proof {
        assert(0x80_0000 <= q < 0x100_0000) by (nonlinear_arith)
            requires
                d >= 1,
                0x80_0000 * d <= n < 0x100_0000 * d,
                q == n / d,
        ;
    }
    let m: u128 = if 2 * rest < d || (2 * rest == d && q % 2 == 0) {
        q
    } else {
        q + 1
    };
    let field: u32 = (e + 127) as u32;
    sign + field * 0x80_0000 + (m as u32 - 0x80_0000)
}

} // verus!
