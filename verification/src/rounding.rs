//! Double-precision numbers in integer arithmetic.
//!
//! A double has 53 significant bits. Converting an integer and dividing round to
//! the nearest double, and to the one with an even last bit where two are
//! equally near.

use crate::bignum::{is_doublings, lemma_doublings_monotone};
use vstd::arithmetic::power2::{
    lemma2_to64, lemma_pow2_adds, lemma_pow2_pos, lemma_pow2_strictly_increases, lemma_pow2_unfold,
    pow2,
};
use vstd::prelude::*;

verus! {

/// The integer nearest to `x / unit`, the even one of two.
pub open spec fn nearest(x: int, unit: int) -> int {
    let (quotient, rest) = (x / unit, x % unit);
    if 2 * rest > unit || 2 * rest == unit && quotient % 2 == 1 {
        quotient + 1
    } else {
        quotient
    }
}

/// The number of times that `small` can be doubled within `large`.
pub open spec fn doublings_of(small: int, large: int) -> nat {
    choose|steps: nat| is_doublings(small, large, steps)
}

/// The double nearest to an integer.
pub open spec fn as_double(value: int) -> int {
    if value < 0x20_0000_0000_0000 {
        value
    } else {
        let unit = pow2((doublings_of(1, value) - 52) as nat) as int;
        nearest(value, unit) * unit
    }
}

/// The double nearest to `a / b`, as its significant bits and the exponent of
/// two: `(m, e)` stands for `m * 2^(e - 52)`.
pub open spec fn double_quotient(a: int, b: int) -> (int, nat) {
    let exponent = doublings_of(b, a);
    (nearest(a * 0x10_0000_0000_0000, b * pow2(exponent)), exponent)
}

/// A positive number that a larger one exceeds by a bounded factor has a number
/// of doublings.
pub proof fn lemma_doublings_exist(small: int, large: int, limit: nat)
    requires
        0 < small <= large < small * pow2(limit),
    ensures
        is_doublings(small, large, doublings_of(small, large)),
        doublings_of(small, large) < limit,
    decreases limit,
{
    if limit == 0 {
        lemma2_to64();
        assert(small * 1 == small) by (nonlinear_arith);
    } else if small * pow2((limit - 1) as nat) <= large {
        let steps = (limit - 1) as nat;
        assert(is_doublings(small, large, steps));
        lemma_doublings_monotone(small, large, steps, large, doublings_of(small, large));
        lemma_doublings_monotone(small, large, doublings_of(small, large), large, steps);
    } else {
        lemma_doublings_exist(small, large, (limit - 1) as nat);
    }
}

/// The number of doublings is the one that fits.
pub proof fn lemma_doublings_unique(small: int, large: int, steps: nat)
    requires
        0 < small,
        is_doublings(small, large, steps),
    ensures
        doublings_of(small, large) == steps,
{
    lemma_doublings_monotone(small, large, steps, large, doublings_of(small, large));
    lemma_doublings_monotone(small, large, doublings_of(small, large), large, steps);
}

/// Rounding stays between integers.
proof fn lemma_nearest_between(x: int, unit: int, low: int, high: int)
    requires
        unit > 0,
        low * unit <= x <= high * unit,
    ensures
        low <= nearest(x, unit) <= high,
{
    vstd::arithmetic::div_mod::lemma_fundamental_div_mod(x, unit);
    let (q, r) = (x / unit, x % unit);
    assert(low <= q && (q < high || q == high && r == 0)) by (nonlinear_arith)
        requires
            x == unit * q + r,
            0 <= r < unit,
            low * unit <= x <= high * unit,
    ;
}

/// Rounding keeps the order.
proof fn lemma_nearest_monotone(x: int, y: int, unit: int)
    requires
        unit > 0,
        x <= y,
    ensures
        nearest(x, unit) <= nearest(y, unit),
{
    vstd::arithmetic::div_mod::lemma_fundamental_div_mod(x, unit);
    vstd::arithmetic::div_mod::lemma_fundamental_div_mod(y, unit);
    let (q, r) = (x / unit, x % unit);
    let (p, s) = (y / unit, y % unit);
    assert(q < p || q == p && r <= s) by (nonlinear_arith)
        requires
            x == unit * q + r,
            y == unit * p + s,
            0 <= r < unit,
            0 <= s < unit,
            x <= y,
    ;
}

/// Rounding does not depend on the scale.
proof fn lemma_nearest_doubled(x: int, unit: int)
    requires
        unit > 0,
    ensures
        nearest(2 * x, 2 * unit) == nearest(x, unit),
{
    vstd::arithmetic::div_mod::lemma_fundamental_div_mod(x, unit);
    let (q, r) = (x / unit, x % unit);
    assert(2 * x == q * (2 * unit) + 2 * r) by (nonlinear_arith)
        requires
            x == unit * q + r,
    ;
    vstd::arithmetic::div_mod::lemma_fundamental_div_mod_converse(2 * x, 2 * unit, q, 2 * r);
}

/// A large integer as a double lies within its octave.
proof fn lemma_large_double(value: int)
    requires
        0x20_0000_0000_0000 <= value <= u64::MAX,
    ensures
        is_doublings(1, value, doublings_of(1, value)),
        53 <= doublings_of(1, value) < 64,
        ({
            let unit = pow2((doublings_of(1, value) - 52) as nat) as int;
            &&& unit > 0
            &&& 0x10_0000_0000_0000 * unit == pow2(doublings_of(1, value))
            &&& 0x20_0000_0000_0000 * unit == pow2(doublings_of(1, value) + 1)
            &&& 0x10_0000_0000_0000 <= nearest(value, unit) <= 0x20_0000_0000_0000
        }),
        pow2(doublings_of(1, value)) <= as_double(value) <= pow2(doublings_of(1, value) + 1),
{
    lemma2_to64();
    vstd::arithmetic::power2::lemma2_to64_rest();
    lemma_doublings_exist(1, value, 64);
    let exponent = doublings_of(1, value);
    if exponent < 53 {
        if exponent + 1 < 53 {
            lemma_pow2_strictly_increases(exponent + 1, 53);
        }
        assert(false);
    }
    let shift = (exponent - 52) as nat;
    let unit = pow2(shift) as int;
    lemma_pow2_pos(shift);
    lemma_pow2_adds(52, shift);
    lemma_pow2_adds(53, shift);
    assert(1 * pow2(exponent) <= value < 1 * pow2(exponent + 1));
    lemma_nearest_between(value, unit, 0x10_0000_0000_0000, 0x20_0000_0000_0000);
    let mantissa = nearest(value, unit);
    assert(0x10_0000_0000_0000 * unit <= mantissa * unit <= 0x20_0000_0000_0000 * unit)
        by (nonlinear_arith)
        requires
            unit > 0,
            0x10_0000_0000_0000 <= mantissa <= 0x20_0000_0000_0000,
    ;
}

/// Doubles of positive 64-bit integers are positive, and at most `2^64`.
pub proof fn lemma_double_bounds(value: int)
    requires
        1 <= value <= u64::MAX,
    ensures
        1 <= as_double(value) <= 0x1_0000_0000_0000_0000,
{
    if value >= 0x20_0000_0000_0000 {
        lemma_large_double(value);
        let exponent = doublings_of(1, value);
        vstd::arithmetic::power2::lemma2_to64_rest();
        lemma_pow2_pos(exponent);
        if exponent + 1 < 64 {
            lemma_pow2_strictly_increases(exponent + 1, 64);
        }
    }
}

/// Converting keeps the order.
pub proof fn lemma_double_monotone(value: int, larger: int)
    requires
        1 <= value <= larger <= u64::MAX,
    ensures
        as_double(value) <= as_double(larger),
{
    if larger >= 0x20_0000_0000_0000 {
        lemma_large_double(larger);
        let high = doublings_of(1, larger);
        if value < 0x20_0000_0000_0000 {
            lemma2_to64();
            vstd::arithmetic::power2::lemma2_to64_rest();
            if 53 < high {
                lemma_pow2_strictly_increases(53, high);
            }
        } else {
            lemma_large_double(value);
            let low = doublings_of(1, value);
            lemma_doublings_monotone(1, value, low, larger, high);
            if low < high {
                if low + 1 < high {
                    lemma_pow2_strictly_increases(low + 1, high);
                }
            } else {
                let unit = pow2((low - 52) as nat) as int;
                lemma_nearest_monotone(value, larger, unit);
                let (m, n) = (nearest(value, unit), nearest(larger, unit));
                assert(m * unit <= n * unit) by (nonlinear_arith)
                    requires
                        m <= n,
                        unit > 0,
                ;
            }
        }
    }
}

/// Converting keeps doublings.
pub proof fn lemma_double_doubled(value: int)
    requires
        1 <= value,
        2 * value <= u64::MAX,
    ensures
        as_double(2 * value) == 2 * as_double(value),
{
    let twice = 2 * value;
    if twice >= 0x20_0000_0000_0000 {
        lemma_large_double(twice);
        lemma2_to64();
        vstd::arithmetic::power2::lemma2_to64_rest();
        if value < 0x20_0000_0000_0000 {
            assert(is_doublings(1, twice, 53));
            lemma_doublings_unique(1, twice, 53);
            vstd::arithmetic::div_mod::lemma_fundamental_div_mod_converse(twice, 2, value, 0);
        } else {
            lemma_large_double(value);
            let exponent = doublings_of(1, value);
            let shift = (exponent - 52) as nat;
            lemma_pow2_unfold(exponent + 1);
            lemma_pow2_unfold(exponent + 2);
            lemma_pow2_unfold(shift + 1);
            assert(is_doublings(1, twice, exponent + 1));
            lemma_doublings_unique(1, twice, exponent + 1);
            let unit = pow2(shift) as int;
            lemma_nearest_doubled(value, unit);
            let mantissa = nearest(value, unit);
            assert(mantissa * (2 * unit) == 2 * (mantissa * unit)) by (nonlinear_arith);
        }
    }
}

/// The significant bits of a quotient fill 53 bits, or have just left them.
pub proof fn lemma_quotient_bounds(a: int, b: int)
    requires
        1 <= b <= a <= 0x1_0000_0000_0000_0000,
    ensures
        is_doublings(b, a, double_quotient(a, b).1),
        double_quotient(a, b).1 <= 64,
        0x10_0000_0000_0000 <= double_quotient(a, b).0 <= 0x20_0000_0000_0000,
        double_quotient(a, b).1 == 64 ==> double_quotient(a, b).0 == 0x10_0000_0000_0000,
{
    lemma2_to64();
    vstd::arithmetic::power2::lemma2_to64_rest();
    lemma_pow2_unfold(65);
    assert(a < b * pow2(65)) by (nonlinear_arith)
        requires
            1 <= b,
            a < pow2(65),
            pow2(65) > 0,
    ;
    lemma_doublings_exist(b, a, 65);
    let exponent = doublings_of(b, a);
    let unit = b * pow2(exponent);
    lemma_pow2_pos(exponent);
    lemma_pow2_unfold(exponent + 1);
    assert(unit > 0 && b * pow2(exponent + 1) == 2 * unit) by (nonlinear_arith)
        requires
            unit == b * pow2(exponent),
            pow2(exponent + 1) == 2 * pow2(exponent),
            pow2(exponent) > 0,
            b >= 1,
    ;
    let x = a * 0x10_0000_0000_0000;
    lemma_nearest_between(x, unit, 0x10_0000_0000_0000, 0x20_0000_0000_0000);
    if exponent == 64 {
        assert(b == 1) by (nonlinear_arith)
            requires
                b * pow2(64) <= a,
                a <= pow2(64),
                pow2(64) > 0,
                b >= 1,
        ;
        lemma_nearest_between(x, unit, 0x10_0000_0000_0000, 0x10_0000_0000_0000);
    }
}

/// A larger dividend has a larger exponent, or as large an exponent and no
/// smaller significant bits.
pub proof fn lemma_quotient_monotone(a: int, larger: int, b: int)
    requires
        1 <= b <= a <= larger <= 0x1_0000_0000_0000_0000,
    ensures
        double_quotient(a, b).1 <= double_quotient(larger, b).1,
        double_quotient(a, b).1 == double_quotient(larger, b).1 ==> double_quotient(a, b).0
            <= double_quotient(larger, b).0,
{
    lemma_quotient_bounds(a, b);
    lemma_quotient_bounds(larger, b);
    let (low, high) = (doublings_of(b, a), doublings_of(b, larger));
    lemma_doublings_monotone(b, a, low, larger, high);
    lemma_pow2_pos(low);
    assert(b * pow2(low) > 0) by (nonlinear_arith)
        requires
            b >= 1,
            pow2(low) > 0,
    ;
    lemma_nearest_monotone(a * 0x10_0000_0000_0000, larger * 0x10_0000_0000_0000, b * pow2(low));
}

/// Doubling the dividend raises the exponent by one.
pub proof fn lemma_quotient_doubled(a: int, b: int)
    requires
        1 <= b <= a,
        2 * a <= 0x1_0000_0000_0000_0000,
    ensures
        double_quotient(2 * a, b) == (double_quotient(a, b).0, double_quotient(a, b).1 + 1),
{
    lemma_quotient_bounds(a, b);
    let exponent = doublings_of(b, a);
    lemma_pow2_unfold(exponent + 1);
    lemma_pow2_unfold(exponent + 2);
    let unit = b * pow2(exponent);
    lemma_pow2_pos(exponent);
    assert(unit > 0 && b * pow2(exponent + 1) == 2 * unit && b * pow2(exponent + 2) == 4 * unit)
        by (nonlinear_arith)
        requires
            unit == b * pow2(exponent),
            pow2(exponent + 1) == 2 * pow2(exponent),
            pow2(exponent + 2) == 2 * pow2(exponent + 1),
            pow2(exponent) > 0,
            b >= 1,
    ;
    assert(is_doublings(b, 2 * a, exponent + 1));
    lemma_doublings_unique(b, 2 * a, exponent + 1);
    lemma_nearest_doubled(a * 0x10_0000_0000_0000, unit);
}

/// The integer nearest to `x / unit`, the even one of two.
fn round(x: u128, unit: u128) -> (rounded: u128)
    requires
        0 < unit <= 0x1_0000_0000_0000_0000,
    ensures
        rounded == nearest(x as int, unit as int),
{
    let quotient: u128 = x / unit;
    let rest: u128 = x % unit;
    if 2 * rest > unit || 2 * rest == unit && quotient % 2 == 1 {
        proof {
            vstd::arithmetic::div_mod::lemma_fundamental_div_mod(x as int, unit as int);
            let (q, r, u) = (quotient as int, rest as int, unit as int);
            assert(q < x) by (nonlinear_arith)
                requires
                    x == u * q + r,
                    r > 0,
                    u > 0,
                    q >= 0,
            ;
        }
        quotient + 1
    } else {
        quotient
    }
}

/// The double nearest to an integer.
pub fn to_double(value: u64) -> (double: u128)
    requires
        value > 0,
    ensures
        double == as_double(value as int),
{
    if value < 0x20_0000_0000_0000 {
        return value as u128;
    }
    let mut unit: u64 = 1;
    let ghost mut shift: nat = 0;
    proof {
        lemma2_to64();
    }
    while unit <= value / 0x20_0000_0000_0000
        invariant
            0 < unit <= 0x1000,
            unit == pow2(shift),
            value >= 0x20_0000_0000_0000,
            shift == 0 || 0x10_0000_0000_0000 * unit <= value,
        decreases 0x1000 - unit,
    {
        proof {
            assert(0x20_0000_0000_0000 * unit <= value);
            lemma_pow2_unfold(shift + 1);
            shift = shift + 1;
        }
        unit = unit * 2;
    }
    proof {
        lemma2_to64();
        vstd::arithmetic::power2::lemma2_to64_rest();
        lemma_pow2_adds(52, shift);
        lemma_pow2_adds(53, shift);
        assert(value < 0x20_0000_0000_0000 * unit);
        assert(is_doublings(1, value as int, 52 + shift));
        lemma_doublings_unique(1, value as int, 52 + shift);
        lemma_large_double(value as int);
    }
    let mantissa: u128 = round(value as u128, unit as u128);
    assert(mantissa * unit <= 0x20_0000_0000_0000 * 0x1000) by (nonlinear_arith)
        requires
            mantissa <= 0x20_0000_0000_0000,
            unit <= 0x1000,
    ;
    mantissa * unit as u128
}

/// The double nearest to `a / b`, as its significant bits and the exponent of
/// two.
pub fn divide(a: u128, b: u128) -> (quotient: (u64, u64))
    requires
        1 <= b <= a <= 0x1_0000_0000_0000_0000,
    ensures
        (quotient.0 as int, quotient.1 as nat) == double_quotient(a as int, b as int),
{
    let mut unit: u128 = b;
    let mut exponent: u64 = 0;
    proof {
        lemma2_to64();
    }
    while unit <= a / 2
        invariant
            1 <= b <= unit <= a <= 0x1_0000_0000_0000_0000,
            unit == b * pow2(exponent as nat),
            exponent <= 64,
        decreases a - unit,
    {
        proof {
            lemma_pow2_unfold((exponent + 1) as nat);
            let (u, p) = (b * pow2(exponent as nat), pow2(exponent as nat) as int);
            assert(b * (2 * p) == 2 * (b * p)) by (nonlinear_arith);
            if exponent == 64 {
                lemma2_to64();
                vstd::arithmetic::power2::lemma2_to64_rest();
                assert(b * pow2(64) >= pow2(64)) by (nonlinear_arith)
                    requires
                        b >= 1,
                        pow2(64) > 0,
                ;
            }
        }
        unit = unit * 2;
        exponent += 1;
    }
    proof {
        lemma_pow2_unfold((exponent + 1) as nat);
        let p = pow2(exponent as nat) as int;
        assert(b * (2 * p) == 2 * (b * p)) by (nonlinear_arith);
        assert(is_doublings(b as int, a as int, exponent as nat));
        lemma_doublings_unique(b as int, a as int, exponent as nat);
        lemma_quotient_bounds(a as int, b as int);
    }
    let mantissa: u128 = round(a * 0x10_0000_0000_0000, unit);
    (mantissa as u64, exponent)
}

} // verus!
