//! Bins for reuse values: exact below a threshold, logarithmic above it.

use crate::bignum::{
    base, doublings, is_doublings, lemma_base_pow, lemma_doublings_monotone, power, value_of,
};
use crate::rounding::{
    as_double, divide, double_quotient, doublings_of, lemma_double_bounds, lemma_double_doubled,
    lemma_double_monotone, lemma_doublings_exist, lemma_doublings_unique, lemma_quotient_bounds,
    lemma_quotient_doubled, lemma_quotient_monotone, to_double,
};
use vstd::arithmetic::power::{
    lemma_pow1, lemma_pow_adds, lemma_pow_distributes, lemma_pow_positive, pow,
};
use vstd::arithmetic::power2::{lemma_pow2, lemma_pow2_strictly_increases, pow2};
use vstd::prelude::*;

verus! {

/// Bins reuse values so joint histograms stay bounded.
///
/// Small values are kept exactly. Larger values fall into logarithmic bins,
/// `per_octave` of them between a value and its double.
#[derive(Clone, Copy, Debug)]
pub struct Binner {
    exact_below: u64,
    per_octave: u32,
}

/// `floor(per_octave * log2(large / small))`: the number of times that
/// `small ^ per_octave` can be doubled within `large ^ per_octave`.
pub open spec fn log_steps(small: int, per_octave: nat, large: int) -> nat {
    doublings_of(pow(small, per_octave), pow(large, per_octave))
}

/// `floor(per_octave * log2(value / exact_below))`, where the quotient is the one
/// of double precision.
pub open spec fn offset(exact_below: int, per_octave: nat, value: int) -> nat {
    let (mantissa, exponent) = double_quotient(as_double(value), as_double(exact_below));
    exponent * per_octave + log_steps(0x10_0000_0000_0000, per_octave, mantissa)
}

/// The index of a value's bin, before it is cut to 32 bits.
pub open spec fn bin_index(exact_below: int, per_octave: nat, value: int) -> int {
    if value < exact_below {
        value
    } else if exact_below == 0 {
        if value == 0 {
            0
        } else {
            u64::MAX as int
        }
    } else {
        exact_below + offset(exact_below, per_octave, value)
    }
}

impl Binner {
    /// Values below this one have a bin of their own.
    pub closed spec fn threshold(&self) -> int {
        self.exact_below as int
    }

    /// Number of bins between a value and its double.
    pub closed spec fn resolution(&self) -> nat {
        self.per_octave as nat
    }

    /// The bin of a reuse value.
    pub open spec fn bin_of(&self, value: int) -> u32 {
        (bin_index(self.threshold(), self.resolution(), value) % 0x1_0000_0000) as u32
    }

    pub fn new(exact_below: u64, per_octave: u32) -> (binner: Self)
        requires
            per_octave > 0,
        ensures
            binner.threshold() == exact_below,
            binner.resolution() == per_octave,
    {
        Binner { exact_below, per_octave }
    }

    /// The smallest value that does not have a bin of its own.
    pub fn exact_below(&self) -> (value: u64)
        ensures
            value == self.threshold(),
    {
        self.exact_below
    }

    /// Number of bins between a value and its double.
    pub fn per_octave(&self) -> (bins: u32)
        ensures
            bins == self.resolution(),
    {
        self.per_octave
    }

    /// A value over the threshold, in double precision.
    fn quotient(&self, value: u64) -> (quotient: (u64, u64))
        requires
            0 < self.exact_below <= value,
        ensures
            (quotient.0 as int, quotient.1 as nat) == double_quotient(
                as_double(value as int),
                as_double(self.exact_below as int),
            ),
            0x10_0000_0000_0000 <= quotient.0 <= 0x20_0000_0000_0000,
            quotient.1 <= 64,
    {
        proof {
            lemma_double_bounds(value as int);
            lemma_double_bounds(self.exact_below as int);
            lemma_double_monotone(self.exact_below as int, value as int);
            lemma_quotient_bounds(as_double(value as int), as_double(self.exact_below as int));
        }
        divide(to_double(value), to_double(self.exact_below))
    }

    /// Maps a reuse value to its bin index.
    ///
    /// The quotient by the threshold is rounded as a division of doubles is. Its
    /// logarithm is exact: the precision of a logarithm in floating point is left
    /// open by the standard library, so that it may come out on either side of
    /// the edge of a bin.
    pub fn bin(&self, value: u64) -> (bin: u32)
        ensures
            bin == self.bin_of(value as int),
    {
        if value < self.exact_below {
            assert(value as u32 == value % 0x1_0000_0000) by (bit_vector);
            return value as u32;
        }
        if self.exact_below == 0 {
            return if value == 0 {
                0
            } else {
                u32::MAX
            };
        }
        let (mantissa, exponent): (u64, u64) = self.quotient(value);
        let small: Vec<u64> = power(0x10_0000_0000_0000, self.per_octave);
        let large: Vec<u64> = power(mantissa, self.per_octave);
        proof {
            lemma_log_steps(0x10_0000_0000_0000, self.per_octave as nat, mantissa as int);
        }
        let steps: u64 = doublings(&small, &large);
        proof {
            lemma_doublings_unique(value_of(small@), value_of(large@), steps as nat);
            lemma_mantissa_steps(self.per_octave as nat, mantissa as int);
            assert(exponent * self.per_octave <= 64 * u32::MAX) by (nonlinear_arith)
                requires
                    exponent <= 64,
                    self.per_octave <= u32::MAX,
            ;
        }
        let offset: u64 = exponent * self.per_octave as u64 + steps;
        let sum: u64 = self.exact_below.wrapping_add(offset);
        assert(sum as u32 == sum % 0x1_0000_0000) by (bit_vector);
        sum as u32
    }
}

impl Default for Binner {
    /// Exact below 256, and 32 bins per octave above.
    fn default() -> (binner: Self)
        ensures
            binner.threshold() == 256,
            binner.resolution() == 32,
    {
        Binner { exact_below: 256, per_octave: 32 }
    }
}

proof fn lemma_pow_monotone(small: int, large: int, exponent: nat)
    requires
        0 <= small <= large,
    ensures
        0 <= pow(small, exponent) <= pow(large, exponent),
    decreases exponent,
{
    if exponent == 0 {
        vstd::arithmetic::power::lemma_pow0(small);
        vstd::arithmetic::power::lemma_pow0(large);
    } else {
        let e = (exponent - 1) as nat;
        lemma_pow_monotone(small, large, e);
        lemma_pow1(small);
        lemma_pow1(large);
        lemma_pow_adds(small, e, 1);
        lemma_pow_adds(large, e, 1);
        let (a, b) = (pow(small, e), pow(large, e));
        assert(0 <= a * small <= b * large) by (nonlinear_arith)
            requires
                0 <= a <= b,
                0 <= small <= large,
        ;
    }
}

/// The logarithm of a quotient that is at least one is well defined.
proof fn lemma_log_steps(exact_below: int, per_octave: nat, value: int)
    requires
        0 < exact_below <= value <= u64::MAX,
        per_octave <= u32::MAX,
    ensures
        0 < pow(exact_below, per_octave) <= pow(value, per_octave) < pow2(u64::MAX as nat),
        is_doublings(
            pow(exact_below, per_octave),
            pow(value, per_octave),
            log_steps(exact_below, per_octave, value),
        ),
{
    let (small, large) = (pow(exact_below, per_octave), pow(value, per_octave));
    lemma_pow_positive(exact_below, per_octave);
    lemma_pow_monotone(exact_below, value, per_octave);
    lemma_pow_monotone(value, base(), per_octave);
    lemma_base_pow(per_octave);
    let limit = u64::MAX as nat;
    lemma_pow2_strictly_increases(per_octave * 64, limit);
    assert(pow2(limit) <= small * pow2(limit)) by (nonlinear_arith)
        requires
            small >= 1,
            pow2(limit) > large,
            large >= 0,
    ;
    lemma_doublings_exist(small, large, limit);
}

/// The significant bits of a quotient are worth at most one octave, and nothing
/// where they are the least.
proof fn lemma_mantissa_steps(per_octave: nat, mantissa: int)
    requires
        0x10_0000_0000_0000 <= mantissa <= 0x20_0000_0000_0000,
        per_octave <= u32::MAX,
    ensures
        log_steps(0x10_0000_0000_0000, per_octave, mantissa) <= per_octave,
        mantissa == 0x10_0000_0000_0000 ==> log_steps(0x10_0000_0000_0000, per_octave, mantissa)
            == 0,
{
    let least: int = 0x10_0000_0000_0000;
    lemma_log_steps(least, per_octave, mantissa);
    let steps = log_steps(least, per_octave, mantissa);
    let small = pow(least, per_octave);
    lemma_pow_monotone(mantissa, 2 * least, per_octave);
    lemma_pow_distributes(2, least, per_octave);
    lemma_pow2(per_octave);
    let octave = pow2(per_octave) as int;
    assert(octave * small == small * octave) by (nonlinear_arith);
    if steps > per_octave {
        lemma_pow2_strictly_increases(per_octave, steps);
        assert(small * octave < small * pow2(steps)) by (nonlinear_arith)
            requires
                small > 0,
                octave < pow2(steps),
        ;
    }
    if mantissa == least {
        vstd::arithmetic::power2::lemma2_to64();
        assert(is_doublings(small, small, 0)) by {
            assert(small * 1 == small && small * 2 > small) by (nonlinear_arith)
                requires
                    small > 0,
            ;
        }
        lemma_doublings_unique(small, small, 0);
    }
}

/// A logarithmic offset is at most 64 octaves.
pub proof fn lemma_offset_bound(exact_below: int, per_octave: nat, value: int)
    requires
        0 < exact_below <= value <= u64::MAX,
        per_octave <= u32::MAX,
    ensures
        offset(exact_below, per_octave, value) <= 64 * per_octave,
{
    let (a, b) = (as_double(value), as_double(exact_below));
    lemma_double_bounds(value);
    lemma_double_bounds(exact_below);
    lemma_double_monotone(exact_below, value);
    lemma_quotient_bounds(a, b);
    let (mantissa, exponent) = double_quotient(a, b);
    lemma_mantissa_steps(per_octave, mantissa);
    if exponent < 64 {
        assert(exponent * per_octave + per_octave <= 64 * per_octave) by (nonlinear_arith)
            requires
                exponent + 1 <= 64,
        ;
    }
}

/// Bin indices never go backwards.
pub proof fn law_bins_are_monotone(exact_below: int, per_octave: nat, value: int, larger: int)
    requires
        0 <= exact_below <= u64::MAX,
        0 < per_octave <= u32::MAX,
        0 <= value <= larger <= u64::MAX,
    ensures
        bin_index(exact_below, per_octave, value) <= bin_index(exact_below, per_octave, larger),
{
    if 0 < exact_below <= value {
        let (a, c, b) = (as_double(value), as_double(larger), as_double(exact_below));
        lemma_double_bounds(value);
        lemma_double_bounds(larger);
        lemma_double_bounds(exact_below);
        lemma_double_monotone(exact_below, value);
        lemma_double_monotone(value, larger);
        lemma_quotient_bounds(a, b);
        lemma_quotient_bounds(c, b);
        lemma_quotient_monotone(a, c, b);
        let least: int = 0x10_0000_0000_0000;
        let ((m, e), (n, f)) = (double_quotient(a, b), double_quotient(c, b));
        lemma_mantissa_steps(per_octave, m);
        if e < f {
            assert(e * per_octave + per_octave <= f * per_octave) by (nonlinear_arith)
                requires
                    e + 1 <= f,
            ;
        } else {
            lemma_log_steps(least, per_octave, m);
            lemma_log_steps(least, per_octave, n);
            lemma_pow_monotone(m, n, per_octave);
            lemma_doublings_monotone(
                pow(least, per_octave),
                pow(m, per_octave),
                log_steps(least, per_octave, m),
                pow(n, per_octave),
                log_steps(least, per_octave, n),
            );
        }
    }
}

/// Doubling a value at or above the threshold moves it by one octave of bins.
pub proof fn law_an_octave_is_per_octave_bins(exact_below: int, per_octave: nat, value: int)
    requires
        0 < exact_below <= value,
        2 * value <= u64::MAX,
        0 < per_octave <= u32::MAX,
    ensures
        bin_index(exact_below, per_octave, 2 * value) == bin_index(exact_below, per_octave, value)
            + per_octave,
{
    let (a, b) = (as_double(value), as_double(exact_below));
    lemma_double_bounds(2 * value);
    lemma_double_bounds(exact_below);
    lemma_double_monotone(exact_below, value);
    lemma_double_doubled(value);
    lemma_quotient_doubled(a, b);
    let exponent = double_quotient(a, b).1;
    assert((exponent + 1) * per_octave == exponent * per_octave + per_octave) by (nonlinear_arith);
}

/// A value below the threshold has a bin of its own, with its own number; no
/// other value shares it.
pub proof fn law_small_values_have_a_bin_of_their_own(
    exact_below: int,
    per_octave: nat,
    value: int,
    other: int,
)
    requires
        0 <= value < exact_below,
        0 <= other <= u64::MAX,
    ensures
        bin_index(exact_below, per_octave, value) == value,
        bin_index(exact_below, per_octave, other) == value ==> other == value,
        other >= exact_below ==> bin_index(exact_below, per_octave, other) >= exact_below,
{
    if other >= exact_below {
        let exponent = double_quotient(as_double(other), as_double(exact_below)).1;
        assert(exponent * per_octave >= 0) by (nonlinear_arith)
            requires
                exponent >= 0,
                per_octave >= 0,
        ;
    }
}

} // verus!
