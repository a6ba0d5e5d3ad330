//! Exact sums of products of 64-bit integers.

use vstd::prelude::*;

verus! {

/// The sum of the first `count` products of two lists.
pub open spec fn dot(left: Seq<i64>, right: Seq<i64>, count: nat) -> int
    decreases count,
{
    if count == 0 {
        0
    } else {
        dot(left, right, (count - 1) as nat) + left[count - 1] * right[count - 1]
    }
}

/// A sum `high * 2^64 + low`.
pub struct ExactSum {
    high: i128,
    low: u64,
    terms: Ghost<nat>,
}

/// The largest number of terms.
pub open spec fn term_limit() -> int {
    0x1_ffff_ffff_ffff_ffff
}

impl ExactSum {
    /// The sum.
    pub closed spec fn value(&self) -> int {
        self.high * 0x1_0000_0000_0000_0000 + self.low
    }

    /// The number of terms that were added.
    pub closed spec fn count(&self) -> nat {
        self.terms@
    }

    /// The sum is no larger than its terms allow.
    pub closed spec fn wf(&self) -> bool {
        &&& self.terms@ <= term_limit()
        &&& -(self.terms@ as int) * 0x4000_0000_0000_0000_0000_0000_0000_0000 <= self.value()
            <= self.terms@ * 0x4000_0000_0000_0000_0000_0000_0000_0000
    }

    /// The empty sum.
    pub fn new() -> (sum: Self)
        ensures
            sum.wf(),
            sum.value() == 0,
            sum.count() == 0,
    {
        ExactSum { high: 0, low: 0, terms: Ghost(0) }
    }

    /// Adds a product.
    pub fn push(&mut self, left: i64, right: i64)
        requires
            old(self).wf(),
            old(self).count() < term_limit(),
        ensures
            final(self).wf(),
            final(self).value() == old(self).value() + left * right,
            final(self).count() == old(self).count() + 1,
    {
        assert(-0x4000_0000_0000_0000_0000_0000_0000_0000 <= left * right
            <= 0x4000_0000_0000_0000_0000_0000_0000_0000) by (nonlinear_arith)
            requires
                -0x8000_0000_0000_0000 <= left <= 0x7fff_ffff_ffff_ffff,
                -0x8000_0000_0000_0000 <= right <= 0x7fff_ffff_ffff_ffff,
        ;
        let product: i128 = (left as i128) * (right as i128);
        let (high, low): (i128, i128) = match (
            product.checked_div_euclid(0x1_0000_0000_0000_0000),
            product.checked_rem_euclid(0x1_0000_0000_0000_0000),
        ) {
            (Some(high), Some(low)) => (high, low),
            _ => {
                assert(false);
                (0, 0)
            },
        };
        assert(product == high * 0x1_0000_0000_0000_0000 + low);
        let sum: u128 = self.low as u128 + low as u128;
        let carry: i128 = (sum / 0x1_0000_0000_0000_0000) as i128;
        self.high = self.high + high + carry;
        self.low = (sum % 0x1_0000_0000_0000_0000) as u64;
        self.terms = Ghost(self.terms@ + 1);
    }

    /// The sum as a 128-bit integer, or `None` where it does not fit.
    pub fn to_i128(&self) -> (sum: Option<i128>)
        requires
            self.wf(),
        ensures
            sum matches Some(sum) ==> sum == self.value(),
            sum is None <==> !(i128::MIN <= self.value() <= i128::MAX),
    {
        if self.high < -0x8000_0000_0000_0000 || self.high > 0x7fff_ffff_ffff_ffff {
            return None;
        }
        Some(self.high * 0x1_0000_0000_0000_0000 + self.low as i128)
    }

    /// Whether the sum is negative, zero or positive: -1, 0 or 1.
    pub fn sign(&self) -> (sign: i8)
        requires
            self.wf(),
        ensures
            sign == if self.value() < 0 {
                -1int
            } else if self.value() == 0 {
                0
            } else {
                1
            },
    {
        if self.high < 0 {
            -1
        } else if self.high == 0 && self.low == 0 {
            0
        } else {
            1
        }
    }
}

/// Adds the products of two lists, as far as the shorter one goes.
pub fn push_dot(sum: &mut ExactSum, left: &Vec<i64>, right: &[i64], limit: usize)
    requires
        old(sum).wf(),
        old(sum).count() + limit <= term_limit(),
    ensures
        final(sum).wf(),
        ({
            let count = shortest(left@.len(), right@.len(), limit as nat);
            &&& final(sum).value() == old(sum).value() + dot(left@, right@, count)
            &&& final(sum).count() == old(sum).count() + count
        }),
{
    let mut at: usize = 0;
    while at < limit && at < left.len() && at < right.len()
        invariant
            at <= limit,
            at <= left@.len(),
            at <= right@.len(),
            old(sum).count() + limit <= term_limit(),
            sum.wf(),
            sum.value() == old(sum).value() + dot(left@, right@, at as nat),
            sum.count() == old(sum).count() + at,
        decreases limit - at,
    {
        sum.push(left[at], right[at]);
        at += 1;
    }
}

/// The smallest of three numbers.
pub open spec fn shortest(a: nat, b: nat, c: nat) -> nat {
    if a <= b && a <= c {
        a
    } else if b <= c {
        b
    } else {
        c
    }
}

} // verus!
