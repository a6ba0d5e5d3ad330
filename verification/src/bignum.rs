//! Unsigned integers of any size, as little-endian sequences of 64-bit limbs.

use vstd::arithmetic::power::{lemma_pow_adds, lemma_pow0, lemma_pow1, pow};
use vstd::arithmetic::power2::{
    lemma2_to64, lemma2_to64_rest, lemma_pow2_adds, lemma_pow2_pos, lemma_pow2_strictly_increases,
    lemma_pow2_unfold, pow2,
};
use vstd::prelude::*;
use vstd::std_specs::bits::u64_leading_zeros;

verus! {

/// The base of the limbs.
pub open spec fn base() -> int {
    0x1_0000_0000_0000_0000
}

/// The limb at a position; zero behind the end.
pub open spec fn limb(limbs: Seq<u64>, at: int) -> int {
    if 0 <= at < limbs.len() {
        limbs[at] as int
    } else {
        0
    }
}

/// The number that the lowest `n` limbs stand for.
pub open spec fn low_value(limbs: Seq<u64>, n: nat) -> int
    decreases n,
{
    if n == 0 {
        0
    } else {
        low_value(limbs, (n - 1) as nat) + limb(limbs, n - 1) * pow(base(), (n - 1) as nat)
    }
}

/// The number that a sequence of limbs stands for.
pub open spec fn value_of(limbs: Seq<u64>) -> int {
    low_value(limbs, limbs.len())
}

proof fn lemma_low_value_bound(limbs: Seq<u64>, n: nat)
    ensures
        0 <= low_value(limbs, n) < pow(base(), n),
    decreases n,
{
    if n == 0 {
        lemma_pow0(base());
    } else {
        let m = (n - 1) as nat;
        lemma_low_value_bound(limbs, m);
        lemma_pow1(base());
        lemma_pow_adds(base(), m, 1);
        let (x, p) = (limb(limbs, n - 1), pow(base(), m));
        assert(0 <= x * p <= (base() - 1) * p) by (nonlinear_arith)
            requires
                0 <= x <= base() - 1,
                p >= 0,
        ;
        assert((base() - 1) * p + p == p * base()) by (nonlinear_arith);
    }
}

proof fn lemma_low_value_beyond(limbs: Seq<u64>, n: nat)
    requires
        n >= limbs.len(),
    ensures
        low_value(limbs, n) == value_of(limbs),
    decreases n,
{
    if n > limbs.len() {
        lemma_low_value_beyond(limbs, (n - 1) as nat);
        assert(limb(limbs, n - 1) * pow(base(), (n - 1) as nat) == 0) by (nonlinear_arith)
            requires
                limb(limbs, n - 1) == 0,
        ;
    }
}

proof fn lemma_low_value_same(left: Seq<u64>, right: Seq<u64>, n: nat)
    requires
        forall|at: int| 0 <= at < n ==> limb(left, at) == limb(right, at),
    ensures
        low_value(left, n) == low_value(right, n),
    decreases n,
{
    if n > 0 {
        lemma_low_value_same(left, right, (n - 1) as nat);
    }
}

/// A single limb.
pub fn from_u64(value: u64) -> (limbs: Vec<u64>)
    ensures
        value_of(limbs@) == value,
{
    let limbs: Vec<u64> = vec![value];
    proof {
        lemma_pow0(base());
        assert(low_value(limbs@, 1) == low_value(limbs@, 0) + limb(limbs@, 0) * pow(base(), 0));
    }
    limbs
}

/// The product with a single limb.
pub fn times(limbs: &Vec<u64>, factor: u64) -> (product: Vec<u64>)
    ensures
        value_of(product@) == value_of(limbs@) * factor,
{
    let mut product: Vec<u64> = Vec::new();
    let mut carry: u64 = 0;
    let mut at: usize = 0;
    proof {
        assert(0 * pow(base(), 0) == 0 && 0int * factor as int == 0) by (nonlinear_arith);
    }
    while at < limbs.len()
        invariant
            at <= limbs@.len(),
            product@.len() == at,
            low_value(product@, at as nat) + carry * pow(base(), at as nat) == low_value(
                limbs@,
                at as nat,
            ) * factor,
        decreases limbs@.len() - at,
    {
        let here: u64 = limbs[at];
        assert(here * factor + carry <= 0xffff_ffff_ffff_ffff * 0xffff_ffff_ffff_ffff
            + 0xffff_ffff_ffff_ffff) by (nonlinear_arith)
            requires
                here <= 0xffff_ffff_ffff_ffffu64,
                factor <= 0xffff_ffff_ffff_ffffu64,
                carry <= 0xffff_ffff_ffff_ffffu64,
        ;
        assert(0 <= here * factor) by (nonlinear_arith);
        let wide: u128 = (here as u128) * (factor as u128) + (carry as u128);
        let low: u64 = (wide % 0x1_0000_0000_0000_0000) as u64;
        let high: u64 = (wide / 0x1_0000_0000_0000_0000) as u64;
        let ghost earlier = product@;
        let ghost old_carry = carry;
        product.push(low);
        carry = high;
        proof {
            let p = pow(base(), at as nat);
            lemma_low_value_same(earlier, product@, at as nat);
            lemma_pow1(base());
            lemma_pow_adds(base(), at as nat, 1);
            let a = low_value(limbs@, at as nat);
            assert(high * base() + low == here * factor + old_carry);
            assert(limb(product@, at as int) == low);
            assert(limb(limbs@, at as int) == here);
            assert(low_value(product@, (at + 1) as nat) == low_value(product@, at as nat) + low * p);
            assert(low * p + high * (p * base()) == here * factor * p + old_carry * p)
                by (nonlinear_arith)
                requires
                    high * base() + low == here * factor + old_carry,
            ;
            assert((a + here * p) * factor == a * factor + here * factor * p) by (nonlinear_arith);
        }
        at += 1;
    }
    let ghost earlier = product@;
    product.push(carry);
    proof {
        lemma_low_value_same(earlier, product@, at as nat);
        assert(limb(product@, at as int) == carry);
    }
    product
}

/// A power of a single limb.
pub fn power(value: u64, exponent: u32) -> (limbs: Vec<u64>)
    ensures
        value_of(limbs@) == pow(value as int, exponent as nat),
{
    let mut limbs: Vec<u64> = from_u64(1);
    let mut done: u32 = 0;
    proof {
        lemma_pow0(value as int);
    }
    while done < exponent
        invariant
            done <= exponent,
            value_of(limbs@) == pow(value as int, done as nat),
        decreases exponent - done,
    {
        limbs = trimmed(times(&limbs, value));
        done += 1;
        proof {
            lemma_pow1(value as int);
            lemma_pow_adds(value as int, (done - 1) as nat, 1);
        }
    }
    limbs
}

/// The limbs from a position on are zero.
pub open spec fn zero_above(limbs: Seq<u64>, at: int) -> bool {
    forall|i: int| at <= i < limbs.len() ==> #[trigger] limbs[i] == 0
}

/// The highest limb, if there is one, is not zero.
pub open spec fn is_trimmed(limbs: Seq<u64>) -> bool {
    limbs.len() > 0 ==> limbs.last() != 0
}

/// The same number without a zero in the highest limb: only zeros at the high
/// end go.
fn trimmed(limbs: Vec<u64>) -> (short: Vec<u64>)
    ensures
        value_of(short@) == value_of(limbs@),
        short@.is_prefix_of(limbs@),
        zero_above(limbs@, short@.len() as int),
        is_trimmed(short@),
{
    let mut short: Vec<u64> = limbs;
    while short.len() > 0 && short[short.len() - 1] == 0
        invariant
            value_of(short@) == value_of(limbs@),
            short@.is_prefix_of(limbs@),
            zero_above(limbs@, short@.len() as int),
        decreases short@.len(),
    {
        let ghost before = short@;
        let _ = short.pop();
        proof {
            assert(before.last() == limbs@[before.len() - 1]);
            lemma_low_value_same(before, short@, short@.len());
            assert(0 * pow(base(), short@.len()) == 0) by (nonlinear_arith);
        }
    }
    short
}

/// The product with a power of two.
pub fn shifted(limbs: &Vec<u64>, by: u64) -> (product: Vec<u64>)
    ensures
        value_of(product@) == value_of(limbs@) * pow2(by as nat),
{
    let words: u64 = by / 64;
    let bits: u64 = by % 64;
    let mut moved: Vec<u64> = Vec::new();
    let mut at: u64 = 0;
    while at < words
        invariant
            at <= words,
            moved@.len() == at,
            forall|i: int| 0 <= i < at ==> moved@[i] == 0,
        decreases words - at,
    {
        moved.push(0);
        at += 1;
    }
    let ghost zeros = moved@;
    let mut next: usize = 0;
    while next < limbs.len()
        invariant
            next <= limbs@.len(),
            moved@ =~= zeros + limbs@.take(next as int),
        decreases limbs@.len() - next,
    {
        moved.push(limbs[next]);
        next += 1;
    }
    let factor: u64 = 1u64 << bits;
    let product = times(&moved, factor);
    proof {
        assert(moved@ =~= zeros + limbs@);
        lemma_behind_zeros(zeros, limbs@, limbs@.len());
        vstd::bits::lemma_u64_pow2_no_overflow(bits as nat);
        vstd::bits::lemma_u64_shl_is_mul(1, bits);
        lemma_pow2_adds((words * 64) as nat, bits as nat);
        lemma_base_pow(words as nat);
        let (v, w, b) = (value_of(limbs@), pow2((words * 64) as nat), pow2(bits as nat));
        assert(v * w * b == v * (w * b)) by (nonlinear_arith);
    }
    product
}

pub(crate) proof fn lemma_base_pow(words: nat)
    ensures
        pow(base(), words) == pow2(words * 64),
    decreases words,
{
    if words == 0 {
        lemma_pow0(base());
        lemma2_to64();
    } else {
        lemma_base_pow((words - 1) as nat);
        lemma_pow1(base());
        lemma_pow_adds(base(), (words - 1) as nat, 1);
        lemma_pow2_adds(((words - 1) * 64) as nat, 64);
        lemma2_to64();
    }
}

proof fn lemma_behind_zeros(zeros: Seq<u64>, limbs: Seq<u64>, n: nat)
    requires
        forall|i: int| 0 <= i < zeros.len() ==> zeros[i] == 0,
        n <= limbs.len(),
    ensures
        low_value(zeros + limbs, zeros.len() + n) == low_value(limbs, n) * pow(
            base(),
            zeros.len(),
        ),
    decreases n,
{
    let all = zeros + limbs;
    if n == 0 {
        lemma_zeros(all, zeros.len());
        assert(0 * pow(base(), zeros.len()) == 0) by (nonlinear_arith);
    } else {
        let m = (n - 1) as nat;
        lemma_behind_zeros(zeros, limbs, m);
        lemma_pow_adds(base(), zeros.len(), m);
        assert(limb(all, (zeros.len() + m) as int) == limb(limbs, m as int));
        let (a, x, p, q) = (
            low_value(limbs, m),
            limb(limbs, m as int),
            pow(base(), zeros.len()),
            pow(base(), m),
        );
        assert(a * p + x * (p * q) == (a + x * q) * p) by (nonlinear_arith);
    }
}

proof fn lemma_zeros(limbs: Seq<u64>, n: nat)
    requires
        n <= limbs.len(),
        forall|i: int| 0 <= i < n ==> limbs[i] == 0,
    ensures
        low_value(limbs, n) == 0,
    decreases n,
{
    if n > 0 {
        lemma_zeros(limbs, (n - 1) as nat);
        assert(0 * pow(base(), (n - 1) as nat) == 0) by (nonlinear_arith);
    }
}

fn limb_at(limbs: &Vec<u64>, at: usize) -> (value: u64)
    ensures
        value == limb(limbs@, at as int),
{
    if at < limbs.len() {
        limbs[at]
    } else {
        0
    }
}

/// Whether the left number is at most the right one.
pub fn at_most(left: &Vec<u64>, right: &Vec<u64>) -> (holds: bool)
    ensures
        holds <==> value_of(left@) <= value_of(right@),
{
    let mut rest: usize = if left.len() > right.len() {
        left.len()
    } else {
        right.len()
    };
    proof {
        lemma_low_value_beyond(left@, rest as nat);
        lemma_low_value_beyond(right@, rest as nat);
    }
    while rest > 0
        invariant
            value_of(left@) - value_of(right@) == low_value(left@, rest as nat) - low_value(
                right@,
                rest as nat,
            ),
        decreases rest,
    {
        rest -= 1;
        let a: u64 = limb_at(left, rest);
        let b: u64 = limb_at(right, rest);
        proof {
            lemma_low_value_bound(left@, rest as nat);
            lemma_low_value_bound(right@, rest as nat);
            let p = pow(base(), rest as nat);
            if a < b {
                assert(a * p + p <= b * p) by (nonlinear_arith)
                    requires
                        a < b,
                        p >= 0,
                ;
            } else if b < a {
                assert(b * p + p <= a * p) by (nonlinear_arith)
                    requires
                        b < a,
                        p >= 0,
                ;
            }
        }
        if a != b {
            return a < b;
        }
    }
    true
}

/// A number has exactly the given number of bits.
pub open spec fn is_bit_length(value: int, length: nat) -> bool {
    &&& value < pow2(length)
    &&& length > 0 ==> pow2((length - 1) as nat) <= value
}

/// The number of bits of a number, cut to what 64 bits can count.
fn bit_length(limbs: &Vec<u64>) -> (length: u64)
    ensures
        length < u64::MAX ==> is_bit_length(value_of(limbs@), length as nat),
        length == u64::MAX ==> pow2((u64::MAX - 1) as nat) <= value_of(limbs@),
{
    let mut rest: usize = limbs.len();
    while rest > 0 && limbs[rest - 1] == 0
        invariant
            rest <= limbs@.len(),
            value_of(limbs@) == low_value(limbs@, rest as nat),
        decreases rest,
    {
        rest -= 1;
        assert(0 * pow(base(), rest as nat) == 0) by (nonlinear_arith);
    }
    if rest == 0 {
        proof {
            lemma2_to64();
        }
        return 0;
    }
    let top: u64 = limbs[rest - 1];
    let bits: u64 = (64 - top.leading_zeros()) as u64;
    let total: u128 = ((rest - 1) as u128) * 64 + (bits as u128);
    proof {
        lemma_leading_zeros(top);
        lemma_top_limb(limbs@, (rest - 1) as nat, bits as nat);
        if total > u64::MAX {
            lemma_pow2_strictly_increases((u64::MAX - 1) as nat, (total - 1) as nat);
        }
    }
    if total > u64::MAX as u128 {
        u64::MAX
    } else {
        total as u64
    }
}

/// The leading zeros of a positive number tell how many bits it has.
proof fn lemma_leading_zeros(value: u64)
    requires
        value > 0,
    ensures
        0 <= u64_leading_zeros(value) < 64,
        is_bit_length(value as int, (64 - u64_leading_zeros(value)) as nat),
    decreases value,
{
    reveal(u64_leading_zeros);
    lemma2_to64();
    lemma2_to64_rest();
    let half = value / 2;
    let zeros = u64_leading_zeros(half);
    if half == 0 {
        assert(zeros == 64);
    } else {
        lemma_leading_zeros(half);
        assert(zeros >= 1) by {
            if zeros == 0 {
                assert(pow2(63) <= half);
            }
        }
        lemma_pow2_unfold((64 - zeros) as nat);
        lemma_pow2_unfold((65 - zeros) as nat);
    }
}

/// The bits of a number are those of its highest limb, behind 64 per limb below.
proof fn lemma_top_limb(limbs: Seq<u64>, below: nat, bits: nat)
    requires
        bits > 0,
        is_bit_length(limb(limbs, below as int), bits),
    ensures
        is_bit_length(low_value(limbs, below + 1), below * 64 + bits),
{
    let (low, top, p) = (low_value(limbs, below), limb(limbs, below as int), pow(base(), below));
    let (least, most) = (pow2((bits - 1) as nat) as int, pow2(bits) as int);
    lemma_low_value_bound(limbs, below);
    lemma_base_pow(below);
    lemma_pow2_adds(below * 64, (bits - 1) as nat);
    lemma_pow2_adds(below * 64, bits);
    assert(p * least <= low + top * p < p * most) by (nonlinear_arith)
        requires
            0 <= low < p,
            least <= top,
            top + 1 <= most,
    ;
}

/// How often the smaller number can be doubled without exceeding the larger.
pub fn doublings(small: &Vec<u64>, large: &Vec<u64>) -> (steps: u64)
    requires
        0 < value_of(small@) <= value_of(large@) < pow2(u64::MAX as nat),
    ensures
        is_doublings(value_of(small@), value_of(large@), steps as nat),
{
    let ghost (a, b) = (value_of(small@), value_of(large@));
    let from: u64 = bit_length(small);
    let to: u64 = bit_length(large);
    let mut steps: u64 = if from < to {
        to - from
    } else {
        0
    };
    while !at_most(&shifted(small, steps), large)
        invariant
            a == value_of(small@),
            b == value_of(large@),
            0 < a <= b,
        ensures
            a * pow2(steps as nat) <= b,
        decreases steps,
    {
        proof {
            lemma2_to64();
            if steps == 0 {
                assert(a * 1 == a) by (nonlinear_arith);
            }
        }
        steps -= 1;
    }
    loop
        invariant
            a == value_of(small@),
            b == value_of(large@),
            0 < a,
            b < pow2(u64::MAX as nat),
            a * pow2(steps as nat) <= b,
        ensures
            is_doublings(a, b, steps as nat),
        decreases u64::MAX - steps,
    {
        proof {
            lemma_pow2_pos(steps as nat);
            assert(pow2(steps as nat) <= a * pow2(steps as nat)) by (nonlinear_arith)
                requires
                    a >= 1,
                    pow2(steps as nat) > 0,
            ;
            if steps == u64::MAX {
                assert(false);
            }
        }
        if !at_most(&shifted(small, steps + 1), large) {
            break ;
        }
        steps += 1;
    }
    steps
}

/// `small` doubled `steps` times is at most `large`, and once more exceeds it.
pub open spec fn is_doublings(small: int, large: int, steps: nat) -> bool {
    small * pow2(steps) <= large < small * pow2(steps + 1)
}

/// At most one number of doublings fits, and it grows with the larger number.
pub proof fn lemma_doublings_monotone(small: int, large: int, steps: nat, larger: int, more: nat)
    requires
        0 < small,
        large <= larger,
        is_doublings(small, large, steps),
        is_doublings(small, larger, more),
    ensures
        steps <= more,
{
    if more < steps {
        let gap = (steps - (more + 1)) as nat;
        lemma_pow2_adds(more + 1, gap);
        lemma_pow2_pos(gap);
        lemma_pow2_pos(more + 1);
        assert(pow2(more + 1) <= pow2(more + 1) * pow2(gap)) by (nonlinear_arith)
            requires
                pow2(gap) >= 1,
                pow2(more + 1) >= 0,
        ;
        assert(small * pow2(more + 1) <= small * pow2(steps)) by (nonlinear_arith)
            requires
                small > 0,
                pow2(more + 1) <= pow2(steps),
        ;
    }
}

} // verus!
