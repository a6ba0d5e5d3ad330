//! Rational numbers as integers: common denominators, and bounds.

use crate::polytope::{Div, LinearConstraint};
use crate::text::{push_signed, signed_decimal};
use vstd::prelude::*;

verus! {

/// `d` divides `n`.
pub open spec fn divides(d: int, n: int) -> bool {
    exists|k: int| n == #[trigger] (k * d)
}

/// The greatest common divisor.
pub open spec fn is_gcd(g: int, a: int, b: int) -> bool {
    &&& g >= 0
    &&& divides(g, a)
    &&& divides(g, b)
    &&& forall|d: int| #[trigger] divides(d, a) && divides(d, b) ==> divides(d, g)
}

/// The least common multiple.
pub open spec fn is_lcm(m: int, a: int, b: int) -> bool {
    &&& m >= 0
    &&& divides(a, m)
    &&& divides(b, m)
    &&& forall|n: int| #[trigger] divides(a, n) && divides(b, n) ==> divides(m, n)
}

/// The size of a number.
pub open spec fn magnitude(a: int) -> int {
    if a < 0 {
        -a
    } else {
        a
    }
}

proof fn lemma_divides(d: int, k: int)
    ensures
        divides(d, k * d),
{
}

proof fn lemma_divides_combination(d: int, a: int, b: int, u: int, v: int)
    requires
        divides(d, a),
        divides(d, b),
    ensures
        divides(d, u * a + v * b),
{
    let x = choose|k: int| a == #[trigger] (k * d);
    let y = choose|k: int| b == #[trigger] (k * d);
    assert(u * a + v * b == (u * x + v * y) * d) by (nonlinear_arith)
        requires
            a == x * d,
            b == y * d,
    ;
}

/// The greatest common divisor is a combination of the two numbers.
proof fn lemma_gcd_step(g: int, a: int, b: int, q: int, r: int, u: int, v: int)
    requires
        a == q * b + r,
        is_gcd(g, b, r),
        g == u * b + v * r,
    ensures
        is_gcd(g, a, b),
        g == v * a + (u - q * v) * b,
{
    lemma_divides_combination(g, b, r, q, 1);
    assert(q * b + 1 * r == a);
    assert(divides(g, a));
    assert forall|d: int| #[trigger] divides(d, a) && divides(d, b) implies divides(d, g) by {
        lemma_divides_combination(d, a, b, 1, -q);
        assert(1 * a + (-q) * b == r) by (nonlinear_arith)
            requires
                a == q * b + r,
        ;
    }
    assert(v * a + (u - q * v) * b == u * b + v * r) by (nonlinear_arith)
        requires
            a == q * b + r,
    ;
}

/// The greatest common divisor of two magnitudes, with the factors that
/// combine the two into it.
fn gcd_unsigned(a: u64, b: u64) -> (result: (u64, Ghost<(int, int)>))
    ensures
        is_gcd(result.0 as int, a as int, b as int),
        result.0 == result.1@.0 * a + result.1@.1 * b,
        a > 0 || b > 0 ==> result.0 > 0,
        a > 0 ==> result.0 <= a,
        b > 0 ==> result.0 <= b,
    decreases b,
{
    if b == 0 {
        proof {
            assert(divides(a as int, a as int)) by {
                lemma_divides(a as int, 1);
                assert(1 * (a as int) == a);
            }
            assert(divides(a as int, 0)) by {
                lemma_divides(a as int, 0);
                assert(0 * (a as int) == 0);
            }
        }
        return (a, Ghost((1, 0)));
    }
    let (g, Ghost(factors)): (u64, Ghost<(int, int)>) = gcd_unsigned(b, a % b);
    let ghost (u, v) = factors;
    let ghost q = a as int / b as int;
    proof {
        vstd::arithmetic::div_mod::lemma_fundamental_div_mod(a as int, b as int);
        assert(a == q * b + a as int % b as int) by (nonlinear_arith)
            requires
                a == b * q + a as int % b as int,
        ;
        lemma_gcd_step(g as int, a as int, b as int, q, a as int % b as int, u, v);
        if a > 0 {
            let k = choose|k: int| a as int == #[trigger] (k * g as int);
            assert(g <= a) by (nonlinear_arith)
                requires
                    a == k * g,
                    a > 0,
                    g > 0,
            ;
        }
    }
    (g, Ghost((v, u - q * v)))
}

/// The size of a number.
fn magnitude_of(a: i64) -> (size: u64)
    ensures
        size == magnitude(a as int),
{
    if a < 0 {
        (-(a as i128)) as u64
    } else {
        a as u64
    }
}

proof fn lemma_divides_magnitude(d: int, a: int)
    ensures
        divides(d, a) <==> divides(d, magnitude(a)),
        divides(d, a) <==> divides(magnitude(d), a),
{
    if divides(d, a) {
        let k = choose|k: int| a == #[trigger] (k * d);
        assert((-k) * d == -(k * d)) by (nonlinear_arith);
        assert((-k) * (-d) == k * d) by (nonlinear_arith);
        assert(k * magnitude(d) == a || (-k) * magnitude(d) == a);
    }
    if divides(d, magnitude(a)) {
        let k = choose|k: int| magnitude(a) == #[trigger] (k * d);
        assert((-k) * d == -(k * d)) by (nonlinear_arith);
    }
    if divides(magnitude(d), a) {
        let k = choose|k: int| a == #[trigger] (k * magnitude(d));
        assert((-k) * d == k * (-d)) by (nonlinear_arith);
        assert(k * d == a || (-k) * d == a);
    }
}

/// The greatest common divisor. Only where both numbers are zero or the
/// smallest integer, and not both zero, does it not fit.
pub fn gcd(a: i64, b: i64) -> (g: i64)
    requires
        !(a == i64::MIN && (b == 0 || b == i64::MIN)),
        !(b == i64::MIN && a == 0),
    ensures
        is_gcd(g as int, a as int, b as int),
        a != 0 || b != 0 ==> g > 0,
        a != 0 ==> g <= magnitude(a as int),
{
    let (g, _factors): (u64, Ghost<(int, int)>) = gcd_unsigned(magnitude_of(a), magnitude_of(b));
    proof {
        lemma_divides_magnitude(g as int, a as int);
        lemma_divides_magnitude(g as int, b as int);
        assert forall|d: int| #[trigger] divides(d, a as int) && divides(
            d,
            b as int,
        ) implies divides(d, g as int) by {
            lemma_divides_magnitude(d, a as int);
            lemma_divides_magnitude(d, b as int);
        }
        if a == i64::MIN && b != 0 && b != i64::MIN {
            assert(g <= magnitude(b as int));
        }
    }
    g as i64
}

proof fn lemma_lcm(g: int, a: int, b: int, x: int, u: int, v: int)
    requires
        g > 0,
        a == x * g,
        is_gcd(g, a, b),
        g == u * a + v * b,
    ensures
        is_lcm(magnitude(x * b), a, b),
{
    let y = choose|k: int| b == #[trigger] (k * g);
    let m = x * b;
    assert(divides(b, m));
    assert(m == y * a) by (nonlinear_arith)
        requires
            m == x * b,
            a == x * g,
            b == y * g,
    ;
    assert(divides(a, m)) by {
        lemma_divides(a, y);
    }
    lemma_divides_magnitude(a, m);
    lemma_divides_magnitude(b, m);
    assert forall|n: int| #[trigger] divides(a, n) && divides(b, n) implies divides(
        magnitude(m),
        n,
    ) by {
        let s = choose|k: int| n == #[trigger] (k * a);
        let t = choose|k: int| n == #[trigger] (k * b);
        // n * g = u * a * t * b + v * b * s * a = a * b * (u * t + v * s)
        let w = u * t + v * s;
        let ab = a * b;
        assert(n * g == u * (a * n) + v * (b * n)) by (nonlinear_arith)
            requires
                g == u * a + v * b,
        ;
        assert(a * n == ab * t) by (nonlinear_arith)
            requires
                n == t * b,
                ab == a * b,
        ;
        assert(b * n == ab * s) by (nonlinear_arith)
            requires
                n == s * a,
                ab == a * b,
        ;
        assert(u * (ab * t) + v * (ab * s) == ab * w) by (nonlinear_arith)
            requires
                w == u * t + v * s,
        ;
        assert(m * g == ab) by (nonlinear_arith)
            requires
                m == x * b,
                a == x * g,
                ab == a * b,
        ;
        assert((w * m) * g == (m * g) * w) by (nonlinear_arith);
        assert(n * g == (w * m) * g);
        assert(n == w * m) by (nonlinear_arith)
            requires
                n * g == (w * m) * g,
                g > 0,
        ;
        assert(divides(m, n));
        lemma_divides_magnitude(m, n);
    }
}

/// The least common multiple of two numbers that are not both zero, or `None`
/// where it does not fit.
pub fn lcm(a: i64, b: i64) -> (m: Option<i64>)
    requires
        a != 0 || b != 0,
    ensures
        m matches Some(m) ==> is_lcm(m as int, a as int, b as int),
        m is None ==> exists|m: int| #[trigger] is_lcm(m, a as int, b as int) && m > i64::MAX,
{
    let (x, y): (u64, u64) = (magnitude_of(a), magnitude_of(b));
    let (g, Ghost(factors)): (u64, Ghost<(int, int)>) = gcd_unsigned(x, y);
    let share: u64 = x / g;
    proof {
        let k = choose|k: int| x as int == #[trigger] (k * g as int);
        vstd::arithmetic::div_mod::lemma_div_multiples_vanish(k, g as int);
        assert(g * k == k * g) by (nonlinear_arith);
        assert(x as int == share * g);
        lemma_lcm(g as int, x as int, y as int, share as int, factors.0, factors.1);
        assert(0 <= share * y) by (nonlinear_arith)
            requires
                share >= 0,
                y >= 0,
        ;
        lemma_lcm_of_magnitudes(share * y, a as int, b as int);
    }
    assert(0 <= share * y <= 0xffff_ffff_ffff_ffff * 0xffff_ffff_ffff_ffff) by (nonlinear_arith)
        requires
            0 <= share <= 0xffff_ffff_ffff_ffff,
            0 <= y <= 0xffff_ffff_ffff_ffff,
    ;
    let product: u128 = (share as u128) * (y as u128);
    if product > i64::MAX as u128 {
        assert(is_lcm(product as int, a as int, b as int));
        return None;
    }
    Some(product as i64)
}

proof fn lemma_lcm_of_magnitudes(m: int, a: int, b: int)
    requires
        is_lcm(m, magnitude(a), magnitude(b)),
    ensures
        is_lcm(m, a, b),
{
    lemma_divides_magnitude(a, m);
    lemma_divides_magnitude(b, m);
    assert forall|n: int| #[trigger] divides(a, n) && divides(b, n) implies divides(m, n) by {
        lemma_divides_magnitude(a, n);
        lemma_divides_magnitude(b, n);
    }
}

/// The denominators are positive.
pub open spec fn proper(rationals: Seq<(i64, i64)>) -> bool {
    forall|i: int| 0 <= i < rationals.len() ==> (#[trigger] rationals[i]).1 > 0
}

/// Every rational is its scaled numerator over the common denominator.
pub open spec fn scaled(rationals: Seq<(i64, i64)>, numerators: Seq<i64>, denominator: int) -> bool {
    &&& numerators.len() == rationals.len()
    &&& forall|i: int|
        0 <= i < rationals.len() ==> #[trigger] numerators[i] * rationals[i].1 == rationals[i].0
            * denominator
}

/// A positive number that every denominator divides, and that divides every
/// other such number.
pub open spec fn is_common_denominator(rationals: Seq<(i64, i64)>, denominator: int) -> bool {
    &&& denominator > 0
    &&& forall|i: int|
        0 <= i < rationals.len() ==> divides((#[trigger] rationals[i]).1 as int, denominator)
    &&& forall|n: int|
        n > 0 && #[trigger] all_divide(rationals, n) ==> divides(denominator, n)
}

/// Every denominator divides the number.
pub open spec fn all_divide(rationals: Seq<(i64, i64)>, n: int) -> bool {
    forall|i: int| 0 <= i < rationals.len() ==> divides((#[trigger] rationals[i]).1 as int, n)
}

proof fn lemma_divides_transitive(a: int, b: int, c: int)
    requires
        divides(a, b),
        divides(b, c),
    ensures
        divides(a, c),
{
    let x = choose|k: int| b == #[trigger] (k * a);
    let y = choose|k: int| c == #[trigger] (k * b);
    assert(c == (y * x) * a) by (nonlinear_arith)
        requires
            b == x * a,
            c == y * b,
    ;
}

/// The least common denominator, or `None` where it does not fit.
fn common_denominator(rationals: &Vec<(i64, i64)>) -> (denominator: Option<i64>)
    requires
        proper(rationals@),
    ensures
        denominator matches Some(denominator) ==> is_common_denominator(
            rationals@,
            denominator as int,
        ),
        denominator is None ==> forall|m: int| #[trigger]
            is_common_denominator(rationals@, m) ==> m > i64::MAX,
{
    let mut denominator: i64 = 1;
    let mut at: usize = 0;
    proof {
        assert forall|n: int| n > 0 && #[trigger] all_divide(
            rationals@.take(0),
            n,
        ) implies divides(1, n) by {
            assert(n == n * 1);
        }
    }
    while at < rationals.len()
        invariant
            proper(rationals@),
            at <= rationals@.len(),
            is_common_denominator(rationals@.take(at as int), denominator as int),
        decreases rationals@.len() - at,
    {
        let ghost before = rationals@.take(at as int);
        let ghost now = rationals@.take(at + 1);
        let d: i64 = rationals[at].1;
        assert(rationals@[at as int].1 > 0);
        let next: i64 = match lcm(denominator, d) {
            Some(next) => next,
            None => {
                proof {
                    let large = choose|m: int| #[trigger]
                        is_lcm(m, denominator as int, d as int) && m > i64::MAX;
                    assert forall|m: int| #[trigger]
                        is_common_denominator(rationals@, m) implies m > i64::MAX by {
                        assert forall|i: int| 0 <= i < before.len() implies divides(
                            (#[trigger] before[i]).1 as int,
                            m,
                        ) by {
                            assert(before[i] == rationals@[i]);
                        }
                        assert(all_divide(before, m));
                        assert(divides(denominator as int, m));
                        assert(divides(rationals@[at as int].1 as int, m));
                        assert(divides(large, m));
                        let k = choose|k: int| m == #[trigger] (k * large);
                        assert(m >= large) by (nonlinear_arith)
                            requires
                                m == k * large,
                                m > 0,
                                large > 0,
                        ;
                    }
                }
                return None;
            },
        };
        proof {
            if next == 0 {
                // Zero is a multiple of everything, but not the least positive one.
                let product = denominator * d;
                lemma_divides(d as int, denominator as int);
                assert(divides(denominator as int, product)) by {
                    lemma_divides(denominator as int, d as int);
                    assert(d * denominator == denominator * d) by (nonlinear_arith);
                }
                assert(divides(0, product));
                let k = choose|k: int| product == #[trigger] (k * 0);
                assert(product > 0) by (nonlinear_arith)
                    requires
                        product == denominator * d,
                        denominator > 0,
                        d > 0,
                ;
            }
            assert forall|i: int| 0 <= i < now.len() implies divides(
                (#[trigger] now[i]).1 as int,
                next as int,
            ) by {
                if i < at {
                    assert(now[i] == before[i]);
                    lemma_divides_transitive(now[i].1 as int, denominator as int, next as int);
                }
            }
            assert forall|n: int| n > 0 && #[trigger] all_divide(now, n) implies divides(
                next as int,
                n,
            ) by {
                assert forall|i: int| 0 <= i < before.len() implies divides(
                    (#[trigger] before[i]).1 as int,
                    n,
                ) by {
                    assert(now[i] == before[i]);
                }
                assert(all_divide(before, n));
                assert(divides(now[at as int].1 as int, n));
            }
        }
        denominator = next;
        at += 1;
    }
    assert(rationals@.take(at as int) =~= rationals@);
    Some(denominator)
}

/// The numerator over the common denominator fits in 64 bits.
pub open spec fn fits_at(rationals: Seq<(i64, i64)>, denominator: int, at: int) -> bool {
    i64::MIN <= rationals[at].0 * (denominator / rationals[at].1 as int) <= i64::MAX
}

/// All numerators over the common denominator fit in 64 bits.
pub open spec fn all_fit(rationals: Seq<(i64, i64)>, denominator: int) -> bool {
    forall|i: int| 0 <= i < rationals.len() ==> #[trigger] fits_at(rationals, denominator, i)
}

/// There is only one least common denominator.
proof fn lemma_one_denominator(rationals: Seq<(i64, i64)>, left: int, right: int)
    requires
        is_common_denominator(rationals, left),
        is_common_denominator(rationals, right),
    ensures
        left == right,
{
    assert(all_divide(rationals, left) && all_divide(rationals, right));
    let x = choose|k: int| left == #[trigger] (k * right);
    let y = choose|k: int| right == #[trigger] (k * left);
    assert(left >= right) by (nonlinear_arith)
        requires
            left == x * right,
            left > 0,
            right > 0,
    ;
    assert(right >= left) by (nonlinear_arith)
        requires
            right == y * left,
            left > 0,
            right > 0,
    ;
}

impl Div {
    /// The quotient `floor` of an affine expression whose coefficients are
    /// given as numerator and denominator: those of the dimensions, those of
    /// the quotients, and the constant. They are put over one common
    /// denominator, so that the floor is exact integer arithmetic. `None` where
    /// a number does not fit.
    pub fn from_rationals(rationals: &Vec<(i64, i64)>, dims: usize, divs: usize) -> (div: Option<Div>)
        requires
            proper(rationals@),
            rationals@.len() == dims + divs + 1,
        ensures
            div matches Some(div) ==> {
                &&& div.dim_coefficients@.len() == dims
                &&& div.div_coefficients@.len() == divs
                &&& is_common_denominator(rationals@, div.denominator as int)
                &&& scaled(
                    rationals@,
                    (div.dim_coefficients@ + div.div_coefficients@).push(div.constant),
                    div.denominator as int,
                )
            },
            div is None ==> forall|m: int| #[trigger]
                is_common_denominator(rationals@, m) ==> m > i64::MAX || !all_fit(rationals@, m),
    {
        let denominator: i64 = match common_denominator(rationals) {
            Some(denominator) => denominator,
            None => {
                return None;
            },
        };
        let mut numerators: Vec<i64> = Vec::new();
        let mut at: usize = 0;
        while at < rationals.len()
            invariant
                proper(rationals@),
                at <= rationals@.len(),
                numerators@.len() == at,
                is_common_denominator(rationals@, denominator as int),
                forall|i: int|
                    0 <= i < at ==> #[trigger] numerators@[i] * rationals@[i].1 == rationals@[i].0
                        * denominator,
            decreases rationals@.len() - at,
        {
            let (n, d): (i64, i64) = rationals[at];
            assert(rationals@[at as int].1 > 0);
            assert(divides(rationals@[at as int].1 as int, denominator as int));
            let share: i64 = denominator / d;
            proof {
                let k = choose|k: int| denominator as int == #[trigger] (k * d as int);
                vstd::arithmetic::div_mod::lemma_div_multiples_vanish(k, d as int);
                assert(d * k == k * d) by (nonlinear_arith);
                assert(share == k);
            }
            let product: i64 = match n.checked_mul(share) {
                Some(product) => product,
                None => {
                    proof {
                        assert forall|m: int| #[trigger]
                            is_common_denominator(rationals@, m) implies m > i64::MAX || !all_fit(
                            rationals@,
                            m,
                        ) by {
                            lemma_one_denominator(rationals@, denominator as int, m);
                            assert(!fits_at(rationals@, m, at as int));
                        }
                    }
                    return None;
                },
            };
            assert(product * d == n * denominator) by (nonlinear_arith)
                requires
                    product == n * share,
                    denominator == share * d,
            ;
            numerators.push(product);
            at += 1;
        }
        let mut dim_coefficients: Vec<i64> = Vec::new();
        let mut i: usize = 0;
        while i < dims
            invariant
                i <= dims,
                numerators@.len() == dims + divs + 1,
                dim_coefficients@ =~= numerators@.take(i as int),
            decreases dims - i,
        {
            dim_coefficients.push(numerators[i]);
            i += 1;
        }
        let mut div_coefficients: Vec<i64> = Vec::new();
        let total: usize = numerators.len();
        let mut j: usize = 0;
        while j < divs
            invariant
                j <= divs,
                total == numerators@.len(),
                numerators@.len() == dims + divs + 1,
                div_coefficients@ =~= numerators@.subrange(dims as int, dims + j),
            decreases divs - j,
        {
            div_coefficients.push(numerators[dims + j]);
            j += 1;
        }
        let constant: i64 = numerators[total - 1];
        assert((dim_coefficients@ + div_coefficients@).push(constant) =~= numerators@);
        Some(Div { dim_coefficients, div_coefficients, constant, denominator })
    }
}

/// A coefficient that is not an integer.
#[derive(Clone, Copy, Debug, PartialEq, Eq, Structural)]
pub struct NotAnInteger {
    pub numerator: i64,
    pub denominator: i64,
}

impl NotAnInteger {
    /// The message of an error.
    pub open spec fn text(self) -> Seq<char> {
        "constraint coefficient "@ + signed_decimal(self.numerator as int) + seq!['/']
            + signed_decimal(self.denominator as int) + " is not an integer"@
    }

    /// The message of an error.
    pub fn message(self) -> (text: String)
        ensures
            text@ == self.text(),
    {
        let mut text: String = String::new();
        text.push_str("constraint coefficient ");
        push_signed(&mut text, self.numerator);
        text.push('/');
        push_signed(&mut text, self.denominator);
        text.push_str(" is not an integer");
        assert(text@ =~= self.text());
        text
    }
}

/// A rational number as an integer.
pub fn integer(numerator: i64, denominator: i64) -> (value: Result<i64, NotAnInteger>)
    ensures
        value == if denominator == 1 {
            Ok::<i64, NotAnInteger>(numerator)
        } else {
            Err(NotAnInteger { numerator, denominator })
        },
{
    if denominator == 1 {
        Ok(numerator)
    } else {
        Err(NotAnInteger { numerator, denominator })
    }
}

/// The first of the rational numbers that is not an integer.
pub open spec fn first_fraction(rationals: Seq<(i64, i64)>, at: int) -> Option<NotAnInteger>
    decreases rationals.len() - at,
{
    if at < 0 || at >= rationals.len() {
        None
    } else if rationals[at].1 != 1 {
        Some(NotAnInteger { numerator: rationals[at].0, denominator: rationals[at].1 })
    } else {
        first_fraction(rationals, at + 1)
    }
}

impl LinearConstraint {
    /// A condition whose coefficients are given as numerator and denominator:
    /// those of the dimensions, those of the quotients, and the constant. All
    /// have to be integers.
    pub fn from_rationals(
        rationals: &Vec<(i64, i64)>,
        dims: usize,
        divs: usize,
        equality: bool,
    ) -> (constraint: Result<LinearConstraint, NotAnInteger>)
        requires
            rationals@.len() == dims + divs + 1,
        ensures
            match first_fraction(rationals@, 0) {
                Some(error) => constraint matches Err(found) && found == error,
                None => {
                    &&& constraint matches Ok(constraint)
                    &&& constraint.dim_coefficients@ == Seq::new(
                        dims as nat,
                        |i: int| rationals@[i].0,
                    )
                    &&& constraint.div_coefficients@ == Seq::new(
                        divs as nat,
                        |i: int| rationals@[dims + i].0,
                    )
                    &&& constraint.constant == rationals@[dims + divs].0
                    &&& constraint.equality == equality
                },
            },
    {
        let mut dim_coefficients: Vec<i64> = Vec::new();
        let mut div_coefficients: Vec<i64> = Vec::new();
        let mut constant: i64 = 0;
        let mut at: usize = 0;
        while at < rationals.len()
            invariant
                rationals@.len() == dims + divs + 1,
                at <= rationals@.len(),
                first_fraction(rationals@, 0) == first_fraction(rationals@, at as int),
                dim_coefficients@.len() == if at < dims {
                    at as int
                } else {
                    dims as int
                },
                forall|i: int|
                    0 <= i < dim_coefficients@.len() ==> #[trigger] dim_coefficients@[i]
                        == rationals@[i].0,
                div_coefficients@.len() == if at < dims {
                    0
                } else if at < dims + divs {
                    at - dims
                } else {
                    divs as int
                },
                forall|i: int|
                    0 <= i < div_coefficients@.len() ==> #[trigger] div_coefficients@[i]
                        == rationals@[dims + i].0,
                at == rationals@.len() ==> constant == rationals@[dims + divs].0,
            decreases rationals@.len() - at,
        {
            let (numerator, denominator): (i64, i64) = rationals[at];
            let value: i64 = match integer(numerator, denominator) {
                Ok(value) => value,
                Err(error) => {
                    return Err(error);
                },
            };
            if at < dims {
                dim_coefficients.push(value);
            } else if at - dims < divs {
                div_coefficients.push(value);
            } else {
                constant = value;
            }
            at += 1;
        }
        assert(dim_coefficients@ =~= Seq::new(dims as nat, |i: int| rationals@[i].0));
        assert(div_coefficients@ =~= Seq::new(divs as nat, |i: int| rationals@[dims + i].0));
        Ok(LinearConstraint { dim_coefficients, div_coefficients, constant, equality })
    }
}

} // verus!
