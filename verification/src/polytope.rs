//! Integer points of a union of polytopes, by scanning a bounding box.

use crate::exact_sum::{dot, push_dot, shortest, ExactSum};
use vstd::prelude::*;

verus! {

/// An integer quotient `floor((constant + dims + earlier quotients) / denominator)`.
#[derive(Debug)]
pub struct Div {
    pub dim_coefficients: Vec<i64>,
    pub div_coefficients: Vec<i64>,
    pub constant: i64,
    pub denominator: i64,
}

/// A condition `constant + dims + quotients` equal to zero, or at least zero.
#[derive(Debug)]
pub struct LinearConstraint {
    pub dim_coefficients: Vec<i64>,
    pub div_coefficients: Vec<i64>,
    pub constant: i64,
    pub equality: bool,
}

/// The integer points that satisfy some conditions.
#[derive(Debug)]
pub struct BasicPolytope {
    pub divs: Vec<Div>,
    pub constraints: Vec<LinearConstraint>,
}

/// A union of basic polytopes within a box.
#[derive(Debug)]
pub struct Polytope {
    pub dims: usize,
    pub lower: Vec<i64>,
    pub upper: Vec<i64>,
    pub pieces: Vec<BasicPolytope>,
}

/// `constant + coefficients * values`, as far as the lists go.
pub open spec fn linear(
    constant: i64,
    dim_coefficients: Seq<i64>,
    point: Seq<i64>,
    div_coefficients: Seq<i64>,
    values: Seq<i64>,
) -> int {
    constant + dot(
        dim_coefficients,
        point,
        shortest(dim_coefficients.len(), point.len(), usize::MAX as nat),
    ) + dot(
        div_coefficients,
        values,
        shortest(div_coefficients.len(), values.len(), usize::MAX as nat),
    )
}

/// The values of the first quotients at a point; `None` where one of them does
/// not fit in 64 bits.
pub open spec fn quotients(divs: Seq<Div>, point: Seq<i64>, count: nat) -> Option<Seq<i64>>
    decreases count,
{
    if count == 0 {
        Some(Seq::empty())
    } else {
        match quotients(divs, point, (count - 1) as nat) {
            None => None,
            Some(before) => {
                let div = divs[count - 1];
                let value = linear(
                    div.constant,
                    div.dim_coefficients@,
                    point,
                    div.div_coefficients@,
                    before,
                ) / div.denominator as int;
                if i64::MIN <= value <= i64::MAX {
                    Some(before.push(value as i64))
                } else {
                    None
                }
            },
        }
    }
}

/// A condition holds.
pub open spec fn satisfied(constraint: LinearConstraint, point: Seq<i64>, values: Seq<i64>) -> bool {
    let value = linear(
        constraint.constant,
        constraint.dim_coefficients@,
        point,
        constraint.div_coefficients@,
        values,
    );
    if constraint.equality {
        value == 0
    } else {
        value >= 0
    }
}

/// Sums up `constant + coefficients * values`.
fn sum_of(
    constant: i64,
    dim_coefficients: &Vec<i64>,
    point: &[i64],
    div_coefficients: &Vec<i64>,
    values: &Vec<i64>,
) -> (sum: ExactSum)
    ensures
        sum.wf(),
        sum.value() == linear(
            constant,
            dim_coefficients@,
            point@,
            div_coefficients@,
            values@,
        ),
{
    let mut sum: ExactSum = ExactSum::new();
    sum.push(constant, 1);
    push_dot(&mut sum, dim_coefficients, point, usize::MAX);
    push_dot(&mut sum, div_coefficients, values.as_slice(), usize::MAX);
    sum
}

impl BasicPolytope {
    /// Denominators are positive.
    pub open spec fn wf(&self) -> bool {
        forall|i: int| 0 <= i < self.divs@.len() ==> (#[trigger] self.divs@[i]).denominator > 0
    }

    /// Whether the point satisfies the conditions; `None` where a quotient does
    /// not fit in 64 bits.
    pub open spec fn has(&self, point: Seq<i64>) -> Option<bool> {
        match quotients(self.divs@, point, self.divs@.len()) {
            None => None,
            Some(values) => Some(
                forall|i: int|
                    0 <= i < self.constraints@.len() ==> satisfied(
                        #[trigger] self.constraints@[i],
                        point,
                        values,
                    ),
            ),
        }
    }

    /// Whether the point satisfies the conditions.
    pub fn contains(&self, x: &[i64]) -> (inside: Option<bool>)
        requires
            self.wf(),
        ensures
            inside == self.has(x@),
    {
        let mut values: Vec<i64> = Vec::new();
        let mut i: usize = 0;
        while i < self.divs.len()
            invariant
                self.wf(),
                i <= self.divs@.len(),
                quotients(self.divs@, x@, i as nat) == Some(values@),
            decreases self.divs@.len() - i,
        {
            let div: &Div = &self.divs[i];
            let sum: ExactSum = sum_of(
                div.constant,
                &div.dim_coefficients,
                x,
                &div.div_coefficients,
                &values,
            );
            let quotient: Option<i64> = floor_quotient(&sum, div.denominator);
            match quotient {
                Some(value) => {
                    values.push(value);
                },
                None => {
                    proof {
                        lemma_quotient_failure(
                            self.divs@,
                            x@,
                            (i + 1) as nat,
                            self.divs@.len(),
                        );
                    }
                    return None;
                },
            }
            i += 1;
        }
        let mut c: usize = 0;
        while c < self.constraints.len()
            invariant
                c <= self.constraints@.len(),
                quotients(self.divs@, x@, self.divs@.len()) == Some(values@),
                forall|k: int|
                    0 <= k < c ==> satisfied(#[trigger] self.constraints@[k], x@, values@),
            decreases self.constraints@.len() - c,
        {
            let constraint: &LinearConstraint = &self.constraints[c];
            let sum: ExactSum = sum_of(
                constraint.constant,
                &constraint.dim_coefficients,
                x,
                &constraint.div_coefficients,
                &values,
            );
            let sign: i8 = sum.sign();
            let holds: bool = if constraint.equality {
                sign == 0
            } else {
                sign >= 0
            };
            if !holds {
                assert(!satisfied(self.constraints@[c as int], x@, values@));
                return Some(false);
            }
            c += 1;
        }
        Some(true)
    }
}

/// The floored quotient of a sum, if it fits in 64 bits.
fn floor_quotient(sum: &ExactSum, denominator: i64) -> (quotient: Option<i64>)
    requires
        sum.wf(),
        denominator > 0,
    ensures
        ({
            let value = sum.value() / denominator as int;
            quotient == if i64::MIN <= value <= i64::MAX {
                Some(value as i64)
            } else {
                None::<i64>
            }
        }),
{
    let ghost (s, d) = (sum.value(), denominator as int);
    proof {
        vstd::arithmetic::div_mod::lemma_fundamental_div_mod(s, d);
        crate::address::lemma_quotient_fits(s, d);
    }
    match sum.to_i128() {
        Some(value) => match value.checked_div_euclid(denominator as i128) {
            Some(quotient) => {
                if i64::MIN as i128 <= quotient && quotient <= i64::MAX as i128 {
                    Some(quotient as i64)
                } else {
                    None
                }
            },
            None => {
                assert(false);
                None
            },
        },
        None => {
            proof {
                let (q, m) = (s / d, s % d);
                assert(!(i64::MIN <= q <= i64::MAX)) by {
                    if i64::MIN <= q <= i64::MAX {
                        assert(-0x8000_0000_0000_0000 * 0x7fff_ffff_ffff_ffff <= d * q
                            <= 0x7fff_ffff_ffff_ffff * 0x7fff_ffff_ffff_ffff) by (nonlinear_arith)
                            requires
                                0 < d <= 0x7fff_ffff_ffff_ffff,
                                -0x8000_0000_0000_0000 <= q <= 0x7fff_ffff_ffff_ffff,
                        ;
                    }
                }
            }
            None
        },
    }
}

proof fn lemma_quotient_failure(divs: Seq<Div>, point: Seq<i64>, count: nat, all: nat)
    requires
        count <= all,
        quotients(divs, point, count) is None,
    ensures
        quotients(divs, point, all) is None,
    decreases all,
{
    if count < all {
        lemma_quotient_failure(divs, point, count, (all - 1) as nat);
    }
}

/// Every coordinate lies between its bounds.
pub open spec fn in_box(point: Seq<i64>, lower: Seq<i64>, upper: Seq<i64>) -> bool {
    &&& point.len() == lower.len()
    &&& forall|i: int| 0 <= i < point.len() ==> lower[i] <= #[trigger] point[i] <= upper[i]
}

/// Lexicographic order of points.
pub open spec fn before(left: Seq<i64>, right: Seq<i64>) -> bool
    decreases left.len(),
{
    left.len() > 0 && right.len() > 0 && (before(left.drop_last(), right.drop_last()) || (
    left.drop_last() == right.drop_last() && left.last() < right.last()))
}

/// The next point of a box in lexicographic order.
pub open spec fn successor(point: Seq<i64>, lower: Seq<i64>, upper: Seq<i64>) -> Option<Seq<i64>>
    decreases point.len(),
{
    if point.len() == 0 {
        None
    } else if point.last() < upper.last() {
        Some(point.drop_last().push((point.last() + 1) as i64))
    } else {
        match successor(point.drop_last(), lower.drop_last(), upper.drop_last()) {
            None => None,
            Some(front) => Some(front.push(lower.last())),
        }
    }
}

/// The number of points of a box behind a point.
pub open spec fn points_behind(point: Seq<i64>, lower: Seq<i64>, upper: Seq<i64>) -> int
    decreases point.len(),
{
    if point.len() == 0 {
        0
    } else {
        points_behind(point.drop_last(), lower.drop_last(), upper.drop_last()) * (upper.last()
            - lower.last() + 1) + (upper.last() - point.last())
    }
}

proof fn lemma_box_front(point: Seq<i64>, lower: Seq<i64>, upper: Seq<i64>)
    requires
        point.len() > 0,
        lower.len() == upper.len(),
        in_box(point, lower, upper),
    ensures
        in_box(point.drop_last(), lower.drop_last(), upper.drop_last()),
        lower.last() <= point.last() <= upper.last(),
{
    let (p, l, u) = (point.drop_last(), lower.drop_last(), upper.drop_last());
    assert forall|i: int| 0 <= i < p.len() implies l[i] <= #[trigger] p[i] <= u[i] by {
        assert(lower[i] <= point[i] <= upper[i]);
    }
    assert(lower[point.len() - 1] <= point[point.len() - 1]);
}

proof fn lemma_box_push(front: Seq<i64>, last: i64, lower: Seq<i64>, upper: Seq<i64>)
    requires
        lower.len() > 0,
        lower.len() == upper.len(),
        in_box(front, lower.drop_last(), upper.drop_last()),
        lower.last() <= last <= upper.last(),
    ensures
        in_box(front.push(last), lower, upper),
{
    let point = front.push(last);
    assert forall|i: int| 0 <= i < point.len() implies lower[i] <= #[trigger] point[i]
        <= upper[i] by {
        if i < front.len() {
            assert(lower.drop_last()[i] <= front[i] <= upper.drop_last()[i]);
        }
    }
}

/// The successor is the next point of the box, and one fewer is behind it.
proof fn lemma_successor(point: Seq<i64>, lower: Seq<i64>, upper: Seq<i64>)
    requires
        lower.len() == upper.len(),
        in_box(point, lower, upper),
    ensures
        points_behind(point, lower, upper) >= 0,
        successor(point, lower, upper) matches Some(next) ==> in_box(next, lower, upper) && before(
            point,
            next,
        ) && points_behind(next, lower, upper) == points_behind(point, lower, upper) - 1,
    decreases point.len(),
{
    if point.len() > 0 {
        lemma_box_front(point, lower, upper);
        let (p, l, u) = (point.drop_last(), lower.drop_last(), upper.drop_last());
        lemma_successor(p, l, u);
        let size = upper.last() - lower.last() + 1;
        let behind = points_behind(p, l, u);
        assert(behind * size >= 0) by (nonlinear_arith)
            requires
                behind >= 0,
                size >= 1,
        ;
        if point.last() < upper.last() {
            let next = p.push((point.last() + 1) as i64);
            lemma_box_push(p, (point.last() + 1) as i64, lower, upper);
            assert(next.drop_last() =~= p);
        } else if let Some(front) = successor(p, l, u) {
            let next = front.push(lower.last());
            lemma_box_push(front, lower.last(), lower, upper);
            assert(next.drop_last() =~= front);
            assert((behind - 1) * size == behind * size - size) by (nonlinear_arith);
        }
    }
}

/// No point of the box lies between a point and its successor.
proof fn lemma_no_point_between(
    point: Seq<i64>,
    other: Seq<i64>,
    lower: Seq<i64>,
    upper: Seq<i64>,
)
    requires
        lower.len() == upper.len(),
        in_box(point, lower, upper),
        in_box(other, lower, upper),
        before(point, other),
    ensures
        successor(point, lower, upper) is Some,
        other == successor(point, lower, upper)->0 || before(
            successor(point, lower, upper)->0,
            other,
        ),
    decreases point.len(),
{
    lemma_box_front(point, lower, upper);
    lemma_box_front(other, lower, upper);
    let (p, o) = (point.drop_last(), other.drop_last());
    let (l, u) = (lower.drop_last(), upper.drop_last());
    if before(p, o) {
        lemma_no_point_between(p, o, l, u);
        let front = successor(p, l, u)->0;
        if point.last() < upper.last() {
            let next = p.push((point.last() + 1) as i64);
            assert(next.drop_last() =~= p);
        } else {
            let next = front.push(lower.last());
            assert(next.drop_last() =~= front);
            if o == front && other.last() == lower.last() {
                assert(other =~= next);
            }
        }
    } else {
        assert(p == o);
        let next = p.push((point.last() + 1) as i64);
        assert(next.drop_last() =~= p);
        if other.last() == point.last() + 1 {
            assert(other =~= next);
        }
    }
}

proof fn lemma_before_transitive(a: Seq<i64>, b: Seq<i64>, c: Seq<i64>)
    requires
        before(a, b),
        before(b, c),
    ensures
        before(a, c),
    decreases a.len(),
{
    if before(a.drop_last(), b.drop_last()) && before(b.drop_last(), c.drop_last()) {
        lemma_before_transitive(a.drop_last(), b.drop_last(), c.drop_last());
    }
}

proof fn lemma_before_irreflexive(a: Seq<i64>)
    ensures
        !before(a, a),
    decreases a.len(),
{
    if a.len() > 0 {
        lemma_before_irreflexive(a.drop_last());
    }
}

proof fn lemma_same_parts(a: Seq<i64>, b: Seq<i64>)
    requires
        a.len() > 0,
        b.len() > 0,
        a.drop_last() == b.drop_last(),
        a.last() == b.last(),
    ensures
        a == b,
{
    assert(a =~= a.drop_last().push(a.last()));
    assert(b =~= b.drop_last().push(b.last()));
}

/// The lower corner is the first point of the box.
proof fn lemma_first_point(other: Seq<i64>, lower: Seq<i64>, upper: Seq<i64>)
    requires
        lower.len() == upper.len(),
        in_box(other, lower, upper),
    ensures
        other == lower || before(lower, other),
    decreases other.len(),
{
    if other.len() > 0 {
        lemma_box_front(other, lower, upper);
        lemma_first_point(other.drop_last(), lower.drop_last(), upper.drop_last());
        if other.drop_last() == lower.drop_last() && other.last() == lower.last() {
            lemma_same_parts(other, lower);
        }
    } else {
        assert(other =~= lower);
    }
}

/// Two different points of a box are in order one way or the other.
proof fn lemma_before_total(a: Seq<i64>, b: Seq<i64>)
    requires
        a.len() == b.len(),
    ensures
        a == b || before(a, b) || before(b, a),
    decreases a.len(),
{
    if a.len() > 0 {
        lemma_before_total(a.drop_last(), b.drop_last());
        if a.drop_last() == b.drop_last() && a.last() == b.last() {
            lemma_same_parts(a, b);
        }
    } else {
        assert(a =~= b);
    }
}

impl Polytope {
    pub open spec fn wf(&self) -> bool {
        &&& self.lower@.len() == self.dims
        &&& self.upper@.len() == self.dims
        &&& forall|i: int| 0 <= i < self.pieces@.len() ==> (#[trigger] self.pieces@[i]).wf()
    }

    /// Whether one of the pieces from position `at` on holds the point. The
    /// first piece that does, or whose quotients do not fit, decides.
    pub open spec fn has_from(&self, point: Seq<i64>, at: nat) -> Option<bool>
        decreases self.pieces@.len() - at,
    {
        if at >= self.pieces@.len() {
            Some(false)
        } else {
            match self.pieces@[at as int].has(point) {
                None => None,
                Some(true) => Some(true),
                Some(false) => self.has_from(point, at + 1),
            }
        }
    }

    /// Whether the point belongs to the set.
    pub open spec fn has(&self, point: Seq<i64>) -> Option<bool> {
        self.has_from(point, 0)
    }

    /// Whether the point belongs to the set: a point in several pieces is one
    /// point of the set.
    pub fn contains_point(&self, point: &Vec<i64>) -> (inside: Option<bool>)
        requires
            self.wf(),
        ensures
            inside == self.has(point@),
    {
        let mut at: usize = 0;
        while at < self.pieces.len()
            invariant
                self.wf(),
                at <= self.pieces@.len(),
                self.has(point@) == self.has_from(point@, at as nat),
            decreases self.pieces@.len() - at,
        {
            match self.pieces[at].contains(point.as_slice()) {
                None => {
                    return None;
                },
                Some(true) => {
                    return Some(true);
                },
                Some(false) => {},
            }
            at += 1;
        }
        Some(false)
    }

    /// The first point of the box, if it has one.
    pub fn first_point(&self) -> (point: Option<Vec<i64>>)
        requires
            self.wf(),
        ensures
            match point {
                Some(point) => point@ == self.lower@ && in_box(point@, self.lower@, self.upper@),
                None => forall|other: Seq<i64>| !in_box(other, self.lower@, self.upper@),
            },
    {
        let mut at: usize = 0;
        while at < self.lower.len()
            invariant
                self.wf(),
                at <= self.lower@.len(),
                forall|i: int| 0 <= i < at ==> self.lower@[i] <= self.upper@[i],
            decreases self.lower@.len() - at,
        {
            if self.lower[at] > self.upper[at] {
                assert forall|other: Seq<i64>| !in_box(other, self.lower@, self.upper@) by {
                    if in_box(other, self.lower@, self.upper@) {
                        assert(self.lower@[at as int] <= other[at as int]);
                    }
                }
                return None;
            }
            at += 1;
        }
        Some(self.lower.clone())
    }

    /// Moves to the next point of the box, the last coordinate fastest. False
    /// where there is none.
    pub fn advance(&self, point: &mut Vec<i64>) -> (moved: bool)
        requires
            self.wf(),
            in_box(old(point)@, self.lower@, self.upper@),
        ensures
            match successor(old(point)@, self.lower@, self.upper@) {
                Some(next) => moved && final(point)@ == next,
                None => !moved,
            },
            moved ==> in_box(final(point)@, self.lower@, self.upper@),
    {
        let ghost start = point@;
        let ghost (lower, upper) = (self.lower@, self.upper@);
        let mut k: usize = self.dims;
        proof {
            lemma_successor(start, lower, upper);
            assert(start.take(k as int) =~= start);
            assert(lower.take(k as int) =~= lower);
            assert(upper.take(k as int) =~= upper);
        }
        while k > 0
            invariant
                self.wf(),
                k <= self.dims,
                lower == self.lower@,
                upper == self.upper@,
                start.len() == self.dims,
                in_box(start, lower, upper),
                point@ =~= start.take(k as int) + lower.skip(k as int),
                match successor(start, lower, upper) {
                    None => successor(
                        start.take(k as int),
                        lower.take(k as int),
                        upper.take(k as int),
                    ) is None,
                    Some(next) => successor(
                        start.take(k as int),
                        lower.take(k as int),
                        upper.take(k as int),
                    ) matches Some(front) && next == front + lower.skip(k as int),
                },
                start == old(point)@,
                successor(start, lower, upper) matches Some(next) ==> in_box(next, lower, upper),
            decreases k,
        {
            k -= 1;
            proof {
                let (s, l, u) = (start.take(k + 1), lower.take(k + 1), upper.take(k + 1));
                assert(s.drop_last() =~= start.take(k as int));
                assert(l.drop_last() =~= lower.take(k as int));
                assert(u.drop_last() =~= upper.take(k as int));
                assert(lower.skip(k as int) =~= seq![lower[k as int]] + lower.skip(k + 1));
            }
            if point[k] < self.upper[k] {
                let value: i64 = point[k] + 1;
                point[k] = value;
                proof {
                    let front = start.take(k as int).push(value);
                    assert(point@ =~= front + lower.skip(k + 1));
                }
                return true;
            }
            point[k] = self.lower[k];
            proof {
                if let Some(front) = successor(
                    start.take(k as int),
                    lower.take(k as int),
                    upper.take(k as int),
                ) {
                    assert(front.push(lower[k as int]) + lower.skip(k + 1) =~= front + lower.skip(
                        k as int,
                    ));
                }
            }
        }
        false
    }

    /// Every point of the set within the box, in lexicographic order; `None`
    /// where a quotient does not fit in 64 bits at one of the points.
    pub fn for_each_point(&self) -> (points: Option<Vec<Vec<i64>>>)
        requires
            self.wf(),
        ensures
            match points {
                Some(points) => lists_points(points@, self.lower@, self.upper@, *self),
                None => exists|point: Seq<i64>|
                    in_box(point, self.lower@, self.upper@) && (#[trigger] self.has(point)) is None,
            },
    {
        let ghost (lower, upper) = (self.lower@, self.upper@);
        let mut points: Vec<Vec<i64>> = Vec::new();
        let mut point: Vec<i64> = match self.first_point() {
            Some(point) => point,
            None => {
                return Some(points);
            },
        };
        assert forall|other: Seq<i64>| in_box(other, lower, upper) implies !before(
            other,
            point@,
        ) by {
            lemma_first_point(other, lower, upper);
            if before(other, point@) {
                if before(lower, other) {
                    lemma_before_transitive(other, lower, other);
                }
                lemma_before_irreflexive(other);
            }
        }
        loop
            invariant
                self.wf(),
                lower == self.lower@,
                upper == self.upper@,
                in_box(point@, lower, upper),
                forall|i: int|
                    0 <= i < points@.len() ==> in_box((#[trigger] points@[i])@, lower, upper)
                        && self.has(points@[i]@) == Some(true) && before(points@[i]@, point@),
                forall|i: int, j: int|
                    0 <= i < j < points@.len() ==> before(
                        (#[trigger] points@[i])@,
                        (#[trigger] points@[j])@,
                    ),
                forall|other: Seq<i64>|
                    in_box(other, lower, upper) && #[trigger] before(other, point@)
                        ==> lists_point(points@, other) == (self.has(other) == Some(true)),
            decreases points_behind(point@, lower, upper),
        {
            let ghost here = point@;
            let ghost earlier = points@;
            match self.contains_point(&point) {
                None => {
                    return None;
                },
                Some(true) => {
                    points.push(point.clone());
                },
                Some(false) => {},
            }
            proof {
                lemma_successor(here, lower, upper);
                lemma_before_irreflexive(here);
                if self.has(here) == Some(true) {
                    assert(points@.drop_last() =~= earlier);
                    assert(points@.last()@ =~= here);
                }
                assert forall|other: Seq<i64>| #[trigger]
                    lists_point(points@, other) == (lists_point(earlier, other) || (self.has(here)
                        == Some(true) && other == here)) by {
                    lemma_lists_push(earlier, points@, other, here, self.has(here) == Some(true));
                }
            }
            if !self.advance(&mut point) {
                proof {
                    assert forall|other: Seq<i64>| in_box(other, lower, upper) implies (
                    #[trigger] lists_point(points@, other)) == (self.has(other) == Some(true)) by {
                        lemma_before_total(other, here);
                        if before(here, other) {
                            lemma_no_point_between(here, other, lower, upper);
                        }
                        if other == here {
                            assert(!lists_point(earlier, here)) by {
                                lemma_not_listed(earlier, here);
                            }
                        }
                    }
                    assert forall|i: int, j: int| 0 <= i < j < points@.len() implies before(
                        (#[trigger] points@[i])@,
                        (#[trigger] points@[j])@,
                    ) by {
                        if j < earlier.len() {
                            assert(before(earlier[i]@, earlier[j]@));
                        } else {
                            assert(before(earlier[i]@, here));
                        }
                    }
                }
                return Some(points);
            }
            proof {
                let next = point@;
                lemma_successor(next, lower, upper);
                assert forall|i: int| 0 <= i < points@.len() implies in_box(
                    (#[trigger] points@[i])@,
                    lower,
                    upper,
                ) && self.has(points@[i]@) == Some(true) && before(points@[i]@, next) by {
                    if i < earlier.len() {
                        assert(before(earlier[i]@, here));
                        lemma_before_transitive(earlier[i]@, here, next);
                    }
                }
                assert forall|i: int, j: int| 0 <= i < j < points@.len() implies before(
                    (#[trigger] points@[i])@,
                    (#[trigger] points@[j])@,
                ) by {
                    if j < earlier.len() {
                        assert(before(earlier[i]@, earlier[j]@));
                    } else {
                        assert(before(earlier[i]@, here));
                    }
                }
                assert forall|other: Seq<i64>|
                    in_box(other, lower, upper) && #[trigger] before(
                        other,
                        next,
                    ) implies lists_point(points@, other) == (self.has(other) == Some(true)) by {
                    lemma_before_total(other, here);
                    if before(here, other) {
                        lemma_no_point_between(here, other, lower, upper);
                        if before(next, other) {
                            lemma_before_transitive(other, next, other);
                        }
                        lemma_before_irreflexive(other);
                    }
                    if other == here {
                        lemma_not_listed(earlier, here);
                    }
                }
            }
        }
    }
}

/// The list holds the point.
pub open spec fn lists_point(points: Seq<Vec<i64>>, point: Seq<i64>) -> bool {
    exists|i: int| 0 <= i < points.len() && (#[trigger] points[i])@ == point
}

/// The list holds every point of the set within the box once, in order.
pub open spec fn lists_points(
    points: Seq<Vec<i64>>,
    lower: Seq<i64>,
    upper: Seq<i64>,
    set: Polytope,
) -> bool {
    &&& forall|i: int| 0 <= i < points.len() ==> in_box((#[trigger] points[i])@, lower, upper)
    &&& forall|i: int, j: int|
        0 <= i < j < points.len() ==> before((#[trigger] points[i])@, (#[trigger] points[j])@)
    &&& forall|point: Seq<i64>|
        in_box(point, lower, upper) ==> (#[trigger] lists_point(points, point) == (set.has(point)
            == Some(true)))
}

proof fn lemma_lists_push(
    earlier: Seq<Vec<i64>>,
    points: Seq<Vec<i64>>,
    other: Seq<i64>,
    here: Seq<i64>,
    pushed: bool,
)
    requires
        !pushed ==> points == earlier,
        pushed ==> points.len() == earlier.len() + 1 && points.drop_last() == earlier
            && points.last()@ == here,
    ensures
        lists_point(points, other) == (lists_point(earlier, other) || (pushed && other == here)),
{
    if pushed {
        if lists_point(points, other) {
            let i = choose|i: int| 0 <= i < points.len() && (#[trigger] points[i])@ == other;
            if i < earlier.len() {
                assert(earlier[i] == points.drop_last()[i]);
            }
        }
        if lists_point(earlier, other) {
            let i = choose|i: int| 0 <= i < earlier.len() && (#[trigger] earlier[i])@ == other;
            assert(points[i] == points.drop_last()[i]);
        }
        if other == here {
            assert(points[points.len() - 1]@ == other);
        }
    }
}

proof fn lemma_not_listed(points: Seq<Vec<i64>>, here: Seq<i64>)
    requires
        forall|i: int| 0 <= i < points.len() ==> before((#[trigger] points[i])@, here),
    ensures
        !lists_point(points, here),
{
    if lists_point(points, here) {
        let i = choose|i: int| 0 <= i < points.len() && (#[trigger] points[i])@ == here;
        assert(before(points[i]@, here));
        lemma_before_irreflexive(here);
    }
}

} // verus!
