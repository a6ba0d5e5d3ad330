//! Quasi-polynomials as expressions.
//!
//! A count is a sum of terms, each a coefficient times powers of parameters, of
//! dimensions and of quotients. A quotient is the floor of an affine expression,
//! which may itself speak of quotients.

use crate::analysis::{set_dim_name, term_name};
use crate::expression::Term;
use crate::quasi_value::{
    law_written_quasi_polynomial_has_its_value, quasi_value, well_assigned, written_value,
};
use vstd::prelude::*;

verus! {

broadcast use vstd::std_specs::vec::axiom_vec_index_decreases;

/// An affine expression. Rational numbers are pairs of a numerator and a
/// denominator.
#[derive(Debug)]
pub struct QuasiAffine {
    pub constant: (i64, i64),
    /// The coefficients of the parameters.
    pub params: Vec<(i64, i64)>,
    /// The coefficients of the input dimensions.
    pub inputs: Vec<(i64, i64)>,
    pub divs: Vec<QuasiDiv>,
    /// Whether the common denominator of the coefficients is one.
    pub integral: bool,
}

/// A quotient with its coefficient in an affine expression.
#[derive(Debug)]
pub struct QuasiDiv {
    pub coefficient: (i64, i64),
    pub quotient: QuasiAffine,
}

/// A quotient with its exponent in a term.
#[derive(Debug)]
pub struct QuasiPower {
    pub exponent: i64,
    pub quotient: QuasiAffine,
}

/// A term of a quasi-polynomial.
#[derive(Debug)]
pub struct QuasiTerm {
    pub coefficient: (i64, i64),
    /// The exponents of the parameters.
    pub params: Vec<i64>,
    /// The exponents of the set dimensions.
    pub sets: Vec<i64>,
    pub divs: Vec<QuasiPower>,
}

/// The names of the dimensions, as far as they have any.
#[derive(Debug)]
pub struct DimNames {
    pub params: Vec<Option<String>>,
    pub inputs: Vec<Option<String>>,
    pub outputs: Vec<Option<String>>,
}

/// What an expression looks like, with its numbers in their places.
pub ghost enum Shape {
    Number((i64, i64)),
    Variable(Seq<char>),
    Floor(Box<Shape>),
    Power(Box<Shape>, i64),
    Product(Seq<Shape>),
    Sum(Seq<Shape>),
}

/// The value of a number that is a small integer.
pub open spec fn small_integer(value: (i64, i64)) -> Option<i32> {
    if value.1 == 1 && -64 <= value.0 <= 64 {
        Some(value.0 as i32)
    } else {
        None
    }
}

/// An expression looks like this, where `numbers` lists its numbers.
pub open spec fn renders(term: Term, shape: Shape, numbers: Seq<(i64, i64)>) -> bool
    decreases term,
{
    match shape {
        Shape::Number(value) => term matches Term::Number { at, power } && at < numbers.len()
            && numbers[at as int] == value && power == small_integer(value),
        Shape::Variable(name) => term matches Term::Variable { name: found } && found@ == name,
        Shape::Floor(inner) => term matches Term::Call { name, args } && name@ == "floor"@
            && args@.len() == 1 && renders(args[0], *inner, numbers),
        Shape::Power(inner, power) => term matches Term::Power { base, exponent } && renders(
            *base,
            *inner,
            numbers,
        ) && renders(*exponent, Shape::Number((power, 1)), numbers),
        Shape::Product(shapes) => term matches Term::Product(terms) && terms@.len() == shapes.len()
            && forall|i: int|
            0 <= i < terms@.len() ==> renders(#[trigger] terms[i], shapes[i], numbers),
        Shape::Sum(shapes) => term matches Term::Sum(terms) && terms@.len() == shapes.len()
            && forall|i: int|
            0 <= i < terms@.len() ==> renders(#[trigger] terms[i], shapes[i], numbers),
    }
}

/// The name of a dimension.
pub open spec fn dim_name(names: Seq<Option<String>>, at: int) -> Seq<char> {
    if at < names.len() && names[at] is Some {
        names[at]->0@
    } else {
        "unnamed"@
    }
}

/// The parts of an affine expression for the first of some dimensions: a
/// coefficient times a variable, where the coefficient is not zero.
pub open spec fn linear_parts(
    coefficients: Seq<(i64, i64)>,
    names: Seq<Option<String>>,
    count: nat,
) -> Seq<Shape>
    decreases count,
{
    if count == 0 {
        Seq::empty()
    } else {
        let before = linear_parts(coefficients, names, (count - 1) as nat);
        let coefficient = coefficients[count - 1];
        if coefficient.0 == 0 {
            before
        } else {
            before.push(
                Shape::Product(
                    seq![
                        Shape::Number(coefficient),
                        Shape::Variable(dim_name(names, count - 1)),
                    ],
                ),
            )
        }
    }
}

/// The constant of an affine expression, where it is not zero.
pub open spec fn constant_part(constant: (i64, i64)) -> Seq<Shape> {
    if constant.0 == 0 {
        Seq::empty()
    } else {
        seq![Shape::Number(constant)]
    }
}

/// An affine expression: its constant, and its coefficients times parameters,
/// dimensions and quotients, those that are not zero.
pub open spec fn affine_shape(affine: QuasiAffine, names: DimNames) -> Shape
    decreases affine, 1int,
{
    Shape::Sum(
        constant_part(affine.constant) + linear_parts(
            affine.params@,
            names.params@,
            affine.params@.len(),
        ) + linear_parts(affine.inputs@, names.inputs@, affine.inputs@.len()) + div_parts(
            affine.divs,
            names,
            affine.divs@.len(),
        ),
    )
}

/// The parts of an affine expression for the first of its quotients.
pub open spec fn div_parts(divs: Vec<QuasiDiv>, names: DimNames, count: nat) -> Seq<Shape>
    decreases divs, count,
{
    if count == 0 || count > divs@.len() {
        Seq::empty()
    } else {
        let before = div_parts(divs, names, (count - 1) as nat);
        let div = divs[count - 1];
        if div.coefficient.0 == 0 {
            before
        } else {
            before.push(
                Shape::Product(
                    seq![Shape::Number(div.coefficient), floor_shape(div.quotient, names)],
                ),
            )
        }
    }
}

/// A quotient: the floor of its affine expression, which is left out where the
/// expression is integral.
pub open spec fn floor_shape(quotient: QuasiAffine, names: DimNames) -> Shape
    decreases quotient, 2int,
{
    if quotient.integral {
        affine_shape(quotient, names)
    } else {
        Shape::Floor(Box::new(affine_shape(quotient, names)))
    }
}

/// The powers of the first parameters whose exponents are not zero.
pub open spec fn param_parts(
    exponents: Seq<i64>,
    names: Seq<Option<String>>,
    count: nat,
) -> Seq<Shape>
    decreases count,
{
    if count == 0 {
        Seq::empty()
    } else {
        let before = param_parts(exponents, names, (count - 1) as nat);
        if exponents[count - 1] == 0 {
            before
        } else {
            before.push(
                Shape::Power(
                    Box::new(Shape::Variable(dim_name(names, count - 1))),
                    exponents[count - 1],
                ),
            )
        }
    }
}

/// The powers of the first set dimensions whose exponents are not zero.
pub open spec fn set_parts(
    exponents: Seq<i64>,
    inputs: Seq<Option<String>>,
    outputs: Seq<Option<String>>,
    count: nat,
) -> Seq<Shape>
    decreases count,
{
    if count == 0 {
        Seq::empty()
    } else {
        let before = set_parts(exponents, inputs, outputs, (count - 1) as nat);
        if exponents[count - 1] == 0 {
            before
        } else {
            before.push(
                Shape::Power(
                    Box::new(Shape::Variable(term_name(inputs, outputs, count - 1))),
                    exponents[count - 1],
                ),
            )
        }
    }
}

/// The powers of the first quotients with positive exponents.
pub open spec fn power_parts(divs: Seq<QuasiPower>, names: DimNames, count: nat) -> Seq<Shape>
    decreases count,
{
    if count == 0 {
        Seq::empty()
    } else {
        let before = power_parts(divs, names, (count - 1) as nat);
        if divs[count - 1].exponent <= 0 {
            before
        } else {
            before.push(
                Shape::Power(
                    Box::new(floor_shape(divs[count - 1].quotient, names)),
                    divs[count - 1].exponent,
                ),
            )
        }
    }
}

/// A term: its coefficient times powers of parameters, dimensions and quotients.
pub open spec fn term_shape(term: QuasiTerm, names: DimNames) -> Shape {
    Shape::Product(
        seq![Shape::Number(term.coefficient)] + param_parts(
            term.params@,
            names.params@,
            term.params@.len(),
        ) + set_parts(term.sets@, names.inputs@, names.outputs@, term.sets@.len()) + power_parts(
            term.divs@,
            names,
            term.divs@.len(),
        ),
    )
}

/// A quasi-polynomial: the sum of its terms.
pub open spec fn quasi_shape(terms: Seq<QuasiTerm>, names: DimNames) -> Shape {
    Shape::Sum(terms.map_values(|term: QuasiTerm| term_shape(term, names)))
}

/// The expressions of a list look like these.
spec fn lists(terms: Vec<Term>, shapes: Seq<Shape>, numbers: Seq<(i64, i64)>) -> bool {
    &&& terms@.len() == shapes.len()
    &&& forall|i: int| 0 <= i < terms@.len() ==> renders(#[trigger] terms[i], shapes[i], numbers)
}

/// More numbers do not change what an expression looks like.
proof fn lemma_more_numbers(
    term: Term,
    shape: Shape,
    numbers: Seq<(i64, i64)>,
    more: Seq<(i64, i64)>,
)
    requires
        renders(term, shape, numbers),
        numbers.is_prefix_of(more),
    ensures
        renders(term, shape, more),
    decreases term,
{
    match shape {
        Shape::Number(value) => {},
        Shape::Variable(name) => {},
        Shape::Floor(inner) => {
            let args = term->args;
            lemma_more_numbers(args[0], *inner, numbers, more);
        },
        Shape::Power(inner, power) => {
            if let Term::Power { base, exponent } = term {
                lemma_more_numbers(*base, *inner, numbers, more);
                lemma_more_numbers(*exponent, Shape::Number((power, 1)), numbers, more);
            }
        },
        Shape::Product(shapes) => {
            if let Term::Product(terms) = term {
                assert forall|i: int| 0 <= i < terms@.len() implies renders(
                    #[trigger] terms[i],
                    shapes[i],
                    more,
                ) by {
                    lemma_more_numbers(terms[i], shapes[i], numbers, more);
                }
            }
        },
        Shape::Sum(shapes) => {
            if let Term::Sum(terms) = term {
                assert forall|i: int| 0 <= i < terms@.len() implies renders(
                    #[trigger] terms[i],
                    shapes[i],
                    more,
                ) by {
                    lemma_more_numbers(terms[i], shapes[i], numbers, more);
                }
            }
        },
    }
}

/// A list with one more expression behind it.
proof fn lemma_lists_push(
    before: Vec<Term>,
    after: Vec<Term>,
    term: Term,
    shapes: Seq<Shape>,
    shape: Shape,
    numbers: Seq<(i64, i64)>,
    more: Seq<(i64, i64)>,
)
    requires
        lists(before, shapes, numbers),
        numbers.is_prefix_of(more),
        renders(term, shape, more),
        after@ == before@.push(term),
    ensures
        lists(after, shapes.push(shape), more),
{
    assert forall|i: int| 0 <= i < after@.len() implies renders(
        #[trigger] after[i],
        shapes.push(shape)[i],
        more,
    ) by {
        if i < before@.len() {
            assert(after[i] == before[i]);
            lemma_more_numbers(before[i], shapes[i], numbers, more);
        } else {
            assert(after[i] == term);
        }
    }
}

/// A number, added to the list of numbers.
fn number(value: (i64, i64), numbers: &mut Vec<(i64, i64)>) -> (term: Term)
    ensures
        old(numbers)@.is_prefix_of(final(numbers)@),
        renders(term, Shape::Number(value), final(numbers)@),
{
    let at: usize = numbers.len();
    numbers.push(value);
    let power: Option<i32> = if value.1 == 1 && -64 <= value.0 && value.0 <= 64 {
        Some(value.0 as i32)
    } else {
        None
    };
    Term::Number { at, power }
}

/// The variable of a dimension.
fn variable(names: &Vec<Option<String>>, at: usize) -> (term: Term)
    ensures
        forall|numbers: Seq<(i64, i64)>| #[trigger]
            renders(term, Shape::Variable(dim_name(names@, at as int)), numbers),
{
    if at < names.len() {
        match &names[at] {
            Some(name) => {
                return Term::Variable { name: name.clone() };
            },
            None => {},
        }
    }
    let mut name: String = String::new();
    name.push_str("unnamed");
    assert(name@ =~= "unnamed"@);
    Term::Variable { name }
}

/// A coefficient times an expression.
fn scaled(
    coefficient: (i64, i64),
    factor: Term,
    numbers: &mut Vec<(i64, i64)>,
    Ghost(shape): Ghost<Shape>,
) -> (term: Term)
    requires
        renders(factor, shape, old(numbers)@),
    ensures
        old(numbers)@.is_prefix_of(final(numbers)@),
        renders(
            term,
            Shape::Product(seq![Shape::Number(coefficient), shape]),
            final(numbers)@,
        ),
{
    let first: Term = number(coefficient, numbers);
    proof {
        lemma_more_numbers(factor, shape, old(numbers)@, numbers@);
    }
    let mut terms: Vec<Term> = Vec::new();
    terms.push(first);
    terms.push(factor);
    assert(terms[0] == first && terms[1] == factor);
    Term::Product(terms)
}

/// An expression to a power.
fn power(base: Term, exponent: i64, numbers: &mut Vec<(i64, i64)>, Ghost(shape): Ghost<Shape>) -> (term:
    Term)
    requires
        renders(base, shape, old(numbers)@),
    ensures
        old(numbers)@.is_prefix_of(final(numbers)@),
        renders(term, Shape::Power(Box::new(shape), exponent), final(numbers)@),
{
    let raised: Term = number((exponent, 1), numbers);
    proof {
        lemma_more_numbers(base, shape, old(numbers)@, numbers@);
    }
    Term::Power { base: Box::new(base), exponent: Box::new(raised) }
}

/// Adds the parts of an affine expression for some dimensions.
fn push_linear(
    terms: &mut Vec<Term>,
    coefficients: &Vec<(i64, i64)>,
    names: &Vec<Option<String>>,
    numbers: &mut Vec<(i64, i64)>,
    Ghost(shapes): Ghost<Seq<Shape>>,
)
    requires
        lists(*old(terms), shapes, old(numbers)@),
    ensures
        old(numbers)@.is_prefix_of(final(numbers)@),
        lists(
            *final(terms),
            shapes + linear_parts(coefficients@, names@, coefficients@.len()),
            final(numbers)@,
        ),
{
    let mut at: usize = 0;
    assert(shapes + linear_parts(coefficients@, names@, 0) =~= shapes);
    while at < coefficients.len()
        invariant
            at <= coefficients@.len(),
            old(numbers)@.is_prefix_of(numbers@),
            lists(*terms, shapes + linear_parts(coefficients@, names@, at as nat), numbers@),
        decreases coefficients@.len() - at,
    {
        let ghost (before, earlier) = (*terms, numbers@);
        let ghost seen = shapes + linear_parts(coefficients@, names@, at as nat);
        if coefficients[at].0 != 0 {
            let ghost shape = Shape::Variable(dim_name(names@, at as int));
            let factor: Term = variable(names, at);
            assert(renders(factor, shape, numbers@));
            let part: Term = scaled(coefficients[at], factor, numbers, Ghost(shape));
            terms.push(part);
            proof {
                let whole = Shape::Product(seq![Shape::Number(coefficients@[at as int]), shape]);
                lemma_lists_push(before, *terms, part, seen, whole, earlier, numbers@);
                assert(seen.push(whole) =~= shapes + linear_parts(
                    coefficients@,
                    names@,
                    (at + 1) as nat,
                ));
            }
        }
        at += 1;
    }
}

/// Adds the parts of an affine expression for its quotients.
fn push_divs(
    terms: &mut Vec<Term>,
    divs: &Vec<QuasiDiv>,
    names: &DimNames,
    numbers: &mut Vec<(i64, i64)>,
    Ghost(shapes): Ghost<Seq<Shape>>,
)
    requires
        lists(*old(terms), shapes, old(numbers)@),
    ensures
        old(numbers)@.is_prefix_of(final(numbers)@),
        lists(
            *final(terms),
            shapes + div_parts(*divs, *names, divs@.len()),
            final(numbers)@,
        ),
    decreases *divs, 0int,
{
    let mut at: usize = 0;
    assert(shapes + div_parts(*divs, *names, 0) =~= shapes);
    while at < divs.len()
        invariant
            at <= divs@.len(),
            old(numbers)@.is_prefix_of(numbers@),
            lists(*terms, shapes + div_parts(*divs, *names, at as nat), numbers@),
        decreases divs@.len() - at,
    {
        let ghost (before, earlier) = (*terms, numbers@);
        let ghost seen = shapes + div_parts(*divs, *names, at as nat);
        let div: &QuasiDiv = &divs[at];
        if div.coefficient.0 != 0 {
            let ghost shape = floor_shape(div.quotient, *names);
            assert(decreases_to!(*divs => divs@[at as int]));
            assert(decreases_to!(divs@[at as int] => divs@[at as int].quotient));
            let factor: Term = floor_of(&div.quotient, names, numbers);
            let part: Term = scaled(div.coefficient, factor, numbers, Ghost(shape));
            terms.push(part);
            proof {
                let whole = Shape::Product(seq![Shape::Number(div.coefficient), shape]);
                lemma_lists_push(before, *terms, part, seen, whole, earlier, numbers@);
                assert(divs[at as int] == *div);
                assert(seen.push(whole) =~= shapes + div_parts(*divs, *names, (at + 1) as nat));
            }
        }
        at += 1;
    }
}

/// An affine expression.
fn affine_of(affine: &QuasiAffine, names: &DimNames, numbers: &mut Vec<(i64, i64)>) -> (term: Term)
    ensures
        old(numbers)@.is_prefix_of(final(numbers)@),
        renders(term, affine_shape(*affine, *names), final(numbers)@),
    decreases *affine, 1int,
{
    let mut terms: Vec<Term> = Vec::new();
    if affine.constant.0 != 0 {
        let constant: Term = number(affine.constant, numbers);
        terms.push(constant);
        assert(terms[0] == constant);
    }
    let ghost first = constant_part(affine.constant);
    assert(lists(terms, first, numbers@));
    let ghost second = first + linear_parts(
        affine.params@,
        names.params@,
        affine.params@.len(),
    );
    push_linear(&mut terms, &affine.params, &names.params, numbers, Ghost(first));
    push_linear(&mut terms, &affine.inputs, &names.inputs, numbers, Ghost(second));
    let ghost third = second + linear_parts(
        affine.inputs@,
        names.inputs@,
        affine.inputs@.len(),
    );
    assert(decreases_to!(*affine => affine.divs));
    push_divs(&mut terms, &affine.divs, names, numbers, Ghost(third));
    Term::Sum(terms)
}

/// A quotient.
fn floor_of(quotient: &QuasiAffine, names: &DimNames, numbers: &mut Vec<(i64, i64)>) -> (term: Term)
    ensures
        old(numbers)@.is_prefix_of(final(numbers)@),
        renders(term, floor_shape(*quotient, *names), final(numbers)@),
    decreases *quotient, 2int,
{
    let inner: Term = affine_of(quotient, names, numbers);
    if quotient.integral {
        return inner;
    }
    let mut name: String = String::new();
    name.push_str("floor");
    assert(name@ =~= "floor"@);
    let mut args: Vec<Term> = Vec::new();
    args.push(inner);
    assert(args[0] == inner);
    Term::Call { name, args }
}

/// A term.
fn term_of(term: &QuasiTerm, names: &DimNames, numbers: &mut Vec<(i64, i64)>) -> (rendered: Term)
    ensures
        old(numbers)@.is_prefix_of(final(numbers)@),
        renders(rendered, term_shape(*term, *names), final(numbers)@),
{
    let mut terms: Vec<Term> = Vec::new();
    let coefficient: Term = number(term.coefficient, numbers);
    terms.push(coefficient);
    let ghost first = seq![Shape::Number(term.coefficient)];
    assert(terms[0] == coefficient);
    assert(lists(terms, first, numbers@));
    let mut at: usize = 0;
    assert(first + param_parts(term.params@, names.params@, 0) =~= first);
    while at < term.params.len()
        invariant
            at <= term.params@.len(),
            old(numbers)@.is_prefix_of(numbers@),
            lists(
                terms,
                first + param_parts(term.params@, names.params@, at as nat),
                numbers@,
            ),
        decreases term.params@.len() - at,
    {
        let ghost (before, earlier) = (terms, numbers@);
        let ghost seen = first + param_parts(term.params@, names.params@, at as nat);
        if term.params[at] != 0 {
            let ghost shape = Shape::Variable(dim_name(names.params@, at as int));
            let base: Term = variable(&names.params, at);
            assert(renders(base, shape, numbers@));
            let part: Term = power(base, term.params[at], numbers, Ghost(shape));
            terms.push(part);
            proof {
                let whole = Shape::Power(Box::new(shape), term.params@[at as int]);
                lemma_lists_push(before, terms, part, seen, whole, earlier, numbers@);
                assert(seen.push(whole) =~= first + param_parts(
                    term.params@,
                    names.params@,
                    (at + 1) as nat,
                ));
            }
        }
        at += 1;
    }
    let ghost second = first + param_parts(term.params@, names.params@, term.params@.len());
    let mut dim: usize = 0;
    assert(second + set_parts(term.sets@, names.inputs@, names.outputs@, 0) =~= second);
    while dim < term.sets.len()
        invariant
            dim <= term.sets@.len(),
            old(numbers)@.is_prefix_of(numbers@),
            lists(
                terms,
                second + set_parts(term.sets@, names.inputs@, names.outputs@, dim as nat),
                numbers@,
            ),
        decreases term.sets@.len() - dim,
    {
        let ghost (before, earlier) = (terms, numbers@);
        let ghost seen = second + set_parts(
            term.sets@,
            names.inputs@,
            names.outputs@,
            dim as nat,
        );
        if term.sets[dim] != 0 {
            let name: String = set_dim_name(&names.inputs, &names.outputs, dim);
            let ghost shape = Shape::Variable(name@);
            let base: Term = Term::Variable { name };
            let part: Term = power(base, term.sets[dim], numbers, Ghost(shape));
            terms.push(part);
            proof {
                let whole = Shape::Power(Box::new(shape), term.sets@[dim as int]);
                lemma_lists_push(before, terms, part, seen, whole, earlier, numbers@);
                assert(seen.push(whole) =~= second + set_parts(
                    term.sets@,
                    names.inputs@,
                    names.outputs@,
                    (dim + 1) as nat,
                ));
            }
        }
        dim += 1;
    }
    let ghost third = second + set_parts(
        term.sets@,
        names.inputs@,
        names.outputs@,
        term.sets@.len(),
    );
    let mut div: usize = 0;
    assert(third + power_parts(term.divs@, *names, 0) =~= third);
    while div < term.divs.len()
        invariant
            div <= term.divs@.len(),
            old(numbers)@.is_prefix_of(numbers@),
            lists(terms, third + power_parts(term.divs@, *names, div as nat), numbers@),
        decreases term.divs@.len() - div,
    {
        let ghost (before, earlier) = (terms, numbers@);
        let ghost seen = third + power_parts(term.divs@, *names, div as nat);
        let exponent: i64 = term.divs[div].exponent;
        if exponent > 0 {
            let ghost shape = floor_shape(term.divs@[div as int].quotient, *names);
            let base: Term = floor_of(&term.divs[div].quotient, names, numbers);
            let part: Term = power(base, exponent, numbers, Ghost(shape));
            terms.push(part);
            proof {
                let whole = Shape::Power(Box::new(shape), exponent);
                lemma_lists_push(before, terms, part, seen, whole, earlier, numbers@);
                assert(seen.push(whole) =~= third + power_parts(
                    term.divs@,
                    *names,
                    (div + 1) as nat,
                ));
            }
        }
        div += 1;
    }
    Term::Product(terms)
}

/// A quasi-polynomial as an expression, and the numbers that it mentions.
pub fn convert_quasi_poly(terms: &Vec<QuasiTerm>, names: &DimNames) -> (rendered: (
    Term,
    Vec<(i64, i64)>,
))
    ensures
        renders(rendered.0, quasi_shape(terms@, *names), rendered.1@),
        forall|variables: spec_fn(Seq<char>) -> real, params: Seq<real>, dims: Seq<real>|
            #[trigger] well_assigned(terms@, *names, variables, params, dims) ==> written_value(
                rendered.0,
                rendered.1@,
                variables,
            ) == quasi_value(terms@, params, dims, terms@.len()),
{
    let mut numbers: Vec<(i64, i64)> = Vec::new();
    let mut parts: Vec<Term> = Vec::new();
    let ghost shapes = terms@.map_values(|term: QuasiTerm| term_shape(term, *names));
    let mut at: usize = 0;
    while at < terms.len()
        invariant
            at <= terms@.len(),
            shapes == terms@.map_values(|term: QuasiTerm| term_shape(term, *names)),
            lists(parts, shapes.take(at as int), numbers@),
        decreases terms@.len() - at,
    {
        let ghost (before, earlier) = (parts, numbers@);
        let part: Term = term_of(&terms[at], names, &mut numbers);
        parts.push(part);
        proof {
            let shape = shapes[at as int];
            lemma_lists_push(before, parts, part, shapes.take(at as int), shape, earlier, numbers@);
            assert(shapes.take(at as int).push(shape) =~= shapes.take(at + 1));
        }
        at += 1;
    }
    assert(shapes.take(at as int) =~= shapes);
    let sum: Term = Term::Sum(parts);
    proof {
        assert(renders(sum, quasi_shape(terms@, *names), numbers@));
        assert forall|variables: spec_fn(Seq<char>) -> real, params: Seq<real>, dims: Seq<real>|
            #[trigger] well_assigned(
                terms@,
                *names,
                variables,
                params,
                dims,
            ) implies written_value(sum, numbers@, variables) == quasi_value(
            terms@,
            params,
            dims,
            terms@.len(),
        ) by {
            law_written_quasi_polynomial_has_its_value(
                sum,
                numbers@,
                terms@,
                *names,
                variables,
                params,
                dims,
            );
        }
    }
    (sum, numbers)
}

} // verus!
