//! The value of a quasi-polynomial, and of the expression that it is written as.

use crate::analysis::term_name;
use crate::expression::Term;
use crate::quasi_poly::{
    affine_shape, constant_part, dim_name, div_parts, floor_shape, linear_parts, param_parts,
    power_parts, quasi_shape, renders, set_parts, term_shape, DimNames, QuasiAffine, QuasiDiv,
    QuasiPower, QuasiTerm, Shape,
};
use vstd::prelude::*;

verus! {

broadcast use vstd::std_specs::vec::axiom_vec_index_decreases;

/// The number that a numerator and a denominator stand for.
pub open spec fn ratio(value: (i64, i64)) -> real {
    (value.0 as real) / (value.1 as real)
}

/// A number to an integer power.
pub open spec fn real_power(base: real, exponent: int) -> real
    decreases
            if exponent >= 0 {
                2 * exponent
            } else {
                1 - 2 * exponent
            },
{
    if exponent == 0 {
        1real
    } else if exponent > 0 {
        base * real_power(base, exponent - 1)
    } else {
        1real / real_power(base, -exponent)
    }
}

/// An integer, as a number.
pub open spec fn whole(value: int) -> real {
    value as real
}

/// The integer that is not above a number, and less than one below it.
pub open spec fn floor_of(value: real) -> int {
    choose|integer: int| #[trigger] whole(integer) <= value < whole(integer) + 1real
}

/// The floor of a number.
#[verifier::opaque]
pub open spec fn floored(value: real) -> real {
    whole(floor_of(value))
}

/// The value of an affine expression, where `params` and `dims` are the values of
/// the parameters and the dimensions: the constant, plus every coefficient times
/// the value that it belongs to.
pub open spec fn affine_value(affine: QuasiAffine, params: Seq<real>, dims: Seq<real>) -> real
    decreases affine, 0int,
{
    ratio(affine.constant) + combined(affine.params@, params, affine.params@.len()) + combined(
        affine.inputs@,
        dims,
        affine.inputs@.len(),
    ) + quotients_value(affine.divs, affine.divs@.len(), params, dims)
}

/// The sum of the first coefficients times their values.
pub open spec fn combined(coefficients: Seq<(i64, i64)>, values: Seq<real>, count: nat) -> real
    decreases count,
{
    if count == 0 {
        0real
    } else {
        combined(coefficients, values, (count - 1) as nat) + ratio(coefficients[count - 1])
            * values[count - 1]
    }
}

/// The sum of the first coefficients times their quotients, each the floor of
/// its affine expression.
pub open spec fn quotients_value(
    divs: Vec<QuasiDiv>,
    count: nat,
    params: Seq<real>,
    dims: Seq<real>,
) -> real
    decreases divs, count,
{
    if count == 0 || count > divs@.len() {
        0real
    } else {
        quotients_value(divs, (count - 1) as nat, params, dims) + ratio(
            divs[count - 1].coefficient,
        ) * floored(affine_value(divs[count - 1].quotient, params, dims))
    }
}

/// The product of the first values to their powers.
pub open spec fn raised(exponents: Seq<i64>, values: Seq<real>, count: nat) -> real
    decreases count,
{
    if count == 0 {
        1real
    } else {
        raised(exponents, values, (count - 1) as nat) * real_power(
            values[count - 1],
            exponents[count - 1] as int,
        )
    }
}

/// The product of the first quotients to their powers.
pub open spec fn quotients_raised(
    divs: Seq<QuasiPower>,
    params: Seq<real>,
    dims: Seq<real>,
    count: nat,
) -> real
    decreases count,
{
    if count == 0 {
        1real
    } else {
        quotients_raised(divs, params, dims, (count - 1) as nat) * real_power(
            floored(affine_value(divs[count - 1].quotient, params, dims)),
            divs[count - 1].exponent as int,
        )
    }
}

/// The value of a term: its coefficient, times every parameter, every dimension
/// and every quotient to its power.
pub open spec fn quasi_term_value(term: QuasiTerm, params: Seq<real>, dims: Seq<real>) -> real {
    ratio(term.coefficient) * raised(term.params@, params, term.params@.len()) * raised(
        term.sets@,
        dims,
        term.sets@.len(),
    ) * quotients_raised(term.divs@, params, dims, term.divs@.len())
}

/// The value of a quasi-polynomial: the sum of its first terms.
pub open spec fn quasi_value(
    terms: Seq<QuasiTerm>,
    params: Seq<real>,
    dims: Seq<real>,
    count: nat,
) -> real
    decreases count,
{
    if count == 0 {
        0real
    } else {
        quasi_value(terms, params, dims, (count - 1) as nat) + quasi_term_value(
            terms[count - 1],
            params,
            dims,
        )
    }
}

/// The value of a written expression, where `numbers` lists its numbers.
pub open spec fn written_value(
    term: Term,
    numbers: Seq<(i64, i64)>,
    variables: spec_fn(Seq<char>) -> real,
) -> real
    decreases term, 0int,
{
    match term {
        Term::Number { at, .. } => ratio(numbers[at as int]),
        Term::Variable { name } => variables(name@),
        Term::Call { name, args } => if name@ == "floor"@ && args@.len() == 1 {
            floored(written_value(args[0], numbers, variables))
        } else {
            0real
        },
        Term::Power { base, exponent } => match *exponent {
            Term::Number { at, .. } => real_power(
                written_value(*base, numbers, variables),
                numbers[at as int].0 as int,
            ),
            _ => 0real,
        },
        Term::Product(terms) => written_product(terms, terms@.len(), numbers, variables),
        Term::Sum(terms) => written_sum(terms, terms@.len(), numbers, variables),
    }
}

/// The product of the first expressions of a list.
pub open spec fn written_product(
    terms: Vec<Term>,
    count: nat,
    numbers: Seq<(i64, i64)>,
    variables: spec_fn(Seq<char>) -> real,
) -> real
    decreases terms, count,
{
    if count == 0 || count > terms@.len() {
        1real
    } else {
        written_product(terms, (count - 1) as nat, numbers, variables) * written_value(
            terms[count - 1],
            numbers,
            variables,
        )
    }
}

/// The sum of the first expressions of a list.
pub open spec fn written_sum(
    terms: Vec<Term>,
    count: nat,
    numbers: Seq<(i64, i64)>,
    variables: spec_fn(Seq<char>) -> real,
) -> real
    decreases terms, count,
{
    if count == 0 || count > terms@.len() {
        0real
    } else {
        written_sum(terms, (count - 1) as nat, numbers, variables) + written_value(
            terms[count - 1],
            numbers,
            variables,
        )
    }
}

/// The dimension at this place has a name, and the variable of that name has this
/// value.
pub open spec fn is_named(
    names: Seq<Option<String>>,
    at: int,
    variables: spec_fn(Seq<char>) -> real,
    value: real,
) -> bool {
    at < names.len() && names[at] is Some && variables(names[at]->0@) == value
}

/// Every parameter and every dimension has a name, and the variable of that name
/// has its value. A dimension has its name as an input, or otherwise as an
/// output.
pub open spec fn assigns(
    names: DimNames,
    variables: spec_fn(Seq<char>) -> real,
    params: Seq<real>,
    dims: Seq<real>,
) -> bool {
    &&& forall|i: int|
        0 <= i < params.len() ==> #[trigger] is_named(names.params@, i, variables, params[i])
    &&& forall|i: int|
        0 <= i < dims.len() ==> if i < names.inputs@.len() && names.inputs@[i] is Some {
            #[trigger] is_named(names.inputs@, i, variables, dims[i])
        } else {
            is_named(names.outputs@, i, variables, dims[i])
        }
}

/// The number is an integer.
pub open spec fn is_whole(value: real) -> bool {
    exists|integer: int| value == #[trigger] whole(integer)
}

proof fn lemma_floored_whole(value: real)
    ensures
        is_whole(floored(value)),
        is_whole(value) ==> floored(value) == value,
{
    reveal(floored);
    assert(floored(value) == whole(floor_of(value)));
    if is_whole(value) {
        let integer = choose|integer: int| value == #[trigger] whole(integer);
        assert(whole(integer) <= value < whole(integer) + 1real);
        lemma_same_integer(floor_of(value), integer);
    }
}

/// Every number has a floor.
pub proof fn law_floor_of_a_number(value: real)
    ensures
        whole(floor_of(value)) <= value < whole(floor_of(value)) + 1real,
{
    let integer = value.floor();
    assert(integer as real <= value < integer as real + 1real);
    assert(whole(integer) <= value < whole(integer) + 1real);
}

proof fn lemma_same_integer(left: int, right: int)
    requires
        left as real <= right as real,
        (right as real) < left as real + 1real,
    ensures
        left == right,
{
}

/// An affine expression as isl has them: positive denominators, no more
/// coefficients than there are parameters and named inputs, and a denominator of
/// one where it is integral.
pub open spec fn proper_affine(affine: QuasiAffine, names: DimNames, params: nat, dims: nat) -> bool
    decreases affine, 0int,
{
    &&& affine.constant.1 > 0
    &&& affine.params@.len() <= params
    &&& affine.inputs@.len() <= dims
    &&& affine.inputs@.len() <= names.inputs@.len()
    &&& forall|i: int|
        0 <= i < affine.params@.len() ==> (#[trigger] affine.params@[i]).1 > 0 && (affine.integral
            ==> affine.params@[i].1 == 1)
    &&& forall|i: int|
        0 <= i < affine.inputs@.len() ==> (#[trigger] affine.inputs@[i]).1 > 0 && (affine.integral
            ==> affine.inputs@[i].1 == 1) && names.inputs@[i] is Some
    &&& affine.integral ==> affine.constant.1 == 1
    &&& proper_divs(affine.divs, affine.divs@.len(), affine.integral, names, params, dims)
}

/// The first quotients of an affine expression are proper.
pub open spec fn proper_divs(
    divs: Vec<QuasiDiv>,
    count: nat,
    integral: bool,
    names: DimNames,
    params: nat,
    dims: nat,
) -> bool
    decreases divs, count,
{
    count == 0 || count > divs@.len() || {
        &&& proper_divs(divs, (count - 1) as nat, integral, names, params, dims)
        &&& divs[count - 1].coefficient.1 > 0
        &&& integral ==> divs[count - 1].coefficient.1 == 1
        &&& proper_affine(divs[count - 1].quotient, names, params, dims)
    }
}

/// A term as isl has them: a positive denominator, no more exponents than there
/// are parameters and dimensions, and no negative powers of quotients.
pub open spec fn proper_term(term: QuasiTerm, names: DimNames, params: nat, dims: nat) -> bool {
    &&& term.coefficient.1 > 0
    &&& term.params@.len() <= params
    &&& term.sets@.len() <= dims
    &&& forall|i: int|
        0 <= i < term.divs@.len() ==> (#[trigger] term.divs@[i]).exponent >= 0 && proper_affine(
            term.divs@[i].quotient,
            names,
            params,
            dims,
        )
}

/// Integers for the parameters and the dimensions, and terms that speak of no
/// others.
pub open spec fn well_assigned(
    terms: Seq<QuasiTerm>,
    names: DimNames,
    variables: spec_fn(Seq<char>) -> real,
    params: Seq<real>,
    dims: Seq<real>,
) -> bool {
    &&& assigns(names, variables, params, dims)
    &&& forall|i: int|
        0 <= i < terms.len() ==> proper_term(#[trigger] terms[i], names, params.len(), dims.len())
    &&& forall|i: int| 0 <= i < params.len() ==> is_whole(#[trigger] params[i])
    &&& forall|i: int| 0 <= i < dims.len() ==> is_whole(#[trigger] dims[i])
}

/// The value of what an expression looks like.
spec fn shape_value(shape: Shape, variables: spec_fn(Seq<char>) -> real) -> real
    decreases shape, 0int,
{
    match shape {
        Shape::Number(value) => ratio(value),
        Shape::Variable(name) => variables(name),
        Shape::Floor(inner) => floored(shape_value(*inner, variables)),
        Shape::Power(inner, exponent) => real_power(shape_value(*inner, variables), exponent as int),
        Shape::Product(shapes) => shapes_product(shapes, shapes.len(), variables),
        Shape::Sum(shapes) => shapes_sum(shapes, shapes.len(), variables),
    }
}

spec fn shapes_product(shapes: Seq<Shape>, count: nat, variables: spec_fn(Seq<char>) -> real) -> real
    decreases shapes, count,
{
    if count == 0 || count > shapes.len() {
        1real
    } else {
        shapes_product(shapes, (count - 1) as nat, variables) * shape_value(
            shapes[count - 1],
            variables,
        )
    }
}

spec fn shapes_sum(shapes: Seq<Shape>, count: nat, variables: spec_fn(Seq<char>) -> real) -> real
    decreases shapes, count,
{
    if count == 0 || count > shapes.len() {
        0real
    } else {
        shapes_sum(shapes, (count - 1) as nat, variables) + shape_value(
            shapes[count - 1],
            variables,
        )
    }
}

/// An expression has the value of what it looks like.
proof fn lemma_written_shape(
    term: Term,
    shape: Shape,
    numbers: Seq<(i64, i64)>,
    variables: spec_fn(Seq<char>) -> real,
)
    requires
        renders(term, shape, numbers),
    ensures
        written_value(term, numbers, variables) == shape_value(shape, variables),
    decreases term, 1int, 0int,
{
    match shape {
        Shape::Number(value) => {},
        Shape::Variable(name) => {},
        Shape::Floor(inner) => {
            let args = term->args;
            lemma_written_shape(args[0], *inner, numbers, variables);
        },
        Shape::Power(inner, power) => {
            if let Term::Power { base, exponent } = term {
                lemma_written_shape(*base, *inner, numbers, variables);
                assert(renders(*exponent, Shape::Number((power, 1)), numbers));
            }
        },
        Shape::Product(shapes) => {
            if let Term::Product(terms) = term {
                lemma_written_list(terms, shapes, terms@.len(), numbers, variables);
            }
        },
        Shape::Sum(shapes) => {
            if let Term::Sum(terms) = term {
                lemma_written_list(terms, shapes, terms@.len(), numbers, variables);
            }
        },
    }
}

proof fn lemma_written_list(
    terms: Vec<Term>,
    shapes: Seq<Shape>,
    count: nat,
    numbers: Seq<(i64, i64)>,
    variables: spec_fn(Seq<char>) -> real,
)
    requires
        count <= terms@.len() == shapes.len(),
        forall|i: int| 0 <= i < terms@.len() ==> renders(#[trigger] terms[i], shapes[i], numbers),
    ensures
        written_product(terms, count, numbers, variables) == shapes_product(
            shapes,
            count,
            variables,
        ),
        written_sum(terms, count, numbers, variables) == shapes_sum(shapes, count, variables),
    decreases terms, 0int, count,
{
    if count > 0 {
        lemma_written_list(terms, shapes, (count - 1) as nat, numbers, variables);
        assert(renders(terms[count - 1], shapes[count - 1], numbers));
        lemma_written_shape(terms[count - 1], shapes[count - 1], numbers, variables);
    }
}

proof fn lemma_prefix(
    shapes: Seq<Shape>,
    longer: Seq<Shape>,
    count: nat,
    variables: spec_fn(Seq<char>) -> real,
)
    requires
        count <= shapes.len(),
        shapes.is_prefix_of(longer),
    ensures
        shapes_sum(shapes, count, variables) == shapes_sum(longer, count, variables),
        shapes_product(shapes, count, variables) == shapes_product(longer, count, variables),
    decreases count,
{
    if count > 0 {
        lemma_prefix(shapes, longer, (count - 1) as nat, variables);
        assert(shapes[count - 1] == longer[count - 1]);
    }
}

proof fn lemma_shapes_push(shapes: Seq<Shape>, shape: Shape, variables: spec_fn(Seq<char>) -> real)
    ensures
        shapes_sum(shapes.push(shape), shapes.len() + 1, variables) == shapes_sum(
            shapes,
            shapes.len(),
            variables,
        ) + shape_value(shape, variables),
        shapes_product(shapes.push(shape), shapes.len() + 1, variables) == shapes_product(
            shapes,
            shapes.len(),
            variables,
        ) * shape_value(shape, variables),
{
    lemma_prefix(shapes, shapes.push(shape), shapes.len(), variables);
    assert(shapes.push(shape)[shapes.len() as int] == shape);
}

proof fn lemma_shapes_concat(
    left: Seq<Shape>,
    right: Seq<Shape>,
    count: nat,
    variables: spec_fn(Seq<char>) -> real,
)
    requires
        count <= right.len(),
    ensures
        shapes_sum(left + right, left.len() + count, variables) == shapes_sum(
            left,
            left.len(),
            variables,
        ) + shapes_sum(right, count, variables),
        shapes_product(left + right, left.len() + count, variables) == shapes_product(
            left,
            left.len(),
            variables,
        ) * shapes_product(right, count, variables),
    decreases count,
{
    if count == 0 {
        lemma_prefix(left, left + right, left.len(), variables);
        let product = shapes_product(left, left.len(), variables);
        assert(product * 1real == product) by (nonlinear_arith);
    } else {
        lemma_shapes_concat(left, right, (count - 1) as nat, variables);
        assert((left + right)[left.len() + count - 1] == right[count - 1]);
        let (a, b, c) = (
            shapes_product(left, left.len(), variables),
            shapes_product(right, (count - 1) as nat, variables),
            shape_value(right[count - 1], variables),
        );
        assert((a * b) * c == a * (b * c)) by (nonlinear_arith);
    }
}

/// Nothing over a positive denominator is nothing.
proof fn lemma_zero_ratio(value: (i64, i64), times: real)
    requires
        value.0 == 0,
        value.1 > 0,
    ensures
        ratio(value) == 0real,
        ratio(value) * times == 0real,
{
    let d = value.1 as real;
    assert(0real / d == 0real) by (nonlinear_arith)
        requires
            d > 0real,
    ;
    assert(0real * times == 0real) by (nonlinear_arith);
}

proof fn lemma_product_of_two(first: Shape, second: Shape, variables: spec_fn(Seq<char>) -> real)
    ensures
        shape_value(Shape::Product(seq![first, second]), variables) == shape_value(
            first,
            variables,
        ) * shape_value(second, variables),
{
    let both = seq![first, second];
    let a = shape_value(first, variables);
    assert(1real * a == a) by (nonlinear_arith);
    assert(shapes_product(both, 0, variables) == 1real);
    assert(both[0] == first && both[1] == second);
    assert(shapes_product(both, 1, variables) == 1real * a);
    assert(shapes_product(both, 2, variables) == a * shape_value(second, variables));
}

proof fn lemma_linear(
    coefficients: Seq<(i64, i64)>,
    names: Seq<Option<String>>,
    values: Seq<real>,
    count: nat,
    variables: spec_fn(Seq<char>) -> real,
)
    requires
        count <= coefficients.len(),
        count <= values.len(),
        forall|i: int| 0 <= i < count ==> (#[trigger] coefficients[i]).1 > 0,
        forall|i: int|
            0 <= i < count ==> #[trigger] is_named(names, i, variables, values[i]),
    ensures
        shapes_sum(
            linear_parts(coefficients, names, count),
            linear_parts(coefficients, names, count).len(),
            variables,
        ) == combined(coefficients, values, count),
    decreases count,
{
    if count > 0 {
        let before = linear_parts(coefficients, names, (count - 1) as nat);
        lemma_linear(coefficients, names, values, (count - 1) as nat, variables);
        let coefficient = coefficients[count - 1];
        assert(is_named(names, count - 1, variables, values[count - 1]));
        if coefficient.0 == 0 {
            lemma_zero_ratio(coefficient, values[count - 1]);
        } else {
            let name = Shape::Variable(dim_name(names, count - 1));
            let part = Shape::Product(seq![Shape::Number(coefficient), name]);
            lemma_product_of_two(Shape::Number(coefficient), name, variables);
            lemma_shapes_push(before, part, variables);
        }
    }
}

/// What an affine expression looks like has its value; where it is integral and
/// everything it speaks of is an integer, so is the value.
proof fn lemma_affine(
    affine: QuasiAffine,
    names: DimNames,
    params: Seq<real>,
    dims: Seq<real>,
    variables: spec_fn(Seq<char>) -> real,
)
    requires
        assigns(names, variables, params, dims),
        proper_affine(affine, names, params.len(), dims.len()),
        forall|i: int| 0 <= i < params.len() ==> is_whole(#[trigger] params[i]),
        forall|i: int| 0 <= i < dims.len() ==> is_whole(#[trigger] dims[i]),
    ensures
        shape_value(affine_shape(affine, names), variables) == affine_value(affine, params, dims),
        shape_value(floor_shape(affine, names), variables) == floored(
            affine_value(affine, params, dims),
        ),
    decreases affine, 1int, 0int,
{
    let first = constant_part(affine.constant);
    let second = linear_parts(affine.params@, names.params@, affine.params@.len());
    let third = linear_parts(affine.inputs@, names.inputs@, affine.inputs@.len());
    let fourth = div_parts(affine.divs, names, affine.divs@.len());
    assert forall|i: int| 0 <= i < affine.inputs@.len() implies #[trigger] is_named(
        names.inputs@,
        i,
        variables,
        dims[i],
    ) by {
        assert(affine.inputs@[i].1 > 0);
    }
    lemma_linear(affine.params@, names.params@, params, affine.params@.len(), variables);
    lemma_linear(affine.inputs@, names.inputs@, dims, affine.inputs@.len(), variables);
    lemma_divs(
        affine.divs,
        affine.divs@.len(),
        affine.integral,
        names,
        params,
        dims,
        variables,
    );
    reveal_with_fuel(shapes_sum, 2);
    if affine.constant.0 == 0 {
        lemma_zero_ratio(affine.constant, 1real);
        assert(shapes_sum(first, first.len(), variables) == 0real);
    } else {
        assert(first[0] == Shape::Number(affine.constant));
        assert(shapes_sum(first, first.len(), variables) == ratio(affine.constant));
    }
    lemma_shapes_concat(first, second, second.len(), variables);
    lemma_shapes_concat(first + second, third, third.len(), variables);
    lemma_shapes_concat(first + second + third, fourth, fourth.len(), variables);
    if affine.integral {
        lemma_whole_sum(affine.params@, params, affine.params@.len());
        lemma_whole_sum(affine.inputs@, dims, affine.inputs@.len());
        lemma_whole_ratio(affine.constant);
        lemma_whole_parts(
            ratio(affine.constant),
            combined(affine.params@, params, affine.params@.len()),
        );
        lemma_whole_parts(
            ratio(affine.constant) + combined(affine.params@, params, affine.params@.len()),
            combined(affine.inputs@, dims, affine.inputs@.len()),
        );
        lemma_whole_parts(
            ratio(affine.constant) + combined(affine.params@, params, affine.params@.len())
                + combined(affine.inputs@, dims, affine.inputs@.len()),
            quotients_value(affine.divs, affine.divs@.len(), params, dims),
        );
        assert(is_whole(affine_value(affine, params, dims)));
        lemma_floored_whole(affine_value(affine, params, dims));
        assert(floor_shape(affine, names) == affine_shape(affine, names));
    } else {
        let inner = affine_shape(affine, names);
        assert(floor_shape(affine, names) == Shape::Floor(Box::new(inner)));
        assert(shape_value(Shape::Floor(Box::new(inner)), variables) == floored(
            shape_value(inner, variables),
        ));
    }
}

proof fn lemma_divs(
    divs: Vec<QuasiDiv>,
    count: nat,
    integral: bool,
    names: DimNames,
    params: Seq<real>,
    dims: Seq<real>,
    variables: spec_fn(Seq<char>) -> real,
)
    requires
        count <= divs@.len(),
        assigns(names, variables, params, dims),
        proper_divs(divs, count, integral, names, params.len(), dims.len()),
        forall|i: int| 0 <= i < params.len() ==> is_whole(#[trigger] params[i]),
        forall|i: int| 0 <= i < dims.len() ==> is_whole(#[trigger] dims[i]),
    ensures
        shapes_sum(
            div_parts(divs, names, count),
            div_parts(divs, names, count).len(),
            variables,
        ) == quotients_value(divs, count, params, dims),
        integral ==> is_whole(quotients_value(divs, count, params, dims)),
    decreases divs, 0int, count,
{
    assert(whole(0) == 0real);
    if count > 0 {
        let before = div_parts(divs, names, (count - 1) as nat);
        let div = divs[count - 1];
        lemma_divs(divs, (count - 1) as nat, integral, names, params, dims, variables);
        lemma_affine(div.quotient, names, params, dims, variables);
        let value = floored(affine_value(div.quotient, params, dims));
        lemma_floored_whole(affine_value(div.quotient, params, dims));
        if div.coefficient.0 == 0 {
            lemma_zero_ratio(div.coefficient, value);
        } else {
            let inner = floor_shape(div.quotient, names);
            let part = Shape::Product(seq![Shape::Number(div.coefficient), inner]);
            lemma_product_of_two(Shape::Number(div.coefficient), inner, variables);
            lemma_shapes_push(before, part, variables);
        }
        if integral {
            lemma_whole_ratio(div.coefficient);
            lemma_whole_product(ratio(div.coefficient), value);
            lemma_whole_parts(
                quotients_value(divs, (count - 1) as nat, params, dims),
                ratio(div.coefficient) * value,
            );
        }
    }
}

proof fn lemma_whole_ratio(value: (i64, i64))
    requires
        value.1 == 1,
    ensures
        is_whole(ratio(value)),
{
    let n = value.0 as real;
    assert(n / 1real == n) by (nonlinear_arith);
    assert(ratio(value) == whole(value.0 as int));
}

proof fn lemma_whole_parts(left: real, right: real)
    requires
        is_whole(left),
        is_whole(right),
    ensures
        is_whole(left + right),
{
    let a = choose|a: int| left == #[trigger] whole(a);
    let b = choose|b: int| right == #[trigger] whole(b);
    assert(left + right == whole(a + b));
}

proof fn lemma_whole_product(left: real, right: real)
    requires
        is_whole(left),
        is_whole(right),
    ensures
        is_whole(left * right),
{
    let a = choose|a: int| left == #[trigger] whole(a);
    let b = choose|b: int| right == #[trigger] whole(b);
    assert((a * b) as real == (a as real) * (b as real)) by (nonlinear_arith);
    assert(left * right == whole(a * b));
}

proof fn lemma_whole_sum(coefficients: Seq<(i64, i64)>, values: Seq<real>, count: nat)
    requires
        count <= coefficients.len(),
        count <= values.len(),
        forall|i: int| 0 <= i < count ==> (#[trigger] coefficients[i]).1 == 1,
        forall|i: int| 0 <= i < count ==> is_whole(#[trigger] values[i]),
    ensures
        is_whole(combined(coefficients, values, count)),
    decreases count,
{
    assert(whole(0) == 0real);
    if count > 0 {
        lemma_whole_sum(coefficients, values, (count - 1) as nat);
        assert(coefficients[count - 1].1 == 1);
        lemma_whole_ratio(coefficients[count - 1]);
        lemma_whole_product(ratio(coefficients[count - 1]), values[count - 1]);
        lemma_whole_parts(
            combined(coefficients, values, (count - 1) as nat),
            ratio(coefficients[count - 1]) * values[count - 1],
        );
    }
}

proof fn lemma_params(
    exponents: Seq<i64>,
    names: Seq<Option<String>>,
    values: Seq<real>,
    count: nat,
    variables: spec_fn(Seq<char>) -> real,
)
    requires
        count <= exponents.len(),
        count <= values.len(),
        forall|i: int|
            0 <= i < count ==> #[trigger] is_named(names, i, variables, values[i]),
    ensures
        shapes_product(
            param_parts(exponents, names, count),
            param_parts(exponents, names, count).len(),
            variables,
        ) == raised(exponents, values, count),
    decreases count,
{
    if count > 0 {
        let before = param_parts(exponents, names, (count - 1) as nat);
        lemma_params(exponents, names, values, (count - 1) as nat, variables);
        assert(is_named(names, count - 1, variables, values[count - 1]));
        if exponents[count - 1] == 0 {
            let product = raised(exponents, values, (count - 1) as nat);
            assert(product * 1real == product) by (nonlinear_arith);
        } else {
            let part = Shape::Power(
                Box::new(Shape::Variable(dim_name(names, count - 1))),
                exponents[count - 1],
            );
            lemma_shapes_push(before, part, variables);
            reveal_with_fuel(shape_value, 2);
        }
    }
}

proof fn lemma_sets(
    exponents: Seq<i64>,
    names: DimNames,
    params: Seq<real>,
    dims: Seq<real>,
    count: nat,
    variables: spec_fn(Seq<char>) -> real,
)
    requires
        count <= exponents.len(),
        count <= dims.len(),
        assigns(names, variables, params, dims),
    ensures
        shapes_product(
            set_parts(exponents, names.inputs@, names.outputs@, count),
            set_parts(exponents, names.inputs@, names.outputs@, count).len(),
            variables,
        ) == raised(exponents, dims, count),
    decreases count,
{
    if count > 0 {
        let before = set_parts(exponents, names.inputs@, names.outputs@, (count - 1) as nat);
        lemma_sets(exponents, names, params, dims, (count - 1) as nat, variables);
        let name = term_name(names.inputs@, names.outputs@, count - 1);
        assert(is_named(names.inputs@, count - 1, variables, dims[count - 1]) || is_named(
            names.outputs@,
            count - 1,
            variables,
            dims[count - 1],
        ));
        if exponents[count - 1] == 0 {
            let product = raised(exponents, dims, (count - 1) as nat);
            assert(product * 1real == product) by (nonlinear_arith);
        } else {
            let part = Shape::Power(Box::new(Shape::Variable(name)), exponents[count - 1]);
            lemma_shapes_push(before, part, variables);
            reveal_with_fuel(shape_value, 2);
        }
    }
}

proof fn lemma_powers(
    divs: Seq<QuasiPower>,
    names: DimNames,
    params: Seq<real>,
    dims: Seq<real>,
    count: nat,
    variables: spec_fn(Seq<char>) -> real,
)
    requires
        count <= divs.len(),
        assigns(names, variables, params, dims),
        forall|i: int|
            0 <= i < divs.len() ==> (#[trigger] divs[i]).exponent >= 0 && proper_affine(
                divs[i].quotient,
                names,
                params.len(),
                dims.len(),
            ),
        forall|i: int| 0 <= i < params.len() ==> is_whole(#[trigger] params[i]),
        forall|i: int| 0 <= i < dims.len() ==> is_whole(#[trigger] dims[i]),
    ensures
        shapes_product(
            power_parts(divs, names, count),
            power_parts(divs, names, count).len(),
            variables,
        ) == quotients_raised(divs, params, dims, count),
    decreases count,
{
    if count > 0 {
        let before = power_parts(divs, names, (count - 1) as nat);
        lemma_powers(divs, names, params, dims, (count - 1) as nat, variables);
        assert(divs[count - 1].exponent >= 0);
        lemma_affine(divs[count - 1].quotient, names, params, dims, variables);
        if divs[count - 1].exponent == 0 {
            let product = quotients_raised(divs, params, dims, (count - 1) as nat);
            assert(product * 1real == product) by (nonlinear_arith);
        } else {
            let part = Shape::Power(
                Box::new(floor_shape(divs[count - 1].quotient, names)),
                divs[count - 1].exponent,
            );
            lemma_shapes_push(before, part, variables);
        }
    }
}

proof fn lemma_term(
    term: QuasiTerm,
    names: DimNames,
    params: Seq<real>,
    dims: Seq<real>,
    variables: spec_fn(Seq<char>) -> real,
)
    requires
        assigns(names, variables, params, dims),
        proper_term(term, names, params.len(), dims.len()),
        forall|i: int| 0 <= i < params.len() ==> is_whole(#[trigger] params[i]),
        forall|i: int| 0 <= i < dims.len() ==> is_whole(#[trigger] dims[i]),
    ensures
        shape_value(term_shape(term, names), variables) == quasi_term_value(term, params, dims),
{
    let first = seq![Shape::Number(term.coefficient)];
    let second = param_parts(term.params@, names.params@, term.params@.len());
    let third = set_parts(term.sets@, names.inputs@, names.outputs@, term.sets@.len());
    let fourth = power_parts(term.divs@, names, term.divs@.len());
    lemma_params(term.params@, names.params@, params, term.params@.len(), variables);
    lemma_sets(term.sets@, names, params, dims, term.sets@.len(), variables);
    lemma_powers(term.divs@, names, params, dims, term.divs@.len(), variables);
    reveal_with_fuel(shapes_product, 2);
    let a = ratio(term.coefficient);
    assert(first[0] == Shape::Number(term.coefficient));
    assert(1real * a == a) by (nonlinear_arith);
    assert(shapes_product(first, first.len(), variables) == a);
    lemma_shapes_concat(first, second, second.len(), variables);
    lemma_shapes_concat(first + second, third, third.len(), variables);
    lemma_shapes_concat(first + second + third, fourth, fourth.len(), variables);
}

/// The expression that a quasi-polynomial is written as has its value, at every
/// assignment of integers to the parameters and the dimensions: the sum over the
/// terms of the coefficient times every parameter, every dimension and every
/// quotient to its power, each quotient the floor of its affine expression.
pub proof fn law_written_quasi_polynomial_has_its_value(
    term: Term,
    numbers: Seq<(i64, i64)>,
    terms: Seq<QuasiTerm>,
    names: DimNames,
    variables: spec_fn(Seq<char>) -> real,
    params: Seq<real>,
    dims: Seq<real>,
)
    requires
        renders(term, quasi_shape(terms, names), numbers),
        well_assigned(terms, names, variables, params, dims),
    ensures
        written_value(term, numbers, variables) == quasi_value(terms, params, dims, terms.len()),
{
    lemma_written_shape(term, quasi_shape(terms, names), numbers, variables);
    lemma_terms(terms, names, variables, params, dims, terms.len());
}

proof fn lemma_terms(
    terms: Seq<QuasiTerm>,
    names: DimNames,
    variables: spec_fn(Seq<char>) -> real,
    params: Seq<real>,
    dims: Seq<real>,
    count: nat,
)
    requires
        count <= terms.len(),
        well_assigned(terms, names, variables, params, dims),
    ensures
        shapes_sum(
            terms.map_values(|term: QuasiTerm| term_shape(term, names)),
            count,
            variables,
        ) == quasi_value(terms, params, dims, count),
    decreases count,
{
    if count > 0 {
        lemma_terms(terms, names, variables, params, dims, (count - 1) as nat);
        assert(proper_term(terms[count - 1], names, params.len(), dims.len()));
        lemma_term(terms[count - 1], names, params, dims, variables);
    }
}

} // verus!
