//! When a point belongs to a set, and what sums, quotients and digests are.

use crate::digest::{hex_digit, hex_text};
use crate::exact_sum::dot;
use crate::parallel::agreed;
use crate::polytope::{linear, quotients, Div, Polytope};
use vstd::arithmetic::power::{lemma_pow0, lemma_pow1, lemma_pow_adds, pow};
use vstd::prelude::*;

verus! {

/// A sum of products is the sum of all the products.
pub proof fn law_dot_adds_every_product(left: Seq<i64>, right: Seq<i64>, count: nat)
    requires
        count <= left.len(),
        count <= right.len(),
    ensures
        dot(left, right, count) == Seq::new(count, |i: int| left[i] * right[i]).fold_left(
            0int,
            |sum: int, product: int| sum + product,
        ),
    decreases count,
{
    reveal(Seq::fold_left);
    let products = Seq::new(count, |i: int| left[i] * right[i]);
    if count > 0 {
        law_dot_adds_every_product(left, right, (count - 1) as nat);
        assert(products.drop_last() =~= Seq::new((count - 1) as nat, |i: int| left[i] * right[i]));
    }
}

/// Every quotient is the floor of its expression, which speaks of the quotients
/// before it, over its denominator.
pub proof fn law_quotients_are_floors(divs: Seq<Div>, point: Seq<i64>, count: nat)
    requires
        count <= divs.len(),
        forall|i: int| 0 <= i < divs.len() ==> (#[trigger] divs[i]).denominator > 0,
        quotients(divs, point, count) is Some,
    ensures
        quotients(divs, point, count)->0.len() == count,
        forall|i: int|
            0 <= i < count ==> {
                let value = #[trigger] quotients(divs, point, count)->0[i];
                let whole = linear(
                    divs[i].constant,
                    divs[i].dim_coefficients@,
                    point,
                    divs[i].div_coefficients@,
                    quotients(divs, point, count)->0.take(i),
                );
                value * divs[i].denominator <= whole < (value + 1) * divs[i].denominator
            },
    decreases count,
{
    if count > 0 {
        let before = quotients(divs, point, (count - 1) as nat)->0;
        let values = quotients(divs, point, count)->0;
        law_quotients_are_floors(divs, point, (count - 1) as nat);
        assert forall|i: int| 0 <= i < count implies {
            let value = #[trigger] values[i];
            let whole = linear(
                divs[i].constant,
                divs[i].dim_coefficients@,
                point,
                divs[i].div_coefficients@,
                values.take(i),
            );
            value * divs[i].denominator <= whole < (value + 1) * divs[i].denominator
        } by {
            assert(divs[i].denominator > 0);
            if i < count - 1 {
                assert(values[i] == before[i]);
                assert(values.take(i) =~= before.take(i));
            } else {
                assert(values.take(i) =~= before);
                let whole = linear(
                    divs[i].constant,
                    divs[i].dim_coefficients@,
                    point,
                    divs[i].div_coefficients@,
                    before,
                );
                let (d, q, m) = (
                    divs[i].denominator as int,
                    whole / divs[i].denominator as int,
                    whole % divs[i].denominator as int,
                );
                vstd::arithmetic::div_mod::lemma_fundamental_div_mod(whole, d);
                assert(q * d <= whole < (q + 1) * d) by (nonlinear_arith)
                    requires
                        whole == d * q + m,
                        0 <= m < d,
                ;
            }
        }
    }
}

/// A point belongs to a set where it belongs to one of its pieces, as long as
/// every piece can tell.
pub proof fn law_set_is_the_union_of_its_pieces(set: Polytope, point: Seq<i64>, at: nat)
    requires
        forall|i: int| at <= i < set.pieces@.len() ==> (#[trigger] set.pieces@[i]).has(point) is Some,
    ensures
        set.has_from(point, at) is Some,
        set.has_from(point, at) == Some(true) <==> exists|i: int|
            at <= i < set.pieces@.len() && (#[trigger] set.pieces@[i]).has(point) == Some(true),
    decreases set.pieces@.len() - at,
{
    if at < set.pieces@.len() {
        assert(set.pieces@[at as int].has(point) is Some);
        if set.pieces@[at as int].has(point) == Some(false) {
            law_set_is_the_union_of_its_pieces(set, point, at + 1);
            if set.has_from(point, at) == Some(true) {
                let i = choose|i: int|
                    at + 1 <= i < set.pieces@.len() && (#[trigger] set.pieces@[i]).has(point)
                        == Some(true);
                assert(set.pieces@[i].has(point) == Some(true));
            }
        }
    }
}

/// Dimensions agree where they are all the same, and otherwise two of them that
/// differ are named.
pub proof fn law_dimensions_agree_where_they_are_the_same(found: Option<nat>, dims: Seq<nat>)
    ensures
        match agreed(found, dims) {
            Ok(Some(dim)) => {
                &&& found is Some || dims.len() > 0
                &&& found matches Some(first) ==> first == dim
                &&& forall|i: int| 0 <= i < dims.len() ==> #[trigger] dims[i] == dim
            },
            Ok(None) => found is None && dims.len() == 0,
            Err((one, other)) => {
                &&& one != other
                &&& dims.contains(other)
                &&& found == Some(one) || (found is None && dims.contains(one))
            },
        },
    decreases dims.len(),
{
    if dims.len() > 0 {
        let rest = dims.skip(1);
        let first = match found {
            Some(first) => first,
            None => dims[0],
        };
        if first == dims[0] {
            law_dimensions_agree_where_they_are_the_same(Some(first), rest);
            match agreed(found, dims) {
                Ok(Some(dim)) => {
                    assert forall|i: int| 0 <= i < dims.len() implies #[trigger] dims[i] == dim by {
                        if i > 0 {
                            assert(dims[i] == rest[i - 1]);
                        }
                    }
                },
                Ok(None) => {},
                Err((one, other)) => {
                    let i = rest.index_of(other);
                    assert(rest.contains(other));
                    assert(dims[i + 1] == other);
                    assert(dims[0] == first);
                },
            }
        } else {
            assert(dims[0] == dims[0]);
        }
    }
}

/// The value of a hexadecimal digit.
pub open spec fn hex_value(c: char) -> int {
    if '0' <= c <= '9' {
        c as int - '0' as int
    } else {
        c as int - 'a' as int + 10
    }
}

/// The number that a row of hexadecimal digits stands for.
pub open spec fn hex_numeral(text: Seq<char>) -> int
    decreases text.len(),
{
    if text.len() == 0 {
        0
    } else {
        hex_value(text[0]) * pow(16, (text.len() - 1) as nat) + hex_numeral(text.skip(1))
    }
}

proof fn lemma_hex_push(text: Seq<char>, c: char)
    ensures
        hex_numeral(text.push(c)) == 16 * hex_numeral(text) + hex_value(c),
    decreases text.len(),
{
    let longer = text.push(c);
    if text.len() == 0 {
        assert(longer.skip(1) =~= Seq::empty());
        lemma_pow0(16);
        assert(hex_numeral(longer.skip(1)) == 0);
        assert(hex_numeral(longer) == hex_value(c) * 1);
    } else {
        assert(longer.skip(1) =~= text.skip(1).push(c));
        lemma_hex_push(text.skip(1), c);
        let tens = pow(16, (text.len() - 1) as nat);
        lemma_pow_adds(16, 1, (text.len() - 1) as nat);
        lemma_pow1(16);
        let high = hex_value(text[0]);
        assert(pow(16, text.len()) == 16 * tens);
        assert(high * (16 * tens) == 16 * (high * tens)) by (nonlinear_arith);
    }
}

/// The hexadecimal digits of a number stand for its remainder by as many
/// sixteens; sixteen digits stand for the number.
pub proof fn law_hex_digits_stand_for_the_number(value: u64, count: nat)
    ensures
        hex_text(value, count).len() == count,
        forall|i: int|
            0 <= i < count ==> {
                let c = #[trigger] hex_text(value, count)[i];
                '0' <= c <= '9' || 'a' <= c <= 'f'
            },
        value < pow(16, count) ==> hex_numeral(hex_text(value, count)) == value,
    decreases count,
{
    lemma_pow0(16);
    if count > 0 {
        let front = hex_text(value / 16, (count - 1) as nat);
        let low = hex_digit(value as int % 16);
        law_hex_digits_stand_for_the_number(value / 16, (count - 1) as nat);
        lemma_hex_push(front, low);
        lemma_pow_adds(16, 1, (count - 1) as nat);
        lemma_pow1(16);
        assert(hex_value(low) == value as int % 16);
        let text = hex_text(value, count);
        assert forall|i: int| 0 <= i < count implies {
            let c = #[trigger] text[i];
            '0' <= c <= '9' || 'a' <= c <= 'f'
        } by {
            if i < count - 1 {
                assert(text[i] == front[i]);
            }
        }
    }
}

} // verus!
