//! Expressions over places: the variables of a count or an interval are looked
//! up once, and a point is then evaluated without any name.

use crate::symbolic::Slots;
use crate::text::{chars_of, decimal, push_decimal, same_text};
use vstd::prelude::*;

verus! {

broadcast use vstd::std_specs::vec::axiom_vec_index_decreases;

/// An expression as it is written. Numbers are listed elsewhere and stand here
/// by their positions.
#[derive(Debug)]
pub enum Term {
    /// The number at a position of the list, and its value where it is an
    /// integer that is small enough for repeated multiplication.
    Number { at: usize, power: Option<i32> },
    /// A variable.
    Variable { name: String },
    /// A function of some arguments.
    Call { name: String, args: Vec<Term> },
    /// A base and an exponent.
    Power { base: Box<Term>, exponent: Box<Term> },
    Product(Vec<Term>),
    Sum(Vec<Term>),
}

/// An expression over places.
#[derive(Debug)]
pub enum Expr {
    /// The number at a position of the list.
    Num(usize),
    /// The value at a place.
    Var(usize),
    Floor(Box<Expr>),
    Pow(Box<Expr>, Box<Expr>),
    /// A small integer power.
    Powi(Box<Expr>, i32),
    Mul(Vec<Expr>),
    Add(Vec<Expr>),
    /// A function that cannot be evaluated.
    Unsupported(String),
}

/// The function is the floor of one argument.
pub open spec fn is_floor(name: Seq<char>, args: int) -> bool {
    name == "floor"@ && args == 1
}

/// The exponent, where it is a small integer.
pub open spec fn small_power(exponent: Term) -> Option<i32> {
    match exponent {
        Term::Number { power, .. } => power,
        _ => None,
    }
}

/// The names after a variable was given a place.
pub open spec fn with_name(names: Seq<Seq<char>>, name: Seq<char>) -> Seq<Seq<char>> {
    if names.contains(name) {
        names
    } else {
        names.push(name)
    }
}

/// The names that have places after an expression was read: its variables get
/// theirs in the order in which they occur.
pub open spec fn placed(term: Term, names: Seq<Seq<char>>) -> Seq<Seq<char>>
    decreases term, 0int,
{
    match term {
        Term::Number { .. } => names,
        Term::Variable { name } => with_name(names, name@),
        Term::Call { name, args } => if is_floor(name@, args@.len() as int) {
            placed(args[0], names)
        } else {
            names
        },
        Term::Power { base, exponent } => {
            let first = placed(*base, names);
            if small_power(*exponent) is Some {
                first
            } else {
                placed(*exponent, first)
            }
        },
        Term::Product(terms) => placed_from(terms, 0, names),
        Term::Sum(terms) => placed_from(terms, 0, names),
    }
}

/// The names that have places after the terms of a list from a position on.
pub open spec fn placed_from(terms: Vec<Term>, at: nat, names: Seq<Seq<char>>) -> Seq<Seq<char>>
    decreases terms, terms@.len() - at,
{
    if at >= terms@.len() {
        names
    } else {
        placed_from(terms, at + 1, placed(terms[at as int], names))
    }
}

/// The message for a function that cannot be evaluated.
pub open spec fn unsupported_text(name: Seq<char>, args: nat) -> Seq<char> {
    "function `"@ + name + "` with "@ + decimal(args) + " argument(s)"@
}

/// An expression over places stands for one that is written.
pub open spec fn stands_for(expr: Expr, term: Term, names: Seq<Seq<char>>) -> bool
    decreases term,
{
    match term {
        Term::Number { at, .. } => expr == Expr::Num(at),
        Term::Variable { name } => expr matches Expr::Var(slot) && slot < names.len()
            && names[slot as int] == name@,
        Term::Call { name, args } => if is_floor(name@, args@.len() as int) {
            expr matches Expr::Floor(inner) && stands_for(*inner, args[0], names)
        } else {
            expr matches Expr::Unsupported(text) && text@ == unsupported_text(name@, args@.len())
        },
        Term::Power { base, exponent } => match small_power(*exponent) {
            Some(power) => expr matches Expr::Powi(inner, found) && found == power && stands_for(
                *inner,
                *base,
                names,
            ),
            None => expr matches Expr::Pow(inner, outer) && stands_for(*inner, *base, names)
                && stands_for(*outer, *exponent, names),
        },
        Term::Product(terms) => expr matches Expr::Mul(exprs) && exprs@.len() == terms@.len()
            && forall|i: int|
            0 <= i < terms@.len() ==> stands_for(exprs@[i], #[trigger] terms[i], names),
        Term::Sum(terms) => expr matches Expr::Add(exprs) && exprs@.len() == terms@.len()
            && forall|i: int|
            0 <= i < terms@.len() ==> stands_for(exprs@[i], #[trigger] terms[i], names),
    }
}

/// Places that were given stay.
proof fn lemma_placed_grows(term: Term, names: Seq<Seq<char>>)
    ensures
        names.is_prefix_of(placed(term, names)),
    decreases term, 0int,
{
    match term {
        Term::Number { .. } => {},
        Term::Variable { name } => {},
        Term::Call { name, args } => {
            if is_floor(name@, args@.len() as int) {
                lemma_placed_grows(args[0], names);
            }
        },
        Term::Power { base, exponent } => {
            lemma_placed_grows(*base, names);
            lemma_placed_grows(*exponent, placed(*base, names));
        },
        Term::Product(terms) => {
            lemma_list_grows(terms, 0, names);
        },
        Term::Sum(terms) => {
            lemma_list_grows(terms, 0, names);
        },
    }
}

proof fn lemma_list_grows(terms: Vec<Term>, at: nat, names: Seq<Seq<char>>)
    ensures
        names.is_prefix_of(placed_from(terms, at, names)),
    decreases terms, terms@.len() - at,
{
    if at < terms@.len() {
        lemma_placed_grows(terms[at as int], names);
        lemma_list_grows(terms, at + 1, placed(terms[at as int], names));
    }
}

/// More places do not change what an expression stands for.
proof fn lemma_more_places(expr: Expr, term: Term, names: Seq<Seq<char>>, more: Seq<Seq<char>>)
    requires
        stands_for(expr, term, names),
        names.is_prefix_of(more),
    ensures
        stands_for(expr, term, more),
    decreases term,
{
    match term {
        Term::Number { .. } => {},
        Term::Variable { name } => {},
        Term::Call { name, args } => {
            if is_floor(name@, args@.len() as int) {
                lemma_more_places(*(expr->Floor_0), args[0], names, more);
            }
        },
        Term::Power { base, exponent } => {
            if small_power(*exponent) is Some {
                lemma_more_places(*(expr->Powi_0), *base, names, more);
            } else {
                lemma_more_places(*(expr->Pow_0), *base, names, more);
                lemma_more_places(*(expr->Pow_1), *exponent, names, more);
            }
        },
        Term::Product(terms) => {
            let exprs = expr->Mul_0;
            assert forall|i: int| 0 <= i < terms@.len() implies stands_for(
                exprs@[i],
                #[trigger] terms[i],
                more,
            ) by {
                lemma_more_places(exprs@[i], terms[i], names, more);
            }
        },
        Term::Sum(terms) => {
            let exprs = expr->Add_0;
            assert forall|i: int| 0 <= i < terms@.len() implies stands_for(
                exprs@[i],
                #[trigger] terms[i],
                more,
            ) by {
                lemma_more_places(exprs@[i], terms[i], names, more);
            }
        },
    }
}

fn unsupported(name: &String, args: usize) -> (expr: Expr)
    ensures
        expr matches Expr::Unsupported(text) && text@ == unsupported_text(name@, args as nat),
{
    let mut text: String = String::new();
    text.push_str("function `");
    text.push_str(name.as_str());
    text.push_str("` with ");
    push_decimal(&mut text, args as u64);
    text.push_str(" argument(s)");
    assert(text@ =~= unsupported_text(name@, args as nat));
    Expr::Unsupported(text)
}

/// Puts an expression over places, giving its variables places as they occur.
pub fn compile(term: &Term, slots: &mut Slots) -> (expr: Expr)
    requires
        old(slots).wf(),
    ensures
        final(slots).wf(),
        final(slots).names() == placed(*term, old(slots).names()),
        stands_for(expr, *term, final(slots).names()),
    decreases *term, 0int,
{
    match term {
        Term::Number { at, .. } => Expr::Num(*at),
        Term::Variable { name } => Expr::Var(slots.slot(name.as_str())),
        Term::Call { name, args } => {
            let floor: bool = same_text(&chars_of(name.as_str()), &chars_of("floor"));
            if floor && args.len() == 1 {
                assert(decreases_to!(*term => term->args));
                assert(decreases_to!(*args => args@[0]));
                Expr::Floor(Box::new(compile(&args[0], slots)))
            } else {
                unsupported(name, args.len())
            }
        },
        Term::Power { base, exponent } => {
            let inner: Box<Expr> = Box::new(compile(base, slots));
            let ghost between = slots.names();
            let power: Option<i32> = match &**exponent {
                Term::Number { power, .. } => *power,
                _ => None,
            };
            match power {
                Some(power) => Expr::Powi(inner, power),
                None => {
                    let outer: Box<Expr> = Box::new(compile(exponent, slots));
                    proof {
                        lemma_placed_grows(**exponent, between);
                        lemma_more_places(*inner, **base, between, slots.names());
                    }
                    Expr::Pow(inner, outer)
                },
            }
        },
        Term::Product(terms) => {
            assert(decreases_to!(*term => term->Product_0));
            Expr::Mul(compile_all(terms, slots))
        },
        Term::Sum(terms) => {
            assert(decreases_to!(*term => term->Sum_0));
            Expr::Add(compile_all(terms, slots))
        },
    }
}

fn compile_all(terms: &Vec<Term>, slots: &mut Slots) -> (exprs: Vec<Expr>)
    requires
        old(slots).wf(),
    ensures
        final(slots).wf(),
        final(slots).names() == placed_from(*terms, 0, old(slots).names()),
        exprs@.len() == terms@.len(),
        forall|i: int|
            0 <= i < terms@.len() ==> stands_for(
                exprs@[i],
                #[trigger] terms[i],
                final(slots).names(),
            ),
    decreases *terms, 1int,
{
    let ghost before = slots.names();
    let mut exprs: Vec<Expr> = Vec::new();
    let mut at: usize = 0;
    while at < terms.len()
        invariant
            at <= terms@.len(),
            exprs@.len() == at,
            slots.wf(),
            placed_from(*terms, 0, before) == placed_from(*terms, at as nat, slots.names()),
            forall|i: int|
                0 <= i < at ==> stands_for(exprs@[i], #[trigger] terms[i], slots.names()),
        decreases terms@.len() - at,
    {
        let ghost earlier = slots.names();
        let ghost done = exprs@;
        assert(decreases_to!(*terms => terms@[at as int]));
        let expr: Expr = compile(&terms[at], slots);
        exprs.push(expr);
        proof {
            lemma_placed_grows(terms[at as int], earlier);
            assert forall|i: int| 0 <= i <= at implies stands_for(
                exprs@[i],
                #[trigger] terms[i],
                slots.names(),
            ) by {
                if i < at {
                    assert(exprs@[i] == done[i]);
                    lemma_more_places(done[i], terms[i], earlier, slots.names());
                }
            }
        }
        at += 1;
    }
    exprs
}

/// How numbers, powers and floors are computed.
pub ghost struct Arithmetic {
    pub numbers: Seq<int>,
    pub power: spec_fn(int, int) -> int,
    pub floor: spec_fn(int) -> int,
}

/// The value of a written expression.
pub open spec fn term_value(term: Term, variables: spec_fn(Seq<char>) -> int, by: Arithmetic) -> int
    decreases term, 0int,
{
    match term {
        Term::Number { at, .. } => by.numbers[at as int],
        Term::Variable { name } => variables(name@),
        Term::Call { name, args } => if is_floor(name@, args@.len() as int) {
            (by.floor)(term_value(args[0], variables, by))
        } else {
            0
        },
        Term::Power { base, exponent } => (by.power)(
            term_value(*base, variables, by),
            term_value(*exponent, variables, by),
        ),
        Term::Product(terms) => term_product(terms, 0, variables, by),
        Term::Sum(terms) => term_sum(terms, 0, variables, by),
    }
}

pub open spec fn term_product(
    terms: Vec<Term>,
    at: nat,
    variables: spec_fn(Seq<char>) -> int,
    by: Arithmetic,
) -> int
    decreases terms, terms@.len() - at,
{
    if at >= terms@.len() {
        1
    } else {
        term_value(terms[at as int], variables, by) * term_product(terms, at + 1, variables, by)
    }
}

pub open spec fn term_sum(
    terms: Vec<Term>,
    at: nat,
    variables: spec_fn(Seq<char>) -> int,
    by: Arithmetic,
) -> int
    decreases terms, terms@.len() - at,
{
    if at >= terms@.len() {
        0
    } else {
        term_value(terms[at as int], variables, by) + term_sum(terms, at + 1, variables, by)
    }
}

/// The value of an expression over places, `None` where a function cannot be
/// evaluated.
pub open spec fn expr_at(expr: Expr, env: Seq<int>, by: Arithmetic) -> Option<int>
    decreases expr, 0int,
{
    match expr {
        Expr::Num(at) => Some(by.numbers[at as int]),
        Expr::Var(slot) => Some(env[slot as int]),
        Expr::Floor(inner) => match expr_at(*inner, env, by) {
            Some(value) => Some((by.floor)(value)),
            None => None,
        },
        Expr::Pow(base, exponent) => match (expr_at(*base, env, by), expr_at(*exponent, env, by)) {
            (Some(base), Some(exponent)) => Some((by.power)(base, exponent)),
            _ => None,
        },
        Expr::Powi(base, exponent) => match expr_at(*base, env, by) {
            Some(base) => Some((by.power)(base, exponent as int)),
            None => None,
        },
        Expr::Mul(exprs) => expr_product(exprs, 0, env, by),
        Expr::Add(exprs) => expr_sum(exprs, 0, env, by),
        Expr::Unsupported(_) => None,
    }
}

pub open spec fn expr_product(exprs: Vec<Expr>, at: nat, env: Seq<int>, by: Arithmetic) -> Option<int>
    decreases exprs, exprs@.len() - at,
{
    if at >= exprs@.len() {
        Some(1)
    } else {
        match (expr_at(exprs[at as int], env, by), expr_product(exprs, at + 1, env, by)) {
            (Some(first), Some(rest)) => Some(first * rest),
            _ => None,
        }
    }
}

pub open spec fn expr_sum(exprs: Vec<Expr>, at: nat, env: Seq<int>, by: Arithmetic) -> Option<int>
    decreases exprs, exprs@.len() - at,
{
    if at >= exprs@.len() {
        Some(0)
    } else {
        match (expr_at(exprs[at as int], env, by), expr_sum(exprs, at + 1, env, by)) {
            (Some(first), Some(rest)) => Some(first + rest),
            _ => None,
        }
    }
}

/// The small powers are the numbers that they are listed as.
pub open spec fn powers_are_numbers(term: Term, by: Arithmetic) -> bool
    decreases term,
{
    match term {
        Term::Number { at, power } => power matches Some(power) ==> by.numbers[at as int] == power,
        Term::Variable { .. } => true,
        Term::Call { args, .. } => forall|i: int|
            0 <= i < args@.len() ==> powers_are_numbers(#[trigger] args[i], by),
        Term::Power { base, exponent } => powers_are_numbers(*base, by) && powers_are_numbers(
            *exponent,
            by,
        ),
        Term::Product(terms) => forall|i: int|
            0 <= i < terms@.len() ==> powers_are_numbers(#[trigger] terms[i], by),
        Term::Sum(terms) => forall|i: int|
            0 <= i < terms@.len() ==> powers_are_numbers(#[trigger] terms[i], by),
    }
}

/// An expression over places has the value of the written one, wherever it has
/// a value at all.
pub proof fn law_places_keep_the_value(
    expr: Expr,
    term: Term,
    names: Seq<Seq<char>>,
    variables: spec_fn(Seq<char>) -> int,
    env: Seq<int>,
    by: Arithmetic,
)
    requires
        stands_for(expr, term, names),
        powers_are_numbers(term, by),
        env.len() == names.len(),
        forall|i: int| 0 <= i < names.len() ==> #[trigger] env[i] == variables(names[i]),
    ensures
        expr_at(expr, env, by) matches Some(value) ==> value == term_value(term, variables, by),
    decreases term, 0int,
{
    match term {
        Term::Number { .. } => {},
        Term::Variable { name } => {
            let slot = expr->Var_0;
            assert(env[slot as int] == variables(names[slot as int]));
        },
        Term::Call { name, args } => {
            if is_floor(name@, args@.len() as int) {
                assert(powers_are_numbers(args[0], by));
                law_places_keep_the_value(*(expr->Floor_0), args[0], names, variables, env, by);
            }
        },
        Term::Power { base, exponent } => {
            match small_power(*exponent) {
                Some(power) => {
                    law_places_keep_the_value(*(expr->Powi_0), *base, names, variables, env, by);
                    assert(powers_are_numbers(*exponent, by));
                    if let Term::Number { at, .. } = *exponent {
                        assert(term_value(*exponent, variables, by) == by.numbers[at as int]);
                    }
                },
                None => {
                    law_places_keep_the_value(*(expr->Pow_0), *base, names, variables, env, by);
                    law_places_keep_the_value(
                        *(expr->Pow_1),
                        *exponent,
                        names,
                        variables,
                        env,
                        by,
                    );
                },
            }
        },
        Term::Product(terms) => {
            lemma_products_agree(expr->Mul_0, terms, 0, names, variables, env, by);
        },
        Term::Sum(terms) => {
            lemma_sums_agree(expr->Add_0, terms, 0, names, variables, env, by);
        },
    }
}

proof fn lemma_products_agree(
    exprs: Vec<Expr>,
    terms: Vec<Term>,
    at: nat,
    names: Seq<Seq<char>>,
    variables: spec_fn(Seq<char>) -> int,
    env: Seq<int>,
    by: Arithmetic,
)
    requires
        exprs@.len() == terms@.len(),
        forall|i: int|
            0 <= i < terms@.len() ==> stands_for(exprs@[i], #[trigger] terms[i], names),
        forall|i: int| 0 <= i < terms@.len() ==> powers_are_numbers(#[trigger] terms[i], by),
        env.len() == names.len(),
        forall|i: int| 0 <= i < names.len() ==> #[trigger] env[i] == variables(names[i]),
    ensures
        expr_product(exprs, at, env, by) matches Some(value) ==> value == term_product(
            terms,
            at,
            variables,
            by,
        ),
    decreases terms, terms@.len() - at,
{
    if at < terms@.len() {
        assert(stands_for(exprs@[at as int], terms[at as int], names));
        assert(powers_are_numbers(terms[at as int], by));
        law_places_keep_the_value(
            exprs@[at as int],
            terms[at as int],
            names,
            variables,
            env,
            by,
        );
        lemma_products_agree(exprs, terms, at + 1, names, variables, env, by);
    }
}

proof fn lemma_sums_agree(
    exprs: Vec<Expr>,
    terms: Vec<Term>,
    at: nat,
    names: Seq<Seq<char>>,
    variables: spec_fn(Seq<char>) -> int,
    env: Seq<int>,
    by: Arithmetic,
)
    requires
        exprs@.len() == terms@.len(),
        forall|i: int|
            0 <= i < terms@.len() ==> stands_for(exprs@[i], #[trigger] terms[i], names),
        forall|i: int| 0 <= i < terms@.len() ==> powers_are_numbers(#[trigger] terms[i], by),
        env.len() == names.len(),
        forall|i: int| 0 <= i < names.len() ==> #[trigger] env[i] == variables(names[i]),
    ensures
        expr_sum(exprs, at, env, by) matches Some(value) ==> value == term_sum(
            terms,
            at,
            variables,
            by,
        ),
    decreases terms, terms@.len() - at,
{
    if at < terms@.len() {
        assert(stands_for(exprs@[at as int], terms[at as int], names));
        assert(powers_are_numbers(terms[at as int], by));
        law_places_keep_the_value(
            exprs@[at as int],
            terms[at as int],
            names,
            variables,
            env,
            by,
        );
        lemma_sums_agree(exprs, terms, at + 1, names, variables, env, by);
    }
}

} // verus!
