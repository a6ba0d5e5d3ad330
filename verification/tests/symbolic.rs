//! Distributions over parameters.

use autolala::expression::{compile, Expr, Term};
use autolala::symbolic::{
    bound_dims, check_bindings, fix_params, lookup_value, outside_all, parse_symbol_binding,
    total_piece, Binding, PieceStep, Slots, SymbolicDistribution, SymbolicTotal,
    SymbolicTotalPiece, TotalShape,
};

fn bind(name: &str, value: i64) -> Binding {
    Binding { name: name.to_string(), value }
}

fn piece(expr: &str, domain: &str) -> SymbolicTotalPiece {
    SymbolicTotalPiece { expr: expr.to_string(), domain: domain.to_string() }
}

fn names(names: &[&str]) -> Vec<Option<String>> {
    names
        .iter()
        .map(|name| if name.is_empty() { None } else { Some(name.to_string()) })
        .collect()
}

#[test]
fn bindings_are_read() {
    let binding = parse_symbol_binding(" N = -12 ").expect("well formed");
    assert_eq!((binding.name.as_str(), binding.value), ("N", -12));
}

#[test]
fn bad_bindings_are_named() {
    let message = |text: &str| parse_symbol_binding(text).expect_err("bad").message();
    assert_eq!(message("N"), "expected NAME=VALUE, got `N`");
    assert_eq!(message("N=x"), "value of `N` is not an integer: `x`");
}

#[test]
fn the_last_binding_counts() {
    let bindings = vec![bind("N", 1), bind("M", 2), bind("N", 3)];
    assert_eq!(lookup_value(&bindings, &"N".to_string()), Some(3));
    assert_eq!(lookup_value(&bindings, &"K".to_string()), None);
}

#[test]
fn every_parameter_needs_a_value() {
    let dist = SymbolicDistribution {
        params: vec!["N".to_string(), "M".to_string()],
        total: SymbolicTotal { pieces: Vec::new() },
        items: Vec::new(),
    };
    assert!(check_bindings(&dist, &vec![bind("M", 1), bind("N", 1)]).is_ok());
    let error = check_bindings(&dist, &vec![bind("N", 1)]).expect_err("M");
    assert_eq!(error.message(), "parameter `M` has no value; pass `--symbol M=<int>`");
}

#[test]
fn parameters_are_fixed_from_the_last() {
    let bindings = vec![bind("N", 5), bind("M", -6)];
    assert_eq!(
        fix_params(&names(&["N", "M"]), &bindings).expect("complete"),
        vec![(1, -6), (0, 5)]
    );
    assert_eq!(fix_params(&names(&["N", "K", ""]), &bindings).expect("fits"), vec![(0, 5)]);
    let error = fix_params(&names(&["N"]), &vec![bind("N", 1 << 31)]).expect_err("32 bits");
    assert_eq!(error.message(), "parameter `N` does not fit isl's i32");
}

#[test]
fn slots_are_dense() {
    let mut slots = Slots::new();
    assert_eq!(slots.len(), 0);
    assert_eq!(slots.slot("N"), 0);
    assert_eq!(slots.slot("M"), 1);
    assert_eq!(slots.slot("N"), 0);
    assert_eq!(slots.len(), 2);
    assert_eq!(slots.by_name("M"), Some(1));
    assert_eq!(slots.by_name("K"), None);
}

#[test]
fn dimensions_are_bound_to_slots() {
    let mut slots = Slots::new();
    slots.slot("i");
    slots.slot("j");
    assert_eq!(bound_dims(&names(&["j", "", "k", "i"]), &slots), vec![(0, 1), (3, 0)]);
}

#[test]
fn a_point_outside_lists_the_domains() {
    let total = SymbolicTotal { pieces: vec![piece("N", "{ : N > 0 }"), piece("0", "{ : N = 0 }")] };
    assert_eq!(
        outside_all(&total).message(),
        "the parameter point lies outside the derivation's domain(s): { : N > 0 } | { : N = 0 }"
    );
}

#[test]
fn the_first_piece_that_is_not_empty_is_taken() {
    let total = SymbolicTotal { pieces: vec![piece("N", "a"), piece("0", "b"), piece("1", "c")] };
    let step = |empty: &[bool]| total_piece(&total, &empty.to_vec()).expect("inside");
    assert_eq!(step(&[]), PieceStep::Ask(0));
    assert_eq!(step(&[true]), PieceStep::Ask(1));
    assert_eq!(step(&[true, false]), PieceStep::Take(1));
    assert_eq!(step(&[false, true, false]), PieceStep::Take(0));
    let error = total_piece(&total, &vec![true, true, true]).expect_err("outside");
    assert_eq!(error.message(), outside_all(&total).message());
}

#[test]
fn a_single_total_is_one_piece() {
    let total = TotalShape::Single(piece("N", "D")).into_total();
    assert_eq!(total.pieces.len(), 1);
    assert_eq!((total.pieces[0].expr.as_str(), total.pieces[0].domain.as_str()), ("N", "D"));
    let pieces = vec![piece("1", "a"), piece("2", "b")];
    let total = TotalShape::Pieces { pieces }.into_total();
    assert_eq!(total.pieces.len(), 2);
    assert_eq!(total.pieces[1].expr, "2");
}

fn variable(name: &str) -> Term {
    Term::Variable { name: name.to_string() }
}

fn number(at: usize, power: Option<i32>) -> Term {
    Term::Number { at, power }
}

fn text_of(expr: &Expr) -> String {
    let all = |exprs: &Vec<Expr>| exprs.iter().map(text_of).collect::<Vec<_>>().join(" ");
    match expr {
        Expr::Num(at) => format!("#{at}"),
        Expr::Var(slot) => format!("@{slot}"),
        Expr::Floor(inner) => format!("floor({})", text_of(inner)),
        Expr::Pow(base, exponent) => format!("pow({} {})", text_of(base), text_of(exponent)),
        Expr::Powi(base, exponent) => format!("powi({} {exponent})", text_of(base)),
        Expr::Mul(factors) => format!("mul({})", all(factors)),
        Expr::Add(terms) => format!("add({})", all(terms)),
        Expr::Unsupported(what) => format!("!{what}"),
    }
}

#[test]
fn variables_get_places_as_they_occur() {
    let mut slots = Slots::new();
    slots.slot("p1");
    // p0^2 + 3 * floor(p1 * p0) + p2^p0
    let term = Term::Sum(vec![
        Term::Power { base: Box::new(variable("p0")), exponent: Box::new(number(0, Some(2))) },
        Term::Product(vec![
            number(1, Some(3)),
            Term::Call {
                name: "floor".to_string(),
                args: vec![Term::Product(vec![variable("p1"), variable("p0")])],
            },
        ]),
        Term::Power { base: Box::new(variable("p2")), exponent: Box::new(variable("p0")) },
    ]);
    let expr = compile(&term, &mut slots);
    assert_eq!(
        text_of(&expr),
        "add(powi(@1 2) mul(#1 floor(mul(@0 @1))) pow(@2 @1))"
    );
    assert_eq!(slots.len(), 3);
    assert_eq!(slots.by_name("p2"), Some(2));
}

#[test]
fn large_exponents_are_general_powers() {
    let mut slots = Slots::new();
    let term = Term::Power {
        base: Box::new(variable("x")),
        exponent: Box::new(number(7, None)),
    };
    assert_eq!(text_of(&compile(&term, &mut slots)), "pow(@0 #7)");
}

#[test]
fn other_functions_are_not_supported() {
    let mut slots = Slots::new();
    let call = |name: &str, args: Vec<Term>| Term::Call { name: name.to_string(), args };
    let expr = compile(&call("sin", vec![variable("x")]), &mut slots);
    assert_eq!(text_of(&expr), "!function `sin` with 1 argument(s)");
    let expr = compile(&call("floor", vec![variable("x"), variable("y")]), &mut slots);
    assert_eq!(text_of(&expr), "!function `floor` with 2 argument(s)");
    assert_eq!(slots.len(), 0);
}

/// The value of an expression as it is written.
fn term_value(term: &Term, numbers: &[i64], variable: &dyn Fn(&str) -> i64) -> i64 {
    let at = |term: &Term| term_value(term, numbers, variable);
    match term {
        Term::Number { at, .. } => numbers[*at],
        Term::Variable { name } => variable(name),
        Term::Call { args, .. } => at(&args[0]),
        Term::Power { base, exponent } => at(base).pow(at(exponent) as u32),
        Term::Product(terms) => terms.iter().map(at).product(),
        Term::Sum(terms) => terms.iter().map(at).sum(),
    }
}

/// The value of an expression over places.
fn expr_value(expr: &Expr, numbers: &[i64], env: &[i64]) -> i64 {
    let at = |expr: &Expr| expr_value(expr, numbers, env);
    match expr {
        Expr::Num(at) => numbers[*at],
        Expr::Var(slot) => env[*slot],
        Expr::Floor(inner) => at(inner),
        Expr::Pow(base, exponent) => at(base).pow(at(exponent) as u32),
        Expr::Powi(base, exponent) => at(base).pow(*exponent as u32),
        Expr::Mul(factors) => factors.iter().map(at).product(),
        Expr::Add(terms) => terms.iter().map(at).sum(),
        Expr::Unsupported(what) => panic!("{what}"),
    }
}

#[test]
fn places_keep_the_value() {
    let term = Term::Sum(vec![
        Term::Power { base: Box::new(variable("b")), exponent: Box::new(number(0, Some(3))) },
        Term::Product(vec![variable("a"), number(1, None), variable("b")]),
        Term::Power { base: Box::new(number(1, None)), exponent: Box::new(variable("a")) },
    ]);
    let numbers = [3, 7];
    let values = |name: &str| if name == "a" { 2 } else { 5 };
    let mut slots = Slots::new();
    let expr = compile(&term, &mut slots);
    let mut env = vec![0; slots.len()];
    for name in ["a", "b"] {
        env[slots.by_name(name).expect("mentioned")] = values(name);
    }
    assert_eq!(expr_value(&expr, &numbers, &env), 125 + 70 + 49);
    assert_eq!(expr_value(&expr, &numbers, &env), term_value(&term, &numbers, &values));
}
