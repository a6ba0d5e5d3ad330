//! Evaluation of affine expressions.

use autolala::affine_eval::{
    eval_expr, eval_integer_set, eval_lower_bound, eval_map, eval_upper_bound, operand_value, Env,
};
use autolala::error::Error;
use autolala::tree::{AffineExpr, AffineMap, Constraint, IntegerSet, ValID};

fn constant(value: i64) -> Box<AffineExpr> {
    Box::new(AffineExpr::Constant(value))
}

fn map(num_dims: usize, results: Vec<AffineExpr>) -> AffineMap {
    AffineMap { num_dims, results }
}

#[test]
fn missing_symbol_binding_names_the_flag() {
    let env = Env::new(vec![10]);
    let message = env.symbol(3).expect_err("unbound").message();
    assert!(message.contains("--symbol s3="), "{message}");
    assert!(message.contains("declares 1 symbol"), "{message}");
}

#[test]
fn ivars_are_addressed_by_depth_and_shadow_in_place() {
    let mut env = Env::new(Vec::new());
    env.set_ivar(2, 7);
    assert_eq!(env.ivar(2).expect("set"), 7);
    assert_eq!(env.ivar(0).expect("resized"), 0);
    env.set_ivar(2, 9);
    assert_eq!(env.ivar(2).expect("set"), 9);
}

#[test]
fn memref_operands_are_rejected() {
    let env = Env::new(Vec::new());
    let operands = [ValID::Memref(0)];
    assert!(operand_value(&operands, 0, &env).is_err());
}

#[test]
fn symbols_follow_the_dimensions_in_the_operand_list() {
    let mut env = Env::new(vec![100, 200]);
    env.set_ivar(0, 3);
    assert_eq!(env.symbol_count(), 2);
    let operands = [ValID::IVar(0), ValID::Symbol(1)];
    let dim = AffineExpr::Dim(0);
    let symbol = AffineExpr::Symbol(0);
    assert_eq!(eval_expr(&dim, &operands, 1, &env).expect("set"), 3);
    assert_eq!(eval_expr(&symbol, &operands, 1, &env).expect("bound"), 200);
}

#[test]
fn quotients_and_remainders_are_floored() {
    let env = Env::new(Vec::new());
    let cases = [(7, 2, 1, 3, 4), (-7, 2, 1, -4, -3), (-8, 4, 0, -2, -2), (0, 5, 0, 0, 0)];
    for (l, r, remainder, floor, ceil) in cases {
        let modulus = AffineExpr::Mod(constant(l), constant(r));
        let down = AffineExpr::FloorDiv(constant(l), constant(r));
        let up = AffineExpr::CeilDiv(constant(l), constant(r));
        assert_eq!(eval_expr(&modulus, &[], 0, &env).expect("positive"), remainder);
        assert_eq!(eval_expr(&down, &[], 0, &env).expect("positive"), floor);
        assert_eq!(eval_expr(&up, &[], 0, &env).expect("positive"), ceil);
    }
}

#[test]
fn divisors_have_to_be_positive() {
    let env = Env::new(Vec::new());
    for divisor in [0, -3] {
        let expr = AffineExpr::FloorDiv(constant(4), constant(divisor));
        let error = eval_expr(&expr, &[], 0, &env).expect_err("not positive");
        assert!(matches!(error, Error::BadDivisor { divisor: d } if d == divisor));
        assert_eq!(
            error.message(),
            format!("affine mod/div requires a positive divisor, found {divisor}")
        );
    }
}

#[test]
fn sums_and_products_that_do_not_fit_are_errors() {
    let env = Env::new(Vec::new());
    let sum = AffineExpr::Add(constant(i64::MAX), constant(1));
    let product = AffineExpr::Mul(constant(i64::MAX), constant(-2));
    assert!(matches!(eval_expr(&sum, &[], 0, &env), Err(Error::Overflow)));
    assert!(matches!(eval_expr(&product, &[], 0, &env), Err(Error::Overflow)));
    let fits = AffineExpr::Add(constant(i64::MAX), constant(-1));
    assert_eq!(eval_expr(&fits, &[], 0, &env).expect("fits"), i64::MAX - 1);
}

#[test]
fn missing_operands_are_named() {
    let env = Env::new(Vec::new());
    let error = operand_value(&[], 2, &env).expect_err("out of range");
    assert_eq!(error.message(), "affine operand 2 is out of range (0 present)");
    let unset = operand_value(&[ValID::IVar(4)], 0, &env).expect_err("unset");
    assert_eq!(unset.message(), "induction variable i4 is not in scope");
    let array = operand_value(&[ValID::Memref(7)], 0, &env).expect_err("an array");
    assert_eq!(array.message(), "memref m7 cannot appear as an affine operand");
}

#[test]
fn bounds_are_the_maximum_and_the_minimum() {
    let mut env = Env::new(Vec::new());
    env.set_ivar(0, 5);
    let operands = [ValID::IVar(0)];
    let bounds = map(
        1,
        vec![AffineExpr::Constant(2), AffineExpr::Dim(0), AffineExpr::Constant(-1)],
    );
    assert_eq!(eval_lower_bound(&bounds, &operands, &env).expect("three"), 5);
    assert_eq!(eval_upper_bound(&bounds, &operands, &env).expect("three"), -1);
    let mut out = vec![99];
    eval_map(&bounds, &operands, &env, &mut out).expect("evaluates");
    assert_eq!(out, vec![2, 5, -1]);
}

#[test]
fn bounds_without_results_are_errors() {
    let env = Env::new(Vec::new());
    let none = map(0, Vec::new());
    assert!(matches!(eval_lower_bound(&none, &[], &env), Err(Error::EmptyLowerBound)));
    assert!(matches!(eval_upper_bound(&none, &[], &env), Err(Error::EmptyUpperBound)));
}

#[test]
fn the_first_condition_that_fails_decides() {
    let env = Env::new(Vec::new());
    let fails = Constraint { expr: AffineExpr::Constant(-1), equality: false };
    let broken = Constraint { expr: AffineExpr::Dim(0), equality: false };
    let set = IntegerSet { num_dims: 0, constraints: vec![fails, broken] };
    assert_eq!(eval_integer_set(&set, &[], &env).expect("decided early"), false);
    let zero = Constraint { expr: AffineExpr::Constant(0), equality: true };
    let set = IntegerSet { num_dims: 0, constraints: vec![zero] };
    assert_eq!(eval_integer_set(&set, &[], &env).expect("holds"), true);
    let broken = Constraint { expr: AffineExpr::Dim(0), equality: false };
    let set = IntegerSet { num_dims: 0, constraints: vec![broken] };
    assert!(eval_integer_set(&set, &[], &env).is_err());
}
