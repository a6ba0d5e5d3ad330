//! Reading programs and bindings.

use autolala::frontend::{extract_target, facts, parse_symbol_binding, Operation, TreeFacts};
use autolala::symbolic;
use autolala::tree::{AffineExpr, AffineMap, Tree, ValID};

fn operation(kind: &str, symbol: &str) -> Operation {
    Operation { kind: kind.to_string(), symbol: symbol.to_string() }
}

fn bound(value: i64) -> AffineMap {
    AffineMap { num_dims: 0, results: vec![AffineExpr::Constant(value)] }
}

#[test]
fn symbol_bindings_accept_both_spellings() {
    assert_eq!(parse_symbol_binding("s2=512").expect("parses"), (2, 512));
    assert_eq!(parse_symbol_binding("0 = 64").expect("parses"), (0, 64));
}

#[test]
fn malformed_symbol_bindings_are_rejected() {
    assert!(parse_symbol_binding("s0").is_err());
    assert!(parse_symbol_binding("sx=1").is_err());
    assert!(parse_symbol_binding("s0=abc").is_err());
}

#[test]
fn rejected_bindings_say_why() {
    let message = |text: &str| parse_symbol_binding(text).expect_err("malformed").message();
    assert_eq!(message("s0"), "symbol binding `s0` is not of the form `s<index>=<value>`");
    assert_eq!(message("sx=1"), "symbol binding `sx=1` has a non-numeric index `sx`");
    assert_eq!(message("s0= a"), "symbol binding `s0= a` has a non-integer value ` a`");
}

#[test]
fn binding_values_have_a_sign() {
    assert_eq!(parse_symbol_binding("ss1 = -9223372036854775808").expect("parses"), (1, i64::MIN));
    assert_eq!(parse_symbol_binding("1=+7").expect("parses"), (1, 7));
    assert!(parse_symbol_binding("1=9223372036854775808").is_err());
}

#[test]
fn parameters_are_bound_by_name() {
    let binding = symbolic::parse_symbol_binding(" p0 = 256").expect("parses");
    assert_eq!((binding.name.as_str(), binding.value), ("p0", 256));
    let form = symbolic::parse_symbol_binding("p0").expect_err("no value").message();
    assert_eq!(form, "expected NAME=VALUE, got `p0`");
    let value = symbolic::parse_symbol_binding("p0=x").expect_err("no integer").message();
    assert_eq!(value, "value of `p0` is not an integer: `x`");
}

#[test]
fn the_first_function_is_the_default_target() {
    let operations = vec![
        operation("memref.global", "\"g\""),
        operation("func.func", "\"f\""),
        operation("func.func", "\"h\""),
    ];
    assert_eq!(extract_target(&operations, None).expect("a function"), 1);
    assert_eq!(extract_target(&operations, Some("h")).expect("named"), 2);
}

#[test]
fn missing_functions_are_reported() {
    let operations = vec![operation("memref.global", "\"f\"")];
    let named = extract_target(&operations, Some("f")).expect_err("no function").message();
    assert_eq!(named, "no function named `f` in the module");
    let any = extract_target(&operations, None).expect_err("no function").message();
    assert_eq!(any, "the module contains no `func.func`");
}

#[test]
fn facts_count_symbols_and_depth() {
    let access = Tree::Access {
        site: 0,
        memref: ValID::Memref(0),
        map: bound(0),
        operands: vec![ValID::Symbol(4)],
        is_write: false,
    };
    let inner = Tree::For {
        lower_bound: bound(0),
        upper_bound: bound(2),
        lower_bound_operands: Vec::new(),
        upper_bound_operands: vec![ValID::Symbol(1)],
        step: 1,
        ivar: ValID::IVar(1),
        body: Box::new(access),
    };
    let outer = Tree::For {
        lower_bound: bound(0),
        upper_bound: bound(2),
        lower_bound_operands: Vec::new(),
        upper_bound_operands: Vec::new(),
        step: 1,
        ivar: ValID::IVar(0),
        body: Box::new(Tree::Block(vec![inner])),
    };
    assert_eq!(facts(&outer), TreeFacts { symbols: 5, max_depth: 1 });
    assert_eq!(facts(&Tree::Block(Vec::new())), TreeFacts { symbols: 0, max_depth: 0 });
}
