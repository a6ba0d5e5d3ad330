//! Quasi-polynomials as expressions.

use autolala::expression::Term;
use autolala::quasi_poly::{
    convert_quasi_poly, DimNames, QuasiAffine, QuasiDiv, QuasiPower, QuasiTerm,
};

fn names(names: &[&str]) -> Vec<Option<String>> {
    names
        .iter()
        .map(|name| if name.is_empty() { None } else { Some(name.to_string()) })
        .collect()
}

fn space() -> DimNames {
    DimNames { params: names(&["N", ""]), inputs: names(&["i"]), outputs: names(&["o", "j"]) }
}

fn affine(params: &[(i64, i64)], inputs: &[(i64, i64)], constant: (i64, i64)) -> QuasiAffine {
    QuasiAffine {
        constant,
        params: params.to_vec(),
        inputs: inputs.to_vec(),
        divs: Vec::new(),
        integral: false,
    }
}

fn term(coefficient: (i64, i64), params: &[i64], sets: &[i64], divs: Vec<QuasiPower>) -> QuasiTerm {
    QuasiTerm { coefficient, params: params.to_vec(), sets: sets.to_vec(), divs }
}

/// An expression as text.
fn text(term: &Term, numbers: &[(i64, i64)]) -> String {
    let all = |terms: &[Term], between: &str| {
        terms.iter().map(|term| text(term, numbers)).collect::<Vec<_>>().join(between)
    };
    match term {
        Term::Number { at, power } => {
            let (numerator, denominator) = numbers[*at];
            if denominator == 1 && numerator.abs() <= 64 {
                assert_eq!(*power, Some(numerator as i32));
            } else {
                assert_eq!(*power, None);
            }
            if denominator == 1 { format!("{numerator}") } else { format!("{numerator}/{denominator}") }
        }
        Term::Variable { name } => name.clone(),
        Term::Call { name, args } => format!("{name}({})", all(args, ", ")),
        Term::Power { base, exponent } => {
            format!("{}^{}", text(base, numbers), text(exponent, numbers))
        }
        Term::Product(factors) => format!("[{}]", all(factors, " * ")),
        Term::Sum(terms) => format!("<{}>", all(terms, " + ")),
    }
}

fn rendered(terms: Vec<QuasiTerm>) -> String {
    let (expression, numbers) = convert_quasi_poly(&terms, &space());
    text(&expression, &numbers)
}

#[test]
fn terms_are_coefficients_times_powers() {
    assert_eq!(rendered(Vec::new()), "<>");
    assert_eq!(
        rendered(vec![
            term((-7, 1), &[], &[0, 0], Vec::new()),
            term((2, 3), &[2, 0], &[1, 65], Vec::new()),
        ]),
        "<[-7] + [2/3 * N^2 * i^1 * j^65]>"
    );
}

#[test]
fn dimensions_without_a_name_are_unnamed() {
    assert_eq!(rendered(vec![term((1, 1), &[0, 1], &[0, 0, 3], Vec::new())]),
        "<[1 * unnamed^1 * unnamed^3]>");
}

#[test]
fn quotients_are_floors() {
    // floor((i + 1) / 8): every value is divided already.
    let quotient = affine(&[(0, 1), (0, 1)], &[(1, 8)], (1, 8));
    let divs = vec![QuasiPower { exponent: 2, quotient }];
    assert_eq!(rendered(vec![term((3, 1), &[], &[], divs)]), "<[3 * floor(<1/8 + [1/8 * i]>)^2]>");
    let quotient = affine(&[(1, 8)], &[], (0, 1));
    let divs = vec![QuasiPower { exponent: 0, quotient }];
    assert_eq!(rendered(vec![term((3, 1), &[], &[], divs)]), "<[3]>");
}

#[test]
fn integral_quotients_have_no_floor() {
    let inner = affine(&[(1, 2)], &[], (0, 1));
    let mut quotient = affine(&[(2, 1)], &[(-1, 1)], (0, 1));
    quotient.divs = vec![
        QuasiDiv { coefficient: (0, 1), quotient: affine(&[(1, 5)], &[], (0, 1)) },
        QuasiDiv { coefficient: (5, 1), quotient: inner },
    ];
    quotient.integral = true;
    let divs = vec![QuasiPower { exponent: 1, quotient }];
    assert_eq!(
        rendered(vec![term((1, 1), &[], &[], divs)]),
        "<[1 * <[2 * N] + [-1 * i] + [5 * floor(<[1/2 * N]>)]>^1]>"
    );
}
