//! Integer points of unions of polytopes.

use autolala::polytope::{BasicPolytope, Div, LinearConstraint, Polytope};
use autolala::rational::{gcd, integer, lcm};

fn row(dims: &[i64], divs: &[i64], constant: i64, equality: bool) -> LinearConstraint {
    LinearConstraint {
        dim_coefficients: dims.to_vec(),
        div_coefficients: divs.to_vec(),
        constant,
        equality,
    }
}

fn basic(divs: Vec<Div>, constraints: Vec<LinearConstraint>) -> BasicPolytope {
    BasicPolytope { divs, constraints }
}

#[test]
fn triangles_hold_their_points() {
    let triangle = Polytope {
        dims: 2,
        lower: vec![0, 0],
        upper: vec![2, 2],
        pieces: vec![basic(vec![], vec![row(&[1, -1], &[], 0, false)])],
    };
    let points = triangle.for_each_point().expect("fits");
    assert_eq!(
        points,
        vec![vec![0, 0], vec![1, 0], vec![1, 1], vec![2, 0], vec![2, 1], vec![2, 2]]
    );
}

#[test]
fn quotients_select_residues() {
    // 2 * floor(x / 2) == x.
    let div = Div {
        dim_coefficients: vec![1],
        div_coefficients: vec![],
        constant: 0,
        denominator: 2,
    };
    let even = Polytope {
        dims: 1,
        lower: vec![-3],
        upper: vec![4],
        pieces: vec![basic(vec![div], vec![row(&[1], &[-2], 0, true)])],
    };
    let points = even.for_each_point().expect("fits");
    assert_eq!(points, vec![vec![-2], vec![0], vec![2], vec![4]]);
    assert_eq!(even.contains_point(&vec![3]), Some(false));
    assert_eq!(even.contains_point(&vec![-2]), Some(true));
}

#[test]
fn unions_hold_each_point_once() {
    let union = Polytope {
        dims: 1,
        lower: vec![0],
        upper: vec![5],
        pieces: vec![
            basic(vec![], vec![row(&[-1], &[], 2, false)]),
            basic(vec![], vec![row(&[1], &[], -2, false), row(&[-1], &[], 3, false)]),
        ],
    };
    assert_eq!(
        union.for_each_point().expect("fits"),
        vec![vec![0], vec![1], vec![2], vec![3]]
    );
}

#[test]
fn empty_boxes_have_no_point() {
    let empty = Polytope {
        dims: 2,
        lower: vec![0, 4],
        upper: vec![5, 3],
        pieces: vec![basic(vec![], vec![])],
    };
    assert_eq!(empty.for_each_point(), Some(vec![]));
    assert_eq!(empty.first_point(), None);
    let none = Polytope { dims: 0, lower: vec![], upper: vec![], pieces: vec![] };
    assert_eq!(none.for_each_point(), Some(vec![]));
    let unit = Polytope {
        dims: 0,
        lower: vec![],
        upper: vec![],
        pieces: vec![basic(vec![], vec![])],
    };
    assert_eq!(unit.for_each_point(), Some(vec![vec![]]));
}

#[test]
fn points_advance_like_an_odometer() {
    let polytope =
        Polytope { dims: 2, lower: vec![0, 1], upper: vec![1, 2], pieces: Vec::new() };
    let mut point = polytope.first_point().expect("not empty");
    assert_eq!(point, vec![0, 1]);
    assert!(polytope.advance(&mut point));
    assert_eq!(point, vec![0, 2]);
    assert!(polytope.advance(&mut point));
    assert_eq!(point, vec![1, 1]);
    assert!(polytope.advance(&mut point));
    assert!(!polytope.advance(&mut point));
}

#[test]
fn sums_of_more_than_64_bits_are_exact() {
    let wide = basic(vec![], vec![row(&[i64::MAX, i64::MAX], &[], -1, false)]);
    assert_eq!(wide.contains(&[i64::MAX, i64::MAX]), Some(true));
    assert_eq!(wide.contains(&[i64::MAX, i64::MIN]), Some(false));
}

#[test]
fn quotients_that_do_not_fit_are_refused() {
    let div = Div {
        dim_coefficients: vec![4],
        div_coefficients: vec![],
        constant: 0,
        denominator: 1,
    };
    assert_eq!(basic(vec![div], vec![]).contains(&[i64::MAX]), None);
}

#[test]
fn common_divisors_and_multiples() {
    assert_eq!(gcd(12, -18), 6);
    assert_eq!(gcd(0, 5), 5);
    assert_eq!(lcm(4, -6), Some(12));
    assert_eq!(lcm(i64::MAX, i64::MAX - 1), None);
}

#[test]
fn quotients_get_a_common_denominator() {
    let div = Div::from_rationals(&vec![(1, 2), (-2, 3), (5, 1)], 1, 1).expect("fits");
    assert_eq!(div.dim_coefficients, vec![3]);
    assert_eq!(div.div_coefficients, vec![-4]);
    assert_eq!((div.constant, div.denominator), (30, 6));
    assert!(Div::from_rationals(&vec![(i64::MAX, 1), (1, 2)], 1, 0).is_none());
}

#[test]
fn constraints_need_integers() {
    let constraint =
        LinearConstraint::from_rationals(&vec![(2, 1), (-3, 1), (5, 1)], 1, 1, true).expect("whole");
    assert_eq!(constraint.dim_coefficients, vec![2]);
    assert_eq!(constraint.div_coefficients, vec![-3]);
    assert_eq!((constraint.constant, constraint.equality), (5, true));
    let error = LinearConstraint::from_rationals(&vec![(2, 1), (-3, 2)], 1, 0, false)
        .expect_err("a fraction");
    assert_eq!(error.message(), "constraint coefficient -3/2 is not an integer");
    assert_eq!(integer(7, 1), Ok(7));
    assert!(integer(7, 7).is_err());
}
