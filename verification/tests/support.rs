//! Equal reuse intervals.

use autolala::support::merge_intervals;

/// The support with the weights summed.
fn support(points: &[(i64, f64)]) -> Vec<(i64, f64)> {
    let intervals = points.iter().map(|point| point.0).collect();
    let mut start = 0;
    merge_intervals(&intervals)
        .into_iter()
        .map(|(interval, end)| {
            let weight = points[start..end].iter().map(|point| point.1).sum();
            start = end;
            (interval, weight)
        })
        .collect()
}

#[test]
fn equal_intervals_share_an_entry() {
    assert_eq!(
        support(&[(3, 0.25), (3, 0.25), (10, 0.5)]),
        vec![(0, 0.0), (3, 0.5), (10, 0.5)]
    );
}

#[test]
fn interval_zero_is_always_there() {
    assert_eq!(support(&[]), vec![(0, 0.0)]);
    assert_eq!(support(&[(0, 0.5), (0, 0.25), (1, 0.25)]), vec![(0, 0.75), (1, 0.25)]);
}

#[test]
fn weights_are_not_rescaled() {
    let total: f64 = support(&[(1, 0.25), (2, 0.125), (2, 0.125)]).iter().map(|p| p.1).sum();
    assert_eq!(total, 0.5);
}
