//! Markers on a timeline.

use autolala::reuse_distance::ReuseDistance;

#[test]
fn markers_are_counted() {
    let mut index = ReuseDistance::new();
    assert_eq!(index.capacity(), 1024);
    let slots: Vec<u32> = (0..10).map(|_| index.touch()).collect();
    assert_eq!(slots, (1..=10).collect::<Vec<_>>());
    assert_eq!(index.prefix(0), 0);
    assert_eq!(index.prefix(7), 7);
    assert_eq!(index.distance_from(4), 6);
    assert_eq!(index.prefix(7), 6);
    assert_eq!(index.distance_from(1), 8);
    assert_eq!(index.distance_from(10), 0);
}

#[test]
fn a_full_timeline_takes_no_marker() {
    let mut index = ReuseDistance::new();
    for _ in 0..1024 {
        assert!(index.touch() != u32::MAX);
    }
    assert!(index.needs_compaction());
    assert_eq!(index.touch(), u32::MAX);
    assert_eq!(index.prefix(1024), 1024);
}

#[test]
fn compaction_sorts_and_renumbers() {
    let mut index = ReuseDistance::new();
    for _ in 0..1024 {
        index.touch();
    }
    let mut slots: Vec<u32> = vec![900, 3, 512, 77];
    index.compact(&mut slots);
    assert_eq!(slots, vec![3, 77, 512, 900]);
    assert_eq!(index.capacity(), 1024);
    assert_eq!(index.prefix(4), 4);
    assert_eq!(index.prefix(1024), 4);
    assert!(!index.needs_compaction());
    assert_eq!(index.touch(), 5);
    let mut many: Vec<u32> = (1..=1000).rev().collect();
    index.compact(&mut many);
    assert_eq!(index.capacity(), 4000);
    assert_eq!(many[0], 1);
}

#[test]
fn adding_behind_the_end_changes_nothing() {
    let mut index = ReuseDistance::new();
    index.add(2000, 1);
    assert_eq!(index.prefix(1024), 0);
    index.add(5, 1);
    assert_eq!(index.prefix(4), 0);
    assert_eq!(index.prefix(5), 1);
    index.add(5, -1);
    assert_eq!(index.prefix(1024), 0);
}
