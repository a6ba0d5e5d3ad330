//! Identity of cache blocks.

use autolala::address::{DataId, MemrefKey, MAX_ARRAY_DIMS};

#[test]
fn block_size_divides_only_the_innermost_dimension() {
    let a = DataId::new(MemrefKey(0), &[3, 8], 4).expect("fits");
    let b = DataId::new(MemrefKey(0), &[3, 11], 4).expect("fits");
    let c = DataId::new(MemrefKey(0), &[4, 8], 4).expect("fits");
    assert_eq!(a, b, "8 and 11 share block 2 of the same row");
    assert_ne!(a, c, "the outer dimension is never blocked");
}

#[test]
fn distinct_memrefs_never_alias() {
    let a = DataId::new(MemrefKey(0), &[1, 1], 1).expect("fits");
    let b = DataId::new(MemrefKey(1), &[1, 1], 1).expect("fits");
    assert_ne!(a, b);
}

#[test]
fn padding_keeps_ranks_apart() {
    let vector = DataId::new(MemrefKey(0), &[5], 1).expect("fits");
    let matrix = DataId::new(MemrefKey(0), &[0, 5], 1).expect("fits");
    assert_eq!(vector, matrix);
}

#[test]
fn negative_subscripts_floor_toward_negative_infinity() {
    let a = DataId::new(MemrefKey(0), &[0, -1], 4).expect("fits");
    let b = DataId::new(MemrefKey(0), &[0, -4], 4).expect("fits");
    let c = DataId::new(MemrefKey(0), &[0, 0], 4).expect("fits");
    assert_eq!(a.coords[MAX_ARRAY_DIMS - 1], -1);
    assert_eq!(b.coords[MAX_ARRAY_DIMS - 1], -1);
    assert_ne!(a, c);
}

#[test]
fn rank_beyond_the_cap_is_rejected() {
    assert!(DataId::new(MemrefKey(0), &[0; MAX_ARRAY_DIMS + 1], 1).is_none());
}

#[test]
fn set_index_uses_the_blocked_innermost_coordinate() {
    let datum = DataId::new(MemrefKey(0), &[7, 20], 4).expect("fits");
    // 20 / 4 = 5, and 5 mod 4 = 1.
    assert_eq!(datum.set_index(4), 1);
}

#[test]
fn coordinates_are_right_aligned() {
    let datum = DataId::new(MemrefKey(9), &[1, 2, 30], 8).expect("fits");
    assert_eq!(datum.memref, MemrefKey(9));
    assert_eq!(datum.coords, [0, 0, 0, 1, 2, 3]);
}

#[test]
fn a_scalar_has_zero_coordinates() {
    let datum = DataId::new(MemrefKey(1), &[], 64).expect("fits");
    assert_eq!(datum.coords, [0; MAX_ARRAY_DIMS]);
    assert_eq!(datum.set_index(7), 0);
}

#[test]
fn set_indices_of_negative_blocks_are_not_negative() {
    let datum = DataId::new(MemrefKey(0), &[-5], 4).expect("fits");
    assert_eq!(datum.coords[MAX_ARRAY_DIMS - 1], -2);
    assert_eq!(datum.set_index(8), 6);
}
