//! The cache simulator's configuration and output.

use autolala::cachegrind::{
    associativity_of, cache_flag, cache_sizes, check_cache_geometry, geometry_message, hash_blocks_fit, parse_summary,
    power_of_two, GeometryError, Summary,
};

#[test]
fn geometry_needs_a_power_of_two_of_sets() {
    assert!(check_cache_geometry(32768, 8, 64).is_ok());
    assert!(check_cache_geometry(64, 1, 64).is_ok());
    assert_eq!(check_cache_geometry(3 * 64, 1, 64), Err(GeometryError::SetCount));
    assert_eq!(check_cache_geometry(0, 1, 64), Err(GeometryError::SetCount));
    assert_eq!(check_cache_geometry(100, 1, 64), Err(GeometryError::NotAMultiple));
    assert_eq!(check_cache_geometry(64, 0, 64), Err(GeometryError::Zero));
    assert_eq!(check_cache_geometry(64, 1, 0), Err(GeometryError::Zero));
    assert_eq!(check_cache_geometry(64, usize::MAX, 2), Err(GeometryError::Overflow));
}

#[test]
fn geometry_messages() {
    assert_eq!(
        geometry_message(GeometryError::Zero, "D1", 64, 0, 64),
        "D1 cache: assoc and block must be > 0"
    );
    assert_eq!(
        geometry_message(GeometryError::NotAMultiple, "LL", 100, 2, 16),
        "LL cache size 100 is not a multiple of assoc*block (2*16=32)"
    );
    let message = geometry_message(GeometryError::SetCount, "D1", 192, 1, 64);
    assert!(
        message.starts_with("D1 cache set count 3 = 192/(1*64) is not a power of two;"),
        "{message}"
    );
}

#[test]
fn powers_of_two() {
    let powers: Vec<usize> = (0..40).filter(|value| power_of_two(*value)).collect();
    assert_eq!(powers, vec![1, 2, 4, 8, 16, 32]);
    assert!(power_of_two(1 << 63));
    assert!(!power_of_two(usize::MAX));
}

#[test]
fn batches_cover_the_sizes() {
    assert_eq!(cache_sizes(false, None, 64, 1000), vec![1000]);
    assert_eq!(cache_sizes(true, None, 64, 256), vec![64, 128, 192, 256]);
    assert_eq!(cache_sizes(true, Some(2), 64, 1024), vec![128, 256, 512, 1024]);
    assert_eq!(cache_sizes(true, Some(2), 64, 1000), vec![128, 256, 512]);
    assert_eq!(cache_sizes(true, None, 64, 10), Vec::<usize>::new());
}

#[test]
fn summaries_are_read() {
    let output = "\
==1== I refs:        1,000
==1== D refs:        12,345  (10,000 rd   + 2,345 wr)
==1== D1  misses:       678  (   600 rd   +    78 wr)
==1== LLd misses:     1,111  (   600 rd   +    78 wr)
";
    assert_eq!(
        parse_summary(output),
        Some(Summary { total_access: 12345, d1_miss_count: 678, ll_miss_count: 1111 })
    );
    assert_eq!(parse_summary("==1== D refs: 5\n"), None);
    assert_eq!(parse_summary(""), None);
}

#[test]
fn permuted_blocks_fit_into_a_page() {
    assert!(hash_blocks_fit(64, 64));
    assert!(hash_blocks_fit(4096, 4096));
    assert!(!hash_blocks_fit(8192, 8192));
    assert!(!hash_blocks_fit(64, 32));
    assert!(!hash_blocks_fit(48, 48));
}

#[test]
fn caches_are_described_by_options() {
    assert_eq!(cache_flag("D1", 32768, 8, 64), "--D1=32768,8,64");
    assert_eq!(cache_flag("LL", 0, 1, 2), "--LL=0,1,2");
}

#[test]
fn caches_are_fully_associative_by_default() {
    assert_eq!(associativity_of(Some(4), 1024, 64), 4);
    assert_eq!(associativity_of(None, 1024, 64), 16);
    assert_eq!(associativity_of(None, 1000, 64), 15);
}

#[test]
fn every_cache_of_a_batch_is_valid() {
    for size in cache_sizes(true, Some(6), 64, 100_000) {
        assert!(check_cache_geometry(size, 6, 64).is_ok(), "{size}");
    }
}
