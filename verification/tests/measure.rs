//! Reuse statistics.

use autolala::address::{DataId, MemrefKey};
use autolala::binner::Binner;
use autolala::interp::Emitted;
use autolala::measure::{Histogram, Sampler, Sharing};

fn datum(index: i64) -> DataId {
    DataId::new(MemrefKey(0), &[index], 1).expect("fits")
}

fn access(index: i64) -> Emitted {
    Emitted { reference: 0, data: datum(index), is_write: false }
}

fn sorted(histogram: &Histogram) -> Vec<(u32, u64)> {
    let mut items: Vec<_> = histogram.iter().map(|(k, v)| (*k, *v)).collect();
    items.sort_unstable();
    items
}

/// The value that a bin stands for: itself, or the geometric midpoint of its
/// range.
fn representative(binner: &Binner, bin: u32) -> f64 {
    let bin = u64::from(bin);
    if bin < binner.exact_below() {
        return bin as f64;
    }
    let offset = (bin - binner.exact_below()) as f64;
    let per_octave = f64::from(binner.per_octave());
    let low = binner.exact_below() as f64 * (offset / per_octave).exp2();
    let high = binner.exact_below() as f64 * ((offset + 1.0) / per_octave).exp2();
    (low * high).sqrt()
}

#[test]
fn exact_bins_are_the_identity_below_the_threshold() {
    let binner = Binner::default();
    for value in [1u64, 7, 255] {
        assert_eq!(binner.bin(value), value as u32);
        assert_eq!(representative(&binner, binner.bin(value)), value as f64);
    }
}

#[test]
fn log_bins_are_monotone_and_bracket_their_representative() {
    let binner = Binner::default();
    let mut previous = binner.bin(255);
    for value in [256u64, 300, 512, 4096, 1 << 30] {
        let bin = binner.bin(value);
        assert!(bin >= previous, "bin {bin} went backwards at {value}");
        let representative = representative(&binner, bin);
        assert!(
            representative > 0.0 && (representative / value as f64).abs() < 2.0,
            "value {value} -> {representative}"
        );
        previous = bin;
    }
}

#[test]
fn sequential_trace_measures_reuse_interval_and_distance() {
    let mut sampler = Sampler::new(1, 1, Binner::default(), true);
    for index in [0, 1, 2, 2, 1, 0] {
        sampler.observe(0, access(index));
    }
    assert_eq!(sampler.total_accesses(), 6);
    assert_eq!(sampler.cold_accesses(), 3);
    assert_eq!(sorted(sampler.cri()), vec![(1, 1), (3, 1), (5, 1)]);
    let distances = sampler.reuse_distance().expect("tracked");
    assert_eq!(sorted(distances), vec![(0, 1), (1, 1), (2, 1)]);
}

#[test]
fn single_thread_reuse_is_always_private_with_pri_equal_to_cri() {
    let mut sampler = Sampler::new(1, 1, Binner::default(), false);
    for index in [0, 1, 0] {
        sampler.observe(0, access(index));
    }
    let joint = sampler.joint();
    assert_eq!(joint.len(), 1);
    let (key, count) = joint[0];
    assert_eq!(count, 1);
    assert_eq!(key.sharing, Sharing::Private);
    assert_eq!(key.pri_bin, key.cri_bin);
}

#[test]
fn cross_thread_reuse_is_shared_and_keeps_both_views() {
    let mut sampler = Sampler::new(2, 1, Binner::default(), false);
    sampler.observe(0, access(0));
    sampler.observe(1, access(1));
    sampler.observe(1, access(0));
    sampler.observe(0, access(0));

    let mut joint = sampler.joint();
    joint.sort_by_key(|(key, _)| *key);

    assert!(
        joint.iter().all(|(key, _)| key.sharing == Sharing::Shared),
        "every reuse of d0 followed an access by the other thread: {joint:?}"
    );
    assert_eq!(joint.iter().map(|(_, count)| *count).sum::<u64>(), 2, "two reuses of d0");

    let orphan = joint
        .iter()
        .find(|(key, _)| key.pri_bin == u32::MAX)
        .expect("t1's reuse has no private predecessor");
    assert_eq!(orphan.0.cri_bin, 2, "d0 was last touched two accesses ago");

    let paired = joint
        .iter()
        .find(|(key, _)| key.pri_bin != u32::MAX)
        .expect("t0's reuse has a private predecessor");
    assert_eq!(paired.0.pri_bin, 1, "t0's previous access was its own last");
    assert_eq!(paired.0.cri_bin, 1, "globally it was the immediately prior access");
}

#[test]
fn a_shared_reuse_with_no_private_predecessor_uses_the_sentinel() {
    let mut sampler = Sampler::new(2, 1, Binner::default(), false);
    sampler.observe(0, access(0));
    sampler.observe(1, access(0));
    let joint = sampler.joint();
    let (key, _) = joint.first().expect("one reuse");
    assert_eq!(key.sharing, Sharing::Shared);
    assert_eq!(key.pri_bin, u32::MAX, "thread 1 had never seen the datum");
}

#[test]
fn compaction_preserves_reuse_distances() {
    let mut sampler = Sampler::new(1, 1, Binner::default(), true);
    for _ in 0..40 {
        for index in 0..2000 {
            sampler.observe(0, access(index));
        }
    }
    assert!(!sampler.overflowed(), "timeline should have been rebuilt");
    let distances = sampler.reuse_distance().expect("tracked");
    let observed = sorted(distances);
    assert_eq!(observed.len(), 1, "{observed:?}");
    assert_eq!(observed[0].1, 39 * 2000);
    let binner = sampler.binner();
    let value = representative(&binner, observed[0].0);
    assert!((value - 1999.0).abs() < 1999.0 * 0.05, "bin {} represents {value}", observed[0].0);
}

#[test]
fn logarithmic_bins_split_octaves() {
    let binner = Binner::new(256, 32);
    assert_eq!(binner.bin(256), 256);
    assert_eq!(binner.bin(511), 287);
    assert_eq!(binner.bin(512), 288);
    assert_eq!(binner.bin(1024), 320);
    assert_eq!(binner.bin(1999), 350);
    assert_eq!(binner.bin(1 << 63), 256 + 55 * 32);
    assert_eq!(binner.bin(u64::MAX), 256 + 56 * 32);
    assert_eq!((binner.exact_below(), binner.per_octave()), (256, 32));
}

#[test]
fn one_bin_per_octave_is_a_binary_logarithm() {
    let binner = Binner::new(1, 1);
    for exponent in 0..64u32 {
        assert_eq!(binner.bin(1 << exponent), 1 + exponent);
    }
    for exponent in 0..40u32 {
        assert_eq!(binner.bin((1u64 << exponent) | ((1u64 << exponent) - 1)), 1 + exponent);
    }
    assert_eq!(binner.bin(0), 0);
}

#[test]
fn bins_are_those_of_double_precision() {
    for (exact_below, per_octave) in [(1u64, 1u32), (3, 5), (10, 7), (256, 32), (1000, 12)] {
        let binner = Binner::new(exact_below, per_octave);
        let mut value = exact_below;
        while value < 1 << 44 {
            let octave = (value as f64 / exact_below as f64).log2();
            let offset = (octave * f64::from(per_octave)).floor() as u64;
            assert_eq!(u64::from(binner.bin(value)), exact_below + offset, "{value}");
            value += value / 3 + 1;
        }
        let octave = (u64::MAX as f64 / exact_below as f64).log2();
        let offset = (octave * f64::from(per_octave)).floor() as u64;
        assert_eq!(u64::from(binner.bin(u64::MAX)), exact_below + offset);
    }
}

#[test]
fn a_threshold_of_zero_separates_zero_from_the_rest() {
    let binner = Binner::new(0, 4);
    assert_eq!(binner.bin(0), 0);
    assert_eq!(binner.bin(1), u32::MAX);
}

#[test]
fn doubling_moves_a_value_by_one_octave() {
    let binner = Binner::new(10, 7);
    for value in [10u64, 11, 99, 12345, 1 << 40] {
        assert_eq!(binner.bin(2 * value), binner.bin(value) + 7);
    }
}

#[test]
fn cold_accesses_and_reuses_add_up() {
    let mut sampler = Sampler::new(3, 2, Binner::default(), true);
    for step in 0..500i64 {
        sampler.observe((step % 3) as u32, access((step * step) % 17));
    }
    let reuses: u64 = sampler.cri().values().sum();
    assert_eq!(sampler.cold_accesses() + reuses, 500);
    let stats = sampler.per_reference();
    assert_eq!(stats.len(), 2);
    assert_eq!(stats[0].accesses, 500);
    assert_eq!(stats[0].cold, sampler.cold_accesses());
    assert_eq!(stats[0].private_reuses + stats[0].shared_reuses, reuses);
    assert_eq!(stats[0].memref, Some(0));
    assert_eq!(stats[1].memref, None);
    assert_eq!(stats[1].accesses, 0);
}

/// Hits and misses of a fully associative LRU cache, by simulating it.
fn lru_misses(trace: &[i64], blocks: usize) -> u64 {
    let mut cache: Vec<i64> = Vec::new();
    let mut misses = 0;
    for datum in trace {
        match cache.iter().position(|held| held == datum) {
            Some(at) => {
                cache.remove(at);
            }
            None => misses += 1,
        }
        cache.insert(0, *datum);
        cache.truncate(blocks);
    }
    misses
}

#[test]
fn distances_give_the_misses_of_an_lru_cache() {
    let trace: Vec<i64> = (0..400i64).map(|step| (step * 7 + step * step / 3) % 23).collect();
    let mut sampler = Sampler::new(1, 1, Binner::default(), true);
    for index in &trace {
        sampler.observe(0, access(*index));
    }
    for blocks in 0..30u32 {
        assert_eq!(
            sampler.exact_misses(blocks),
            Some(lru_misses(&trace, blocks as usize)),
            "{blocks} blocks"
        );
    }
}

#[test]
fn misses_need_distances() {
    let mut sampler = Sampler::new(1, 1, Binner::default(), false);
    sampler.observe(0, access(1));
    assert_eq!(sampler.exact_misses(4), None);
    assert!(sampler.reuse_distance().is_none());
    assert!(!sampler.overflowed());
}

#[test]
fn references_out_of_range_are_not_tallied() {
    let mut sampler = Sampler::new(1, 1, Binner::default(), false);
    sampler.observe(0, Emitted { reference: 9, data: datum(1), is_write: true });
    assert_eq!(sampler.total_accesses(), 1);
    assert_eq!(sampler.per_reference()[0].accesses, 0);
}
