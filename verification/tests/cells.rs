//! Reuse intervals of parallel nests: what an interleaving makes of short and
//! long, private and shared reuse.

use autolala::binner::Binner;
use autolala::interleave::Scheduler;
use autolala::interp::ChunkSize;
use autolala::measure::{Sampler, Sharing};
use autolala::run::{run, RunConfig};
use autolala::tree::{AffineExpr, AffineMap, Tree, ValID};
use std::collections::BTreeSet;

fn bound(value: i64) -> AffineMap {
    AffineMap { num_dims: 0, results: vec![AffineExpr::Constant(value)] }
}

fn for_loop(depth: usize, upper: i64, body: Tree) -> Tree {
    Tree::For {
        lower_bound: bound(0),
        upper_bound: bound(upper),
        lower_bound_operands: Vec::new(),
        upper_bound_operands: Vec::new(),
        step: 1,
        ivar: ValID::IVar(depth),
        body: Box::new(body),
    }
}

fn load(site: usize, results: Vec<AffineExpr>, ivars: &[usize]) -> Tree {
    Tree::Access {
        site,
        memref: ValID::Memref(0),
        map: AffineMap { num_dims: ivars.len(), results },
        operands: ivars.iter().map(|ivar| ValID::IVar(*ivar)).collect(),
        is_write: false,
    }
}

/// Each iteration of the parallel loop sweeps a row of its own.
fn private_long() -> Tree {
    let row = load(0, vec![AffineExpr::Dim(0), AffineExpr::Dim(1)], &[0, 2]);
    for_loop(0, 16, for_loop(1, 8, for_loop(2, 300, row)))
}

/// Each iteration of the parallel loop sweeps the same array.
fn shared_long() -> Tree {
    for_loop(0, 1280, for_loop(1, 64, load(0, vec![AffineExpr::Dim(0)], &[1])))
}

/// Each iteration of the parallel loop alternates between two elements.
fn short() -> Tree {
    let element = |site: usize, column: i64| {
        load(site, vec![AffineExpr::Dim(0), AffineExpr::Constant(column)], &[0])
    };
    for_loop(0, 8, for_loop(1, 2048, Tree::Block(vec![element(0, 0), element(1, 1)])))
}

fn sample(tree: Tree, threads: u32, scheduler: Scheduler) -> Sampler {
    let config = RunConfig {
        symbols: Vec::new(),
        block_size: 1,
        threads,
        parallel_depth: Some(0),
        chunk: ChunkSize::Auto,
        scheduler,
        seed: 1,
        binner: Binner::default(),
        track_distance: false,
    };
    run(&tree, &config).unwrap_or_else(|error| panic!("{}", error.message()))
}

/// The value that a bin stands for.
fn value_of(binner: &Binner, bin: u32) -> f64 {
    let bin = u64::from(bin);
    if bin < binner.exact_below() {
        return bin as f64;
    }
    let middle = ((bin - binner.exact_below()) as f64 + 0.5) / f64::from(binner.per_octave());
    binner.exact_below() as f64 * middle.exp2()
}

/// Mean concurrent reuse interval among reuses whose private interval falls in
/// the most common bin, and the fraction of all reuses that crossed threads.
fn mean_cri_at_dominant_pri(sampler: &Sampler) -> (f64, f64, f64) {
    let binner = sampler.binner();
    let mut by_pri: Vec<(u32, u64)> = Vec::new();
    let mut total = 0u64;
    let mut shared = 0u64;
    for (key, count) in sampler.joint() {
        total += count;
        if key.sharing == Sharing::Shared {
            shared += count;
        }
        match by_pri.iter_mut().find(|(bin, _)| *bin == key.pri_bin) {
            Some((_, running)) => *running += count,
            None => by_pri.push((key.pri_bin, count)),
        }
    }
    let (dominant, _) =
        by_pri.iter().copied().max_by_key(|(_, count)| *count).expect("at least one reuse");

    let mut weight = 0f64;
    let mut weighted = 0f64;
    for (key, count) in sampler.joint() {
        if key.pri_bin != dominant {
            continue;
        }
        weight += count as f64;
        weighted += value_of(&binner, key.cri_bin) * count as f64;
    }
    (value_of(&binner, dominant), weighted / weight, shared as f64 / total as f64)
}

/// Fraction of reuse mass at or below `bound`, among cross-thread reuses.
fn shared_cdf(sampler: &Sampler, bound: f64) -> f64 {
    let binner = sampler.binner();
    let mut total = 0f64;
    let mut below = 0f64;
    for (key, count) in sampler.joint() {
        if key.sharing != Sharing::Shared {
            continue;
        }
        total += count as f64;
        if value_of(&binner, key.cri_bin) <= bound {
            below += count as f64;
        }
    }
    below / total
}

#[test]
fn private_long_reuse_scales_by_the_thread_count() {
    for threads in [2u32, 4, 8] {
        let sampler = sample(private_long(), threads, Scheduler::Uniform);
        let (pri, cri, shared) = mean_cri_at_dominant_pri(&sampler);
        assert_eq!(
            shared, 0.0,
            "rows are indexed by the parallel induction variable, so no reuse can cross threads"
        );
        let expected = f64::from(threads) * pri;
        assert!(
            (cri - expected).abs() < expected * 0.05,
            "T={threads}: measured E[CRI]={cri:.1}, scale-by-T predicts {expected:.1}"
        );
        let racetrack_mean = pri / f64::from(threads);
        let shortfall = cri / racetrack_mean;
        let expected_shortfall = f64::from(threads) * f64::from(threads);
        assert!(
            (shortfall - expected_shortfall).abs() < expected_shortfall * 0.05,
            "T={threads}: a racetrack law predicts {racetrack_mean:.1} against a measured \
             {cri:.1}, a factor of {shortfall:.1}; expected T^2 = {expected_shortfall:.0}"
        );
    }
}

#[test]
fn shared_long_reuse_follows_the_racetrack_with_the_interleaving_dilation() {
    for threads in [2u32, 4, 8] {
        let sampler = sample(shared_long(), threads, Scheduler::Uniform);
        let (pri, cri, shared) = mean_cri_at_dominant_pri(&sampler);
        assert!(
            shared > 0.9,
            "T={threads}: every thread sweeps the same array, but only {:.1}% of reuse crossed \
             threads",
            shared * 100.0
        );
        assert!(
            (cri - pri).abs() < pri * 0.05,
            "T={threads}: measured E[CRI]={cri:.1}, racetrack predicts PRI={pri:.1}"
        );
        let as_shipped = pri / f64::from(threads);
        assert!(
            cri > as_shipped * 1.5,
            "T={threads}: an undilated racetrack predicts {as_shipped:.1}, measured {cri:.1}"
        );
    }
}

#[test]
fn shared_long_reuse_matches_the_racetrack_distribution_not_just_its_mean() {
    // F(c) = 1 - (1 - c / (T * R))^(T - 1) for the dilated racetrack.
    for threads in [2u32, 4, 8] {
        let sampler = sample(shared_long(), threads, Scheduler::Uniform);
        let (pri, _, _) = mean_cri_at_dominant_pri(&sampler);
        let span = f64::from(threads) * pri;
        let mut worst = 0f64;
        for step in 1..20 {
            let bound = span * f64::from(step) / 20.0;
            let predicted = 1.0 - (1.0 - bound / span).powi(threads as i32 - 1);
            worst = worst.max((shared_cdf(&sampler, bound) - predicted).abs());
        }
        assert!(worst < 0.10, "T={threads}: racetrack CDF deviates by {worst:.3} at worst");
    }
}

#[test]
fn short_reuse_has_the_negative_binomial_mean() {
    for threads in [2u32, 4, 8] {
        let sampler = sample(short(), threads, Scheduler::Uniform);
        let (pri, cri, shared) = mean_cri_at_dominant_pri(&sampler);
        assert_eq!(shared, 0.0, "the two elements are private to each thread");
        assert!((pri - 2.0).abs() < 1e-9, "the kernel ping-pongs, so PRI is 2");
        let expected = pri * f64::from(threads);
        assert!(
            (cri - expected).abs() < expected * 0.05,
            "T={threads}: measured E[CRI]={cri:.2}, NBD predicts {expected:.2}"
        );
    }
}

#[test]
fn the_scheduler_assumption_is_what_produces_these_laws() {
    let uniform = sample(shared_long(), 4, Scheduler::Uniform);
    let lockstep = sample(shared_long(), 4, Scheduler::RoundRobin);
    let spread = |sampler: &Sampler| {
        sampler
            .joint()
            .iter()
            .filter(|(key, _)| key.sharing == Sharing::Shared)
            .map(|(key, _)| key.cri_bin)
            .collect::<BTreeSet<_>>()
            .len()
    };
    assert!(
        spread(&uniform) > spread(&lockstep),
        "uniform interleaving must spread shared reuse across more intervals than lockstep"
    );
}
