//! Complete runs.

use autolala::binner::Binner;
use autolala::error::Error;
use autolala::frontend::facts;
use autolala::interleave::{Interleaver, Scheduler, Step};
use autolala::interp::ChunkSize;
use autolala::measure::{Histogram, JointKey, Sampler};
use autolala::run::{cursors, drive, prepare, run, stream_count, Pause, RunConfig};
use autolala::tree::{AffineExpr, AffineMap, Constraint, IntegerSet, Tree, ValID};
use rand::{Rng, SeedableRng};

fn bound(value: i64) -> AffineMap {
    AffineMap { num_dims: 0, results: vec![AffineExpr::Constant(value)] }
}

fn for_loop(depth: usize, upper: i64, body: Vec<Tree>) -> Tree {
    Tree::For {
        lower_bound: bound(0),
        upper_bound: bound(upper),
        lower_bound_operands: Vec::new(),
        upper_bound_operands: Vec::new(),
        step: 1,
        ivar: ValID::IVar(depth),
        body: Box::new(Tree::Block(body)),
    }
}

fn load(ivars: &[usize]) -> Tree {
    Tree::Access {
        site: 0,
        memref: ValID::Memref(0),
        map: AffineMap {
            num_dims: ivars.len(),
            results: (0..ivars.len()).map(AffineExpr::Dim).collect(),
        },
        operands: ivars.iter().map(|ivar| ValID::IVar(*ivar)).collect(),
        is_write: false,
    }
}

fn sweep() -> Tree {
    Tree::Block(vec![for_loop(0, 8, vec![for_loop(1, 4, vec![load(&[1])])])])
}

fn config(threads: u32, parallel_depth: Option<usize>) -> RunConfig {
    RunConfig {
        symbols: Vec::new(),
        block_size: 1,
        threads,
        parallel_depth,
        chunk: ChunkSize::Auto,
        scheduler: Scheduler::Uniform,
        seed: 0xC0FFEE,
        binner: Binner::default(),
        track_distance: true,
    }
}

fn sample(tree: &Tree, config: &RunConfig) -> Sampler {
    run(tree, config).unwrap_or_else(|error| panic!("{}", error.message()))
}

fn entries(histogram: &Histogram) -> Vec<(u32, u64)> {
    let mut items: Vec<_> = histogram.iter().map(|(k, v)| (*k, *v)).collect();
    items.sort_unstable();
    items
}

fn rows(sampler: &Sampler) -> Vec<(JointKey, u64)> {
    let mut rows = sampler.joint();
    rows.sort_unstable();
    rows
}

#[test]
fn sequential_sweep_has_the_expected_access_count_and_reuse() {
    let sampler = sample(&sweep(), &config(1, None));
    assert_eq!(sampler.total_accesses(), 32);
    assert_eq!(sampler.cold_accesses(), 4);
    let cri: Vec<_> = sampler.cri().iter().map(|(k, v)| (*k, *v)).collect();
    assert_eq!(cri, vec![(4, 28)]);
}

#[test]
fn parallelizing_the_outer_loop_preserves_the_total_access_count() {
    for threads in [1u32, 2, 4, 8] {
        let sampler = sample(&sweep(), &config(threads, Some(0)));
        assert_eq!(sampler.total_accesses(), 32, "thread count {threads} changed the work");
    }
}

#[test]
fn runs_are_reproducible_across_repeats() {
    let config = config(4, Some(0));
    let first = sample(&sweep(), &config);
    let second = sample(&sweep(), &config);
    assert_eq!(first.cri(), second.cri());
    assert_eq!(rows(&first), rows(&second));
}

#[test]
fn a_different_seed_changes_the_interleaving() {
    let mut config = config(4, Some(0));
    let first = sample(&sweep(), &config);
    config.seed = 12345;
    let second = sample(&sweep(), &config);
    assert_ne!(first.cri(), second.cri(), "two seeds produced the same interleaving");
    assert_eq!(first.total_accesses(), second.total_accesses());
}

#[test]
fn threads_sharing_one_array_produce_shared_reuses() {
    let sampler = sample(&sweep(), &config(4, Some(0)));
    let shared: u64 = sampler.per_reference().iter().map(|stats| stats.shared_reuses).sum();
    assert!(shared > 0, "no cross-thread reuse was observed");
}

#[test]
fn a_thread_private_array_produces_no_shared_reuse() {
    let tree = Tree::Block(vec![for_loop(
        0,
        8,
        vec![for_loop(1, 3, vec![for_loop(2, 4, vec![load(&[0, 2])])])],
    )]);
    let sampler = sample(&tree, &config(4, Some(0)));
    let shared: u64 = sampler.per_reference().iter().map(|stats| stats.shared_reuses).sum();
    assert_eq!(shared, 0, "disjoint data produced a cross-thread reuse");
}

#[test]
fn affine_if_guards_are_honored() {
    let guard = IntegerSet {
        num_dims: 1,
        constraints: vec![Constraint {
            expr: AffineExpr::Add(
                Box::new(AffineExpr::Dim(0)),
                Box::new(AffineExpr::Constant(-5)),
            ),
            equality: false,
        }],
    };
    let tree = Tree::Block(vec![for_loop(
        0,
        10,
        vec![Tree::If {
            condition: guard,
            operands: vec![ValID::IVar(0)],
            then_branch: Box::new(Tree::Block(vec![load(&[0])])),
            else_branch: None,
        }],
    )]);
    let sampler = sample(&tree, &config(1, None));
    assert_eq!(sampler.total_accesses(), 5);
}

#[test]
fn a_nest_without_accesses_is_rejected() {
    let tree = Tree::Block(vec![for_loop(0, 4, Vec::new())]);
    let error = run(&tree, &config(1, None)).err().expect("no accesses");
    assert!(error.message().contains("no memory accesses"), "{}", error.message());
}

#[test]
fn arrays_of_too_many_dimensions_are_rejected() {
    let tree = for_loop(0, 4, vec![load(&[0; 7])]);
    let error = run(&tree, &config(1, None)).err().expect("rank 7");
    assert_eq!(
        error.message(),
        "the kernel has an array of rank 7, above the supported maximum of 6"
    );
}

#[test]
fn errors_of_a_walk_end_the_run() {
    let tree = for_loop(0, 4, vec![load(&[3])]);
    let error = run(&tree, &config(1, None)).err().expect("not in scope");
    assert_eq!(error.message(), "induction variable i3 is not in scope");
}

#[test]
fn symbols_bound_loops() {
    let mut tree = for_loop(0, 0, vec![load(&[0])]);
    if let Tree::For { upper_bound, upper_bound_operands, .. } = &mut tree {
        *upper_bound = AffineMap { num_dims: 0, results: vec![AffineExpr::Symbol(0)] };
        *upper_bound_operands = vec![ValID::Symbol(0)];
    }
    let mut config = config(1, None);
    let error = run(&tree, &config).err().expect("unbound");
    assert!(error.message().contains("--symbol s0="), "{}", error.message());
    config.symbols = vec![9];
    assert_eq!(sample(&tree, &config).total_accesses(), 9);
}

#[test]
fn round_robin_is_lockstep() {
    let mut config = config(4, Some(0));
    config.scheduler = Scheduler::RoundRobin;
    config.chunk = ChunkSize::Fixed(1);
    let sampler = sample(&sweep(), &config);
    // Four threads sweep the four elements together: each element is touched by
    // the threads in turn, and again by the next sweep.
    assert_eq!(sampler.total_accesses(), 32);
    assert_eq!(entries(sampler.cri()), vec![(1, 24), (13, 4)]);
    assert_eq!(sampler.cold_accesses(), 4);
}

#[test]
fn round_robin_keeps_its_order_when_a_thread_drains() {
    // Three threads get iterations {0, 3}, {1, 4} and {2, 5}, and iteration 4
    // makes no access.
    let body = Tree::If {
        condition: IntegerSet {
            num_dims: 1,
            constraints: vec![Constraint {
                expr: AffineExpr::Add(
                    Box::new(AffineExpr::Dim(0)),
                    Box::new(AffineExpr::Constant(-4)),
                ),
                equality: true,
            }],
        },
        operands: vec![ValID::IVar(0)],
        then_branch: Box::new(Tree::Block(Vec::new())),
        else_branch: Some(Box::new(load(&[0]))),
    };
    let tree = for_loop(0, 6, vec![body]);
    let mut config = config(3, Some(0));
    config.scheduler = Scheduler::RoundRobin;
    config.chunk = ChunkSize::Fixed(1);
    let table = prepare(&tree).expect("has accesses");
    let walks = cursors(&tree, &table, &config);
    let mut merge = Interleaver::new(walks, config.scheduler, config.seed).expect("starts");
    let mut order = Vec::new();
    loop {
        match merge.next_access().expect("goes on") {
            Step::Access(tid, access) => order.push((tid, access.data.coords[5])),
            Step::Drained => break,
            _ => panic!("round robin needs no choice"),
        }
    }
    assert_eq!(order, vec![(0, 0), (1, 1), (2, 2), (0, 3), (2, 5)]);
}

#[test]
fn outside_schedulers_have_to_be_driven() {
    let mut config = config(2, Some(0));
    for scheduler in [Scheduler::SkewedSpeed, Scheduler::Burst] {
        config.scheduler = scheduler;
        let error = run(&sweep(), &config).err().expect("needs choices");
        assert!(matches!(error, Error::OutsideChoice));
    }
}

#[test]
fn a_skewed_run_takes_the_choices_that_it_is_given() {
    let tree = sweep();
    let mut config = config(2, Some(0));
    config.scheduler = Scheduler::SkewedSpeed;
    let table = prepare(&tree).expect("has accesses");
    let walks = cursors(&tree, &table, &config);
    let mut merge = Interleaver::new(walks, config.scheduler, config.seed).expect("starts");
    let mut sampler =
        Sampler::new(stream_count(&config) as usize, table.reference_count(), config.binner, true);
    let mut order = Vec::new();
    loop {
        match drive(&mut merge, &mut sampler).expect("drives") {
            Pause::Drained => break,
            Pause::Weigh => {
                let last = merge.live().len() - 1;
                let word_pos = merge.word_pos();
                let (tid, access) = merge.take(last, word_pos).expect("in range");
                order.push(tid);
                sampler.observe(tid, access);
            }
            Pause::Run(_) => unreachable!("not a burst"),
        }
    }
    assert_eq!(sampler.total_accesses(), 32);
    assert_eq!(order[..16], [1; 16]);
    assert_eq!(order[16..], [0; 16]);
}

#[test]
fn a_burst_runs_for_the_length_that_it_is_given() {
    let tree = sweep();
    let mut config = config(2, Some(0));
    config.scheduler = Scheduler::Burst;
    let table = prepare(&tree).expect("has accesses");
    let walks = cursors(&tree, &table, &config);
    let mut merge = Interleaver::new(walks, config.scheduler, config.seed).expect("starts");
    let mut order = Vec::new();
    let mut runs = 0;
    loop {
        match merge.next_access().expect("goes on") {
            Step::Drained => break,
            Step::Access(tid, _) => order.push(tid),
            Step::Run(position) => {
                runs += 1;
                let word_pos = merge.word_pos();
                let (tid, _) = merge.take_run(position, 4, word_pos).expect("in range");
                order.push(tid);
            }
            Step::Weigh => unreachable!("not weighed"),
        }
    }
    assert_eq!(order.len(), 32);
    assert_eq!(runs, 8);
    assert!(order.chunks(4).all(|run| run.iter().all(|tid| *tid == run[0])), "{order:?}");
}

#[test]
fn choices_out_of_range_are_errors() {
    let tree = sweep();
    let config = config(2, Some(0));
    let table = prepare(&tree).expect("has accesses");
    let walks = cursors(&tree, &table, &config);
    let mut merge = Interleaver::new(walks, Scheduler::SkewedSpeed, 1).expect("starts");
    let error = merge.take(2, 0).expect_err("two live threads");
    assert_eq!(error.message(), "thread choice 2 is out of range (2 live)");
}

#[test]
fn draws_move_the_generator() {
    let tree = sweep();
    let config = config(8, Some(0));
    let table = prepare(&tree).expect("has accesses");
    let walks = cursors(&tree, &table, &config);
    let mut merge = Interleaver::new(walks, Scheduler::Uniform, 7).expect("starts");
    assert_eq!((merge.seed(), merge.word_pos()), (7, 0));
    let draws: Vec<usize> = (0..64).map(|_| merge.draw()).collect();
    assert!(draws.iter().all(|draw| *draw < 8));
    assert!(draws.iter().any(|draw| *draw != draws[0]));
    assert!(merge.word_pos() >= 64);
}

#[test]
fn draws_are_those_of_the_generator() {
    let tree = sweep();
    let config = config(5, Some(0));
    let table = prepare(&tree).expect("has accesses");
    let walks = cursors(&tree, &table, &config);
    let mut merge = Interleaver::new(walks, Scheduler::Uniform, 99).expect("starts");
    let live = merge.live().len();
    let mut rng = rand_chacha::ChaCha8Rng::seed_from_u64(99);
    for _ in 0..200 {
        assert_eq!(merge.draw(), rng.random_range(0..live));
        assert_eq!(merge.word_pos(), rng.get_word_pos());
    }
}

#[test]
fn blocks_merge_neighbours() {
    let tree = for_loop(0, 16, vec![load(&[0])]);
    let mut config = config(1, None);
    config.block_size = 4;
    let sampler = sample(&tree, &config);
    assert_eq!(sampler.cold_accesses(), 4);
    assert_eq!(entries(sampler.cri()), vec![(1, 12)]);
}

#[test]
fn scheduler_labels_are_stable_for_manifests() {
    assert_eq!(Scheduler::Uniform.label(), "uniform");
    assert_eq!(Scheduler::Burst.label(), "burst");
    assert_eq!(Scheduler::RoundRobin.label(), "round_robin");
    assert_eq!(Scheduler::SkewedSpeed.label(), "skewed_speed");
}

#[test]
fn counted_symbols_are_enough() {
    let mut tree = for_loop(0, 0, vec![load(&[0])]);
    if let Tree::For { upper_bound, upper_bound_operands, .. } = &mut tree {
        *upper_bound = AffineMap {
            num_dims: 0,
            results: vec![AffineExpr::Add(
                Box::new(AffineExpr::Symbol(0)),
                Box::new(AffineExpr::Symbol(1)),
            )],
        };
        *upper_bound_operands = vec![ValID::Symbol(2), ValID::Symbol(0)];
    }
    let count = facts(&tree).symbols;
    assert_eq!(count, 3);
    let mut config = config(1, None);
    config.symbols = vec![4; count];
    assert_eq!(sample(&tree, &config).total_accesses(), 8);
    config.symbols.pop();
    assert!(run(&tree, &config).is_err());
}

#[test]
fn a_sequential_run_is_the_walk() {
    let tree = sweep();
    let config = config(1, None);
    let table = prepare(&tree).expect("has accesses");
    let mut walk = cursors(&tree, &table, &config).remove(0);
    let walks = cursors(&tree, &table, &config);
    let mut merge = Interleaver::new(walks, config.scheduler, config.seed).expect("starts");
    loop {
        match (walk.next_access().expect("walks"), merge.next_access().expect("goes on")) {
            (None, Step::Drained) => break,
            (Some(access), Step::Access(tid, found)) => {
                assert_eq!((tid, found), (0, access));
            }
            _ => panic!("one is longer than the other"),
        }
    }
}

#[test]
fn threads_keep_their_program_order() {
    let tree = sweep();
    let config = config(3, Some(0));
    let table = prepare(&tree).expect("has accesses");
    let walks = cursors(&tree, &table, &config);
    let mut merge = Interleaver::new(walks, config.scheduler, config.seed).expect("starts");
    let mut streams = vec![Vec::new(); 3];
    while let Step::Access(tid, access) = merge.next_access().expect("goes on") {
        streams[tid as usize].push(access);
    }
    for (stream, mut walk) in streams.iter().zip(cursors(&tree, &table, &config)) {
        let mut alone = Vec::new();
        while let Some(access) = walk.next_access().expect("walks") {
            alone.push(access);
        }
        assert_eq!(*stream, alone);
    }
}
