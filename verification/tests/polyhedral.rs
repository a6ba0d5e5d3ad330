//! Polyhedral plans.

use autolala::parallel::{
    add_thread_dim, choose_law, constant_trip_count, resolve_spec, timestamp_dim_of_loop,
    DilationLaw, Expansion, ParallelError, ParallelSpec,
};
use autolala::polyhedral::{get_access_map, get_max_array_dim, get_timestamp_space, Plan};
use autolala::quasi_affine::Aff;
use autolala::binner::Binner;
use autolala::interleave::Scheduler;
use autolala::interp::{ChunkSize, Cursor, ReferenceTable};
use autolala::reuse_relation::{
    cross_thread, private_reuse, sequential_reuse, shared_reuse, sharers, unshared_reuse, Relation,
};
use autolala::run::{run, RunConfig};
use autolala::tree::{AffineExpr, AffineMap, Constraint, IntegerSet, Tree, ValID};

fn bound(value: i64) -> AffineMap {
    AffineMap { num_dims: 0, results: vec![AffineExpr::Constant(value)] }
}

fn loop_from(depth: usize, lower: i64, upper: i64, step: i64, body: Tree) -> Tree {
    Tree::For {
        lower_bound: bound(lower),
        upper_bound: bound(upper),
        lower_bound_operands: Vec::new(),
        upper_bound_operands: Vec::new(),
        step,
        ivar: ValID::IVar(depth),
        body: Box::new(body),
    }
}

fn load(memref: usize, ivars: &[usize]) -> Tree {
    Tree::Access {
        site: 0,
        memref: ValID::Memref(memref),
        map: AffineMap {
            num_dims: ivars.len(),
            results: (0..ivars.len()).map(AffineExpr::Dim).collect(),
        },
        operands: ivars.iter().map(|ivar| ValID::IVar(*ivar)).collect(),
        is_write: false,
    }
}

fn value(aff: &Aff, point: &[i128], params: &[i128]) -> i128 {
    let at = |aff: &Aff| value(aff, point, params);
    match aff {
        Aff::Const(constant) => *constant,
        Aff::Param(index) => params[*index],
        Aff::Dim(index) => point[*index],
        Aff::Add(l, r) => at(l) + at(r),
        Aff::Sub(l, r) => at(l) - at(r),
        Aff::Mul(l, r) => at(l) * at(r),
        Aff::FloorDiv(l, r) => at(l).div_euclid(at(r)),
        Aff::CeilDiv(l, r) => -(-at(l)).div_euclid(at(r)),
        Aff::Mod(l, r) => at(l).rem_euclid(at(r)),
    }
}

/// What a point is related to, if the plan holds it.
fn related(plan: &Plan, point: &[i128]) -> Option<Vec<i128>> {
    match plan {
        Plan::Leaf { dims, range } => {
            if point[*dims..].iter().any(|coordinate| *coordinate != 0) {
                return None;
            }
            Some(range.iter().map(|aff| value(aff, point, &[])).collect())
        }
        Plan::Empty { .. } => None,
        Plan::Loop { dim, trip, body, .. } => {
            let trip = trip.as_ref().map(|trip| value(trip, point, &[]));
            match trip {
                Some(trip) if point[*dim] < 0 || point[*dim] >= trip => None,
                _ => related(body, point),
            }
        }
        Plan::Block { dim, parts, .. } => {
            let part = usize::try_from(point[*dim]).ok()?;
            related(parts.get(part)?, point)
        }
        Plan::Branch { condition, then_part, else_part, .. } => {
            let holds = condition.iter().all(|row| {
                let value = value(&row.aff, point, &[]);
                if row.equality { value == 0 } else { value >= 0 }
            });
            related(if holds { then_part } else { else_part }, point)
        }
    }
}

#[test]
fn plans_relate_timestamps_to_blocks() {
    // for i in (3..20).step_by(4) { A1[i]; A1[i][i] }
    let tree = loop_from(0, 3, 20, 4, Tree::Block(vec![load(1, &[0]), load(1, &[0, 0])]));
    assert_eq!(get_max_array_dim(&tree), 2);
    let plan = get_access_map(&tree, 8, 1).unwrap_or_else(|error| panic!("{}", error.message()));
    assert_eq!(plan.dim_count(), 2);
    for (k, i) in (3..20).step_by(4).enumerate() {
        let k = k as i128;
        assert_eq!(related(&plan, &[k, 0]), Some(vec![1, 0, i / 8]));
        assert_eq!(related(&plan, &[k, 1]), Some(vec![1, i, i / 8]));
        assert_eq!(related(&plan, &[k, 2]), None);
    }
    let stamps = get_timestamp_space(&tree).unwrap_or_else(|error| panic!("{}", error.message()));
    let points: Vec<(i128, i128)> = (-2..9)
        .flat_map(|k| (-1..4).map(move |at| (k, at)))
        .filter(|(k, at)| related(&stamps, &[*k, *at]).is_some())
        .collect();
    let expected: Vec<(i128, i128)> = (0..5).flat_map(|k| [(k, 0), (k, 1)]).collect();
    assert_eq!(points, expected);
}

#[test]
fn plans_have_a_set_dimension_where_there_are_sets() {
    let tree = loop_from(0, 0, 100, 1, load(2, &[0]));
    let plan = get_access_map(&tree, 4, 8).unwrap_or_else(|error| panic!("{}", error.message()));
    let mut range = related(&plan, &[70]).expect("inside");
    range.sort_unstable();
    // Block 17, set 17 mod 8, array 2.
    assert_eq!(range, vec![1, 2, 17]);
}

#[test]
fn branches_split_the_timestamps() {
    let tree = loop_from(0, 0, 6, 1, Tree::If {
        condition: IntegerSet {
            num_dims: 1,
            constraints: vec![Constraint {
                expr: AffineExpr::Add(
                    Box::new(AffineExpr::Dim(0)),
                    Box::new(AffineExpr::Constant(-4)),
                ),
                equality: false,
            }],
        },
        operands: vec![ValID::IVar(0)],
        then_branch: Box::new(load(0, &[0])),
        else_branch: None,
    });
    let plan = get_timestamp_space(&tree).unwrap_or_else(|error| panic!("{}", error.message()));
    let points: Vec<i128> = (-2..10).filter(|k| related(&plan, &[*k]).is_some()).collect();
    assert_eq!(points, vec![4, 5]);
}

#[test]
fn expressions_without_a_polyhedral_form_are_refused() {
    let with = |expr: AffineExpr| Tree::Access {
        site: 0,
        memref: ValID::Memref(0),
        map: AffineMap { num_dims: 1, results: vec![expr] },
        operands: vec![ValID::IVar(0)],
        is_write: false,
    };
    let pair = || (Box::new(AffineExpr::Dim(0)), Box::new(AffineExpr::Constant(2)));
    let message = |expr: AffineExpr| {
        let tree = loop_from(0, 0, 4, 1, with(expr));
        get_access_map(&tree, 1, 1).expect_err("refused").message().to_string()
    };
    let (l, r) = pair();
    assert_eq!(message(AffineExpr::Mod(l, r)), "invalid affine expression: mod is not supported");
    let (l, r) = pair();
    assert_eq!(
        message(AffineExpr::CeilDiv(l, r)),
        "invalid affine expression: ceildiv is not supported"
    );
    assert_eq!(message(AffineExpr::Dim(5)), "invalid affine expression: invalid position");
}

#[test]
fn blocks_add_a_dimension_between_loops() {
    let inner = loop_from(1, 0, 4, 1, load(0, &[1]));
    let tree = loop_from(0, 0, 10, 1, Tree::Block(vec![load(0, &[0]), inner]));
    assert_eq!(timestamp_dim_of_loop(&tree, 0), Ok(0));
    assert_eq!(timestamp_dim_of_loop(&tree, 1), Ok(2));
    assert_eq!(timestamp_dim_of_loop(&tree, 2), Err(ParallelError::NoLoop { level: 2 }));
    assert_eq!(constant_trip_count(&tree, 0), Some(10));
    assert_eq!(constant_trip_count(&tree, 1), Some(4));
    assert_eq!(constant_trip_count(&tree, 2), None);
}

#[test]
fn levels_at_different_dimensions_are_not_uniform() {
    let nested = Tree::Block(vec![
        loop_from(0, 0, 4, 1, load(0, &[0])),
        Tree::Block(vec![loop_from(0, 0, 4, 1, load(0, &[0]))]),
    ]);
    assert_eq!(
        timestamp_dim_of_loop(&nested, 0),
        Err(ParallelError::NotUniform { level: 0, previous: 1, depth: 2 })
    );
}

#[test]
fn chunks_default_to_an_even_share() {
    let tree = loop_from(0, 0, 10, 1, load(0, &[0]));
    assert_eq!(
        resolve_spec(&tree, 0, 4, None),
        Ok(ParallelSpec { loop_level: 0, threads: 4, chunk: 3 })
    );
    assert_eq!(
        resolve_spec(&tree, 0, 4, Some(5)),
        Ok(ParallelSpec { loop_level: 0, threads: 4, chunk: 5 })
    );
    assert!(resolve_spec(&tree, 1, 4, None).is_err());
}

#[test]
fn thread_rows_hold_for_the_owner_only() {
    let spec = ParallelSpec { loop_level: 0, threads: 3, chunk: 4 };
    let extended = add_thread_dim(2, 1, &spec).expect("fits");
    assert_eq!((extended.iteration, extended.thread, extended.quotient), (1, 2, 3));
    for k in 0..60i32 {
        for tid in -1..5 {
            let owns = (0..10).any(|q| {
                extended.rows.iter().all(|row| {
                    row.iteration * k + row.thread * tid + row.quotient * q + row.constant >= 0
                })
            });
            assert_eq!(owns, tid == k / 4 % 3, "iteration {k}, thread {tid}");
        }
    }
}

#[test]
fn thread_rows_have_to_fit() {
    let error = |threads, chunk| {
        let spec = ParallelSpec { loop_level: 0, threads, chunk };
        add_thread_dim(1, 0, &spec).expect_err("refused").message()
    };
    assert_eq!(error(4, 0), "chunk size must be positive, got 0");
    assert_eq!(error(0, 1), "thread count must be at least one");
    assert_eq!(error(2, i64::MAX), format!("chunk {} times 2 threads overflows", i64::MAX));
    assert_eq!(error(2, 1 << 31), "chunk 2147483648 times 2 threads does not fit isl's i32");
}

#[test]
fn laws_are_chosen_by_length_and_sharing() {
    let choose = |threads, sharers, covers, short, law| {
        choose_law(true, true, threads, sharers, covers, short, law)
    };
    let default = DilationLaw::NegativeBinomial;
    assert_eq!(choose(1, None, true, true, default), Expansion::Unchanged);
    assert_eq!(choose(8, None, true, false, default), Expansion::PointMass);
    assert_eq!(choose(8, None, true, true, default), Expansion::NegativeBinomial);
    assert_eq!(choose(8, Some(8), true, false, default), Expansion::Racetrack { sharers: 8 });
    assert_eq!(choose(8, Some(8), true, true, default), Expansion::Racetrack { sharers: 8 });
    assert_eq!(choose(8, Some(8), false, false, default), Expansion::PointMass);
    assert_eq!(choose(8, None, true, false, DilationLaw::Hybrid), Expansion::Gamma);
    assert_eq!(choose(8, None, true, true, DilationLaw::Hybrid), Expansion::NegativeBinomial);
    assert_eq!(choose(8, None, true, true, DilationLaw::Gamma), Expansion::Gamma);
    assert_eq!(choose(8, None, true, true, DilationLaw::Beta), Expansion::Beta);
    assert_eq!(
        choose_law(false, true, 8, None, true, true, default),
        Expansion::Nothing
    );
    assert_eq!(
        choose_law(true, false, 8, None, true, true, default),
        Expansion::Unchanged
    );
}

/// The pairs of positions of a trace that a relation holds for.
fn pairs(relation: &Relation, trace: &[(u32, i64)]) -> Vec<(usize, usize)> {
    let all = || (0..trace.len()).flat_map(|a| (0..trace.len()).map(move |b| (a, b)));
    let within = |held: Vec<(usize, usize)>| move |pair: &(usize, usize)| held.contains(pair);
    match relation {
        Relation::SameDatum => all().filter(|(a, b)| trace[*a].1 == trace[*b].1).collect(),
        Relation::Later => all().filter(|(a, b)| a > b).collect(),
        Relation::NotEarlier => all().filter(|(a, b)| a >= b).collect(),
        Relation::SameThread(inner) => {
            let held = pairs(inner, trace);
            held.into_iter().filter(|(a, b)| trace[*a].0 == trace[*b].0).collect()
        }
        Relation::Reverse(inner) => {
            let held = pairs(inner, trace);
            held.into_iter().map(|(a, b)| (b, a)).collect()
        }
        Relation::Intersect(left, right) => {
            let right = within(pairs(right, trace));
            pairs(left, trace).into_iter().filter(|pair| right(pair)).collect()
        }
        Relation::Subtract(left, right) => {
            let right = within(pairs(right, trace));
            pairs(left, trace).into_iter().filter(|pair| !right(pair)).collect()
        }
        Relation::Latest(inner) => {
            let held = pairs(inner, trace);
            let best = |a: usize| held.iter().filter(|pair| pair.0 == a).map(|pair| pair.1).max();
            held.iter().copied().filter(|(a, b)| best(*a) == Some(*b)).collect()
        }
        Relation::Within(left, right) => {
            let right = pairs(right, trace);
            let kept = |pair: &(usize, usize)| right.iter().any(|other| other.0 == pair.0);
            pairs(left, trace).into_iter().filter(kept).collect()
        }
        Relation::Without(left, right) => {
            let right = pairs(right, trace);
            let kept = |pair: &(usize, usize)| right.iter().all(|other| other.0 != pair.0);
            pairs(left, trace).into_iter().filter(kept).collect()
        }
        Relation::Chain(left, right) => {
            let (left, right) = (pairs(left, trace), pairs(right, trace));
            all()
                .filter(|(a, c)| {
                    left.iter().any(|(from, b)| from == a && right.contains(&(*b, *c)))
                })
                .collect()
        }
    }
}

fn related_to(relation: &Relation, trace: &[(u32, i64)], from: usize) -> usize {
    pairs(relation, trace).iter().filter(|pair| pair.0 == from).count()
}

#[test]
fn reuse_relations_count_intervals() {
    let trace = [(0, 5), (1, 6), (0, 7), (1, 5), (0, 5), (1, 6), (0, 6)];
    let all = sequential_reuse();
    assert_eq!((0..7).map(|at| related_to(&all, &trace, at)).collect::<Vec<_>>(), vec![
        0, 0, 0, 3, 1, 4, 1
    ]);
    let own = private_reuse();
    assert_eq!((0..7).map(|at| related_to(&own, &trace, at)).collect::<Vec<_>>(), vec![
        0, 0, 0, 0, 2, 2, 0
    ]);
}

#[test]
fn sharing_relates_accesses_of_different_threads() {
    let trace = [(0, 5), (1, 5), (0, 5), (1, 6)];
    let shared = pairs(&cross_thread(), &trace);
    assert_eq!(shared, vec![(0, 1), (1, 0), (1, 2), (2, 1)]);
}

#[test]
fn reuse_is_either_shared_or_private() {
    // Datum 5 is touched by both threads, 6 and 7 by one each.
    let trace = [(0, 5), (1, 6), (0, 7), (1, 5), (1, 6), (0, 7), (0, 5)];
    let count = |relation: &Relation| {
        (0..7).map(|at| related_to(relation, &trace, at)).collect::<Vec<_>>()
    };
    assert_eq!(count(&shared_reuse()), vec![0, 0, 0, 3, 0, 0, 3]);
    assert_eq!(count(&unshared_reuse()), vec![0, 0, 0, 0, 2, 1, 0]);
}

#[test]
fn sharers_are_the_threads_of_a_datum() {
    let trace = [(0, 5), (1, 6), (2, 5), (1, 5), (1, 6)];
    let threads = |at: usize| {
        let mut threads: Vec<u32> = pairs(&sharers(), &trace)
            .into_iter()
            .filter(|pair| pair.0 == at)
            .map(|pair| trace[pair.1].0)
            .collect();
        threads.sort_unstable();
        threads.dedup();
        threads
    };
    assert_eq!(threads(0), vec![0, 1, 2]);
    assert_eq!(threads(3), vec![0, 1, 2]);
    assert_eq!(threads(1), Vec::<u32>::new());
}

#[test]
fn the_second_run_is_the_steady_state() {
    let period = [(0, 1), (0, 2), (0, 1), (0, 3), (0, 2)];
    let repeated: Vec<(u32, i64)> = period.iter().copied().cycle().take(20).collect();
    let intervals: Vec<usize> =
        (0..20).map(|at| related_to(&sequential_reuse(), &repeated, at)).collect();
    assert_eq!(intervals[5..10], intervals[10..15]);
    assert_eq!(intervals[5..10], intervals[15..20]);
    assert_ne!(intervals[0..5], intervals[5..10]);
}

#[test]
fn walks_visit_the_timestamps_in_order() {
    let guard = IntegerSet {
        num_dims: 1,
        constraints: vec![Constraint {
            expr: AffineExpr::Add(Box::new(AffineExpr::Dim(0)), Box::new(AffineExpr::Constant(-9))),
            equality: false,
        }],
    };
    let mut second = load(1, &[0, 1]);
    let mut third = load(0, &[1]);
    for (at, access) in [&mut second, &mut third].into_iter().enumerate() {
        if let Tree::Access { site, .. } = access {
            *site = at + 1;
        }
    }
    let inner = loop_from(1, 1, 6, 2, Tree::Block(vec![
        second,
        Tree::If {
            condition: guard,
            operands: vec![ValID::IVar(0)],
            then_branch: Box::new(third),
            else_branch: None,
        },
    ]));
    let tree = loop_from(0, 3, 20, 4, Tree::Block(vec![load(0, &[0]), inner]));
    let failed = |error: autolala::quasi_affine::PlanError| -> Plan { panic!("{}", error.message()) };
    let stamps = get_timestamp_space(&tree).unwrap_or_else(failed);
    let data = get_access_map(&tree, 4, 1).unwrap_or_else(failed);
    assert_eq!(stamps.dim_count(), 4);
    let mut expected: Vec<Vec<i128>> = Vec::new();
    for a in -1..7 {
        for b in -1..4 {
            for c in -1..5 {
                for d in -1..4 {
                    let point = [a, b, c, d];
                    let padded = b != 0 || (c == 0 && d == 0);
                    if padded && related(&stamps, &point).is_some() {
                        expected.push(related(&data, &point).expect("an access"));
                    }
                }
            }
        }
    }
    let table = ReferenceTable::build(&tree).expect("has accesses");
    let mut cursor = Cursor::new(&tree, &table, Vec::new(), 4, None);
    let mut visited: Vec<Vec<i128>> = Vec::new();
    while let Some(access) = cursor.next_access().expect("walks") {
        let coords = access.data.coords;
        let memref = (0..2)
            .find(|id| table.memref_of(&ValID::Memref(*id)) .ok() == Some(access.data.memref))
            .expect("a known array");
        visited.push(vec![memref as i128, i128::from(coords[4]), i128::from(coords[5])]);
    }
    assert_eq!(visited.len(), 5 + 5 * 3 + 3 * 3);
    assert_eq!(visited, expected);
}

#[test]
fn private_intervals_are_those_of_the_model() {
    // for i in 0..6 { for j in 0..3 { A0[j]; A1[i][j] } }, the outer loop in
    // chunks of two over two threads.
    let mut second = load(1, &[0, 1]);
    if let Tree::Access { site, .. } = &mut second {
        *site = 1;
    }
    let inner = loop_from(1, 0, 3, 1, Tree::Block(vec![load(0, &[1]), second]));
    let tree = loop_from(0, 0, 6, 1, inner);
    let config = |parallel_depth| RunConfig {
        symbols: Vec::new(),
        block_size: 2,
        threads: 2,
        parallel_depth,
        chunk: ChunkSize::Fixed(2),
        scheduler: Scheduler::Uniform,
        seed: 3,
        binner: Binner::default(),
        track_distance: false,
    };
    let table = ReferenceTable::build(&tree).expect("has accesses");
    let mut cursor = Cursor::new(&tree, &table, Vec::new(), 2, None);
    let mut trace: Vec<(u32, i64)> = Vec::new();
    while let Some(access) = cursor.next_access().expect("walks") {
        let iteration = trace.len() as i64 / 6;
        let coords = access.data.coords;
        let datum = i64::from(access.data.memref.0) * 1000 + coords[4] * 10 + coords[5];
        trace.push(((iteration / 2 % 2) as u32, datum));
    }
    assert_eq!(trace.len(), 36);
    let count = |relation: &Relation| {
        let mut counts = std::collections::BTreeMap::new();
        for at in 0..trace.len() {
            let interval = related_to(relation, &trace, at) as u32;
            if interval > 0 {
                *counts.entry(interval).or_insert(0u64) += 1;
            }
        }
        counts.into_iter().collect::<Vec<_>>()
    };
    let sorted = |histogram: &autolala::measure::Histogram| {
        let mut items: Vec<(u32, u64)> = histogram.iter().map(|(k, v)| (*k, *v)).collect();
        items.sort_unstable();
        items
    };
    let parallel = run(&tree, &config(Some(0))).unwrap_or_else(|error| panic!("{}", error.message()));
    assert_eq!(sorted(parallel.pri()), count(&private_reuse()));
    let sequential = run(&tree, &config(None)).unwrap_or_else(|error| panic!("{}", error.message()));
    assert_eq!(sorted(sequential.cri()), count(&sequential_reuse()));
    assert_ne!(sorted(parallel.cri()), sorted(sequential.cri()));
}

#[test]
fn a_thread_behind_the_coordinates_keeps_the_order() {
    let points: Vec<Vec<i64>> = (0..4).flat_map(|a| (0..3).map(move |b| vec![a, b])).collect();
    for (i, left) in points.iter().enumerate() {
        for (j, right) in points.iter().enumerate() {
            let with_thread = |point: &Vec<i64>| {
                let mut longer = point.clone();
                longer.push(point[0] / 2 % 2);
                longer
            };
            assert_eq!(left < right, i < j);
            if i != j {
                assert_eq!(with_thread(left) < with_thread(right), left < right);
            }
        }
    }
}
