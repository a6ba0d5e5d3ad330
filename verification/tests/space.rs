//! Preparing timestamps.

use autolala::parallel::ParallelSpec;
use autolala::space::{plan_space, ParallelLoop, SpaceError, SpacePlan, THREAD_DIM_NAME};
use autolala::tree::{AffineExpr, AffineMap, Tree, ValID};

fn bound(value: i64) -> AffineMap {
    AffineMap { num_dims: 0, results: vec![AffineExpr::Constant(value)] }
}

fn nest() -> Tree {
    Tree::For {
        lower_bound: bound(0),
        upper_bound: bound(10),
        lower_bound_operands: Vec::new(),
        upper_bound_operands: Vec::new(),
        step: 1,
        ivar: ValID::IVar(0),
        body: Box::new(Tree::Block(Vec::new())),
    }
}

fn plan(
    bounds: &[i32],
    repeat: bool,
    parallel: Option<ParallelLoop>,
) -> Result<SpacePlan, SpaceError> {
    plan_space(&nest(), 3, &bounds.to_vec(), repeat, parallel)
}

#[test]
fn parameters_get_lower_bounds() {
    let plan = plan(&[1, -5], false, None).expect("fits");
    let limits: Vec<(i32, i32, bool)> =
        plan.params.iter().map(|l| (l.coefficient, l.constant, l.equality)).collect();
    assert_eq!(limits, vec![(1, -1, false), (1, 5, false)]);
    assert!(plan.run.is_empty() && plan.counted.is_empty() && plan.thread.is_none());
}

#[test]
fn repeated_nests_run_twice_and_count_once() {
    let plan = plan(&[], true, None).expect("fits");
    let holds = |limits: &Vec<autolala::space::Limit>, value: i32| {
        limits.iter().all(|l| {
            let sum = l.coefficient * value + l.constant;
            if l.equality { sum == 0 } else { sum >= 0 }
        })
    };
    let runs: Vec<i32> = (-3..4).filter(|value| holds(&plan.run, *value)).collect();
    let counted: Vec<i32> = (-3..4).filter(|value| holds(&plan.counted, *value)).collect();
    assert_eq!((runs, counted), (vec![0, 1], vec![1]));
}

#[test]
fn parallel_loops_get_a_thread_dimension() {
    let parallel = ParallelLoop { level: 0, threads: 4, chunk: None };
    let plan = plan(&[], false, Some(parallel)).expect("fits");
    let (spec, dim) = plan.thread.expect("parallel");
    assert_eq!(spec, ParallelSpec { loop_level: 0, threads: 4, chunk: 3 });
    assert_eq!((dim.iteration, dim.thread, dim.quotient, dim.rows.len()), (0, 3, 4, 4));
    assert_eq!(THREAD_DIM_NAME, "__tid");
}

#[test]
fn spaces_that_cannot_be_prepared() {
    let error = |bounds: &[i32], repeat, parallel| {
        plan(bounds, repeat, parallel).expect_err("refused").message()
    };
    let parallel = |level, chunk| Some(ParallelLoop { level, threads: 4, chunk });
    assert_eq!(error(&[0, i32::MIN], false, None), "a symbol's lower bound is out of range");
    assert_eq!(
        error(&[], true, parallel(0, None)),
        "--parallel-loop-depth and --infinite-repeat both prepend a timestamp dimension and have \
         not been validated together"
    );
    assert_eq!(
        error(&[], false, parallel(2, Some(1))),
        "the loop nest has no loop at nesting level 2"
    );
    assert!(error(&[], false, parallel(2, None)).contains("has symbolic bounds"));
    assert_eq!(error(&[], false, parallel(0, Some(0))), "chunk size must be positive, got 0");
}
