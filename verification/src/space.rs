//! What is done to the timestamps of a nest before reuse is counted.
//!
//! Parameters get lower bounds. A nest that is repeated forever is run twice,
//! with a new leading dimension for the run: the second run has a full period
//! of history and shows the steady state. A parallel loop gives the timestamps
//! the owning thread as a new last dimension.

use crate::parallel::{
    add_thread_dim, agreed, height, loops_at, resolve_spec, thread_rows_of, timestamp_dim_of_loop,
    trip_at, ParallelError, ParallelSpec, ThreadDim,
};
use crate::schedule::auto_chunk;
use crate::tree::Tree;
use vstd::prelude::*;

verus! {

/// The name of the dimension of the thread, which no loop can have.
pub const THREAD_DIM_NAME: &'static str = "__tid";

/// A loop to be run in parallel.
#[derive(Clone, Copy, Debug, PartialEq, Eq, Structural)]
pub struct ParallelLoop {
    /// Nesting level of the loop, outermost being zero.
    pub level: usize,
    pub threads: u32,
    /// The chunk size, where it is given.
    pub chunk: Option<i64>,
}

/// A condition `coefficient * value + constant` at least zero, or equal to
/// zero.
#[derive(Clone, Copy, Debug, PartialEq, Eq, Structural)]
pub struct Limit {
    pub coefficient: i32,
    pub constant: i32,
    pub equality: bool,
}

impl Limit {
    /// The condition holds of a value.
    pub open spec fn holds(self, value: int) -> bool {
        if self.equality {
            self.coefficient * value + self.constant == 0
        } else {
            self.coefficient * value + self.constant >= 0
        }
    }
}

/// What is done to the timestamps.
#[derive(Debug)]
pub struct SpacePlan {
    /// The conditions on the parameters, by position.
    pub params: Vec<Limit>,
    /// The conditions on the new leading dimension of a repeated nest.
    pub run: Vec<Limit>,
    /// The condition on the leading dimension of the timestamps that count.
    pub counted: Vec<Limit>,
    /// The parallel loop and the new last dimension.
    pub thread: Option<(ParallelSpec, ThreadDim)>,
}

/// Why the timestamps cannot be prepared.
#[derive(Clone, Copy, Debug, PartialEq, Eq, Structural)]
pub enum SpaceError {
    /// A lower bound whose negation does not fit.
    Bound { param: usize },
    /// A repeated nest with a parallel loop.
    RepeatedParallel,
    /// A loop that cannot be parallel.
    Parallel { error: ParallelError },
}

impl SpaceError {
    /// The message of an error.
    pub open spec fn text(self) -> Seq<char> {
        match self {
            SpaceError::Bound { .. } => "a symbol's lower bound is out of range"@,
            SpaceError::RepeatedParallel =>
                "--parallel-loop-depth and --infinite-repeat both prepend a timestamp dimension and have not been validated together"@,
            SpaceError::Parallel { error } => error.text(),
        }
    }

    /// The message of an error.
    pub fn message(self) -> (text: String)
        ensures
            text@ == self.text(),
    {
        let mut text: String = String::new();
        match self {
            SpaceError::Bound { .. } => {
                text.push_str("a symbol's lower bound is out of range");
            },
            SpaceError::RepeatedParallel => {
                text.push_str(
                    "--parallel-loop-depth and --infinite-repeat both prepend a timestamp dimension and have not been validated together",
                );
            },
            SpaceError::Parallel { error } => {
                return error.message();
            },
        }
        assert(text@ =~= self.text());
        text
    }
}

/// The first lower bound whose negation does not fit.
pub open spec fn first_bad_bound(bounds: Seq<i32>, at: int) -> Option<int>
    decreases bounds.len() - at,
{
    if at < 0 || at >= bounds.len() {
        None
    } else if bounds[at] == i32::MIN {
        Some(at)
    } else {
        first_bad_bound(bounds, at + 1)
    }
}

/// `value >= bound`.
pub open spec fn at_least(bound: i32) -> Limit {
    Limit { coefficient: 1, constant: (-bound) as i32, equality: false }
}

/// The conditions for two runs.
pub open spec fn two_runs() -> Seq<Limit> {
    seq![
        Limit { coefficient: 1, constant: 0, equality: false },
        Limit { coefficient: -1i32, constant: 1, equality: false },
    ]
}

/// The condition for the second run.
pub open spec fn second_run() -> Seq<Limit> {
    seq![Limit { coefficient: 1, constant: -1i32, equality: true }]
}

/// The schedule of a parallel loop.
pub open spec fn schedule_of(tree: Tree, parallel: ParallelLoop) -> Result<
    ParallelSpec,
    ParallelError,
> {
    let (loop_level, threads) = (parallel.level, parallel.threads);
    match parallel.chunk {
        Some(chunk) => Ok(ParallelSpec { loop_level, threads, chunk }),
        None => match trip_at(tree, 0, loop_level as nat) {
            Some(trip) => Ok(
                ParallelSpec {
                    loop_level,
                    threads,
                    chunk: auto_chunk(trip as int, threads as int) as i64,
                },
            ),
            None => Err(ParallelError::SymbolicBounds { level: loop_level }),
        },
    }
}

/// The timestamp dimension of the loops of a level.
pub open spec fn dim_of(tree: Tree, level: usize) -> Result<usize, ParallelError> {
    if height(tree) > usize::MAX {
        Err(ParallelError::TooDeep)
    } else {
        match agreed(None, loops_at(tree, 0, 0, level as nat)) {
            Ok(Some(depth)) => Ok(depth as usize),
            Ok(None) => Err(ParallelError::NoLoop { level }),
            Err((previous, depth)) => Err(
                ParallelError::NotUniform {
                    level,
                    previous: previous as usize,
                    depth: depth as usize,
                },
            ),
        }
    }
}

/// Why timestamps cannot be extended by the owning thread.
pub open spec fn extension_failure(dims: usize, spec: ParallelSpec) -> Option<ParallelError> {
    let (chunk, threads) = (spec.chunk, spec.threads as i64);
    if chunk <= 0 {
        Some(ParallelError::BadChunk { chunk })
    } else if threads < 1 {
        Some(ParallelError::NoThreads)
    } else if chunk * threads > i64::MAX {
        Some(ParallelError::StrideOverflow { chunk, threads })
    } else if chunk * threads > i32::MAX {
        Some(ParallelError::StrideTooLarge { chunk, threads })
    } else if dims == usize::MAX {
        Some(ParallelError::TooDeep)
    } else {
        None
    }
}

/// The schedule of a parallel loop and its timestamp dimension, or the first
/// failure.
pub open spec fn planned_thread(tree: Tree, dims: usize, parallel: ParallelLoop) -> Result<
    (ParallelSpec, usize),
    ParallelError,
> {
    match schedule_of(tree, parallel) {
        Err(error) => Err(error),
        Ok(spec) => match dim_of(tree, parallel.level) {
            Err(error) => Err(error),
            Ok(dim) => match extension_failure(dims, spec) {
                Some(error) => Err(error),
                None => Ok((spec, dim)),
            },
        },
    }
}

/// A plan extends timestamps of `dims` dimensions by the owning thread.
pub open spec fn extends_by_thread(
    thread: Option<(ParallelSpec, ThreadDim)>,
    dims: usize,
    spec: ParallelSpec,
    dim: usize,
) -> bool {
    &&& thread matches Some((planned, extension))
    &&& planned == spec
    &&& extension.iteration == dim
    &&& extension.thread == dims
    &&& extension.quotient == dims + 1
    &&& extension.rows@ == thread_rows_of(spec.threads as i32, spec.chunk as i32)
}

fn thread_of(tree: &Tree, dims: usize, parallel: ParallelLoop) -> (thread: Result<
    (ParallelSpec, ThreadDim),
    ParallelError,
>)
    requires
        parallel.threads > 0,
    ensures
        match planned_thread(*tree, dims, parallel) {
            Ok((spec, dim)) => thread matches Ok(pair) && extends_by_thread(
                Some(pair),
                dims,
                spec,
                dim,
            ),
            Err(error) => thread matches Err(found) && found == error,
        },
{
    let spec: ParallelSpec = match resolve_spec(
        tree,
        parallel.level,
        parallel.threads,
        parallel.chunk,
    ) {
        Ok(spec) => spec,
        Err(error) => {
            return Err(error);
        },
    };
    let dim: usize = match timestamp_dim_of_loop(tree, parallel.level) {
        Ok(dim) => dim,
        Err(error) => {
            return Err(error);
        },
    };
    match add_thread_dim(dims, dim, &spec) {
        Ok(extension) => Ok((spec, extension)),
        Err(error) => {
            assert(spec.chunk > 0 && spec.threads > i32::MAX ==> spec.chunk * spec.threads
                > i32::MAX) by (nonlinear_arith);
            Err(error)
        },
    }
}

/// What is done to the timestamps, or why it cannot be done.
pub open spec fn planned(
    plan: Result<SpacePlan, SpaceError>,
    tree: Tree,
    dims: usize,
    bounds: Seq<i32>,
    repeat: bool,
    parallel: Option<ParallelLoop>,
) -> bool {
    match first_bad_bound(bounds, 0) {
        Some(at) => plan matches Err(SpaceError::Bound { param }) && param == at,
        None => match parallel {
            Some(parallel) => if repeat {
                plan matches Err(SpaceError::RepeatedParallel)
            } else {
                match planned_thread(tree, dims, parallel) {
                    Err(error) => plan matches Err(SpaceError::Parallel { error: found }) && found
                        == error,
                    Ok((spec, dim)) => {
                        &&& plan matches Ok(plan)
                        &&& plan.params@ == bounds.map_values(|bound: i32| at_least(bound))
                        &&& plan.run@.len() == 0
                        &&& plan.counted@.len() == 0
                        &&& extends_by_thread(plan.thread, dims, spec, dim)
                    },
                }
            },
            None => {
                &&& plan matches Ok(plan)
                &&& plan.params@ == bounds.map_values(|bound: i32| at_least(bound))
                &&& plan.run@ == if repeat {
                    two_runs()
                } else {
                    Seq::empty()
                }
                &&& plan.counted@ == if repeat {
                    second_run()
                } else {
                    Seq::empty()
                }
                &&& plan.thread is None
            },
        },
    }
}

/// The conditions on the parameters, or the first that cannot be stated.
fn lower_bounds(bounds: &Vec<i32>) -> (limits: Result<Vec<Limit>, usize>)
    ensures
        match first_bad_bound(bounds@, 0) {
            Some(at) => limits matches Err(param) && param == at,
            None => limits matches Ok(limits) && limits@ == bounds@.map_values(
                |bound: i32| at_least(bound),
            ),
        },
{
    let mut limits: Vec<Limit> = Vec::new();
    let mut at: usize = 0;
    while at < bounds.len()
        invariant
            at <= bounds@.len(),
            limits@.len() == at,
            forall|i: int| 0 <= i < at ==> #[trigger] limits@[i] == at_least(bounds@[i]),
            first_bad_bound(bounds@, 0) == first_bad_bound(bounds@, at as int),
        decreases bounds@.len() - at,
    {
        if bounds[at] == i32::MIN {
            return Err(at);
        }
        limits.push(Limit { coefficient: 1, constant: -bounds[at], equality: false });
        at += 1;
    }
    assert(limits@ =~= bounds@.map_values(|bound: i32| at_least(bound)));
    Ok(limits)
}

/// Decides what is done to the timestamps of a tree, which have `dims`
/// dimensions: the parameters are at least the given bounds, the nest may be
/// repeated, and a loop may be parallel.
pub fn plan_space(
    tree: &Tree,
    dims: usize,
    bounds: &Vec<i32>,
    repeat: bool,
    parallel: Option<ParallelLoop>,
) -> (plan: Result<SpacePlan, SpaceError>)
    requires
        parallel matches Some(parallel) ==> parallel.threads > 0,
    ensures
        planned(plan, *tree, dims, bounds@, repeat, parallel),
{
    let params: Vec<Limit> = match lower_bounds(bounds) {
        Ok(params) => params,
        Err(param) => {
            return Err(SpaceError::Bound { param });
        },
    };
    let mut run: Vec<Limit> = Vec::new();
    let mut counted: Vec<Limit> = Vec::new();
    let thread: Option<(ParallelSpec, ThreadDim)> = match parallel {
        Some(parallel) => {
            if repeat {
                return Err(SpaceError::RepeatedParallel);
            }
            match thread_of(tree, dims, parallel) {
                Ok(thread) => Some(thread),
                Err(error) => {
                    return Err(SpaceError::Parallel { error });
                },
            }
        },
        None => None,
    };
    if repeat {
        run.push(Limit { coefficient: 1, constant: 0, equality: false });
        run.push(Limit { coefficient: -1, constant: 1, equality: false });
        counted.push(Limit { coefficient: 1, constant: -1, equality: true });
    }
    assert(repeat ==> run@ =~= two_runs() && counted@ =~= second_run());
    assert(!repeat ==> run@ =~= Seq::empty() && counted@ =~= Seq::empty());
    Ok(SpacePlan { params, run, counted, thread })
}

/// All conditions hold of a value.
pub open spec fn all_limits(limits: Seq<Limit>, value: int) -> bool {
    forall|i: int| 0 <= i < limits.len() ==> (#[trigger] limits[i]).holds(value)
}

/// A repeated nest is run exactly twice, and the timestamps that count are
/// those of the second run.
pub proof fn law_repeated_nest_runs_twice(value: int)
    ensures
        all_limits(two_runs(), value) <==> value == 0 || value == 1,
        all_limits(second_run(), value) <==> value == 1,
{
    let (low, high, second) = (two_runs()[0], two_runs()[1], second_run()[0]);
    assert(low == Limit { coefficient: 1, constant: 0, equality: false });
    assert(second == Limit { coefficient: 1, constant: -1i32, equality: true });
    assert(1 * value == value) by (nonlinear_arith);
    assert(low.holds(value) == (value >= 0));
    assert(high.holds(value) == (value <= 1)) by {
        assert(-1 * value == -value) by (nonlinear_arith);
    }
    assert(second.holds(value) == (value == 1));
    if value == 0 || value == 1 {
        assert forall|i: int| 0 <= i < two_runs().len() implies (#[trigger] two_runs()[i]).holds(
            value,
        ) by {
            assert(i == 0 || i == 1);
        }
    }
    if value == 1 {
        assert forall|i: int| 0 <= i < second_run().len() implies (
        #[trigger] second_run()[i]).holds(value) by {
            assert(i == 0);
        }
    }
}

/// A lower bound that can be stated holds of exactly the values from it on.
pub proof fn law_lower_bound_is_exact(bound: i32, value: int)
    requires
        bound > i32::MIN,
    ensures
        at_least(bound).holds(value) <==> value >= bound,
{
}

} // verus!
