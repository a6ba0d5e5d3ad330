//! Modeling one loop of a nest as parallel.
//!
//! Iterations go to threads by `schedule(static, chunk)`. The thread of an
//! iteration becomes one more dimension of the timestamps, and "same thread" an
//! equality on that dimension.

use crate::polyhedral::{counts_as_else, entered, plans, Plan, Purpose};
use crate::quasi_affine::ConvertedIVar;
use crate::schedule::{auto_chunk, ceil_div, owner, ChunkSize};
use crate::text::{decimal, push_decimal, push_signed, signed_decimal};
use crate::tree::{AffineExpr, AffineMap, Tree};
use crate::walk::trip_count;
use vstd::prelude::*;

verus! {

broadcast use vstd::std_specs::vec::axiom_vec_index_decreases;

/// Which loop is parallel, and how.
#[derive(Clone, Copy, Debug, PartialEq, Eq, Structural)]
pub struct ParallelSpec {
    /// Nesting level of the loop, outermost being zero.
    pub loop_level: usize,
    pub threads: u32,
    pub chunk: i64,
}

/// Why a loop cannot be modeled as parallel.
#[derive(Clone, Copy, Debug, PartialEq, Eq, Structural)]
pub enum ParallelError {
    /// Loops of the level have different timestamp dimensions.
    NotUniform { level: usize, previous: usize, depth: usize },
    /// There is no loop of the level.
    NoLoop { level: usize },
    /// The trip count is not known, and so no chunk size can be chosen.
    SymbolicBounds { level: usize },
    /// A chunk size that is not positive.
    BadChunk { chunk: i64 },
    /// No thread.
    NoThreads,
    /// A chunk size times a number of threads that does not fit.
    StrideOverflow { chunk: i64, threads: i64 },
    /// A chunk size times a number of threads of more than 32 bits.
    StrideTooLarge { chunk: i64, threads: i64 },
    /// More nesting than can be counted.
    TooDeep,
}

impl ParallelError {
    /// The message of an error.
    pub open spec fn text(self) -> Seq<char> {
        match self {
            ParallelError::NotUniform { level, previous, depth } => "loop level "@ + decimal(
                level as nat,
            ) + " appears at timestamp dimensions "@ + decimal(previous as nat) + " and "@
                + decimal(depth as nat)
                + "; the nest is not uniform enough to parallelize by level"@,
            ParallelError::NoLoop { level } => "the loop nest has no loop at nesting level "@
                + decimal(level as nat),
            ParallelError::SymbolicBounds { level } => "the loop at nesting level "@ + decimal(
                level as nat,
            )
                + " has symbolic bounds, so the default chunk `ceil(trip / threads)` cannot be resolved; pass --chunk explicitly"@,
            ParallelError::BadChunk { chunk } => "chunk size must be positive, got "@
                + signed_decimal(chunk as int),
            ParallelError::NoThreads => "thread count must be at least one"@,
            ParallelError::StrideOverflow { chunk, threads } => "chunk "@ + signed_decimal(
                chunk as int,
            ) + " times "@ + signed_decimal(threads as int) + " threads overflows"@,
            ParallelError::StrideTooLarge { chunk, threads } => "chunk "@ + signed_decimal(
                chunk as int,
            ) + " times "@ + signed_decimal(threads as int) + " threads does not fit isl's i32"@,
            ParallelError::TooDeep => "the loop nest is too deep"@,
        }
    }

    /// The message of an error.
    pub fn message(self) -> (text: String)
        ensures
            text@ == self.text(),
    {
        let mut text: String = String::new();
        match self {
            ParallelError::NotUniform { level, previous, depth } => {
                text.push_str("loop level ");
                push_decimal(&mut text, level as u64);
                text.push_str(" appears at timestamp dimensions ");
                push_decimal(&mut text, previous as u64);
                text.push_str(" and ");
                push_decimal(&mut text, depth as u64);
                text.push_str("; the nest is not uniform enough to parallelize by level");
            },
            ParallelError::NoLoop { level } => {
                text.push_str("the loop nest has no loop at nesting level ");
                push_decimal(&mut text, level as u64);
            },
            ParallelError::SymbolicBounds { level } => {
                text.push_str("the loop at nesting level ");
                push_decimal(&mut text, level as u64);
                text.push_str(
                    " has symbolic bounds, so the default chunk `ceil(trip / threads)` cannot be resolved; pass --chunk explicitly",
                );
            },
            ParallelError::BadChunk { chunk } => {
                text.push_str("chunk size must be positive, got ");
                push_signed(&mut text, chunk);
            },
            ParallelError::NoThreads => {
                text.push_str("thread count must be at least one");
            },
            ParallelError::StrideOverflow { chunk, threads } => {
                text.push_str("chunk ");
                push_signed(&mut text, chunk);
                text.push_str(" times ");
                push_signed(&mut text, threads);
                text.push_str(" threads overflows");
            },
            ParallelError::StrideTooLarge { chunk, threads } => {
                text.push_str("chunk ");
                push_signed(&mut text, chunk);
                text.push_str(" times ");
                push_signed(&mut text, threads);
                text.push_str(" threads does not fit isl's i32");
            },
            ParallelError::TooDeep => {
                text.push_str("the loop nest is too deep");
            },
        }
        assert(text@ =~= self.text());
        text
    }
}

/// The timestamp dimensions of the loops of a level, in tree order.
pub open spec fn loops_at(tree: Tree, depth: nat, level: nat, target: nat) -> Seq<nat>
    decreases tree, 0int,
{
    match tree {
        Tree::For { body, .. } => {
            let own: Seq<nat> = if level == target {
                seq![depth]
            } else {
                Seq::empty()
            };
            own + loops_at(*body, depth + 1, level + 1, target)
        },
        Tree::Block(stmts) => loops_at_from(stmts, 0, depth + 1, level, target),
        Tree::If { then_branch, else_branch, .. } => {
            let first = loops_at(*then_branch, depth, level, target);
            match else_branch {
                Some(otherwise) => first + loops_at(*otherwise, depth, level, target),
                None => first,
            }
        },
        Tree::Access { .. } => Seq::empty(),
    }
}

/// Those of the statements of a block from position `at` on.
pub open spec fn loops_at_from(
    stmts: Vec<Tree>,
    at: nat,
    depth: nat,
    level: nat,
    target: nat,
) -> Seq<nat>
    decreases stmts, stmts@.len() - at,
{
    if at >= stmts@.len() {
        Seq::empty()
    } else {
        loops_at(stmts[at as int], depth, level, target) + loops_at_from(
            stmts,
            at + 1,
            depth,
            level,
            target,
        )
    }
}

/// The one dimension of a list, given the one found before: the first that
/// differs from it is an error.
pub open spec fn agreed(found: Option<nat>, dims: Seq<nat>) -> Result<Option<nat>, (nat, nat)>
    decreases dims.len(),
{
    if dims.len() == 0 {
        Ok(found)
    } else {
        match found {
            Some(previous) => if previous != dims[0] {
                Err((previous, dims[0]))
            } else {
                agreed(found, dims.skip(1))
            },
            None => agreed(Some(dims[0]), dims.skip(1)),
        }
    }
}

proof fn lemma_agreed_concat(found: Option<nat>, left: Seq<nat>, right: Seq<nat>)
    ensures
        agreed(found, left + right) == match agreed(found, left) {
            Err(error) => Err(error),
            Ok(found) => agreed(found, right),
        },
    decreases left.len(),
{
    if left.len() == 0 {
        assert(left + right =~= right);
    } else {
        assert((left + right).skip(1) =~= left.skip(1) + right);
        match found {
            Some(previous) => {
                if previous == left[0] {
                    lemma_agreed_concat(found, left.skip(1), right);
                }
            },
            None => {
                lemma_agreed_concat(Some(left[0]), left.skip(1), right);
            },
        }
    }
}

proof fn lemma_agreed_one(found: Option<nat>, depth: nat)
    ensures
        agreed(found, seq![depth]) == match found {
            Some(previous) => if previous != depth {
                Err::<Option<nat>, (nat, nat)>((previous, depth))
            } else {
                Ok(found)
            },
            None => Ok(Some(depth)),
        },
{
    assert(seq![depth].skip(1) =~= Seq::empty());
    assert(agreed(Some(depth), Seq::empty()) == Ok::<Option<nat>, (nat, nat)>(Some(depth)));
    reveal_with_fuel(agreed, 2);
}

/// How deep a tree is, in timestamp dimensions.
pub open spec fn height(tree: Tree) -> nat
    decreases tree, 0int,
{
    match tree {
        Tree::For { body, .. } => height(*body) + 1,
        Tree::Block(stmts) => height_from(stmts, 0) + 1,
        Tree::If { then_branch, else_branch, .. } => {
            let first = height(*then_branch);
            match else_branch {
                Some(otherwise) => if height(*otherwise) > first {
                    height(*otherwise)
                } else {
                    first
                },
                None => first,
            }
        },
        Tree::Access { .. } => 0,
    }
}

pub open spec fn height_from(stmts: Vec<Tree>, at: nat) -> nat
    decreases stmts, stmts@.len() - at,
{
    if at >= stmts@.len() {
        0
    } else {
        let (own, rest) = (height(stmts[at as int]), height_from(stmts, at + 1));
        if own > rest {
            own
        } else {
            rest
        }
    }
}

proof fn lemma_height_from(stmts: Vec<Tree>, from: nat, at: int)
    requires
        from <= at < stmts@.len(),
    ensures
        height(stmts[at]) <= height_from(stmts, from),
    decreases at - from,
{
    if from < at {
        lemma_height_from(stmts, from + 1, at);
    }
}

/// What was found, as numbers.
spec fn as_nat(found: Option<usize>) -> Option<nat> {
    match found {
        Some(depth) => Some(depth as nat),
        None => None,
    }
}

fn search(
    tree: &Tree,
    depth: usize,
    level: usize,
    target: usize,
    found: Option<usize>,
) -> (result: Result<Option<usize>, ParallelError>)
    requires
        depth + height(*tree) <= usize::MAX,
        level <= depth,
    ensures
        match agreed(as_nat(found), loops_at(*tree, depth as nat, level as nat, target as nat)) {
            Ok(expected) => result matches Ok(result) && as_nat(result) == expected,
            Err((previous, other)) => result matches Err(
                ParallelError::NotUniform { level: l, previous: p, depth: d },
            ) && l == target && p == previous && d == other,
        },
    decreases *tree,
{
    match tree {
        Tree::For { body, .. } => {
            let ghost inner = loops_at(
                **body,
                (depth + 1) as nat,
                (level + 1) as nat,
                target as nat,
            );
            let mut next: Option<usize> = found;
            if level == target {
                proof {
                    lemma_agreed_concat(as_nat(found), seq![depth as nat], inner);
                    lemma_agreed_one(as_nat(found), depth as nat);
                }
                match found {
                    Some(previous) => {
                        if previous != depth {
                            return Err(
                                ParallelError::NotUniform { level: target, previous, depth },
                            );
                        }
                    },
                    None => {
                        next = Some(depth);
                    },
                }
            } else {
                assert(Seq::<nat>::empty() + inner =~= inner);
            }
            search(body, depth + 1, level + 1, target, next)
        },
        Tree::Block(stmts) => {
            let mut next: Option<usize> = found;
            let mut at: usize = 0;
            while at < stmts.len()
                invariant
                    at <= stmts@.len(),
                    *tree == Tree::Block(*stmts),
                    depth + height(*tree) <= usize::MAX,
                    level <= depth,
                    agreed(
                        as_nat(found),
                        loops_at(*tree, depth as nat, level as nat, target as nat),
                    ) == agreed(
                        as_nat(next),
                        loops_at_from(
                            *stmts,
                            at as nat,
                            (depth + 1) as nat,
                            level as nat,
                            target as nat,
                        ),
                    ),
                decreases stmts@.len() - at,
            {
                proof {
                    assert(tree->Block_0 == *stmts);
                    assert(decreases_to!(*tree => tree->Block_0));
                    assert(decreases_to!(*stmts => stmts@[at as int]));
                    lemma_height_from(*stmts, 0, at as int);
                    lemma_agreed_concat(
                        as_nat(next),
                        loops_at(stmts[at as int], (depth + 1) as nat, level as nat, target as nat),
                        loops_at_from(
                            *stmts,
                            (at + 1) as nat,
                            (depth + 1) as nat,
                            level as nat,
                            target as nat,
                        ),
                    );
                }
                match search(&stmts[at], depth + 1, level, target, next) {
                    Ok(result) => {
                        next = result;
                    },
                    Err(error) => {
                        return Err(error);
                    },
                }
                at += 1;
            }
            Ok(next)
        },
        Tree::If { then_branch, else_branch, .. } => {
            let next: Option<usize> = match search(then_branch, depth, level, target, found) {
                Ok(next) => next,
                Err(error) => {
                    proof {
                        if let Some(otherwise) = else_branch {
                            lemma_agreed_concat(
                                as_nat(found),
                                loops_at(**then_branch, depth as nat, level as nat, target as nat),
                                loops_at(**otherwise, depth as nat, level as nat, target as nat),
                            );
                        }
                    }
                    return Err(error);
                },
            };
            match else_branch {
                Some(otherwise) => {
                    proof {
                        lemma_agreed_concat(
                            as_nat(found),
                            loops_at(**then_branch, depth as nat, level as nat, target as nat),
                            loops_at(**otherwise, depth as nat, level as nat, target as nat),
                        );
                    }
                    search(otherwise, depth, level, target, next)
                },
                None => Ok(next),
            }
        },
        Tree::Access { .. } => Ok(found),
    }
}

/// The height of a tree, if it can be counted.
fn height_of(tree: &Tree) -> (result: Option<usize>)
    ensures
        match result {
            Some(result) => result == height(*tree),
            None => height(*tree) > usize::MAX,
        },
    decreases *tree,
{
    match tree {
        Tree::For { body, .. } => match height_of(body) {
            Some(inner) => inner.checked_add(1),
            None => None,
        },
        Tree::Block(stmts) => {
            let mut at: usize = stmts.len();
            let mut largest: usize = 0;
            while at > 0
                invariant
                    at <= stmts@.len(),
                    *tree == Tree::Block(*stmts),
                    largest == height_from(*stmts, at as nat),
                decreases at,
            {
                at -= 1;
                assert(tree->Block_0 == *stmts);
                assert(decreases_to!(*tree => tree->Block_0));
                assert(decreases_to!(*stmts => stmts@[at as int]));
                match height_of(&stmts[at]) {
                    Some(own) => {
                        if own > largest {
                            largest = own;
                        }
                    },
                    None => {
                        proof {
                            lemma_height_from(*stmts, 0, at as int);
                        }
                        return None;
                    },
                }
            }
            largest.checked_add(1)
        },
        Tree::If { then_branch, else_branch, .. } => {
            let first: usize = match height_of(then_branch) {
                Some(first) => first,
                None => {
                    return None;
                },
            };
            match else_branch {
                Some(otherwise) => match height_of(otherwise) {
                    Some(second) => Some(
                        if second > first {
                            second
                        } else {
                            first
                        },
                    ),
                    None => None,
                },
                None => Some(first),
            }
        },
        Tree::Access { .. } => Some(0),
    }
}

/// The timestamp dimension of the loops of a level.
///
/// Blocks take up dimensions just as loops do, so a nesting level is not a
/// dimension.
pub fn timestamp_dim_of_loop(tree: &Tree, loop_level: usize) -> (dim: Result<usize, ParallelError>)
    ensures
        if height(*tree) > usize::MAX {
            dim == Err::<usize, ParallelError>(ParallelError::TooDeep)
        } else {
            match agreed(None, loops_at(*tree, 0, 0, loop_level as nat)) {
                Ok(Some(depth)) => dim matches Ok(dim) && dim == depth,
                Ok(None) => dim == Err::<usize, ParallelError>(
                    ParallelError::NoLoop { level: loop_level },
                ),
                Err((previous, depth)) => dim matches Err(
                    ParallelError::NotUniform { level, previous: p, depth: d },
                ) && level == loop_level && p == previous && d == depth,
            }
        },
{
    if height_of(tree).is_none() {
        return Err(ParallelError::TooDeep);
    }
    match search(tree, 0, 0, loop_level, None) {
        Ok(Some(dim)) => Ok(dim),
        Ok(None) => Err(ParallelError::NoLoop { level: loop_level }),
        Err(error) => Err(error),
    }
}

/// The value of a bound whose first result is a constant.
pub open spec fn constant_bound(map: AffineMap) -> Option<i64> {
    if map.results@.len() == 0 {
        None
    } else {
        match map.results@[0] {
            AffineExpr::Constant(value) => Some(value),
            _ => None,
        }
    }
}

/// The trip count of a loop with constant bounds, if it fits.
pub open spec fn constant_trip(lower_bound: AffineMap, upper_bound: AffineMap, step: i64) -> Option<
    i64,
> {
    match (constant_bound(lower_bound), constant_bound(upper_bound)) {
        (Some(lower), Some(upper)) => if step <= 0 || trip_count(
            lower as int,
            upper as int,
            step as int,
        ) > i64::MAX {
            None
        } else {
            Some(trip_count(lower as int, upper as int, step as int) as i64)
        },
        _ => None,
    }
}

/// The trip count of the first loop of a level that has constant bounds.
pub open spec fn trip_at(tree: Tree, level: nat, target: nat) -> Option<i64>
    decreases tree, 0int,
{
    match tree {
        Tree::For { lower_bound, upper_bound, step, body, .. } => if level == target {
            constant_trip(lower_bound, upper_bound, step)
        } else {
            trip_at(*body, level + 1, target)
        },
        Tree::Block(stmts) => trip_at_from(stmts, 0, level, target),
        Tree::If { then_branch, else_branch, .. } => match trip_at(*then_branch, level, target) {
            Some(trip) => Some(trip),
            None => match else_branch {
                Some(otherwise) => trip_at(*otherwise, level, target),
                None => None,
            },
        },
        Tree::Access { .. } => None,
    }
}

pub open spec fn trip_at_from(stmts: Vec<Tree>, at: nat, level: nat, target: nat) -> Option<i64>
    decreases stmts, stmts@.len() - at,
{
    if at >= stmts@.len() {
        None
    } else {
        match trip_at(stmts[at as int], level, target) {
            Some(trip) => Some(trip),
            None => trip_at_from(stmts, at + 1, level, target),
        }
    }
}

fn bound_value(map: &AffineMap) -> (value: Option<i64>)
    ensures
        value == constant_bound(*map),
{
    if map.results.len() == 0 {
        return None;
    }
    match &map.results[0] {
        AffineExpr::Constant(value) => Some(*value),
        _ => None,
    }
}

fn trip_search(tree: &Tree, level: usize, target: usize) -> (trip: Option<i64>)
    requires
        level <= target,
    ensures
        trip == trip_at(*tree, level as nat, target as nat),
    decreases *tree,
{
    match tree {
        Tree::For { lower_bound, upper_bound, step, body, .. } => {
            if level == target {
                let (lower, upper): (i64, i64) = match (
                    bound_value(lower_bound),
                    bound_value(upper_bound),
                ) {
                    (Some(lower), Some(upper)) => (lower, upper),
                    _ => {
                        return None;
                    },
                };
                if *step <= 0 {
                    return None;
                }
                let count: i128 = ceil_div(upper as i128 - lower as i128, *step as i128);
                if count < 0 {
                    return Some(0);
                }
                if count > i64::MAX as i128 {
                    return None;
                }
                return Some(count as i64);
            }
            trip_search(body, level + 1, target)
        },
        Tree::Block(stmts) => {
            let mut at: usize = 0;
            while at < stmts.len()
                invariant
                    at <= stmts@.len(),
                    level <= target,
                    *tree == Tree::Block(*stmts),
                    trip_at(*tree, level as nat, target as nat) == trip_at_from(
                        *stmts,
                        at as nat,
                        level as nat,
                        target as nat,
                    ),
                decreases stmts@.len() - at,
            {
                assert(tree->Block_0 == *stmts);
                assert(decreases_to!(*tree => tree->Block_0));
                assert(decreases_to!(*stmts => stmts@[at as int]));
                match trip_search(&stmts[at], level, target) {
                    Some(trip) => {
                        return Some(trip);
                    },
                    None => {},
                }
                at += 1;
            }
            None
        },
        Tree::If { then_branch, else_branch, .. } => match trip_search(then_branch, level, target) {
            Some(trip) => Some(trip),
            None => match else_branch {
                Some(otherwise) => trip_search(otherwise, level, target),
                None => None,
            },
        },
        Tree::Access { .. } => None,
    }
}

/// The trip count of a loop whose bounds are constants. `None` for other
/// bounds.
pub fn constant_trip_count(tree: &Tree, loop_level: usize) -> (trip: Option<i64>)
    ensures
        trip == trip_at(*tree, 0, loop_level as nat),
{
    trip_search(tree, 0, loop_level)
}

/// The parallel loop's schedule: the given chunk size, or otherwise contiguous
/// blocks, for which the trip count has to be known.
pub fn resolve_spec(tree: &Tree, loop_level: usize, threads: u32, chunk: Option<i64>) -> (spec: Result<
    ParallelSpec,
    ParallelError,
>)
    requires
        threads > 0,
    ensures
        match chunk {
            Some(chunk) => spec == Ok::<ParallelSpec, ParallelError>(
                ParallelSpec { loop_level, threads, chunk },
            ),
            None => match trip_at(*tree, 0, loop_level as nat) {
                Some(trip) => spec matches Ok(spec) && spec.loop_level == loop_level && spec.threads
                    == threads && spec.chunk == auto_chunk(trip as int, threads as int),
                None => spec == Err::<ParallelSpec, ParallelError>(
                    ParallelError::SymbolicBounds { level: loop_level },
                ),
            },
        },
{
    match chunk {
        Some(chunk) => Ok(ParallelSpec { loop_level, threads, chunk }),
        None => match constant_trip_count(tree, loop_level) {
            Some(trip) => {
                let chunk: i64 = ChunkSize::Auto.resolve(trip, threads as i64);
                Ok(ParallelSpec { loop_level, threads, chunk })
            },
            None => Err(ParallelError::SymbolicBounds { level: loop_level }),
        },
    }
}

/// An inequality over the parallel loop's dimension `k`, the thread `tid` and a
/// quotient `q`: `iteration * k + thread * tid + quotient * q + constant >= 0`.
#[derive(Clone, Copy, Debug, PartialEq, Eq, Structural)]
pub struct ThreadRow {
    pub iteration: i32,
    pub thread: i32,
    pub quotient: i32,
    pub constant: i32,
}

impl ThreadRow {
    /// The inequality holds.
    pub open spec fn holds(self, k: int, tid: int, q: int) -> bool {
        self.iteration * k + self.thread * tid + self.quotient * q + self.constant >= 0
    }
}

/// `0 <= tid < threads` and `0 <= k - chunk * threads * q - chunk * tid < chunk`.
pub open spec fn thread_rows_of(threads: i32, chunk: i32) -> Seq<ThreadRow> {
    let stride = (chunk * threads) as i32;
    seq![
        ThreadRow { iteration: 0, thread: 1, quotient: 0, constant: 0 },
        ThreadRow {
            iteration: 0,
            thread: (-1) as i32,
            quotient: 0,
            constant: (threads - 1) as i32,
        },
        ThreadRow {
            iteration: 1,
            thread: (-chunk) as i32,
            quotient: (-stride) as i32,
            constant: 0,
        },
        ThreadRow {
            iteration: (-1) as i32,
            thread: chunk,
            quotient: stride,
            constant: (chunk - 1) as i32,
        },
    ]
}

/// All inequalities hold.
pub open spec fn rows_hold(rows: Seq<ThreadRow>, k: int, tid: int, q: int) -> bool {
    forall|i: int| 0 <= i < rows.len() ==> (#[trigger] rows[i]).holds(k, tid, q)
}

/// The dimensions and inequalities that make a new dimension of the timestamps
/// the owning thread.
#[derive(Debug)]
pub struct ThreadDim {
    /// The dimension of the parallel loop, `k`.
    pub iteration: usize,
    /// The new dimension of the thread, `tid`, behind all others: the order of
    /// the timestamps stays that of the program.
    pub thread: usize,
    /// One more new dimension, for the quotient `q`, that is projected out
    /// afterwards.
    pub quotient: usize,
    pub rows: Vec<ThreadRow>,
}

/// Appends the owning thread to timestamps of `dims` dimensions.
pub fn add_thread_dim(dims: usize, ts_dim: usize, spec: &ParallelSpec) -> (extended: Result<
    ThreadDim,
    ParallelError,
>)
    ensures
        ({
            let (chunk, threads) = (spec.chunk as int, spec.threads as int);
            match extended {
                Ok(extended) => {
                    &&& 0 < chunk
                    &&& 0 < threads <= i32::MAX
                    &&& chunk * threads <= i32::MAX
                    &&& extended.iteration == ts_dim
                    &&& extended.thread == dims
                    &&& extended.quotient == dims + 1
                    &&& extended.rows@ == thread_rows_of(threads as i32, chunk as i32)
                },
                Err(error) => error == if chunk <= 0 {
                    ParallelError::BadChunk { chunk: spec.chunk }
                } else if threads < 1 {
                    ParallelError::NoThreads
                } else if chunk * threads > i64::MAX {
                    ParallelError::StrideOverflow {
                        chunk: spec.chunk,
                        threads: spec.threads as i64,
                    }
                } else if chunk * threads > i32::MAX || threads > i32::MAX {
                    ParallelError::StrideTooLarge {
                        chunk: spec.chunk,
                        threads: spec.threads as i64,
                    }
                } else {
                    ParallelError::TooDeep
                } && (error is TooDeep ==> dims == usize::MAX),
            }
        }),
{
    if spec.chunk <= 0 {
        return Err(ParallelError::BadChunk { chunk: spec.chunk });
    }
    if spec.threads < 1 {
        return Err(ParallelError::NoThreads);
    }
    let threads: i64 = spec.threads as i64;
    let stride: i64 = match spec.chunk.checked_mul(threads) {
        Some(stride) => stride,
        None => {
            assert(spec.chunk * threads > 0) by (nonlinear_arith)
                requires
                    spec.chunk > 0,
                    threads > 0,
            ;
            return Err(ParallelError::StrideOverflow { chunk: spec.chunk, threads });
        },
    };
    if stride > i32::MAX as i64 || threads > i32::MAX as i64 {
        return Err(ParallelError::StrideTooLarge { chunk: spec.chunk, threads });
    }
    assert(spec.chunk <= stride) by (nonlinear_arith)
        requires
            stride == spec.chunk * threads,
            spec.chunk > 0,
            threads >= 1,
    ;
    let (t, c, s): (i32, i32, i32) = (threads as i32, spec.chunk as i32, stride as i32);
    let mut rows: Vec<ThreadRow> = Vec::new();
    rows.push(ThreadRow { iteration: 0, thread: 1, quotient: 0, constant: 0 });
    rows.push(ThreadRow { iteration: 0, thread: -1, quotient: 0, constant: t - 1 });
    rows.push(ThreadRow { iteration: 1, thread: -c, quotient: -s, constant: 0 });
    rows.push(ThreadRow { iteration: -1, thread: c, quotient: s, constant: c - 1 });
    assert(rows@ =~= thread_rows_of(t, c));
    if dims == usize::MAX {
        return Err(ParallelError::TooDeep);
    }
    Ok(ThreadDim { iteration: ts_dim, thread: dims, quotient: dims + 1, rows })
}

/// What the four inequalities say.
proof fn lemma_thread_rows(threads: i32, chunk: i32, k: int, tid: int, q: int)
    requires
        chunk > 0,
        threads > 0,
        chunk * threads <= i32::MAX,
    ensures
        ({
            let rows = thread_rows_of(threads, chunk);
            let rest = k - (chunk * threads) * q - chunk * tid;
            &&& rows[0].holds(k, tid, q) <==> tid >= 0
            &&& rows[1].holds(k, tid, q) <==> tid < threads
            &&& rows[2].holds(k, tid, q) <==> rest >= 0
            &&& rows[3].holds(k, tid, q) <==> rest < chunk
        }),
{
    let rows = thread_rows_of(threads, chunk);
    let stride = chunk * threads;
    assert(stride > 0) by (nonlinear_arith)
        requires
            stride == chunk * threads,
            chunk > 0,
            threads > 0,
    ;
    assert(0 * k == 0 && 0 * q == 0 && 1 * tid == tid && 1 * k == k) by (nonlinear_arith);
    assert((-1) * tid == -tid && (-1) * k == -k) by (nonlinear_arith);
    assert((-chunk) * tid == -(chunk * tid) && (-stride) * q == -(stride * q)) by (nonlinear_arith);
    assert(rows[2].thread == -chunk && rows[2].quotient == -stride);
    assert(rows[3].thread == chunk && rows[3].quotient == stride);
}

/// Some quotient satisfies the inequalities exactly when the thread owns the
/// iteration.
pub proof fn law_thread_rows_give_the_owner(k: int, tid: int, chunk: i32, threads: i32)
    requires
        k >= 0,
        chunk > 0,
        threads > 0,
        chunk * threads <= i32::MAX,
    ensures
        (exists|q: int|
            rows_hold(thread_rows_of(threads, chunk), k, tid, q))
            <==> tid == owner(k, chunk as int, threads as int),
{
    let (c, t) = (chunk as int, threads as int);
    let stride = c * t;
    assert(stride > 0) by (nonlinear_arith)
        requires
            stride == c * t,
            c > 0,
            t > 0,
    ;
    let rows = thread_rows_of(threads, chunk);
    vstd::arithmetic::div_mod::lemma_fundamental_div_mod(k, c);
    let (m, offset) = (k / c, k % c);
    assert(m >= 0) by (nonlinear_arith)
        requires
            k == c * m + offset,
            0 <= offset < c,
            k >= 0,
    ;
    vstd::arithmetic::div_mod::lemma_fundamental_div_mod(m, t);
    let (q0, owned) = (m / t, m % t);
    if tid == owned {
        // k = c * (t * q0 + tid) + offset
        assert(k - stride * q0 - c * tid == offset) by (nonlinear_arith)
            requires
                k == c * m + offset,
                m == t * q0 + tid,
                stride == c * t,
        ;
        assert forall|i: int| 0 <= i < rows.len() implies (#[trigger] rows[i]).holds(k, tid, q0) by {
            lemma_thread_rows(threads, chunk, k, tid, q0);
        }
        assert(rows_hold(rows, k, tid, q0));
    }
    if exists|q: int| rows_hold(rows, k, tid, q) {
        let q = choose|q: int| rows_hold(rows, k, tid, q);
        lemma_thread_rows(threads, chunk, k, tid, q);
        assert(rows[0].holds(k, tid, q));
        assert(rows[1].holds(k, tid, q));
        assert(rows[2].holds(k, tid, q));
        assert(rows[3].holds(k, tid, q));
        let rest = k - stride * q - c * tid;
        assert(0 <= rest < c);
        // k = c * (t * q + tid) + rest
        let n = t * q + tid;
        assert(k == n * c + rest) by (nonlinear_arith)
            requires
                rest == k - stride * q - c * tid,
                n == t * q + tid,
                stride == c * t,
        ;
        vstd::arithmetic::div_mod::lemma_fundamental_div_mod_converse(k, c, n, rest);
        assert(m == n);
        assert(m == q * t + tid) by (nonlinear_arith)
            requires
                m == t * q + tid,
        ;
        vstd::arithmetic::div_mod::lemma_fundamental_div_mod_converse(m, t, q, tid);
    }
}

/// The dimensions of the loops of a level in a plan, in order.
pub open spec fn plan_loops_at(plan: Plan, level: nat, target: nat) -> Seq<nat>
    decreases plan, 0int,
{
    match plan {
        Plan::Loop { dim, body, .. } => {
            let own: Seq<nat> = if level == target {
                seq![dim as nat]
            } else {
                Seq::empty()
            };
            own + plan_loops_at(*body, level + 1, target)
        },
        Plan::Block { parts, .. } => plan_loops_from(parts, 0, level, target),
        Plan::Branch { then_part, else_part, .. } => plan_loops_at(*then_part, level, target)
            + plan_loops_at(*else_part, level, target),
        _ => Seq::empty(),
    }
}

pub open spec fn plan_loops_from(parts: Vec<Plan>, at: nat, level: nat, target: nat) -> Seq<nat>
    decreases parts, parts@.len() - at,
{
    if at >= parts@.len() {
        Seq::empty()
    } else {
        plan_loops_at(parts[at as int], level, target) + plan_loops_from(
            parts,
            at + 1,
            level,
            target,
        )
    }
}

/// The dimension that is searched for by nesting level is the dimension of that
/// loop in the timestamps.
pub proof fn law_parallel_dimension_is_the_loops(
    plan: Plan,
    tree: Tree,
    depth: usize,
    loops: Seq<ConvertedIVar>,
    purpose: Purpose,
    target: nat,
)
    requires
        plans(plan, tree, depth, loops, purpose),
        depth + height(tree) <= usize::MAX,
    ensures
        plan_loops_at(plan, loops.len(), target) == loops_at(
            tree,
            depth as nat,
            loops.len(),
            target,
        ),
    decreases tree, 0int,
{
    match tree {
        Tree::For { lower_bound, lower_bound_operands, step, body, .. } => {
            let ivar = entered(&lower_bound, &lower_bound_operands, step, depth);
            law_parallel_dimension_is_the_loops(
                *plan->Loop_body,
                *body,
                (depth + 1) as usize,
                loops.push(ivar),
                purpose,
                target,
            );
            let level = loops.len();
            let own: Seq<nat> = if level == target {
                seq![depth as nat]
            } else {
                Seq::empty()
            };
            assert(loops.push(ivar).len() == level + 1);
            assert(plan_loops_at(plan, level, target) == own + plan_loops_at(
                *plan->Loop_body,
                level + 1,
                target,
            ));
            assert(loops_at(tree, depth as nat, level, target) == own + loops_at(
                *body,
                (depth + 1) as nat,
                level + 1,
                target,
            ));
        },
        Tree::Block(stmts) => {
            if stmts@.len() > 0 {
                lemma_block_loops(plan->parts, stmts, 0, depth, loops, purpose, target);
            } else {
                assert(loops_at_from(stmts, 0, (depth + 1) as nat, loops.len(), target)
                    =~= Seq::empty());
                assert(plan_loops_at(plan, loops.len(), target) =~= loops_at(
                    tree,
                    depth as nat,
                    loops.len(),
                    target,
                ));
            }
        },
        Tree::Access { .. } => {},
        Tree::If { then_branch, else_branch, .. } => {
            law_parallel_dimension_is_the_loops(
                *plan->then_part,
                *then_branch,
                depth,
                loops,
                purpose,
                target,
            );
            let first = loops_at(*then_branch, depth as nat, loops.len(), target);
            match else_branch {
                Some(otherwise) => {
                    if counts_as_else(*otherwise) {
                        law_parallel_dimension_is_the_loops(
                            *plan->else_part,
                            *otherwise,
                            depth,
                            loops,
                            purpose,
                            target,
                        );
                    } else {
                        let stmts = otherwise->Block_0;
                        assert(loops_at_from(
                            stmts,
                            0,
                            (depth + 1) as nat,
                            loops.len(),
                            target,
                        ) =~= Seq::empty());
                        assert(loops_at(*otherwise, depth as nat, loops.len(), target)
                            =~= Seq::empty());
                        assert(plan_loops_at(*plan->else_part, loops.len(), target)
                            =~= Seq::empty());
                    }
                },
                None => {
                    assert(plan_loops_at(*plan->else_part, loops.len(), target) =~= Seq::empty());
                    assert(first + Seq::empty() =~= first);
                },
            }
        },
    }
}

proof fn lemma_block_loops(
    parts: Vec<Plan>,
    stmts: Vec<Tree>,
    at: nat,
    depth: usize,
    loops: Seq<ConvertedIVar>,
    purpose: Purpose,
    target: nat,
)
    requires
        parts@.len() == stmts@.len(),
        depth + 1 + height_from(stmts, 0) <= usize::MAX,
        forall|i: int|
            0 <= i < stmts@.len() ==> plans(
                #[trigger] parts[i],
                stmts[i],
                (depth + 1) as usize,
                loops,
                purpose,
            ),
    ensures
        plan_loops_from(parts, at, loops.len(), target) == loops_at_from(
            stmts,
            at,
            (depth + 1) as nat,
            loops.len(),
            target,
        ),
    decreases stmts, stmts@.len() - at,
{
    if at < stmts@.len() {
        lemma_height_from(stmts, 0, at as int);
        assert(plans(parts[at as int], stmts[at as int], (depth + 1) as usize, loops, purpose));
        law_parallel_dimension_is_the_loops(
            parts[at as int],
            stmts[at as int],
            (depth + 1) as usize,
            loops,
            purpose,
            target,
        );
        lemma_block_loops(parts, stmts, at + 1, depth, loops, purpose, target);
    }
}

/// How the dilation of a reuse window that no sharer cuts short is distributed.
#[derive(Clone, Copy, Debug, PartialEq, Eq, Structural)]
pub enum DilationLaw {
    /// A negative binomial, and a point mass for long windows.
    NegativeBinomial,
    /// A shifted Gamma.
    Gamma,
    /// The negative binomial for short windows and the Gamma for long ones.
    Hybrid,
    /// The continuous negative binomial.
    Beta,
}

/// What a reuse interval becomes when the threads interleave.
#[derive(Clone, Copy, Debug, PartialEq, Eq, Structural)]
pub enum Expansion {
    /// Nothing: it has no weight.
    Nothing,
    /// Itself.
    Unchanged,
    /// The racetrack law: sharers split the dilated window.
    Racetrack { sharers: u32 },
    Gamma,
    Beta,
    NegativeBinomial,
    /// A point mass at the window times the number of threads.
    PointMass,
}

/// The law for a reuse.
///
/// `positive_weight` and `positive_interval` say that the weight and the
/// interval are above zero, `sharers` is the number of threads that touch the
/// datum where more than one does, `covers_lap` says that the window, spread
/// across the sharers, covers a traversal of the shared data, and `short` that
/// it is at most the bound for short windows.
pub open spec fn law_for(
    positive_weight: bool,
    positive_interval: bool,
    threads: u32,
    sharers: Option<u32>,
    covers_lap: bool,
    short: bool,
    dilation: DilationLaw,
) -> Expansion {
    if !positive_weight {
        Expansion::Nothing
    } else if !positive_interval || threads < 2 {
        Expansion::Unchanged
    } else if sharers matches Some(sharers) && sharers >= 2 && covers_lap {
        Expansion::Racetrack { sharers: sharers->0 }
    } else {
        match dilation {
            DilationLaw::Gamma => Expansion::Gamma,
            DilationLaw::Beta => Expansion::Beta,
            DilationLaw::Hybrid => if short {
                Expansion::NegativeBinomial
            } else {
                Expansion::Gamma
            },
            DilationLaw::NegativeBinomial => if short {
                Expansion::NegativeBinomial
            } else {
                Expansion::PointMass
            },
        }
    }
}

/// Chooses the law for a reuse.
pub fn choose_law(
    positive_weight: bool,
    positive_interval: bool,
    threads: u32,
    sharers: Option<u32>,
    covers_lap: bool,
    short: bool,
    dilation: DilationLaw,
) -> (expansion: Expansion)
    ensures
        expansion == law_for(
            positive_weight,
            positive_interval,
            threads,
            sharers,
            covers_lap,
            short,
            dilation,
        ),
        expansion matches Expansion::Racetrack { sharers } ==> sharers >= 2,
        expansion is Racetrack <==> positive_weight && positive_interval && threads >= 2
            && covers_lap && (sharers matches Some(count) && count >= 2),
        expansion matches Expansion::Racetrack { sharers: runners } ==> sharers == Some(runners),
{
    if !positive_weight {
        return Expansion::Nothing;
    }
    if !positive_interval || threads < 2 {
        return Expansion::Unchanged;
    }
    match sharers {
        Some(sharers) => {
            if sharers >= 2 && covers_lap {
                return Expansion::Racetrack { sharers };
            }
        },
        None => {},
    }
    match dilation {
        DilationLaw::Gamma => Expansion::Gamma,
        DilationLaw::Beta => Expansion::Beta,
        DilationLaw::Hybrid => if short {
            Expansion::NegativeBinomial
        } else {
            Expansion::Gamma
        },
        DilationLaw::NegativeBinomial => if short {
            Expansion::NegativeBinomial
        } else {
            Expansion::PointMass
        },
    }
}

/// A reuse follows the racetrack law, with the number of its sharers, exactly
/// where it has weight and length, there are several threads and several
/// sharers, and its window covers a traversal of the shared data. The dilation
/// law and the length of the window do not matter to that.
pub proof fn law_intercepted_reuse_is_a_racetrack(
    positive_weight: bool,
    positive_interval: bool,
    threads: u32,
    sharers: Option<u32>,
    covers_lap: bool,
    short: bool,
    dilation: DilationLaw,
    runners: u32,
)
    ensures
        law_for(positive_weight, positive_interval, threads, sharers, covers_lap, short, dilation)
            == (Expansion::Racetrack { sharers: runners }) <==> positive_weight
            && positive_interval && threads >= 2 && sharers == Some(runners) && runners >= 2
            && covers_lap,
{
}

/// Where no sharer intercepts a reuse, neither the number of sharers nor of
/// threads matters to the law, as long as there are several threads: it is the
/// one of data that nobody shares. Where one does, neither the dilation law nor
/// the length of the window matters.
pub proof fn law_dilation_matters_without_interception_only(
    threads: u32,
    other_threads: u32,
    sharers: Option<u32>,
    covers_lap: bool,
    short: bool,
    other_short: bool,
    dilation: DilationLaw,
    other_dilation: DilationLaw,
)
    requires
        threads >= 2,
        other_threads >= 2,
    ensures
        (sharers matches Some(count) && count >= 2 && covers_lap) ==> law_for(
            true,
            true,
            threads,
            sharers,
            covers_lap,
            short,
            dilation,
        ) == law_for(
            true,
            true,
            other_threads,
            sharers,
            covers_lap,
            other_short,
            other_dilation,
        ),
        !(sharers matches Some(count) && count >= 2 && covers_lap) ==> law_for(
            true,
            true,
            threads,
            sharers,
            covers_lap,
            short,
            dilation,
        ) == law_for(true, true, other_threads, None, false, short, dilation),
{
}

/// What each dilation law makes of a reuse that no sharer intercepts. Only the
/// negative binomial gives up the spread of long windows, and only it and the
/// hybrid tell short windows from long ones: the hybrid is the negative binomial
/// on short windows and the Gamma on long ones.
pub proof fn law_dilation_laws(threads: u32, short: bool)
    requires
        threads >= 2,
    ensures
        forall|dilation: DilationLaw|
            (#[trigger] law_for(true, true, threads, None, false, short, dilation)
                == Expansion::Beta) <==> dilation == DilationLaw::Beta,
        forall|dilation: DilationLaw|
            (#[trigger] law_for(true, true, threads, None, false, short, dilation)
                == Expansion::PointMass) <==> dilation == DilationLaw::NegativeBinomial && !short,
        forall|dilation: DilationLaw|
            (#[trigger] law_for(true, true, threads, None, false, short, dilation)
                == Expansion::NegativeBinomial) <==> short && (dilation
                == DilationLaw::NegativeBinomial || dilation == DilationLaw::Hybrid),
        forall|dilation: DilationLaw|
            (#[trigger] law_for(true, true, threads, None, false, short, dilation)
                == Expansion::Gamma) <==> dilation == DilationLaw::Gamma || dilation
                == DilationLaw::Hybrid && !short,
        law_for(true, true, threads, None, false, short, DilationLaw::Hybrid) == law_for(
            true,
            true,
            threads,
            None,
            false,
            short,
            if short {
                DilationLaw::NegativeBinomial
            } else {
                DilationLaw::Gamma
            },
        ),
{
}

/// A reuse without weight comes to nothing, and one without length, or under a
/// single thread, stays as it is; nothing else does.
pub proof fn law_trivial_reuse_is_not_expanded(
    positive_weight: bool,
    positive_interval: bool,
    threads: u32,
    sharers: Option<u32>,
    covers_lap: bool,
    short: bool,
    dilation: DilationLaw,
)
    ensures
        law_for(positive_weight, positive_interval, threads, sharers, covers_lap, short, dilation)
            == Expansion::Nothing <==> !positive_weight,
        law_for(positive_weight, positive_interval, threads, sharers, covers_lap, short, dilation)
            == Expansion::Unchanged <==> positive_weight && (!positive_interval || threads < 2),
{
}

} // verus!
