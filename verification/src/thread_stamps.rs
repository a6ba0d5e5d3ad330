//! The thread that a timestamp belongs to is the thread that makes its access.
//!
//! The polyhedral model gives a timestamp the owner of its coordinate in the
//! dimension of the parallel loop; the sampler hands iterations to threads.

use crate::affine_eval::{lower_value, upper_value, Values};
use crate::history::Event;
use crate::meaning::{set_holds, sound, timestamp_dims, trip_int};
use crate::order::{
    below, extends, in_scope, lemma_agrees_with_itself, lemma_bound_ints, lemma_condition_int,
    lemma_dims_of_part, lemma_no_statement, lemma_plain_is_scoped, lemma_rank_of_part,
    lemma_scope_entered, lemma_trip, lemma_visits_ascend, lemma_walk_sees, plain, same_setting,
    visits, visits_block, visits_for,
};
use crate::ownership::{by_thread, labeled, labeled_block, labeled_for, labeled_owned};
use crate::parallel::{agreed, loops_at, loops_at_from};
use crate::polyhedral::{counts_as_else, max_rank_of, Purpose};
use crate::quasi_affine::ceil_quotient;
use crate::schedule::{owner, ChunkSize, Partition};
use crate::split::{
    covered, covered_from, lemma_block_unrolls, lemma_for_unrolls, lemma_trip_count,
};
use crate::tree::Tree;
use crate::walk::{trip_count, walk, walk_block, walk_for, Setting};
use vstd::prelude::*;

verus! {

broadcast use vstd::std_specs::vec::axiom_vec_index_decreases;

/// The thread of a timestamp: the owner of its coordinate in the dimension of
/// the parallel loop.
pub open spec fn thread_of_stamp(point: Seq<int>, dim: int, chunk: int, threads: int) -> int {
    owner(point[dim], chunk, threads)
}

/// Every number of the list is the given one.
pub open spec fn all_are(dims: Seq<nat>, dim: int) -> bool {
    forall|i: int| 0 <= i < dims.len() ==> #[trigger] dims[i] == dim
}

pub proof fn lemma_agreed_all(found: Option<nat>, dims: Seq<nat>, dim: nat)
    requires
        agreed(found, dims) == Ok::<Option<nat>, (nat, nat)>(Some(dim)),
    ensures
        all_are(dims, dim as int),
        found matches Some(previous) ==> previous == dim,
    decreases dims.len(),
{
    if dims.len() > 0 {
        let next = match found {
            Some(previous) => found,
            None => Some(dims[0]),
        };
        lemma_agreed_all(next, dims.skip(1), dim);
        assert forall|i: int| 0 <= i < dims.len() implies #[trigger] dims[i] == dim by {
            if i > 0 {
                assert(dims.skip(1)[i - 1] == dims[i]);
            }
        }
    }
}

/// Events are made by the threads of some timestamps.
pub open spec fn made_by_owners(
    events: Seq<Event>,
    points: Seq<Seq<int>>,
    dim: int,
    chunk: int,
    threads: int,
) -> bool {
    &&& events.len() == points.len()
    &&& forall|i: int|
        0 <= i < points.len() ==> (#[trigger] events[i]).0 == thread_of_stamp(
            points[i],
            dim,
            chunk,
            threads,
        )
}

proof fn lemma_made_parts(
    first: Seq<Event>,
    points: Seq<Seq<int>>,
    rest: Seq<Event>,
    more: Seq<Seq<int>>,
    dim: int,
    chunk: int,
    threads: int,
)
    requires
        made_by_owners(first, points, dim, chunk, threads),
        made_by_owners(rest, more, dim, chunk, threads),
    ensures
        made_by_owners(first + rest, points + more, dim, chunk, threads),
{
    let (events, all) = (first + rest, points + more);
    assert forall|i: int| 0 <= i < all.len() implies (#[trigger] events[i]).0 == thread_of_stamp(
        all[i],
        dim,
        chunk,
        threads,
    ) by {
        if i < points.len() {
            assert(events[i] == first[i] && all[i] == points[i]);
        } else {
            let j = i - points.len();
            assert(events[i] == rest[j] && all[i] == more[j]);
        }
    }
}

/// What the two readings of a parallel nest have in common.
pub open spec fn same_nest(setting: Setting, purpose: Purpose, partition: Partition, chunk: int) -> bool {
    &&& same_setting(setting, purpose)
    &&& partition.chunk matches ChunkSize::Fixed(size) && size == chunk
    &&& chunk > 0
    &&& partition.threads > 0
}

/// The thread that makes an access, by the labels of the sequential walk, is
/// the thread of its timestamp.
pub proof fn lemma_labels_are_owners(
    tree: Tree,
    env: Values,
    setting: Setting,
    partition: Partition,
    prefix: Seq<int>,
    ivars: Seq<int>,
    params: Seq<int>,
    dims: int,
    purpose: Purpose,
    dim: int,
    chunk: int,
)
    requires
        plain(tree, ivars.len() as int),
        sound(tree, ivars.len() as int),
        in_scope(env, ivars, params),
        same_nest(setting, purpose, partition, chunk),
        max_rank_of(tree) <= purpose->max_array_dim,
        timestamp_dims(tree, prefix.len() as int) <= dims,
        walk(tree, env, setting).stop is Ok,
        covered(tree, partition.depth),
        ivars.len() <= partition.depth,
        all_are(loops_at(tree, prefix.len(), ivars.len(), partition.depth as nat), dim),
    ensures
        made_by_owners(
            labeled(tree, env, setting, partition),
            visits(tree, prefix, ivars, params, dims),
            dim,
            chunk,
            partition.threads as int,
        ),
    decreases tree, 0int, 0int,
{
    let (depth, level) = (prefix.len(), ivars.len());
    let target = partition.depth as nat;
    match tree {
        Tree::For {
            lower_bound,
            upper_bound,
            lower_bound_operands,
            upper_bound_operands,
            step,
            ivar,
            body,
        } => {
            lemma_bound_ints(lower_bound, lower_bound_operands@, env, ivars, params);
            lemma_bound_ints(upper_bound, upper_bound_operands@, env, ivars, params);
            let lower = lower_value(lower_bound, lower_bound_operands@, env)->Ok_0;
            let upper = upper_value(upper_bound, upper_bound_operands@, env)->Ok_0;
            let trip = trip_int(
                lower_bound,
                lower_bound_operands@,
                upper_bound,
                upper_bound_operands@,
                step,
                ivars,
                params,
            );
            lemma_trip(lower as int, upper as int, step as int);
            assert(trip == ceil_quotient(upper - lower, step as int));
            let inner = loops_at(*body, depth + 1, level + 1, target);
            let all = loops_at(tree, depth, level, target);
            if level == target {
                assert(all[0] == depth);
                lemma_parallel_labels(
                    *body,
                    lower as int,
                    upper as int,
                    step as int,
                    0,
                    trip,
                    env,
                    setting,
                    partition,
                    prefix,
                    ivars,
                    params,
                    dims,
                    purpose,
                    chunk,
                );
            } else {
                assert(all =~= inner);
                lemma_for_labels(
                    *body,
                    lower as int,
                    upper as int,
                    step as int,
                    0,
                    trip,
                    env,
                    setting,
                    partition,
                    prefix,
                    ivars,
                    params,
                    dims,
                    purpose,
                    dim,
                    chunk,
                );
            }
        },
        Tree::Block(stmts) => {
            lemma_block_labels(
                tree,
                stmts,
                0,
                env,
                setting,
                partition,
                prefix,
                ivars,
                params,
                dims,
                purpose,
                dim,
                chunk,
            );
        },
        Tree::If { condition, operands, then_branch, else_branch } => {
            lemma_condition_int(condition, operands@, env, ivars, params);
            let first = loops_at(*then_branch, depth, level, target);
            let all = loops_at(tree, depth, level, target);
            if set_holds(condition, operands@, ivars, params) {
                assert forall|i: int| 0 <= i < first.len() implies #[trigger] first[i] == dim by {
                    assert(all[i] == first[i]);
                }
                lemma_labels_are_owners(
                    *then_branch,
                    env,
                    setting,
                    partition,
                    prefix,
                    ivars,
                    params,
                    dims,
                    purpose,
                    dim,
                    chunk,
                );
            } else if let Some(otherwise) = else_branch {
                let second = loops_at(*otherwise, depth, level, target);
                assert forall|i: int| 0 <= i < second.len() implies #[trigger] second[i] == dim by {
                    assert(all[first.len() + i] == second[i]);
                }
                if counts_as_else(*otherwise) {
                    lemma_labels_are_owners(
                        *otherwise,
                        env,
                        setting,
                        partition,
                        prefix,
                        ivars,
                        params,
                        dims,
                        purpose,
                        dim,
                        chunk,
                    );
                } else {
                    lemma_no_statement(*otherwise, prefix, ivars, params, dims);
                    assert(labeled_block(otherwise->Block_0, 0, env, setting, partition)
                        =~= Seq::empty());
                }
            }
        },
        Tree::Access { .. } => {},
    }
}

/// The iterations of the parallel loop.
proof fn lemma_parallel_labels(
    body: Tree,
    lower: int,
    upper: int,
    step: int,
    k: int,
    trip: int,
    env: Values,
    setting: Setting,
    partition: Partition,
    prefix: Seq<int>,
    ivars: Seq<int>,
    params: Seq<int>,
    dims: int,
    purpose: Purpose,
    chunk: int,
)
    requires
        plain(body, ivars.len() as int + 1),
        sound(body, ivars.len() as int + 1),
        ivars.len() == partition.depth,
        step > 0,
        k >= 0,
        i64::MIN <= lower <= i64::MAX,
        i64::MIN <= upper <= i64::MAX,
        forall|n: int| n < trip <==> #[trigger] (lower + step * n) < upper,
        in_scope(env, ivars, params),
        same_nest(setting, purpose, partition, chunk),
        max_rank_of(body) <= purpose->max_array_dim,
        timestamp_dims(body, prefix.len() as int + 1) <= dims,
        walk_for(body, ivars.len() as int, lower + step * k, upper, step, env, setting).stop is Ok,
    ensures
        made_by_owners(
            labeled_owned(
                body,
                lower,
                step,
                trip_count(lower, upper, step),
                chunk,
                k,
                env,
                setting,
                partition,
            ),
            visits_for(body, lower, step, k, trip, prefix, ivars, params, dims),
            prefix.len() as int,
            chunk,
            partition.threads as int,
        ),
    decreases
            if k < trip {
                trip - k
            } else {
                0
            },
{
    let (depth, level) = (prefix.len() as int, ivars.len() as int);
    let threads = partition.threads as int;
    let count = trip_count(lower, upper, step);
    let current = lower + step * k;
    lemma_trip_count(lower, upper, step, k);
    assert(k * step == step * k) by (nonlinear_arith);
    if k < trip {
        assert(lower <= current < upper) by {
            assert(step * k >= 0) by (nonlinear_arith)
                requires
                    step > 0,
                    k >= 0,
            ;
        }
        let value = current as i64;
        let inner = env.with_ivar(level, value);
        let longer = ivars.push(current);
        let points = visits(body, prefix.push(k), longer, params, dims);
        let emitted = walk(body, inner, setting).emitted;
        let who = owner(k, chunk, threads);
        lemma_scope_entered(env, ivars, params, value);
        lemma_plain_is_scoped(body, level + 1);
        lemma_agrees_with_itself(env, ivars, params);
        assert(below(level).insert(level) =~= below(level + 1));
        lemma_for_unrolls(body, level, current, upper, step, env, setting, below(level));
        lemma_walk_sees(body, inner, setting, prefix.push(k), longer, params, dims, purpose);
        lemma_visits_ascend(body, prefix.push(k), longer, params, dims);
        crate::schedule::law_every_iteration_has_one_owner(k, chunk, threads);
        let events = by_thread(who as u32, emitted);
        assert forall|i: int| 0 <= i < points.len() implies (#[trigger] events[i]).0
            == thread_of_stamp(points[i], depth, chunk, threads) by {
            assert(extends(points[i], prefix.push(k), dims));
            assert(points[i][depth] == prefix.push(k)[depth]);
        }
        assert(current + step == lower + step * (k + 1)) by (nonlinear_arith)
            requires
                current == lower + step * k,
        ;
        lemma_parallel_labels(
            body,
            lower,
            upper,
            step,
            k + 1,
            trip,
            env,
            setting,
            partition,
            prefix,
            ivars,
            params,
            dims,
            purpose,
            chunk,
        );
        lemma_made_parts(
            events,
            points,
            labeled_owned(body, lower, step, count, chunk, k + 1, env, setting, partition),
            visits_for(body, lower, step, k + 1, trip, prefix, ivars, params, dims),
            depth,
            chunk,
            threads,
        );
    }
}

/// The iterations of a loop around the parallel one.
proof fn lemma_for_labels(
    body: Tree,
    lower: int,
    upper: int,
    step: int,
    k: int,
    trip: int,
    env: Values,
    setting: Setting,
    partition: Partition,
    prefix: Seq<int>,
    ivars: Seq<int>,
    params: Seq<int>,
    dims: int,
    purpose: Purpose,
    dim: int,
    chunk: int,
)
    requires
        plain(body, ivars.len() as int + 1),
        sound(body, ivars.len() as int + 1),
        ivars.len() < partition.depth,
        covered(body, partition.depth),
        step > 0,
        k >= 0,
        i64::MIN <= lower <= i64::MAX,
        i64::MIN <= upper <= i64::MAX,
        forall|n: int| n < trip <==> #[trigger] (lower + step * n) < upper,
        in_scope(env, ivars, params),
        same_nest(setting, purpose, partition, chunk),
        max_rank_of(body) <= purpose->max_array_dim,
        timestamp_dims(body, prefix.len() as int + 1) <= dims,
        all_are(
            loops_at(body, prefix.len() + 1, ivars.len() + 1, partition.depth as nat),
            dim,
        ),
        walk_for(body, ivars.len() as int, lower + step * k, upper, step, env, setting).stop is Ok,
    ensures
        made_by_owners(
            labeled_for(
                body,
                ivars.len() as int,
                lower + step * k,
                upper,
                step,
                env,
                setting,
                partition,
            ),
            visits_for(body, lower, step, k, trip, prefix, ivars, params, dims),
            dim,
            chunk,
            partition.threads as int,
        ),
    decreases
            body,
            1int,
            if k < trip {
                trip - k
            } else {
                0
            },
{
    let level = ivars.len() as int;
    let current = lower + step * k;
    if k < trip {
        assert(lower <= current < upper) by {
            assert(step * k >= 0) by (nonlinear_arith)
                requires
                    step > 0,
                    k >= 0,
            ;
        }
        let value = current as i64;
        let inner = env.with_ivar(level, value);
        let longer = ivars.push(current);
        lemma_scope_entered(env, ivars, params, value);
        lemma_plain_is_scoped(body, level + 1);
        lemma_agrees_with_itself(env, ivars, params);
        assert(below(level).insert(level) =~= below(level + 1));
        lemma_for_unrolls(body, level, current, upper, step, env, setting, below(level));
        lemma_labels_are_owners(
            body,
            inner,
            setting,
            partition,
            prefix.push(k),
            longer,
            params,
            dims,
            purpose,
            dim,
            chunk,
        );
        assert(current + step == lower + step * (k + 1)) by (nonlinear_arith)
            requires
                current == lower + step * k,
        ;
        lemma_for_labels(
            body,
            lower,
            upper,
            step,
            k + 1,
            trip,
            env,
            setting,
            partition,
            prefix,
            ivars,
            params,
            dims,
            purpose,
            dim,
            chunk,
        );
        lemma_made_parts(
            labeled(body, inner, setting, partition),
            visits(body, prefix.push(k), longer, params, dims),
            labeled_for(body, level, current + step, upper, step, env, setting, partition),
            visits_for(body, lower, step, k + 1, trip, prefix, ivars, params, dims),
            dim,
            chunk,
            partition.threads as int,
        );
    }
}

/// The statements of a block around the parallel loop.
proof fn lemma_block_labels(
    tree: Tree,
    stmts: Vec<Tree>,
    at: nat,
    env: Values,
    setting: Setting,
    partition: Partition,
    prefix: Seq<int>,
    ivars: Seq<int>,
    params: Seq<int>,
    dims: int,
    purpose: Purpose,
    dim: int,
    chunk: int,
)
    requires
        tree == Tree::Block(stmts),
        plain(tree, ivars.len() as int),
        sound(tree, ivars.len() as int),
        ivars.len() <= partition.depth,
        covered_from(stmts, at, partition.depth),
        in_scope(env, ivars, params),
        same_nest(setting, purpose, partition, chunk),
        max_rank_of(tree) <= purpose->max_array_dim,
        timestamp_dims(tree, prefix.len() as int) <= dims,
        all_are(
            loops_at_from(stmts, at, prefix.len() + 1, ivars.len(), partition.depth as nat),
            dim,
        ),
        stmts@.len() > 0 ==> walk_block(stmts, at as int, env, setting).stop is Ok,
    ensures
        made_by_owners(
            labeled_block(stmts, at, env, setting, partition),
            visits_block(stmts, at as int, prefix, ivars, params, dims),
            dim,
            chunk,
            partition.threads as int,
        ),
    decreases stmts, 1int, stmts@.len() - at,
{
    let level = ivars.len() as int;
    let target = partition.depth as nat;
    if at < stmts@.len() {
        let stmt = stmts[at as int];
        let own = loops_at(stmt, prefix.len() + 1, ivars.len(), target);
        let rest = loops_at_from(stmts, at + 1, prefix.len() + 1, ivars.len(), target);
        let all = loops_at_from(stmts, at, prefix.len() + 1, ivars.len(), target);
        assert(all == own + rest);
        assert forall|i: int| 0 <= i < own.len() implies #[trigger] own[i] == dim by {
            assert(all[i] == own[i]);
        }
        assert forall|i: int| 0 <= i < rest.len() implies #[trigger] rest[i] == dim by {
            assert(all[own.len() + i] == rest[i]);
        }
        lemma_dims_of_part(stmts, stmts@.len(), prefix.len() as int + 1, at as int);
        lemma_rank_of_part(stmts, 0, at as int);
        assert(plain(stmt, level) && sound(stmt, level));
        lemma_plain_is_scoped(tree, level);
        lemma_scoped_part(stmts, 0, at, level);
        lemma_agrees_with_itself(env, ivars, params);
        lemma_block_unrolls(stmts, at, env, setting, below(level));
        lemma_labels_are_owners(
            stmt,
            env,
            setting,
            partition,
            prefix.push(at as int),
            ivars,
            params,
            dims,
            purpose,
            dim,
            chunk,
        );
        lemma_block_labels(
            tree,
            stmts,
            at + 1,
            env,
            setting,
            partition,
            prefix,
            ivars,
            params,
            dims,
            purpose,
            dim,
            chunk,
        );
        lemma_made_parts(
            labeled(stmt, env, setting, partition),
            visits(stmt, prefix.push(at as int), ivars, params, dims),
            labeled_block(stmts, at + 1, env, setting, partition),
            visits_block(stmts, at as int + 1, prefix, ivars, params, dims),
            dim,
            chunk,
            partition.threads as int,
        );
    }
}

/// The rest of a scoped block is scoped.
proof fn lemma_scoped_part(stmts: Vec<Tree>, from: nat, at: nat, level: int)
    requires
        crate::scope::scoped_from(stmts, from, below(level)),
        from <= at <= stmts@.len(),
    ensures
        crate::scope::scoped_from(stmts, at, below(level)),
    decreases at - from,
{
    if from < at {
        lemma_scoped_part(stmts, from + 1, at, level);
    }
}

} // verus!
