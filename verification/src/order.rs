//! A walk visits the timestamps of the polyhedral model, in their order.
//!
//! The sampler walks a loop tree and the polyhedral model counts its
//! timestamps. Both see the same accesses: the walk makes one access per
//! timestamp, in lexicographic order, to the datum that the model relates the
//! timestamp to.

use crate::address::{has_coords, packed, DataId, MemrefKey, MAX_ARRAY_DIMS};
use crate::affine_eval::{
    expr_value, is_max, is_min, lower_value, map_prefix, map_values, operand_at, satisfied,
    set_from, set_value, upper_value, Values,
};
use crate::fxmap::lookup;
use crate::meaning::{
    access_tuple, at_timestamp, largest_dims, law_plan_has_the_timestamps, operands_below, set_holds, sound, subscripts, timestamp_dims, trip_int,
};
use crate::polyhedral::{
    counts_as_else, failure, max_rank_from, max_rank_of, plans, zero_from, Plan, Purpose,
};
use crate::quasi_affine::{ceil_quotient, expr_int, operand_int, ConvertedIVar};
use crate::references::{key_of_memref, Table};
use crate::scope::{agree, lemma_walk_keeps, operands_scoped, scoped, scoped_from};
use crate::tree::{AffineExpr, AffineMap, IntegerSet, Tree, ValID};
use crate::walk::{data_of, walk, walk_block, walk_for, Emitted, Setting};
use vstd::prelude::*;

verus! {

broadcast use vstd::std_specs::vec::axiom_vec_index_decreases;

/// Loops are numbered by nesting level and have one expression per bound, and
/// arrays are numbered, with the highest bit unused.
pub open spec fn plain(tree: Tree, level: int) -> bool
    decreases tree,
{
    match tree {
        Tree::For { lower_bound, upper_bound, ivar, body, .. } => {
            &&& ivar matches ValID::IVar(index) && index == level
            &&& lower_bound.results@.len() == 1
            &&& upper_bound.results@.len() == 1
            &&& plain(*body, level + 1)
        },
        Tree::Block(stmts) => forall|i: int|
            0 <= i < stmts@.len() ==> plain(#[trigger] stmts[i], level),
        Tree::If { then_branch, else_branch, .. } => {
            &&& plain(*then_branch, level)
            &&& else_branch matches Some(otherwise) ==> plain(*otherwise, level)
        },
        Tree::Access { memref, .. } => memref matches ValID::Memref(id) && id <= usize::MAX / 2,
    }
}

/// The values in scope are those of the outermost variables and of the
/// parameters.
pub open spec fn in_scope(env: Values, ivars: Seq<int>, params: Seq<int>) -> bool {
    &&& ivars.len() <= env.ivars.len()
    &&& forall|i: int| 0 <= i < ivars.len() ==> #[trigger] env.ivars[i] == ivars[i]
    &&& params.len() == env.symbols.len()
    &&& forall|i: int| 0 <= i < params.len() ==> #[trigger] env.symbols[i] == params[i]
}

/// A point that starts with the given coordinates and goes on with zeros.
pub open spec fn padded(prefix: Seq<int>, dims: int) -> Seq<int> {
    Seq::new(
        dims as nat,
        |i: int|
            if i < prefix.len() {
                prefix[i]
            } else {
                0
            },
    )
}

/// The timestamps of a tree in program order.
pub open spec fn visits(
    tree: Tree,
    prefix: Seq<int>,
    ivars: Seq<int>,
    params: Seq<int>,
    dims: int,
) -> Seq<Seq<int>>
    decreases tree, 0int, 0int,
{
    match tree {
        Tree::For {
            lower_bound,
            upper_bound,
            lower_bound_operands,
            upper_bound_operands,
            step,
            body,
            ..
        } => visits_for(
            *body,
            subscripts(lower_bound, lower_bound_operands@, ivars, params)[0],
            step as int,
            0,
            trip_int(
                lower_bound,
                lower_bound_operands@,
                upper_bound,
                upper_bound_operands@,
                step,
                ivars,
                params,
            ),
            prefix,
            ivars,
            params,
            dims,
        ),
        Tree::Block(stmts) => visits_block(stmts, 0, prefix, ivars, params, dims),
        Tree::If { condition, operands, then_branch, else_branch } => if set_holds(
            condition,
            operands@,
            ivars,
            params,
        ) {
            visits(*then_branch, prefix, ivars, params, dims)
        } else {
            match else_branch {
                Some(otherwise) => visits(*otherwise, prefix, ivars, params, dims),
                None => Seq::empty(),
            }
        },
        Tree::Access { .. } => seq![padded(prefix, dims)],
    }
}

/// The timestamps of the statements of a block from position `at` on.
pub open spec fn visits_block(
    stmts: Vec<Tree>,
    at: int,
    prefix: Seq<int>,
    ivars: Seq<int>,
    params: Seq<int>,
    dims: int,
) -> Seq<Seq<int>>
    decreases stmts, 1int, stmts@.len() - at,
{
    if at < 0 || at >= stmts@.len() {
        Seq::empty()
    } else {
        visits(stmts[at], prefix.push(at), ivars, params, dims) + visits_block(
            stmts,
            at + 1,
            prefix,
            ivars,
            params,
            dims,
        )
    }
}

/// The timestamps of the iterations of a loop from number `k` on.
pub open spec fn visits_for(
    body: Tree,
    lower: int,
    step: int,
    k: int,
    trip: int,
    prefix: Seq<int>,
    ivars: Seq<int>,
    params: Seq<int>,
    dims: int,
) -> Seq<Seq<int>>
    decreases
            body,
            1int,
            if k < trip {
                trip - k
            } else {
                0
            },
{
    if k >= trip {
        Seq::empty()
    } else {
        visits(body, prefix.push(k), ivars.push(lower + step * k), params, dims) + visits_for(
            body,
            lower,
            step,
            k + 1,
            trip,
            prefix,
            ivars,
            params,
            dims,
        )
    }
}

/// A point of the given number of dimensions that starts with a prefix.
pub open spec fn extends(point: Seq<int>, prefix: Seq<int>, dims: int) -> bool {
    &&& point.len() == dims
    &&& prefix.len() <= dims
    &&& forall|i: int| 0 <= i < prefix.len() ==> #[trigger] point[i] == prefix[i]
}

/// One point comes before another one in lexicographic order.
pub open spec fn before(a: Seq<int>, b: Seq<int>) -> bool {
    exists|i: int| #[trigger] first_difference(a, b, i) && a[i] < b[i]
}

/// The points agree below a position.
pub open spec fn first_difference(a: Seq<int>, b: Seq<int>, i: int) -> bool {
    &&& 0 <= i < a.len()
    &&& i < b.len()
    &&& forall|j: int| 0 <= j < i ==> #[trigger] a[j] == b[j]
}

/// The points are in ascending order, each once.
pub open spec fn ascending(points: Seq<Seq<int>>) -> bool {
    forall|i: int, j: int|
        #![trigger points[i], points[j]]
        0 <= i < j < points.len() ==> before(points[i], points[j])
}

/// The timestamps of a tree come in ascending order and start with the prefix.
pub proof fn lemma_visits_ascend(
    tree: Tree,
    prefix: Seq<int>,
    ivars: Seq<int>,
    params: Seq<int>,
    dims: int,
)
    requires
        timestamp_dims(tree, prefix.len() as int) <= dims,
    ensures
        ascending(visits(tree, prefix, ivars, params, dims)),
        all_extend(visits(tree, prefix, ivars, params, dims), prefix, dims),
    decreases tree, 0int, 0int,
{
    lemma_dims_grow(tree, prefix.len() as int);
    match tree {
        Tree::For {
            lower_bound,
            upper_bound,
            lower_bound_operands,
            upper_bound_operands,
            step,
            body,
            ..
        } => {
            let lower = subscripts(lower_bound, lower_bound_operands@, ivars, params)[0];
            let trip = trip_int(
                lower_bound,
                lower_bound_operands@,
                upper_bound,
                upper_bound_operands@,
                step,
                ivars,
                params,
            );
            lemma_for_ascends(*body, lower, step as int, 0, trip, prefix, ivars, params, dims);
        },
        Tree::Block(stmts) => {
            lemma_block_ascends(stmts, 0, prefix, ivars, params, dims);
        },
        Tree::If { condition, operands, then_branch, else_branch } => {
            lemma_visits_ascend(*then_branch, prefix, ivars, params, dims);
            if let Some(otherwise) = else_branch {
                if counts_as_else(*otherwise) {
                    lemma_visits_ascend(*otherwise, prefix, ivars, params, dims);
                } else {
                    lemma_no_statement(*otherwise, prefix, ivars, params, dims);
                }
            }
        },
        Tree::Access { .. } => {},
    }
}

pub proof fn lemma_no_statement(
    tree: Tree,
    prefix: Seq<int>,
    ivars: Seq<int>,
    params: Seq<int>,
    dims: int,
)
    requires
        !counts_as_else(tree),
    ensures
        visits(tree, prefix, ivars, params, dims) =~= Seq::empty(),
{
    assert(visits_block(tree->Block_0, 0, prefix, ivars, params, dims) =~= Seq::empty());
}

/// All points start with the prefix.
pub open spec fn all_extend(points: Seq<Seq<int>>, prefix: Seq<int>, dims: int) -> bool {
    forall|i: int| 0 <= i < points.len() ==> extends(#[trigger] points[i], prefix, dims)
}

/// All points start with the prefix and have at least `least` behind it.
pub open spec fn all_from(points: Seq<Seq<int>>, prefix: Seq<int>, dims: int, least: int) -> bool {
    forall|i: int|
        0 <= i < points.len() ==> extends(#[trigger] points[i], prefix, dims)
            && points[i][prefix.len() as int] >= least
}

pub proof fn lemma_dims_grow(tree: Tree, depth: int)
    requires
        depth >= 0,
    ensures
        timestamp_dims(tree, depth) >= depth,
    decreases tree,
{
    match tree {
        Tree::For { body, .. } => {
            lemma_dims_grow(*body, depth + 1);
        },
        Tree::Block(stmts) => {
            if stmts@.len() > 0 {
                lemma_dims_grow(stmts[stmts@.len() - 1], depth + 1);
                lemma_dims_of_part(stmts, stmts@.len(), depth + 1, stmts@.len() - 1);
            }
        },
        Tree::If { then_branch, .. } => {
            lemma_dims_grow(*then_branch, depth);
        },
        Tree::Access { .. } => {},
    }
}

pub proof fn lemma_dims_of_part(stmts: Vec<Tree>, count: nat, depth: int, at: int)
    requires
        0 <= at < count <= stmts@.len(),
    ensures
        timestamp_dims(stmts[at], depth) <= largest_dims(stmts, count, depth),
    decreases count,
{
    if at < count - 1 {
        lemma_dims_of_part(stmts, (count - 1) as nat, depth, at);
    }
}

/// Points with one coordinate behind the prefix, and then points with larger
/// ones, ascend.
proof fn lemma_ascending_parts(
    first: Seq<Seq<int>>,
    rest: Seq<Seq<int>>,
    prefix: Seq<int>,
    value: int,
    dims: int,
)
    requires
        ascending(first),
        ascending(rest),
        all_extend(first, prefix.push(value), dims),
        all_from(rest, prefix, dims, value + 1),
    ensures
        ascending(first + rest),
        all_from(first + rest, prefix, dims, value),
{
    let all = first + rest;
    let depth = prefix.len() as int;
    assert forall|i: int| 0 <= i < all.len() implies extends(#[trigger] all[i], prefix, dims)
        && all[i][depth] >= value by {
        if i < first.len() {
            assert(all[i] == first[i]);
            assert(extends(first[i], prefix.push(value), dims));
            assert(prefix.push(value)[depth] == value);
            assert(first[i][depth] == prefix.push(value)[depth]);
            assert forall|j: int| 0 <= j < prefix.len() implies #[trigger] first[i][j]
                == prefix[j] by {
                assert(prefix.push(value)[j] == prefix[j]);
            }
        } else {
            assert(all[i] == rest[i - first.len()]);
        }
    }
    assert forall|i: int, j: int|
        #![trigger all[i], all[j]]
        0 <= i < j < all.len() implies before(all[i], all[j]) by {
        if j < first.len() {
            assert(all[i] == first[i] && all[j] == first[j]);
        } else if i >= first.len() {
            assert(all[i] == rest[i - first.len()] && all[j] == rest[j - first.len()]);
        } else {
            assert(all[i] == first[i] && all[j] == rest[j - first.len()]);
            assert(extends(first[i], prefix.push(value), dims));
            assert(extends(rest[j - first.len()], prefix, dims));
            assert(first[i][depth] == prefix.push(value)[depth]);
            assert(prefix.push(value)[depth] == value);
            assert forall|p: int| 0 <= p < depth implies #[trigger] all[i][p] == all[j][p] by {
                assert(first[i][p] == prefix.push(value)[p]);
                assert(prefix.push(value)[p] == prefix[p]);
                assert(rest[j - first.len()][p] == prefix[p]);
            }
            assert(first_difference(all[i], all[j], depth));
        }
    }
}

proof fn lemma_for_ascends(
    body: Tree,
    lower: int,
    step: int,
    k: int,
    trip: int,
    prefix: Seq<int>,
    ivars: Seq<int>,
    params: Seq<int>,
    dims: int,
)
    requires
        timestamp_dims(body, (prefix.len() + 1) as int) <= dims,
    ensures
        ascending(visits_for(body, lower, step, k, trip, prefix, ivars, params, dims)),
        all_from(
            visits_for(body, lower, step, k, trip, prefix, ivars, params, dims),
            prefix,
            dims,
            k,
        ),
    decreases
            body,
            1int,
            if k < trip {
                trip - k
            } else {
                0
            },
{
    if k < trip {
        lemma_visits_ascend(body, prefix.push(k), ivars.push(lower + step * k), params, dims);
        lemma_for_ascends(body, lower, step, k + 1, trip, prefix, ivars, params, dims);
        lemma_ascending_parts(
            visits(body, prefix.push(k), ivars.push(lower + step * k), params, dims),
            visits_for(body, lower, step, k + 1, trip, prefix, ivars, params, dims),
            prefix,
            k,
            dims,
        );
    }
}

proof fn lemma_block_ascends(
    stmts: Vec<Tree>,
    at: int,
    prefix: Seq<int>,
    ivars: Seq<int>,
    params: Seq<int>,
    dims: int,
)
    requires
        0 <= at,
        at < stmts@.len() ==> largest_dims(stmts, stmts@.len(), (prefix.len() + 1) as int) <= dims,
    ensures
        ascending(visits_block(stmts, at, prefix, ivars, params, dims)),
        all_from(visits_block(stmts, at, prefix, ivars, params, dims), prefix, dims, at),
    decreases stmts, 1int, stmts@.len() - at,
{
    if at < stmts@.len() {
        lemma_dims_of_part(stmts, stmts@.len(), (prefix.len() + 1) as int, at);
        lemma_visits_ascend(stmts[at], prefix.push(at), ivars, params, dims);
        lemma_block_ascends(stmts, at + 1, prefix, ivars, params, dims);
        lemma_ascending_parts(
            visits(stmts[at], prefix.push(at), ivars, params, dims),
            visits_block(stmts, at + 1, prefix, ivars, params, dims),
            prefix,
            at,
            dims,
        );
    }
}

/// Every timestamp that starts with the prefix is visited.
proof fn lemma_timestamps_are_visited(
    tree: Tree,
    prefix: Seq<int>,
    ivars: Seq<int>,
    params: Seq<int>,
    dims: int,
    point: Seq<int>,
)
    requires
        extends(point, prefix, dims),
        timestamp_dims(tree, prefix.len() as int) <= dims,
        zero_from(point, timestamp_dims(tree, prefix.len() as int), dims),
        at_timestamp(
            tree,
            prefix.len() as int,
            ivars,
            params,
            point,
            Purpose::Timestamps,
        ) is Some,
    ensures
        visits(tree, prefix, ivars, params, dims).contains(point),
    decreases tree,
{
    let depth = prefix.len() as int;
    lemma_dims_grow(tree, depth);
    match tree {
        Tree::For {
            lower_bound,
            upper_bound,
            lower_bound_operands,
            upper_bound_operands,
            step,
            body,
            ..
        } => {
            lemma_dims_grow(*body, depth + 1);
            let lower = subscripts(lower_bound, lower_bound_operands@, ivars, params)[0];
            let trip = trip_int(
                lower_bound,
                lower_bound_operands@,
                upper_bound,
                upper_bound_operands@,
                step,
                ivars,
                params,
            );
            let k = point[depth];
            lemma_longer_prefix(point, prefix, dims);
            lemma_timestamps_are_visited(
                *body,
                prefix.push(k),
                ivars.push(lower + step * k),
                params,
                dims,
                point,
            );
            lemma_iteration_is_visited(
                *body,
                lower,
                step as int,
                0,
                trip,
                prefix,
                ivars,
                params,
                dims,
                k,
                point,
            );
        },
        Tree::Block(stmts) => {
            let at = point[depth];
            lemma_dims_of_part(stmts, stmts@.len(), depth + 1, at);
            lemma_dims_grow(stmts[at], depth + 1);
            lemma_longer_prefix(point, prefix, dims);
            lemma_timestamps_are_visited(stmts[at], prefix.push(at), ivars, params, dims, point);
            lemma_statement_is_visited(stmts, 0, prefix, ivars, params, dims, at, point);
        },
        Tree::If { condition, operands, then_branch, else_branch } => {
            if set_holds(condition, operands@, ivars, params) {
                lemma_timestamps_are_visited(*then_branch, prefix, ivars, params, dims, point);
            } else {
                lemma_timestamps_are_visited(*(else_branch->0), prefix, ivars, params, dims, point);
            }
        },
        Tree::Access { .. } => {
            assert(point =~= padded(prefix, dims));
            assert(visits(tree, prefix, ivars, params, dims)[0] == point);
        },
    }
}

proof fn lemma_longer_prefix(point: Seq<int>, prefix: Seq<int>, dims: int)
    requires
        extends(point, prefix, dims),
        prefix.len() < dims,
    ensures
        extends(point, prefix.push(point[prefix.len() as int]), dims),
{
    let longer = prefix.push(point[prefix.len() as int]);
    assert forall|i: int| 0 <= i < longer.len() implies #[trigger] point[i] == longer[i] by {
        if i < prefix.len() {
            assert(longer[i] == prefix[i]);
        }
    }
}

proof fn lemma_iteration_is_visited(
    body: Tree,
    lower: int,
    step: int,
    k: int,
    trip: int,
    prefix: Seq<int>,
    ivars: Seq<int>,
    params: Seq<int>,
    dims: int,
    at: int,
    point: Seq<int>,
)
    requires
        k <= at < trip,
        visits(body, prefix.push(at), ivars.push(lower + step * at), params, dims).contains(point),
    ensures
        visits_for(body, lower, step, k, trip, prefix, ivars, params, dims).contains(point),
    decreases at - k,
{
    let first = visits(body, prefix.push(k), ivars.push(lower + step * k), params, dims);
    let rest = visits_for(body, lower, step, k + 1, trip, prefix, ivars, params, dims);
    if k < at {
        lemma_iteration_is_visited(
            body,
            lower,
            step,
            k + 1,
            trip,
            prefix,
            ivars,
            params,
            dims,
            at,
            point,
        );
        let i = rest.index_of(point);
        assert((first + rest)[first.len() + i] == point);
    } else {
        let i = first.index_of(point);
        assert((first + rest)[i] == point);
    }
}

proof fn lemma_statement_is_visited(
    stmts: Vec<Tree>,
    from: int,
    prefix: Seq<int>,
    ivars: Seq<int>,
    params: Seq<int>,
    dims: int,
    at: int,
    point: Seq<int>,
)
    requires
        0 <= from <= at < stmts@.len(),
        visits(stmts[at], prefix.push(at), ivars, params, dims).contains(point),
    ensures
        visits_block(stmts, from, prefix, ivars, params, dims).contains(point),
    decreases at - from,
{
    let first = visits(stmts[from], prefix.push(from), ivars, params, dims);
    let rest = visits_block(stmts, from + 1, prefix, ivars, params, dims);
    if from < at {
        lemma_statement_is_visited(stmts, from + 1, prefix, ivars, params, dims, at, point);
        let i = rest.index_of(point);
        assert((first + rest)[first.len() + i] == point);
    } else {
        let i = first.index_of(point);
        assert((first + rest)[i] == point);
    }
}

/// The variables of the outermost loops.
pub open spec fn below(level: int) -> Set<int> {
    Set::new(|i: int| 0 <= i < level)
}

pub proof fn lemma_operands_scoped(operands: Seq<ValID>, level: int)
    requires
        operands_below(operands, level),
    ensures
        operands_scoped(operands, below(level)),
{
    assert forall|i: int| 0 <= i < operands.len() implies (#[trigger] operands[i] matches ValID::IVar(
        index,
    ) ==> below(level).contains(index as int)) by {
    }
}

/// Loops numbered by nesting level are properly scoped.
pub proof fn lemma_plain_is_scoped(tree: Tree, level: int)
    requires
        plain(tree, level),
        sound(tree, level),
        level >= 0,
    ensures
        scoped(tree, below(level)),
    decreases tree, 0int,
{
    match tree {
        Tree::For { lower_bound_operands, upper_bound_operands, ivar, body, .. } => {
            lemma_operands_scoped(lower_bound_operands@, level);
            lemma_operands_scoped(upper_bound_operands@, level);
            lemma_plain_is_scoped(*body, level + 1);
            assert(below(level).insert(level) =~= below(level + 1));
        },
        Tree::Block(stmts) => {
            lemma_plain_block_is_scoped(stmts, 0, level);
        },
        Tree::If { operands, then_branch, else_branch, .. } => {
            lemma_operands_scoped(operands@, level);
            lemma_plain_is_scoped(*then_branch, level);
            if let Some(otherwise) = else_branch {
                lemma_plain_is_scoped(*otherwise, level);
            }
        },
        Tree::Access { operands, .. } => {
            lemma_operands_scoped(operands@, level);
        },
    }
}

proof fn lemma_plain_block_is_scoped(stmts: Vec<Tree>, at: nat, level: int)
    requires
        level >= 0,
        forall|i: int| 0 <= i < stmts@.len() ==> plain(#[trigger] stmts[i], level),
        forall|i: int| 0 <= i < stmts@.len() ==> sound(#[trigger] stmts[i], level),
    ensures
        scoped_from(stmts, at, below(level)),
    decreases stmts, stmts@.len() - at,
{
    if at < stmts@.len() {
        assert(plain(stmts[at as int], level) && sound(stmts[at as int], level));
        lemma_plain_is_scoped(stmts[at as int], level);
        lemma_plain_block_is_scoped(stmts, at + 1, level);
    }
}

pub proof fn lemma_scope_kept(env: Values, after: Values, ivars: Seq<int>, params: Seq<int>)
    requires
        in_scope(env, ivars, params),
        agree(env, after, below(ivars.len() as int)),
    ensures
        in_scope(after, ivars, params),
{
    if ivars.len() > 0 {
        assert(below(ivars.len() as int).contains(ivars.len() - 1));
    }
    assert forall|i: int| 0 <= i < ivars.len() implies #[trigger] after.ivars[i] == ivars[i] by {
        assert(below(ivars.len() as int).contains(i));
        assert(env.ivars[i] == ivars[i]);
    }
}

pub proof fn lemma_scope_entered(env: Values, ivars: Seq<int>, params: Seq<int>, value: i64)
    requires
        in_scope(env, ivars, params),
    ensures
        in_scope(
            env.with_ivar(ivars.len() as int, value),
            ivars.push(value as int),
            params,
        ),
        in_scope(env.with_ivar(ivars.len() as int, value), ivars, params),
{
    let (inner, longer) = (env.with_ivar(ivars.len() as int, value), ivars.push(value as int));
    assert forall|i: int| 0 <= i < longer.len() implies #[trigger] inner.ivars[i] == longer[i] by {
        if i < ivars.len() {
            assert(env.ivars[i] == ivars[i]);
        }
    }
    assert forall|i: int| 0 <= i < ivars.len() implies #[trigger] inner.ivars[i] == ivars[i] by {
        assert(longer[i] == ivars[i]);
    }
}

pub proof fn lemma_agrees_with_itself(env: Values, ivars: Seq<int>, params: Seq<int>)
    requires
        in_scope(env, ivars, params),
    ensures
        agree(env, env, below(ivars.len() as int)),
{
}

/// Evaluation with machine integers, where it succeeds, gives the mathematical
/// value.
proof fn lemma_expr_int(
    expr: AffineExpr,
    operands: Seq<ValID>,
    num_dims: int,
    env: Values,
    ivars: Seq<int>,
    params: Seq<int>,
)
    requires
        in_scope(env, ivars, params),
        operands_below(operands, ivars.len() as int),
        num_dims >= 0,
    ensures
        expr_value(expr, operands, num_dims, env) matches Ok(value) ==> expr_int(
            expr,
            operands,
            num_dims,
            ivars,
            params,
        ) == value,
    decreases expr,
{
    match expr {
        AffineExpr::Constant(value) => {},
        AffineExpr::Dim(position) => {
            lemma_operand_int(operands, position as int, env, ivars, params);
        },
        AffineExpr::Symbol(position) => {
            lemma_operand_int(operands, num_dims + position, env, ivars, params);
        },
        AffineExpr::Add(l, r) => {
            lemma_expr_int(*l, operands, num_dims, env, ivars, params);
            lemma_expr_int(*r, operands, num_dims, env, ivars, params);
        },
        AffineExpr::Mul(l, r) => {
            lemma_expr_int(*l, operands, num_dims, env, ivars, params);
            lemma_expr_int(*r, operands, num_dims, env, ivars, params);
        },
        AffineExpr::Mod(l, r) => {
            lemma_expr_int(*l, operands, num_dims, env, ivars, params);
            lemma_expr_int(*r, operands, num_dims, env, ivars, params);
        },
        AffineExpr::FloorDiv(l, r) => {
            lemma_expr_int(*l, operands, num_dims, env, ivars, params);
            lemma_expr_int(*r, operands, num_dims, env, ivars, params);
        },
        AffineExpr::CeilDiv(l, r) => {
            lemma_expr_int(*l, operands, num_dims, env, ivars, params);
            lemma_expr_int(*r, operands, num_dims, env, ivars, params);
        },
    }
}

proof fn lemma_operand_int(
    operands: Seq<ValID>,
    position: int,
    env: Values,
    ivars: Seq<int>,
    params: Seq<int>,
)
    requires
        in_scope(env, ivars, params),
        operands_below(operands, ivars.len() as int),
        position >= 0,
    ensures
        operand_at(operands, position, env) matches Ok(value) ==> operand_int(
            operands[position],
            ivars,
            params,
        ) == value,
{
    if position < operands.len() {
        match operands[position] {
            ValID::IVar(index) => {
                assert(index < ivars.len());
                assert(env.ivars[index as int] == ivars[index as int]);
            },
            ValID::Symbol(index) => {
                if index < params.len() {
                    assert(env.symbols[index as int] == params[index as int]);
                }
            },
            _ => {},
        }
    }
}

pub proof fn lemma_map_ints(
    map: AffineMap,
    operands: Seq<ValID>,
    count: nat,
    env: Values,
    ivars: Seq<int>,
    params: Seq<int>,
)
    requires
        in_scope(env, ivars, params),
        operands_below(operands, ivars.len() as int),
        count <= map.results@.len(),
    ensures
        map_prefix(map, operands, env, count) matches Ok(values) ==> {
            &&& values.len() == count
            &&& forall|i: int|
                0 <= i < count ==> #[trigger] values[i] == subscripts(
                    map,
                    operands,
                    ivars,
                    params,
                )[i]
        },
    decreases count,
{
    if count > 0 {
        lemma_map_ints(map, operands, (count - 1) as nat, env, ivars, params);
        lemma_expr_int(
            map.results@[count - 1],
            operands,
            map.num_dims as int,
            env,
            ivars,
            params,
        );
    }
}

/// The bounds of a loop with one expression each.
pub proof fn lemma_bound_ints(
    map: AffineMap,
    operands: Seq<ValID>,
    env: Values,
    ivars: Seq<int>,
    params: Seq<int>,
)
    requires
        in_scope(env, ivars, params),
        operands_below(operands, ivars.len() as int),
        map.results@.len() == 1,
    ensures
        lower_value(map, operands, env) matches Ok(value) ==> subscripts(
            map,
            operands,
            ivars,
            params,
        )[0] == value,
        upper_value(map, operands, env) matches Ok(value) ==> subscripts(
            map,
            operands,
            ivars,
            params,
        )[0] == value,
{
    lemma_map_ints(map, operands, 1, env, ivars, params);
    if let Ok(values) = map_values(map, operands, env) {
        assert(values[0] == subscripts(map, operands, ivars, params)[0]);
        assert(values.contains(values[0]));
        assert(is_max(values, values[0]));
        assert(is_min(values, values[0]));
    }
}

/// Whether the conditions from a position on hold.
proof fn lemma_set_ints(
    set: IntegerSet,
    operands: Seq<ValID>,
    at: int,
    env: Values,
    ivars: Seq<int>,
    params: Seq<int>,
)
    requires
        in_scope(env, ivars, params),
        operands_below(operands, ivars.len() as int),
        0 <= at,
    ensures
        set_from(set, operands, env, at) matches Ok(holds) ==> (holds <==> forall|i: int|
            at <= i < set.constraints@.len() ==> #[trigger] condition_holds(
                set,
                operands,
                ivars,
                params,
                i,
            )),
    decreases set.constraints@.len() - at,
{
    if at < set.constraints@.len() {
        lemma_expr_int(
            set.constraints@[at].expr,
            operands,
            set.num_dims as int,
            env,
            ivars,
            params,
        );
        lemma_set_ints(set, operands, at + 1, env, ivars, params);
        if let Ok(value) = expr_value(
            set.constraints@[at].expr,
            operands,
            set.num_dims as int,
            env,
        ) {
            assert(satisfied(set.constraints@[at], value) <==> condition_holds(
                set,
                operands,
                ivars,
                params,
                at,
            ));
        }
    }
}

/// One condition of a set holds.
pub open spec fn condition_holds(
    set: IntegerSet,
    operands: Seq<ValID>,
    ivars: Seq<int>,
    params: Seq<int>,
    at: int,
) -> bool {
    let value = expr_int(
        set.constraints@[at].expr,
        operands,
        set.num_dims as int,
        ivars,
        params,
    );
    if set.constraints@[at].equality {
        value == 0
    } else {
        value >= 0
    }
}

pub proof fn lemma_condition_int(
    set: IntegerSet,
    operands: Seq<ValID>,
    env: Values,
    ivars: Seq<int>,
    params: Seq<int>,
)
    requires
        in_scope(env, ivars, params),
        operands_below(operands, ivars.len() as int),
    ensures
        set_value(set, operands, env) matches Ok(holds) ==> holds == set_holds(
            set,
            operands,
            ivars,
            params,
        ),
{
    lemma_set_ints(set, operands, 0, env, ivars, params);
    if set_holds(set, operands, ivars, params) {
        assert forall|i: int| 0 <= i < set.constraints@.len() implies #[trigger] condition_holds(
            set,
            operands,
            ivars,
            params,
            i,
        ) by {
            assert(set.constraints@[i] == set.constraints@[i]);
        }
    }
    if forall|i: int|
        0 <= i < set.constraints@.len() ==> #[trigger] condition_holds(
            set,
            operands,
            ivars,
            params,
            i,
        ) {
        assert forall|i: int| 0 <= i < set.constraints@.len() implies {
            let value = expr_int(
                (#[trigger] set.constraints@[i]).expr,
                operands,
                set.num_dims as int,
                ivars,
                params,
            );
            if set.constraints@[i].equality {
                value == 0
            } else {
                value >= 0
            }
        } by {
            assert(condition_holds(set, operands, ivars, params, i));
        }
    }
}

/// A coordinate behind the array in the tuple of an access to arrays of at most
/// `max_array_dim` dimensions. A tuple with a set has it before the last one.
pub open spec fn coordinate(tuple: Seq<int>, at: int, max_array_dim: int) -> int {
    if at < 0 {
        0
    } else if tuple.len() == max_array_dim + 2 && at == max_array_dim - 1 {
        tuple[at + 2]
    } else {
        tuple[at + 1]
    }
}

/// An access of a walk is the access that a tuple of the polyhedral model
/// stands for: to the same block of the same array, and in the same set.
pub open spec fn agrees(
    access: Emitted,
    tuple: Seq<int>,
    table: Table,
    max_array_dim: int,
    num_sets: int,
) -> bool {
    &&& 0 <= tuple[0] <= usize::MAX / 2
    &&& lookup(table.memrefs, key_of_memref(ValID::Memref(tuple[0] as usize))) == Some(
        access.data.memref.0,
    )
    &&& forall|place: int|
        0 <= place < MAX_ARRAY_DIMS ==> #[trigger] access.data.coords@[place] == coordinate(
            tuple,
            place - MAX_ARRAY_DIMS + max_array_dim,
            max_array_dim,
        )
    &&& tuple.len() == max_array_dim + 1 || (num_sets > 1 && tuple.len() == max_array_dim + 2)
    &&& tuple.len() == max_array_dim + 2 ==> tuple[max_array_dim]
        == access.data.coords@[MAX_ARRAY_DIMS - 1] as int % num_sets
}

/// The datum of an access has the coordinates of the access.
pub proof fn lemma_data_has_coords(memref: MemrefKey, indices: Seq<i64>, block_size: int)
    requires
        1 <= block_size <= i64::MAX,
        indices.len() <= MAX_ARRAY_DIMS,
    ensures
        has_coords(data_of(memref, indices, block_size), packed(indices, block_size)),
        data_of(memref, indices, block_size).memref == memref,
{
    let coords = packed(indices, block_size);
    if indices.len() > 0 {
        crate::address::lemma_quotient_fits(indices.last() as int, block_size);
    }
    assert(i64::MIN <= coords[5] <= i64::MAX);
    let data = DataId {
        memref,
        coords: [
            coords[0] as i64,
            coords[1] as i64,
            coords[2] as i64,
            coords[3] as i64,
            coords[4] as i64,
            coords[5] as i64,
        ],
    };
    assert(has_coords(data, coords)) by {
        assert forall|place: int| 0 <= place < MAX_ARRAY_DIMS implies #[trigger] data.coords@[place]
            == coords[place] by {
            assert(place == 0 || place == 1 || place == 2 || place == 3 || place == 4 || place
                == 5);
        }
    }
}

proof fn lemma_access_agrees(
    access: Emitted,
    table: Table,
    memref: usize,
    indices: Seq<i64>,
    block_size: int,
    max_array_dim: int,
    num_sets: int,
)
    requires
        indices.len() <= max_array_dim <= MAX_ARRAY_DIMS,
        1 <= block_size <= i64::MAX,
        memref <= usize::MAX / 2,
        lookup(table.memrefs, key_of_memref(ValID::Memref(memref))) == Some(access.data.memref.0),
        access.data == data_of(access.data.memref, indices, block_size),
    ensures
        agrees(
            access,
            access_tuple(
                memref as int,
                indices.map_values(|index: i64| index as int),
                block_size,
                max_array_dim,
                num_sets,
            ),
            table,
            max_array_dim,
            num_sets,
        ),
{
    let wide = indices.map_values(|index: i64| index as int);
    let tuple = access_tuple(memref as int, wide, block_size, max_array_dim, num_sets);
    let coords = packed(indices, block_size);
    lemma_data_has_coords(access.data.memref, indices, block_size);
    if indices.len() > 0 {
        assert(wide.last() == indices.last());
    }
    assert(tuple[0] == memref);
    assert forall|place: int| 0 <= place < MAX_ARRAY_DIMS implies #[trigger] access.data.coords@[place]
        == coordinate(tuple, place - MAX_ARRAY_DIMS + max_array_dim, max_array_dim) by {
        assert(access.data.coords@[place] == coords[place]);
    }
    if tuple.len() == max_array_dim + 2 {
        assert(access.data.coords@[MAX_ARRAY_DIMS - 1] == coords[MAX_ARRAY_DIMS - 1]);
    }
}

/// A point is a timestamp of a tree, and an access is the one of the timestamp.
pub open spec fn sees(
    tree: Tree,
    depth: int,
    ivars: Seq<int>,
    params: Seq<int>,
    point: Seq<int>,
    access: Emitted,
    table: Table,
    purpose: Purpose,
) -> bool {
    &&& at_timestamp(tree, depth, ivars, params, point, Purpose::Timestamps) is Some
    &&& at_timestamp(tree, depth, ivars, params, point, purpose) matches Some(tuple) && agrees(
        access,
        tuple,
        table,
        purpose->max_array_dim as int,
        purpose->num_sets as int,
    )
}

/// Points are timestamps of a tree, padded with zeros, and accesses are those
/// of the timestamps.
pub open spec fn all_seen(
    tree: Tree,
    depth: int,
    ivars: Seq<int>,
    params: Seq<int>,
    dims: int,
    points: Seq<Seq<int>>,
    accesses: Seq<Emitted>,
    table: Table,
    purpose: Purpose,
) -> bool {
    &&& points.len() == accesses.len()
    &&& forall|i: int|
        0 <= i < points.len() ==> sees(
            tree,
            depth,
            ivars,
            params,
            #[trigger] points[i],
            accesses[i],
            table,
            purpose,
        ) && zero_from(points[i], timestamp_dims(tree, depth), dims)
}

proof fn lemma_seen_parts(
    tree: Tree,
    depth: int,
    ivars: Seq<int>,
    params: Seq<int>,
    dims: int,
    points: Seq<Seq<int>>,
    accesses: Seq<Emitted>,
    more_points: Seq<Seq<int>>,
    more_accesses: Seq<Emitted>,
    table: Table,
    purpose: Purpose,
)
    requires
        all_seen(tree, depth, ivars, params, dims, points, accesses, table, purpose),
        all_seen(tree, depth, ivars, params, dims, more_points, more_accesses, table, purpose),
    ensures
        all_seen(
            tree,
            depth,
            ivars,
            params,
            dims,
            points + more_points,
            accesses + more_accesses,
            table,
            purpose,
        ),
{
    let (all, made) = (points + more_points, accesses + more_accesses);
    assert forall|i: int| 0 <= i < all.len() implies sees(
        tree,
        depth,
        ivars,
        params,
        #[trigger] all[i],
        made[i],
        table,
        purpose,
    ) && zero_from(all[i], timestamp_dims(tree, depth), dims) by {
        if i < points.len() {
            assert(all[i] == points[i] && made[i] == accesses[i]);
        } else {
            let j = i - points.len();
            assert(all[i] == more_points[j] && made[i] == more_accesses[j]);
        }
    }
}

/// What a walk is asked for: all iterations, and blocks and ranks as in the
/// polyhedral model.
pub open spec fn same_setting(setting: Setting, purpose: Purpose) -> bool {
    &&& setting.partition is None
    &&& purpose matches Purpose::Accesses { block_size, max_array_dim, num_sets }
        && setting.block_size == block_size && 1 <= block_size <= i64::MAX && max_array_dim
        <= MAX_ARRAY_DIMS
}

/// A walk makes the accesses of the timestamps that it visits.
pub proof fn lemma_walk_sees(
    tree: Tree,
    env: Values,
    setting: Setting,
    prefix: Seq<int>,
    ivars: Seq<int>,
    params: Seq<int>,
    dims: int,
    purpose: Purpose,
)
    requires
        plain(tree, ivars.len() as int),
        sound(tree, ivars.len() as int),
        in_scope(env, ivars, params),
        same_setting(setting, purpose),
        max_rank_of(tree) <= purpose->max_array_dim,
        timestamp_dims(tree, prefix.len() as int) <= dims,
        walk(tree, env, setting).stop is Ok,
    ensures
        all_seen(
            tree,
            prefix.len() as int,
            ivars,
            params,
            dims,
            visits(tree, prefix, ivars, params, dims),
            walk(tree, env, setting).emitted,
            setting.table,
            purpose,
        ),
    decreases tree, 0int, 0int,
{
    let depth = prefix.len() as int;
    lemma_dims_grow(tree, depth);
    match tree {
        Tree::For {
            lower_bound,
            upper_bound,
            lower_bound_operands,
            upper_bound_operands,
            step,
            ivar,
            body,
        } => {
            lemma_bound_ints(lower_bound, lower_bound_operands@, env, ivars, params);
            lemma_bound_ints(upper_bound, upper_bound_operands@, env, ivars, params);
            let lower = lower_value(lower_bound, lower_bound_operands@, env)->Ok_0;
            let upper = upper_value(upper_bound, upper_bound_operands@, env)->Ok_0;
            let trip = trip_int(
                lower_bound,
                lower_bound_operands@,
                upper_bound,
                upper_bound_operands@,
                step,
                ivars,
                params,
            );
            lemma_trip(lower as int, upper as int, step as int);
            assert(trip == ceil_quotient(upper - lower, step as int));
            lemma_for_sees(
                tree,
                *body,
                lower as int,
                upper as int,
                step as int,
                0,
                trip,
                env,
                setting,
                prefix,
                ivars,
                params,
                dims,
                purpose,
            );
        },
        Tree::Block(stmts) => {
            lemma_block_sees(tree, stmts, 0, env, setting, prefix, ivars, params, dims, purpose);
        },
        Tree::If { condition, operands, then_branch, else_branch } => {
            lemma_condition_int(condition, operands@, env, ivars, params);
            if set_holds(condition, operands@, ivars, params) {
                lemma_walk_sees(
                    *then_branch,
                    env,
                    setting,
                    prefix,
                    ivars,
                    params,
                    dims,
                    purpose,
                );
            } else if let Some(otherwise) = else_branch {
                if counts_as_else(*otherwise) {
                    lemma_walk_sees(
                        *otherwise,
                        env,
                        setting,
                        prefix,
                        ivars,
                        params,
                        dims,
                        purpose,
                    );
                } else {
                    lemma_no_statement(*otherwise, prefix, ivars, params, dims);
                }
            }
        },
        Tree::Access { site, memref, map, operands, is_write } => {
            lemma_map_ints(map, operands@, map.results@.len(), env, ivars, params);
            let indices = map_values(map, operands@, env)->Ok_0;
            let wide = indices.map_values(|index: i64| index as int);
            assert(wide =~= subscripts(map, operands@, ivars, params));
            let access = walk(tree, env, setting).emitted[0];
            lemma_data_has_coords(
                MemrefKey(lookup(setting.table.memrefs, key_of_memref(memref))->0),
                indices,
                setting.block_size,
            );
            lemma_access_agrees(
                access,
                setting.table,
                memref->Memref_0,
                indices,
                setting.block_size,
                purpose->max_array_dim as int,
                purpose->num_sets as int,
            );
        },
    }
}

/// Iteration `k` is below the upper bound exactly when it is below the trip
/// count.
pub proof fn lemma_trip(lower: int, upper: int, step: int)
    requires
        step > 0,
    ensures
        forall|k: int| k < ceil_quotient(upper - lower, step) <==> #[trigger] (lower + step * k)
            < upper,
{
    let (gap, trip) = (upper - lower, ceil_quotient(upper - lower, step));
    vstd::arithmetic::div_mod::lemma_fundamental_div_mod(-gap, step);
    assert forall|k: int| k < trip <==> #[trigger] (lower + step * k) < upper by {
        let (q, m) = ((-gap) / step, (-gap) % step);
        assert(trip == -q);
        if k < trip {
            assert(step * k < gap) by (nonlinear_arith)
                requires
                    -gap == step * q + m,
                    0 <= m < step,
                    k <= -q - 1,
                    step > 0,
            ;
        } else {
            assert(step * k >= gap) by (nonlinear_arith)
                requires
                    -gap == step * q + m,
                    0 <= m < step,
                    k >= -q,
                    step > 0,
            ;
        }
    }
}

proof fn lemma_for_sees(
    tree: Tree,
    body: Tree,
    lower: int,
    upper: int,
    step: int,
    k: int,
    trip: int,
    env: Values,
    setting: Setting,
    prefix: Seq<int>,
    ivars: Seq<int>,
    params: Seq<int>,
    dims: int,
    purpose: Purpose,
)
    requires
        tree is For,
        *tree->For_body == body,
        plain(tree, ivars.len() as int),
        sound(tree, ivars.len() as int),
        subscripts(
            tree->lower_bound,
            tree->lower_bound_operands@,
            ivars,
            params,
        )[0] == lower,
        tree->step == step,
        trip_int(
            tree->lower_bound,
            tree->lower_bound_operands@,
            tree->upper_bound,
            tree->upper_bound_operands@,
            tree->step,
            ivars,
            params,
        ) == trip,
        step > 0,
        k >= 0,
        i64::MIN <= lower <= i64::MAX,
        i64::MIN <= upper <= i64::MAX,
        forall|n: int| n < trip <==> #[trigger] (lower + step * n) < upper,
        in_scope(env, ivars, params),
        same_setting(setting, purpose),
        max_rank_of(body) <= purpose->max_array_dim,
        timestamp_dims(body, prefix.len() as int + 1) <= dims,
        walk_for(body, ivars.len() as int, lower + step * k, upper, step, env, setting).stop is Ok,
    ensures
        all_seen(
            tree,
            prefix.len() as int,
            ivars,
            params,
            dims,
            visits_for(body, lower, step, k, trip, prefix, ivars, params, dims),
            walk_for(
                body,
                ivars.len() as int,
                lower + step * k,
                upper,
                step,
                env,
                setting,
            ).emitted,
            setting.table,
            purpose,
        ),
    decreases
            body,
            1int,
            if k < trip {
                trip - k
            } else {
                0
            },
{
    let (depth, level) = (prefix.len() as int, ivars.len() as int);
    let current = lower + step * k;
    if k < trip {
        assert(lower <= current < upper) by {
            assert(step * k >= 0) by (nonlinear_arith)
                requires
                    step > 0,
                    k >= 0,
            ;
        }
        let value = current as i64;
        let inner = env.with_ivar(level, value);
        lemma_scope_entered(env, ivars, params, value);
        let longer = ivars.push(current);
        let points = visits(body, prefix.push(k), longer, params, dims);
        let first = walk(body, inner, setting);
        lemma_walk_sees(body, inner, setting, prefix.push(k), longer, params, dims, purpose);
        lemma_visits_ascend(body, prefix.push(k), longer, params, dims);
        assert forall|i: int| 0 <= i < points.len() implies sees(
            tree,
            depth,
            ivars,
            params,
            #[trigger] points[i],
            first.emitted[i],
            setting.table,
            purpose,
        ) && zero_from(points[i], timestamp_dims(tree, depth), dims) by {
            assert(extends(points[i], prefix.push(k), dims));
            assert(points[i][depth] == prefix.push(k)[depth]);
        }
        let after = first.stop->Ok_0;
        lemma_plain_is_scoped(body, level + 1);
        lemma_agrees_with_itself(inner, longer, params);
        lemma_walk_keeps(body, inner, setting, below(level + 1));
        lemma_scope_kept(inner, after, longer, params);
        assert(in_scope(after, ivars, params)) by {
            assert forall|i: int| 0 <= i < ivars.len() implies #[trigger] after.ivars[i]
                == ivars[i] by {
                assert(longer[i] == ivars[i]);
            }
        }
        assert(current + step == lower + step * (k + 1)) by (nonlinear_arith)
            requires
                current == lower + step * k,
        ;
        lemma_for_sees(
            tree,
            body,
            lower,
            upper,
            step,
            k + 1,
            trip,
            after,
            setting,
            prefix,
            ivars,
            params,
            dims,
            purpose,
        );
        lemma_seen_parts(
            tree,
            depth,
            ivars,
            params,
            dims,
            points,
            first.emitted,
            visits_for(body, lower, step, k + 1, trip, prefix, ivars, params, dims),
            walk_for(body, level, current + step, upper, step, after, setting).emitted,
            setting.table,
            purpose,
        );
    }
}

pub proof fn lemma_rank_of_part(stmts: Vec<Tree>, from: nat, at: int)
    requires
        from <= at < stmts@.len(),
    ensures
        max_rank_of(stmts[at]) <= max_rank_from(stmts, from),
    decreases at - from,
{
    if from < at {
        lemma_rank_of_part(stmts, from + 1, at);
    }
}

proof fn lemma_block_sees(
    tree: Tree,
    stmts: Vec<Tree>,
    at: int,
    env: Values,
    setting: Setting,
    prefix: Seq<int>,
    ivars: Seq<int>,
    params: Seq<int>,
    dims: int,
    purpose: Purpose,
)
    requires
        tree == Tree::Block(stmts),
        plain(tree, ivars.len() as int),
        sound(tree, ivars.len() as int),
        0 <= at,
        in_scope(env, ivars, params),
        same_setting(setting, purpose),
        max_rank_of(tree) <= purpose->max_array_dim,
        timestamp_dims(tree, prefix.len() as int) <= dims,
        walk_block(stmts, at, env, setting).stop is Ok,
    ensures
        all_seen(
            tree,
            prefix.len() as int,
            ivars,
            params,
            dims,
            visits_block(stmts, at, prefix, ivars, params, dims),
            walk_block(stmts, at, env, setting).emitted,
            setting.table,
            purpose,
        ),
    decreases stmts, 1int, stmts@.len() - at,
{
    let (depth, level) = (prefix.len() as int, ivars.len() as int);
    if at < stmts@.len() {
        let points = visits(stmts[at], prefix.push(at), ivars, params, dims);
        let first = walk(stmts[at], env, setting);
        lemma_dims_of_part(stmts, stmts@.len(), depth + 1, at);
        lemma_rank_of_part(stmts, 0, at);
        assert(plain(stmts[at], level) && sound(stmts[at], level));
        lemma_walk_sees(stmts[at], env, setting, prefix.push(at), ivars, params, dims, purpose);
        lemma_visits_ascend(stmts[at], prefix.push(at), ivars, params, dims);
        assert forall|i: int| 0 <= i < points.len() implies sees(
            tree,
            depth,
            ivars,
            params,
            #[trigger] points[i],
            first.emitted[i],
            setting.table,
            purpose,
        ) && zero_from(points[i], timestamp_dims(tree, depth), dims) by {
            assert(extends(points[i], prefix.push(at), dims));
            assert(points[i][depth] == prefix.push(at)[depth]);
        }
        let after = first.stop->Ok_0;
        lemma_plain_is_scoped(stmts[at], level);
        lemma_agrees_with_itself(env, ivars, params);
        lemma_walk_keeps(stmts[at], env, setting, below(level));
        lemma_scope_kept(env, after, ivars, params);
        lemma_block_sees(
            tree,
            stmts,
            at + 1,
            after,
            setting,
            prefix,
            ivars,
            params,
            dims,
            purpose,
        );
        lemma_seen_parts(
            tree,
            depth,
            ivars,
            params,
            dims,
            points,
            first.emitted,
            visits_block(stmts, at + 1, prefix, ivars, params, dims),
            walk_block(stmts, at + 1, after, setting).emitted,
            setting.table,
            purpose,
        );
    }
}

/// A coordinate behind all others, such as the owning thread, does not change
/// the order of different points.
pub proof fn law_appending_keeps_the_order(a: Seq<int>, b: Seq<int>, x: int, y: int)
    requires
        a.len() == b.len(),
        a != b,
    ensures
        before(a.push(x), b.push(y)) <==> before(a, b),
{
    let (longer, other) = (a.push(x), b.push(y));
    if before(a, b) {
        let i = choose|i: int| #[trigger] first_difference(a, b, i) && a[i] < b[i];
        assert forall|j: int| 0 <= j < i implies #[trigger] longer[j] == other[j] by {
            assert(a[j] == b[j]);
        }
        assert(first_difference(longer, other, i));
    }
    if before(longer, other) {
        let i = choose|i: int| #[trigger] first_difference(longer, other, i) && longer[i]
            < other[i];
        assert forall|j: int| 0 <= j < i && j < a.len() implies #[trigger] a[j] == b[j] by {
            assert(longer[j] == other[j]);
        }
        if i == a.len() {
            assert(a =~= b);
        }
        assert(first_difference(a, b, i));
    }
}

/// The values in scope before any loop was entered.
pub open spec fn outermost(symbols: Seq<i64>) -> Values {
    Values { ivars: Seq::empty(), symbols }
}

/// The values of the parameters.
pub open spec fn as_params(symbols: Seq<i64>) -> Seq<int> {
    symbols.map_values(|value: i64| value as int)
}

/// The timestamps of a whole tree in program order.
pub open spec fn program_order(tree: Tree, symbols: Seq<i64>) -> Seq<Seq<int>> {
    visits(tree, Seq::empty(), Seq::empty(), as_params(symbols), timestamp_dims(tree, 0))
}

/// A walk over a whole tree makes one access per timestamp, in lexicographic
/// order of the timestamps, and each is the access of its timestamp.
pub proof fn law_walk_visits_the_timestamps(
    tree: Tree,
    symbols: Seq<i64>,
    setting: Setting,
    purpose: Purpose,
)
    requires
        plain(tree, 0),
        sound(tree, 0),
        same_setting(setting, purpose),
        max_rank_of(tree) <= purpose->max_array_dim,
        walk(tree, outermost(symbols), setting).stop is Ok,
    ensures
        ({
            let params = as_params(symbols);
            let points = program_order(tree, symbols);
            let accesses = walk(tree, outermost(symbols), setting).emitted;
            &&& points.len() == accesses.len()
            &&& ascending(points)
            &&& forall|point: Seq<int>| #[trigger]
                points.contains(point) <==> point.len() == timestamp_dims(tree, 0) && at_timestamp(
                    tree,
                    0,
                    Seq::empty(),
                    params,
                    point,
                    Purpose::Timestamps,
                ) is Some
            &&& forall|i: int|
                0 <= i < points.len() ==> sees(
                    tree,
                    0,
                    Seq::empty(),
                    params,
                    #[trigger] points[i],
                    accesses[i],
                    setting.table,
                    purpose,
                )
        }),
{
    let (none, params, dims) = (Seq::<int>::empty(), as_params(symbols), timestamp_dims(tree, 0));
    let env = outermost(symbols);
    let points = program_order(tree, symbols);
    lemma_walk_sees(tree, env, setting, none, none, params, dims, purpose);
    lemma_visits_ascend(tree, none, none, params, dims);
    assert forall|point: Seq<int>| #[trigger] points.contains(point) <==> point.len() == dims
        && at_timestamp(tree, 0, none, params, point, Purpose::Timestamps) is Some by {
        if points.contains(point) {
            let i = points.index_of(point);
            assert(extends(points[i], none, dims));
        }
        if point.len() == dims && at_timestamp(
            tree,
            0,
            none,
            params,
            point,
            Purpose::Timestamps,
        ) is Some {
            lemma_dims_grow(tree, 0);
            lemma_timestamps_are_visited(tree, none, none, params, dims, point);
        }
    }
}

/// The sampler and the polyhedral model see the same program: the points of the
/// timestamp plan, in lexicographic order, are the accesses of a walk, and the
/// access plan relates each to the datum that the walk touches.
pub proof fn law_sampler_and_model_agree(
    tree: Tree,
    symbols: Seq<i64>,
    setting: Setting,
    purpose: Purpose,
    stamps: Plan,
    data: Plan,
)
    requires
        plain(tree, 0),
        sound(tree, 0),
        same_setting(setting, purpose),
        max_rank_of(tree) <= purpose->max_array_dim,
        walk(tree, outermost(symbols), setting).stop is Ok,
        failure(tree, 0, Seq::empty(), Purpose::Timestamps) is None,
        plans(stamps, tree, 0, Seq::empty(), Purpose::Timestamps),
        failure(tree, 0, Seq::empty(), purpose) is None,
        plans(data, tree, 0, Seq::empty(), purpose),
    ensures
        ({
            let params = as_params(symbols);
            let points = program_order(tree, symbols);
            let accesses = walk(tree, outermost(symbols), setting).emitted;
            &&& points.len() == accesses.len()
            &&& ascending(points)
            &&& forall|point: Seq<int>| #[trigger]
                points.contains(point) <==> point.len() == timestamp_dims(tree, 0) && stamps.image(
                    params,
                    point,
                ) is Some
            &&& forall|i: int|
                0 <= i < points.len() ==> (data.image(params, #[trigger] points[i]) matches Some(
                    tuple,
                ) && agrees(
                    accesses[i],
                    tuple,
                    setting.table,
                    purpose->max_array_dim as int,
                    purpose->num_sets as int,
                ))
        }),
{
    let (none, params) = (Seq::<int>::empty(), as_params(symbols));
    let points = program_order(tree, symbols);
    let accesses = walk(tree, outermost(symbols), setting).emitted;
    let loops = Seq::<ConvertedIVar>::empty();
    law_walk_visits_the_timestamps(tree, symbols, setting, purpose);
    assert forall|point: Seq<int>| #[trigger] points.contains(point) <==> point.len()
        == timestamp_dims(tree, 0) && stamps.image(params, point) is Some by {
        law_plan_has_the_timestamps(
            stamps,
            tree,
            0,
            loops,
            Purpose::Timestamps,
            none,
            params,
            point,
        );
    }
    assert forall|i: int| 0 <= i < points.len() implies (data.image(params, #[trigger] points[i])
        matches Some(tuple) && agrees(
        accesses[i],
        tuple,
        setting.table,
        purpose->max_array_dim as int,
        purpose->num_sets as int,
    )) by {
        law_plan_has_the_timestamps(data, tree, 0, loops, purpose, none, params, points[i]);
    }
}

} // verus!
