//! What the plans of the polyhedral model mean.
//!
//! The plan of a tree, built by substituting loop variables symbolically, has
//! exactly the points that the tree gives when its bounds, conditions and
//! subscripts are evaluated with the values of the variables.

use crate::address::{has_coords, packed, DataId, MAX_ARRAY_DIMS};
use crate::polyhedral::{
    access_range, all_hold, blocked_aff, condition_failure, counts_as_else, entered, failure,
    failure_from, lowered_condition, lowered_subscript, lowered_upper_bound, plans, row_holds,
    subscript_failure, trip_aff, zero_from, Plan, Purpose, Row,
};
use crate::quasi_affine::{
    at_point, ceil_quotient, expr_int, kinded_map, law_lowering_keeps_the_value, lower_int,
    lowered_lower_bound, well_kinded, Aff, ConvertedIVar, dims_below,
};
use crate::tree::{AffineExpr, AffineMap, IntegerSet, Tree, ValID};
use vstd::prelude::*;

verus! {

broadcast use vstd::std_specs::vec::axiom_vec_index_decreases;

/// Every position of the expression is one of `count` operands.
pub open spec fn positions_within(expr: AffineExpr, num_dims: int, count: int) -> bool
    decreases expr,
{
    match expr {
        AffineExpr::Constant(_) => true,
        AffineExpr::Dim(position) => position < count,
        AffineExpr::Symbol(position) => num_dims + position < count,
        AffineExpr::Add(l, r) => positions_within(*l, num_dims, count) && positions_within(
            *r,
            num_dims,
            count,
        ),
        AffineExpr::Mul(l, r) => positions_within(*l, num_dims, count) && positions_within(
            *r,
            num_dims,
            count,
        ),
        AffineExpr::Mod(l, r) => positions_within(*l, num_dims, count) && positions_within(
            *r,
            num_dims,
            count,
        ),
        AffineExpr::FloorDiv(l, r) => positions_within(*l, num_dims, count) && positions_within(
            *r,
            num_dims,
            count,
        ),
        AffineExpr::CeilDiv(l, r) => positions_within(*l, num_dims, count) && positions_within(
            *r,
            num_dims,
            count,
        ),
    }
}

/// The variables among the operands belong to the outermost `level` loops.
pub open spec fn operands_below(operands: Seq<ValID>, level: int) -> bool {
    forall|i: int|
        0 <= i < operands.len() ==> (#[trigger] operands[i] matches ValID::IVar(n) ==> n < level)
}

/// A map that uses its operands by their kind, inside `level` loops.
pub open spec fn sound_map(map: AffineMap, operands: Seq<ValID>, level: int) -> bool {
    &&& kinded_map(map, operands)
    &&& operands_below(operands, level)
    &&& forall|i: int|
        0 <= i < map.results@.len() ==> positions_within(
            #[trigger] map.results@[i],
            map.num_dims as int,
            operands.len() as int,
        )
}

/// A set of conditions that uses its operands by their kind.
pub open spec fn sound_set(set: IntegerSet, operands: Seq<ValID>, level: int) -> bool {
    &&& well_kinded(operands, set.num_dims as int)
    &&& operands_below(operands, level)
    &&& forall|i: int|
        0 <= i < set.constraints@.len() ==> dims_below(
            (#[trigger] set.constraints@[i]).expr,
            set.num_dims as int,
        ) && positions_within(
            set.constraints@[i].expr,
            set.num_dims as int,
            operands.len() as int,
        )
}

/// A tree whose dimensions stand for variables of the loops around them and
/// whose symbols stand for parameters.
pub open spec fn sound(tree: Tree, level: int) -> bool
    decreases tree,
{
    match tree {
        Tree::For {
            lower_bound,
            upper_bound,
            lower_bound_operands,
            upper_bound_operands,
            body,
            ..
        } => {
            &&& lower_bound.results@.len() > 0
            &&& upper_bound.results@.len() > 0
            &&& sound_map(lower_bound, lower_bound_operands@, level)
            &&& sound_map(upper_bound, upper_bound_operands@, level)
            &&& sound(*body, level + 1)
        },
        Tree::Block(stmts) => forall|i: int| 0 <= i < stmts@.len() ==> sound(#[trigger] stmts[i], level),
        Tree::If { condition, operands, then_branch, else_branch } => {
            &&& sound_set(condition, operands@, level)
            &&& sound(*then_branch, level)
            &&& else_branch matches Some(otherwise) ==> sound(*otherwise, level)
        },
        Tree::Access { map, operands, .. } => sound_map(map, operands@, level),
    }
}

/// The number of dimensions of the timestamps of a tree.
pub open spec fn timestamp_dims(tree: Tree, depth: int) -> int
    decreases tree, 0int,
{
    match tree {
        Tree::For { body, .. } => timestamp_dims(*body, depth + 1),
        Tree::Block(stmts) => if stmts@.len() == 0 {
            depth
        } else {
            largest_dims(stmts, stmts@.len(), depth + 1)
        },
        Tree::If { then_branch, else_branch, .. } => {
            let first = timestamp_dims(*then_branch, depth);
            match else_branch {
                Some(otherwise) if counts_as_else(*otherwise) => {
                    let second = timestamp_dims(*otherwise, depth);
                    if first > second {
                        first
                    } else {
                        second
                    }
                },
                _ => first,
            }
        },
        Tree::Access { .. } => depth,
    }
}

/// The largest number of dimensions among the first statements of a block.
pub open spec fn largest_dims(stmts: Vec<Tree>, count: nat, depth: int) -> int
    decreases stmts, count,
{
    if count == 0 || count > stmts@.len() {
        0
    } else {
        let rest = largest_dims(stmts, (count - 1) as nat, depth);
        let own = timestamp_dims(stmts[count - 1], depth);
        if own > rest {
            own
        } else {
            rest
        }
    }
}

/// The values of a map's results.
pub open spec fn subscripts(map: AffineMap, operands: Seq<ValID>, ivars: Seq<int>, params: Seq<int>) -> Seq<
    int,
> {
    map.results@.map_values(
        |expr: AffineExpr| expr_int(expr, operands, map.num_dims as int, ivars, params),
    )
}

/// The tuple that stands for an access to an array element.
pub open spec fn access_tuple(
    memref: int,
    indices: Seq<int>,
    block_size: int,
    max_array_dim: int,
    num_sets: int,
) -> Seq<int> {
    let rank = indices.len() as int;
    let head = seq![memref] + Seq::new((max_array_dim - rank) as nat, |i: int| 0int);
    if rank == 0 {
        head
    } else {
        let last = if block_size > 1 {
            indices.last() / block_size
        } else {
            indices.last()
        };
        head + indices.drop_last() + if num_sets > 1 {
            seq![last % num_sets, last]
        } else {
            seq![last]
        }
    }
}

/// All conditions of a set hold.
pub open spec fn set_holds(
    set: IntegerSet,
    operands: Seq<ValID>,
    ivars: Seq<int>,
    params: Seq<int>,
) -> bool {
    forall|i: int|
        0 <= i < set.constraints@.len() ==> {
            let value = expr_int(
                (#[trigger] set.constraints@[i]).expr,
                operands,
                set.num_dims as int,
                ivars,
                params,
            );
            if set.constraints@[i].equality {
                value == 0
            } else {
                value >= 0
            }
        }
}

/// The number of iterations of a loop.
pub open spec fn trip_int(
    lower_bound: AffineMap,
    lower_bound_operands: Seq<ValID>,
    upper_bound: AffineMap,
    upper_bound_operands: Seq<ValID>,
    step: i64,
    ivars: Seq<int>,
    params: Seq<int>,
) -> int {
    ceil_quotient(
        subscripts(upper_bound, upper_bound_operands, ivars, params)[0] - subscripts(
            lower_bound,
            lower_bound_operands,
            ivars,
            params,
        )[0],
        step as int,
    )
}

/// What a point stands for, if it is a timestamp of the tree: nothing more
/// where only timestamps are asked for, and the tuple of the access otherwise.
/// `ivars` are the values of the variables of the loops around the tree.
pub open spec fn at_timestamp(
    tree: Tree,
    depth: int,
    ivars: Seq<int>,
    params: Seq<int>,
    point: Seq<int>,
    purpose: Purpose,
) -> Option<Seq<int>>
    decreases tree,
{
    match tree {
        Tree::For {
            lower_bound,
            upper_bound,
            lower_bound_operands,
            upper_bound_operands,
            step,
            body,
            ..
        } => {
            let lower = subscripts(lower_bound, lower_bound_operands@, ivars, params)[0];
            let trip = trip_int(
                lower_bound,
                lower_bound_operands@,
                upper_bound,
                upper_bound_operands@,
                step,
                ivars,
                params,
            );
            if purpose is Timestamps && !(0 <= point[depth] < trip) {
                None
            } else {
                at_timestamp(
                    *body,
                    depth + 1,
                    ivars.push(lower + step * point[depth]),
                    params,
                    point,
                    purpose,
                )
            }
        },
        Tree::Block(stmts) => {
            let at = point[depth];
            if 0 <= at < stmts@.len() && zero_from(
                point,
                timestamp_dims(stmts[at], depth + 1),
                timestamp_dims(tree, depth),
            ) {
                at_timestamp(stmts[at], depth + 1, ivars, params, point, purpose)
            } else {
                None
            }
        },
        Tree::If { condition, operands, then_branch, else_branch } => if set_holds(
            condition,
            operands@,
            ivars,
            params,
        ) {
            if zero_from(
                point,
                timestamp_dims(*then_branch, depth),
                timestamp_dims(tree, depth),
            ) {
                at_timestamp(*then_branch, depth, ivars, params, point, purpose)
            } else {
                None
            }
        } else {
            match else_branch {
                Some(otherwise) if counts_as_else(*otherwise) => if zero_from(
                    point,
                    timestamp_dims(*otherwise, depth),
                    timestamp_dims(tree, depth),
                ) {
                    at_timestamp(*otherwise, depth, ivars, params, point, purpose)
                } else {
                    None
                },
                _ => None,
            }
        },
        Tree::Access { memref, map, operands, .. } => match purpose {
            Purpose::Timestamps => Some(Seq::empty()),
            Purpose::Accesses { block_size, max_array_dim, num_sets } => Some(
                access_tuple(
                    memref->Memref_0 as int,
                    subscripts(map, operands@, ivars, params),
                    block_size as int,
                    max_array_dim as int,
                    num_sets as int,
                ),
            ),
        },
    }
}

/// An expression inside some loops does not depend on loops further inside.
proof fn lemma_inner_loops_do_not_matter(
    expr: AffineExpr,
    operands: Seq<ValID>,
    num_dims: int,
    ivars: Seq<int>,
    more: Seq<int>,
    params: Seq<int>,
)
    requires
        operands_below(operands, ivars.len() as int),
        positions_within(expr, num_dims, operands.len() as int),
        num_dims >= 0,
    ensures
        expr_int(expr, operands, num_dims, ivars + more, params) == expr_int(
            expr,
            operands,
            num_dims,
            ivars,
            params,
        ),
    decreases expr,
{
    match expr {
        AffineExpr::Constant(_) => {},
        AffineExpr::Dim(position) => {
            assert(operands[position as int] matches ValID::IVar(n) ==> n < ivars.len());
        },
        AffineExpr::Symbol(position) => {
            assert(operands[num_dims + position] matches ValID::IVar(n) ==> n < ivars.len());
        },
        AffineExpr::Add(l, r) => {
            lemma_inner_loops_do_not_matter(*l, operands, num_dims, ivars, more, params);
            lemma_inner_loops_do_not_matter(*r, operands, num_dims, ivars, more, params);
        },
        AffineExpr::Mul(l, r) => {
            lemma_inner_loops_do_not_matter(*l, operands, num_dims, ivars, more, params);
            lemma_inner_loops_do_not_matter(*r, operands, num_dims, ivars, more, params);
        },
        AffineExpr::Mod(l, r) => {
            lemma_inner_loops_do_not_matter(*l, operands, num_dims, ivars, more, params);
            lemma_inner_loops_do_not_matter(*r, operands, num_dims, ivars, more, params);
        },
        AffineExpr::FloorDiv(l, r) => {
            lemma_inner_loops_do_not_matter(*l, operands, num_dims, ivars, more, params);
            lemma_inner_loops_do_not_matter(*r, operands, num_dims, ivars, more, params);
        },
        AffineExpr::CeilDiv(l, r) => {
            lemma_inner_loops_do_not_matter(*l, operands, num_dims, ivars, more, params);
            lemma_inner_loops_do_not_matter(*r, operands, num_dims, ivars, more, params);
        },
    }
}

/// The loops around a place, each inside those before it.
pub open spec fn nested(loops: Seq<ConvertedIVar>) -> bool {
    forall|n: int|
        0 <= n < loops.len() ==> (#[trigger] loops[n]).lower_bound.results@.len() > 0 && sound_map(
            *loops[n].lower_bound,
            loops[n].operands@,
            n,
        )
}

/// Entering a loop extends the values by its own.
proof fn lemma_enter(
    loops: Seq<ConvertedIVar>,
    ivar: ConvertedIVar,
    ivars: Seq<int>,
    params: Seq<int>,
    point: Seq<int>,
)
    requires
        nested(loops),
        at_point(loops, ivars, params, point),
        ivar.lower_bound.results@.len() > 0,
        sound_map(*ivar.lower_bound, ivar.operands@, loops.len() as int),
    ensures
        nested(loops.push(ivar)),
        at_point(
            loops.push(ivar),
            ivars.push(lower_int(ivar, ivars, params) + ivar.step_size * point[ivar.index as int]),
            params,
            point,
        ),
{
    let value = lower_int(ivar, ivars, params) + ivar.step_size * point[ivar.index as int];
    let (all, values) = (loops.push(ivar), ivars.push(value));
    assert forall|n: int| 0 <= n < all.len() implies #[trigger] values[n] == lower_int(
        all[n],
        values,
        params,
    ) + all[n].step_size * point[all[n].index as int] by {
        let before = values.take(n);
        let outer = all[n];
        let expr = outer.lower_bound.results@[0];
        let shift = outer.lower_bound.num_dims as int;
        if n < loops.len() {
            assert(outer == loops[n]);
            assert(ivars[n] == lower_int(loops[n], ivars, params) + loops[n].step_size
                * point[loops[n].index as int]);
        }
        assert(values =~= before + values.skip(n));
        assert(ivars =~= before + ivars.skip(n));
        lemma_inner_loops_do_not_matter(expr, outer.operands@, shift, before, values.skip(n), params);
        lemma_inner_loops_do_not_matter(expr, outer.operands@, shift, before, ivars.skip(n), params);
    }
    assert forall|n: int| 0 <= n < all.len() implies kinded_map(
        *(#[trigger] all[n]).lower_bound,
        all[n].operands@,
    ) by {
        if n < loops.len() {
            assert(all[n] == loops[n]);
        }
    }
    assert forall|n: int| 0 <= n < all.len() implies (
    #[trigger] all[n]).lower_bound.results@.len() > 0 && sound_map(
        *all[n].lower_bound,
        all[n].operands@,
        n,
    ) by {
        if n < loops.len() {
            assert(all[n] == loops[n]);
        }
    }
}

/// A plan has the dimensions of its tree's timestamps.
proof fn lemma_plan_dims(
    plan: Plan,
    tree: Tree,
    depth: usize,
    loops: Seq<ConvertedIVar>,
    purpose: Purpose,
)
    requires
        plans(plan, tree, depth, loops, purpose),
        failure(tree, depth, loops, purpose) is None,
    ensures
        plan.dims() == timestamp_dims(tree, depth as int),
    decreases tree,
{
    match tree {
        Tree::For { lower_bound, lower_bound_operands, step, body, .. } => {
            let ivar = entered(&lower_bound, &lower_bound_operands, step, depth);
            lemma_plan_dims(
                *plan->Loop_body,
                *body,
                (depth + 1) as usize,
                loops.push(ivar),
                purpose,
            );
        },
        Tree::Block(stmts) => {
            if stmts@.len() > 0 {
                let parts = plan->parts;
                let dims = plan->Block_dims;
                let longest = plan->longest as int;
                assert forall|i: int| 0 <= i < stmts@.len() implies #[trigger] timestamp_dims(
                    stmts[i],
                    depth + 1,
                ) == parts[i].dims() && parts[i].dims() <= dims by {
                    lemma_no_failure_from(stmts, 0, depth, loops, purpose, i);
                    assert(plans(parts[i], stmts[i], (depth + 1) as usize, loops, purpose));
                    lemma_plan_dims(parts[i], stmts[i], (depth + 1) as usize, loops, purpose);
                }
                lemma_largest_dims(
                    stmts,
                    stmts@.len(),
                    depth + 1,
                    dims as int,
                    longest,
                );
            }
        },
        Tree::Access { .. } => {},
        Tree::If { then_branch, else_branch, .. } => {
            lemma_plan_dims(*plan->then_part, *then_branch, depth, loops, purpose);
            if let Some(otherwise) = else_branch {
                if counts_as_else(*otherwise) {
                    lemma_plan_dims(*plan->else_part, *otherwise, depth, loops, purpose);
                }
            }
        },
    }
}

proof fn lemma_no_failure_from(
    stmts: Vec<Tree>,
    from: nat,
    depth: usize,
    loops: Seq<ConvertedIVar>,
    purpose: Purpose,
    at: int,
)
    requires
        from <= at < stmts@.len(),
        failure_from(stmts, from, depth, loops, purpose) is None,
    ensures
        failure(stmts[at], (depth + 1) as usize, loops, purpose) is None,
    decreases at - from,
{
    if from < at {
        lemma_no_failure_from(stmts, from + 1, depth, loops, purpose, at);
    }
}

proof fn lemma_largest_dims(stmts: Vec<Tree>, count: nat, depth: int, dims: int, longest: int)
    requires
        count <= stmts@.len(),
        depth >= 0,
        dims >= 0,
        0 <= longest < stmts@.len(),
        timestamp_dims(stmts[longest], depth) == dims,
        forall|i: int|
            0 <= i < stmts@.len() ==> #[trigger] timestamp_dims(stmts[i], depth) <= dims,
    ensures
        largest_dims(stmts, count, depth) <= dims,
        longest < count ==> largest_dims(stmts, count, depth) == dims,
    decreases count,
{
    if count > 0 {
        lemma_largest_dims(stmts, (count - 1) as nat, depth, dims, longest);
        assert(timestamp_dims(stmts[count - 1], depth) <= dims);
    }
}

proof fn lemma_no_subscript_failure(
    map: AffineMap,
    operands: Seq<ValID>,
    loops: Seq<ConvertedIVar>,
    from: nat,
    at: int,
)
    requires
        from <= at < map.results@.len(),
        subscript_failure(map, operands, loops, from) is None,
    ensures
        lowered_subscript(map, operands, loops, at) is Ok,
    decreases at - from,
{
    if from < at {
        lemma_no_subscript_failure(map, operands, loops, from + 1, at);
    }
}

proof fn lemma_no_condition_failure(
    set: IntegerSet,
    operands: Seq<ValID>,
    loops: Seq<ConvertedIVar>,
    from: nat,
    at: int,
)
    requires
        from <= at < set.constraints@.len(),
        condition_failure(set, operands, loops, from) is None,
    ensures
        lowered_condition(set, operands, loops, at) is Ok,
    decreases at - from,
{
    if from < at {
        lemma_no_condition_failure(set, operands, loops, from + 1, at);
    }
}

/// The values of a leaf are the tuple of its access.
proof fn lemma_range_values(
    memref: usize,
    map: AffineMap,
    operands: Seq<ValID>,
    loops: Seq<ConvertedIVar>,
    block_size: usize,
    max_array_dim: usize,
    num_sets: usize,
    ivars: Seq<int>,
    params: Seq<int>,
    point: Seq<int>,
)
    requires
        at_point(loops, ivars, params, point),
        kinded_map(map, operands),
        subscript_failure(map, operands, loops, 0) is None,
    ensures
        access_range(
            memref,
            map,
            operands,
            loops,
            block_size,
            max_array_dim,
            num_sets,
        ).map_values(|aff: Aff| aff.value(params, point)) == access_tuple(
            memref as int,
            subscripts(map, operands, ivars, params),
            block_size as int,
            max_array_dim as int,
            num_sets as int,
        ),
{
    let indices = subscripts(map, operands, ivars, params);
    let rank = map.results@.len() as int;
    let range = access_range(memref, map, operands, loops, block_size, max_array_dim, num_sets);
    let values = range.map_values(|aff: Aff| aff.value(params, point));
    let tuple = access_tuple(
        memref as int,
        indices,
        block_size as int,
        max_array_dim as int,
        num_sets as int,
    );
    assert forall|i: int| 0 <= i < rank implies (#[trigger] lowered_subscript(
        map,
        operands,
        loops,
        i,
    )) is Ok && lowered_subscript(map, operands, loops, i)->Ok_0.value(params, point)
        == indices[i] by {
        lemma_no_subscript_failure(map, operands, loops, 0, i);
        law_lowering_keeps_the_value(
            map.results@[i],
            operands,
            map.num_dims as int,
            loops,
            loops.len(),
            ivars,
            params,
            point,
        );
    }
    if rank > 0 {
        let inner = lowered_subscript(map, operands, loops, rank - 1)->Ok_0;
        let last = blocked_aff(inner, block_size);
        reveal_with_fuel(Aff::value, 3);
        assert(last.value(params, point) == if block_size > 1 {
            indices[rank - 1] / block_size as int
        } else {
            indices[rank - 1]
        });
    }
    assert(values =~= tuple);
}

/// A point is in the plan of a tree exactly when it is a timestamp of the tree,
/// and then the plan relates it to the tuple of the access.
pub proof fn law_plan_has_the_timestamps(
    plan: Plan,
    tree: Tree,
    depth: usize,
    loops: Seq<ConvertedIVar>,
    purpose: Purpose,
    ivars: Seq<int>,
    params: Seq<int>,
    point: Seq<int>,
)
    requires
        plans(plan, tree, depth, loops, purpose),
        failure(tree, depth, loops, purpose) is None,
        sound(tree, loops.len() as int),
        nested(loops),
        at_point(loops, ivars, params, point),
    ensures
        plan.image(params, point) == at_timestamp(
            tree,
            depth as int,
            ivars,
            params,
            point,
            purpose,
        ),
    decreases tree,
{
    match tree {
        Tree::For {
            lower_bound,
            upper_bound,
            lower_bound_operands,
            upper_bound_operands,
            step,
            body,
            ..
        } => {
            let ivar = entered(&lower_bound, &lower_bound_operands, step, depth);
            let lower = subscripts(lower_bound, lower_bound_operands@, ivars, params)[0];
            let upper = subscripts(upper_bound, upper_bound_operands@, ivars, params)[0];
            assert(lower == lower_int(ivar, ivars, params));
            lemma_enter(loops, ivar, ivars, params, point);
            let value = lower + step * point[depth as int];
            law_plan_has_the_timestamps(
                *plan->Loop_body,
                *body,
                (depth + 1) as usize,
                loops.push(ivar),
                purpose,
                ivars.push(value),
                params,
                point,
            );
            if purpose is Timestamps {
                law_lowering_keeps_the_value(
                    lower_bound.results@[0],
                    lower_bound_operands@,
                    lower_bound.num_dims as int,
                    loops,
                    loops.len(),
                    ivars,
                    params,
                    point,
                );
                law_lowering_keeps_the_value(
                    upper_bound.results@[0],
                    upper_bound_operands@,
                    upper_bound.num_dims as int,
                    loops,
                    loops.len(),
                    ivars,
                    params,
                    point,
                );
                let low = lowered_lower_bound(ivar, loops, loops.len())->Ok_0;
                let high = lowered_upper_bound(
                    upper_bound,
                    upper_bound_operands@,
                    loops,
                    loops.len(),
                )->Ok_0;
                assert(trip_aff(low, high, step).value(params, point) == ceil_quotient(
                    upper - lower,
                    step as int,
                )) by {
                    reveal_with_fuel(Aff::value, 4);
                }
            }
        },
        Tree::Block(stmts) => {
            if stmts@.len() > 0 {
                let at = point[depth as int];
                let parts = plan->parts;
                lemma_plan_dims(plan, tree, depth, loops, purpose);
                if 0 <= at < stmts@.len() {
                    lemma_no_failure_from(stmts, 0, depth, loops, purpose, at);
                    assert(plans(parts[at], stmts[at], (depth + 1) as usize, loops, purpose));
                    lemma_plan_dims(parts[at], stmts[at], (depth + 1) as usize, loops, purpose);
                    law_plan_has_the_timestamps(
                        parts[at],
                        stmts[at],
                        (depth + 1) as usize,
                        loops,
                        purpose,
                        ivars,
                        params,
                        point,
                    );
                }
            }
        },
        Tree::Access { memref, map, operands, .. } => {
            if let Purpose::Accesses { block_size, max_array_dim, num_sets } = purpose {
                lemma_range_values(
                    memref->Memref_0,
                    map,
                    operands@,
                    loops,
                    block_size,
                    max_array_dim,
                    num_sets,
                    ivars,
                    params,
                    point,
                );
            } else {
                assert(plan->range@.map_values(|aff: Aff| aff.value(params, point))
                    =~= Seq::empty());
            }
        },
        Tree::If { condition, operands, then_branch, else_branch } => {
            let rows = plan->condition;
            lemma_plan_dims(plan, tree, depth, loops, purpose);
            lemma_plan_dims(*plan->then_part, *then_branch, depth, loops, purpose);
            law_plan_has_the_timestamps(
                *plan->then_part,
                *then_branch,
                depth,
                loops,
                purpose,
                ivars,
                params,
                point,
            );
            if let Some(otherwise) = else_branch {
                if counts_as_else(*otherwise) {
                    lemma_plan_dims(*plan->else_part, *otherwise, depth, loops, purpose);
                    law_plan_has_the_timestamps(
                        *plan->else_part,
                        *otherwise,
                        depth,
                        loops,
                        purpose,
                        ivars,
                        params,
                        point,
                    );
                }
            }
            lemma_rows_hold(condition, operands@, loops, rows@, ivars, params, point);
        },
    }
}

proof fn lemma_rows_hold(
    set: IntegerSet,
    operands: Seq<ValID>,
    loops: Seq<ConvertedIVar>,
    rows: Seq<Row>,
    ivars: Seq<int>,
    params: Seq<int>,
    point: Seq<int>,
)
    requires
        at_point(loops, ivars, params, point),
        sound_set(set, operands, loops.len() as int),
        condition_failure(set, operands, loops, 0) is None,
        rows == Seq::new(
            set.constraints@.len(),
            |i: int|
                Row {
                    aff: lowered_condition(set, operands, loops, i)->Ok_0,
                    equality: set.constraints@[i].equality,
                },
        ),
    ensures
        all_hold(rows, params, point) == set_holds(set, operands, ivars, params),
{
    assert forall|i: int| 0 <= i < rows.len() implies #[trigger] rows[i].aff.value(params, point)
        == expr_int(
        set.constraints@[i].expr,
        operands,
        set.num_dims as int,
        ivars,
        params,
    ) by {
        lemma_no_condition_failure(set, operands, loops, 0, i);
        assert(dims_below(set.constraints@[i].expr, set.num_dims as int));
        law_lowering_keeps_the_value(
            set.constraints@[i].expr,
            operands,
            set.num_dims as int,
            loops,
            loops.len(),
            ivars,
            params,
            point,
        );
    }
    if all_hold(rows, params, point) {
        assert forall|i: int| 0 <= i < set.constraints@.len() implies {
            let value = expr_int(
                (#[trigger] set.constraints@[i]).expr,
                operands,
                set.num_dims as int,
                ivars,
                params,
            );
            if set.constraints@[i].equality {
                value == 0
            } else {
                value >= 0
            }
        } by {
            assert(row_holds(rows[i], params, point));
        }
    }
    if set_holds(set, operands, ivars, params) {
        assert forall|i: int| 0 <= i < rows.len() implies row_holds(
            #[trigger] rows[i],
            params,
            point,
        ) by {
            assert(set.constraints@[i].equality == rows[i].equality);
        }
    }
}

/// The plan of an access relates every point to one tuple: the array, zeros in
/// front of an array of fewer dimensions than the largest, the outer subscripts
/// as they are, the cache set where there are several, and the block of the
/// innermost subscript. With one cache set, what follows the array are the last
/// coordinates of the sampler's datum.
pub proof fn law_access_has_one_tuple(
    plan: Plan,
    tree: Tree,
    depth: usize,
    loops: Seq<ConvertedIVar>,
    purpose: Purpose,
    ivars: Seq<int>,
    params: Seq<int>,
    point: Seq<int>,
)
    requires
        plans(plan, tree, depth, loops, purpose),
        failure(tree, depth, loops, purpose) is None,
        sound(tree, loops.len() as int),
        nested(loops),
        at_point(loops, ivars, params, point),
        tree matches Tree::Access { memref, map, .. } && memref is Memref && (
        purpose matches Purpose::Accesses { block_size, max_array_dim, num_sets } && 1
            <= map.results@.len() <= max_array_dim && block_size >= 1 && num_sets >= 1),
    ensures
        ({
            let memref = tree->Access_memref->Memref_0 as int;
            let indices = subscripts(tree->Access_map, tree->Access_operands@, ivars, params);
            let block_size = purpose->block_size as int;
            let max_array_dim = purpose->max_array_dim as int;
            let num_sets = purpose->num_sets as int;
            let rank = indices.len() as int;
            let block = indices.last() / block_size;
            let tuple = plan.image(params, point)->0;
            &&& plan.image(params, point) is Some
            &&& tuple.len() == max_array_dim + if num_sets > 1 {
                2int
            } else {
                1int
            }
            &&& tuple[0] == memref
            &&& forall|at: int| 0 <= at < max_array_dim - rank ==> #[trigger] tuple[at + 1] == 0
            &&& forall|at: int|
                0 <= at < rank - 1 ==> #[trigger] tuple[at + 1 + max_array_dim - rank]
                    == indices[at]
            &&& num_sets > 1 ==> tuple[max_array_dim] == block % num_sets
            &&& tuple.last() == block
            &&& forall|data: DataId, fitting: Seq<i64>|
                #![trigger has_coords(data, packed(fitting, block_size))]
                num_sets == 1 && max_array_dim <= MAX_ARRAY_DIMS && block_size <= i64::MAX
                    && fitting.map_values(|index: i64| index as int) == indices && has_coords(
                    data,
                    packed(fitting, block_size),
                ) ==> forall|at: int|
                    0 <= at < max_array_dim ==> #[trigger] tuple[at + 1] == data.coords@[at
                        + MAX_ARRAY_DIMS - max_array_dim]
        }),
{
    law_plan_has_the_timestamps(plan, tree, depth, loops, purpose, ivars, params, point);
    let memref = tree->Access_memref->Memref_0 as int;
    let indices = subscripts(tree->Access_map, tree->Access_operands@, ivars, params);
    let block_size = purpose->block_size as int;
    let max_array_dim = purpose->max_array_dim as int;
    let num_sets = purpose->num_sets as int;
    let tuple = access_tuple(memref, indices, block_size, max_array_dim, num_sets);
    assert(indices.last() / 1 == indices.last());
    assert forall|data: DataId, fitting: Seq<i64>|
        #![trigger has_coords(data, packed(fitting, block_size))]
        num_sets == 1 && max_array_dim <= MAX_ARRAY_DIMS && block_size <= i64::MAX
            && fitting.map_values(|index: i64| index as int) == indices && has_coords(
            data,
            packed(fitting, block_size),
        ) implies forall|at: int|
        0 <= at < max_array_dim ==> #[trigger] tuple[at + 1] == data.coords@[at + MAX_ARRAY_DIMS
            - max_array_dim] by {
        assert(fitting.len() == indices.len());
        assert forall|at: int| 0 <= at < max_array_dim implies #[trigger] tuple[at + 1]
            == data.coords@[at + MAX_ARRAY_DIMS - max_array_dim] by {
            law_tuple_agrees_with_data(memref, fitting, block_size, max_array_dim, at);
        }
    }
}

/// The tuple of the polyhedral model and the identity of the sampler's datum
/// are made of the same numbers: behind the array stand the right-aligned,
/// blocked coordinates.
pub proof fn law_tuple_agrees_with_data(
    memref: int,
    indices: Seq<i64>,
    block_size: int,
    max_array_dim: int,
    at: int,
)
    requires
        1 <= indices.len() <= max_array_dim <= MAX_ARRAY_DIMS,
        1 <= block_size <= i64::MAX,
        0 <= at < max_array_dim,
    ensures
        access_tuple(
            memref,
            indices.map_values(|index: i64| index as int),
            block_size,
            max_array_dim,
            1,
        )[at + 1] == packed(indices, block_size)[at + MAX_ARRAY_DIMS - max_array_dim],
        forall|place: int|
            0 <= place < MAX_ARRAY_DIMS - max_array_dim ==> #[trigger] packed(
                indices,
                block_size,
            )[place] == 0,
{
    let wide = indices.map_values(|index: i64| index as int);
    assert(wide.last() == indices.last());
    assert(wide.len() == indices.len());
}

/// The set that the polyhedral model tags an access with is the set of its
/// datum.
pub proof fn law_set_tag_agrees_with_data(
    memref: int,
    indices: Seq<i64>,
    block_size: int,
    max_array_dim: int,
    num_sets: int,
)
    requires
        1 <= indices.len() <= max_array_dim <= MAX_ARRAY_DIMS,
        1 <= block_size <= i64::MAX,
        1 < num_sets,
    ensures
        access_tuple(
            memref,
            indices.map_values(|index: i64| index as int),
            block_size,
            max_array_dim,
            num_sets,
        )[max_array_dim] == packed(indices, block_size)[MAX_ARRAY_DIMS - 1] % num_sets,
{
    let wide = indices.map_values(|index: i64| index as int);
    assert(wide.last() == indices.last());
}

} // verus!
