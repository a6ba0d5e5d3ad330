//! A walk depends only on the induction variables of the enclosing loops.

use crate::affine_eval::{
    expr_value, lower_value, map_prefix, operand_at, set_from, upper_value, Values,
};
use crate::tree::{AffineExpr, AffineMap, IntegerSet, Tree, ValID};
use crate::walk::{trip_count, walk, walk_block, walk_for, walk_owned, Setting, Walk};
use vstd::prelude::*;

verus! {

broadcast use vstd::std_specs::vec::axiom_vec_index_decreases;

/// The induction variables among the operands are bound.
pub open spec fn operands_scoped(operands: Seq<ValID>, bound: Set<int>) -> bool {
    forall|i: int|
        0 <= i < operands.len() ==> (#[trigger] operands[i] matches ValID::IVar(index)
            ==> bound.contains(index as int))
}

/// Every induction variable is used inside its own loop only, and no loop
/// rebinds the variable of a loop around it.
pub open spec fn scoped(tree: Tree, bound: Set<int>) -> bool
    decreases tree, 0int,
{
    match tree {
        Tree::For { lower_bound_operands, upper_bound_operands, ivar, body, .. } => {
            &&& operands_scoped(lower_bound_operands@, bound)
            &&& operands_scoped(upper_bound_operands@, bound)
            &&& ivar matches ValID::IVar(index) && !bound.contains(index as int) && scoped(
                *body,
                bound.insert(index as int),
            )
        },
        Tree::Block(stmts) => scoped_from(stmts, 0, bound),
        Tree::If { operands, then_branch, else_branch, .. } => {
            &&& operands_scoped(operands@, bound)
            &&& scoped(*then_branch, bound)
            &&& else_branch matches Some(otherwise) ==> scoped(*otherwise, bound)
        },
        Tree::Access { operands, .. } => operands_scoped(operands@, bound),
    }
}

/// The statements of a block from position `at` on are scoped.
pub open spec fn scoped_from(stmts: Vec<Tree>, at: nat, bound: Set<int>) -> bool
    decreases stmts, stmts@.len() - at,
{
    at < stmts@.len() ==> scoped(stmts[at as int], bound) && scoped_from(stmts, at + 1, bound)
}

/// Two environments agree on the bound induction variables and the symbols.
pub open spec fn agree(a: Values, b: Values, bound: Set<int>) -> bool {
    &&& a.symbols == b.symbols
    &&& forall|i: int| #[trigger]
        bound.contains(i) ==> 0 <= i < a.ivars.len() && i < b.ivars.len() && a.ivars[i]
            == b.ivars[i]
}

/// Two walks emit the same accesses and end alike.
pub open spec fn alike(a: Walk, b: Walk) -> bool {
    &&& a.emitted == b.emitted
    &&& match a.stop {
        Ok(_) => b.stop is Ok,
        Err(error) => b.stop == Err::<Values, crate::error::Error>(error),
    }
}

proof fn lemma_expr_agrees(
    expr: AffineExpr,
    operands: Seq<ValID>,
    num_dims: int,
    a: Values,
    b: Values,
    bound: Set<int>,
)
    requires
        agree(a, b, bound),
        operands_scoped(operands, bound),
        num_dims >= 0,
    ensures
        expr_value(expr, operands, num_dims, a) == expr_value(expr, operands, num_dims, b),
    decreases expr,
{
    match expr {
        AffineExpr::Constant(value) => {},
        AffineExpr::Dim(position) => {
            lemma_operand_agrees(operands, position as int, a, b, bound);
        },
        AffineExpr::Symbol(position) => {
            lemma_operand_agrees(operands, num_dims + position, a, b, bound);
        },
        AffineExpr::Add(lhs, rhs) => {
            lemma_expr_agrees(*lhs, operands, num_dims, a, b, bound);
            lemma_expr_agrees(*rhs, operands, num_dims, a, b, bound);
        },
        AffineExpr::Mul(lhs, rhs) => {
            lemma_expr_agrees(*lhs, operands, num_dims, a, b, bound);
            lemma_expr_agrees(*rhs, operands, num_dims, a, b, bound);
        },
        AffineExpr::Mod(lhs, rhs) => {
            lemma_expr_agrees(*lhs, operands, num_dims, a, b, bound);
            lemma_expr_agrees(*rhs, operands, num_dims, a, b, bound);
        },
        AffineExpr::FloorDiv(lhs, rhs) => {
            lemma_expr_agrees(*lhs, operands, num_dims, a, b, bound);
            lemma_expr_agrees(*rhs, operands, num_dims, a, b, bound);
        },
        AffineExpr::CeilDiv(lhs, rhs) => {
            lemma_expr_agrees(*lhs, operands, num_dims, a, b, bound);
            lemma_expr_agrees(*rhs, operands, num_dims, a, b, bound);
        },
    }
}

proof fn lemma_operand_agrees(
    operands: Seq<ValID>,
    position: int,
    a: Values,
    b: Values,
    bound: Set<int>,
)
    requires
        agree(a, b, bound),
        operands_scoped(operands, bound),
        position >= 0,
    ensures
        operand_at(operands, position, a) == operand_at(operands, position, b),
{
    if position < operands.len() {
        if let ValID::IVar(index) = operands[position] {
            assert(bound.contains(index as int));
        }
    }
}

proof fn lemma_map_agrees(
    map: AffineMap,
    operands: Seq<ValID>,
    a: Values,
    b: Values,
    bound: Set<int>,
    count: nat,
)
    requires
        agree(a, b, bound),
        operands_scoped(operands, bound),
    ensures
        map_prefix(map, operands, a, count) == map_prefix(map, operands, b, count),
    decreases count,
{
    if count > 0 {
        lemma_map_agrees(map, operands, a, b, bound, (count - 1) as nat);
        lemma_expr_agrees(map.results@[count - 1], operands, map.num_dims as int, a, b, bound);
    }
}

proof fn lemma_set_agrees(
    set: IntegerSet,
    operands: Seq<ValID>,
    a: Values,
    b: Values,
    bound: Set<int>,
    at: int,
)
    requires
        agree(a, b, bound),
        operands_scoped(operands, bound),
        at >= 0,
    ensures
        set_from(set, operands, a, at) == set_from(set, operands, b, at),
    decreases set.constraints@.len() - at,
{
    if at < set.constraints@.len() {
        lemma_expr_agrees(set.constraints@[at].expr, operands, set.num_dims as int, a, b, bound);
        lemma_set_agrees(set, operands, a, b, bound, at + 1);
    }
}

proof fn lemma_with_ivar_agrees(a: Values, b: Values, bound: Set<int>, index: int, value: i64)
    requires
        agree(a, b, bound),
        index >= 0,
    ensures
        agree(a.with_ivar(index, value), b.with_ivar(index, value), bound.insert(index)),
        !bound.contains(index) ==> agree(a, b.with_ivar(index, value), bound),
{
    let (x, y) = (a.with_ivar(index, value), b.with_ivar(index, value));
    assert forall|i: int| #[trigger] bound.insert(index).contains(i) implies 0 <= i < x.ivars.len()
        && i < y.ivars.len() && x.ivars[i] == y.ivars[i] by {
        if i != index {
            assert(bound.contains(i));
        }
    }
}

/// A walk leaves the bound induction variables as they were.
pub proof fn lemma_walk_keeps(tree: Tree, env: Values, setting: Setting, bound: Set<int>)
    requires
        agree(env, env, bound),
        scoped(tree, bound),
    ensures
        walk(tree, env, setting).stop matches Ok(after) ==> agree(env, after, bound),
    decreases tree, 0int, 0int,
{
    match tree {
        Tree::Block(stmts) => {
            lemma_block_keeps(stmts, 0, env, setting, bound);
        },
        Tree::For {
            lower_bound,
            upper_bound,
            lower_bound_operands,
            upper_bound_operands,
            step,
            ivar,
            body,
        } => {
            let index = ivar->IVar_0 as int;
            if let Ok(lower) = lower_value(lower_bound, lower_bound_operands@, env) {
                if let Ok(upper) = upper_value(upper_bound, upper_bound_operands@, env) {
                    lemma_for_keeps(
                        *body,
                        index,
                        lower as int,
                        upper as int,
                        step as int,
                        env,
                        setting,
                        bound,
                    );
                    if let Some(partition) = setting.partition {
                        let trip = trip_count(lower as int, upper as int, step as int);
                        let threads = partition.threads as int;
                        let chunk = partition.chunk.resolved(trip, threads);
                        lemma_owned_keeps(
                            *body,
                            index,
                            lower as int,
                            step as int,
                            trip,
                            chunk,
                            threads,
                            partition.tid as int % threads,
                            partition.tid * chunk,
                            env,
                            setting,
                            bound,
                        );
                    }
                }
            }
        },
        Tree::If { then_branch, else_branch, .. } => {
            lemma_walk_keeps(*then_branch, env, setting, bound);
            if let Some(otherwise) = else_branch {
                lemma_walk_keeps(*otherwise, env, setting, bound);
            }
        },
        Tree::Access { .. } => {},
    }
}

proof fn lemma_block_keeps(
    stmts: Vec<Tree>,
    at: nat,
    env: Values,
    setting: Setting,
    bound: Set<int>,
)
    requires
        agree(env, env, bound),
        scoped_from(stmts, at, bound),
    ensures
        walk_block(stmts, at as int, env, setting).stop matches Ok(after) ==> agree(
            env,
            after,
            bound,
        ),
    decreases stmts, 1int, stmts@.len() - at,
{
    if at < stmts@.len() {
        lemma_walk_keeps(stmts[at as int], env, setting, bound);
        if let Ok(between) = walk(stmts[at as int], env, setting).stop {
            lemma_block_keeps(stmts, at + 1, between, setting, bound);
        }
    }
}

proof fn lemma_for_keeps(
    body: Tree,
    ivar: int,
    current: int,
    upper: int,
    step: int,
    env: Values,
    setting: Setting,
    bound: Set<int>,
)
    requires
        agree(env, env, bound),
        ivar >= 0,
        !bound.contains(ivar),
        scoped(body, bound.insert(ivar)),
    ensures
        walk_for(body, ivar, current, upper, step, env, setting).stop matches Ok(after) ==> agree(
            env,
            after,
            bound,
        ),
    decreases
            body,
            1int,
            if current < upper {
                upper - current
            } else {
                0
            },
{
    if current < upper && step > 0 {
        let inner = env.with_ivar(ivar, current as i64);
        lemma_with_ivar_agrees(env, env, bound, ivar, current as i64);
        lemma_walk_keeps(body, inner, setting, bound.insert(ivar));
        if let Ok(between) = walk(body, inner, setting).stop {
            lemma_narrow(inner, between, bound, ivar);
            lemma_for_keeps(body, ivar, current + step, upper, step, between, setting, bound);
        }
    }
}

proof fn lemma_narrow(a: Values, b: Values, bound: Set<int>, ivar: int)
    requires
        agree(a, b, bound.insert(ivar)),
    ensures
        agree(a, b, bound),
        agree(b, b, bound),
{
    assert forall|i: int| #[trigger] bound.contains(i) implies 0 <= i < a.ivars.len() && i
        < b.ivars.len() && a.ivars[i] == b.ivars[i] by {
        assert(bound.insert(ivar).contains(i));
    }
}

proof fn lemma_owned_keeps(
    body: Tree,
    ivar: int,
    lower: int,
    step: int,
    trip: int,
    chunk: int,
    threads: int,
    tid: int,
    from: int,
    env: Values,
    setting: Setting,
    bound: Set<int>,
)
    requires
        agree(env, env, bound),
        ivar >= 0,
        !bound.contains(ivar),
        scoped(body, bound.insert(ivar)),
    ensures
        walk_owned(
            body,
            ivar,
            lower,
            step,
            trip,
            chunk,
            threads,
            tid,
            from,
            env,
            setting,
        ).stop matches Ok(after) ==> agree(env, after, bound),
    decreases body, 1int, trip - from,
{
    if from < trip {
        let value = (lower + from * step) as i64;
        let inner = env.with_ivar(ivar, value);
        lemma_with_ivar_agrees(env, env, bound, ivar, value);
        lemma_walk_keeps(body, inner, setting, bound.insert(ivar));
        let next = from + 1;
        lemma_owned_keeps(
            body,
            ivar,
            lower,
            step,
            trip,
            chunk,
            threads,
            tid,
            next,
            env,
            setting,
            bound,
        );
        if let Ok(between) = walk(body, inner, setting).stop {
            lemma_narrow(inner, between, bound, ivar);
            lemma_owned_keeps(
                body,
                ivar,
                lower,
                step,
                trip,
                chunk,
                threads,
                tid,
                next,
                between,
                setting,
                bound,
            );
        }
    }
}

/// Walks from environments that agree on the bound variables are alike.
pub proof fn law_walk_depends_on_enclosing_loops_only(
    tree: Tree,
    a: Values,
    b: Values,
    setting: Setting,
    bound: Set<int>,
)
    requires
        agree(a, b, bound),
        scoped(tree, bound),
    ensures
        alike(walk(tree, a, setting), walk(tree, b, setting)),
    decreases tree, 0int, 0int,
{
    match tree {
        Tree::Block(stmts) => {
            lemma_block_agrees(stmts, 0, a, b, setting, bound);
        },
        Tree::For {
            lower_bound,
            upper_bound,
            lower_bound_operands,
            upper_bound_operands,
            step,
            ivar,
            body,
        } => {
            let index = ivar->IVar_0 as int;
            lemma_map_agrees(
                lower_bound,
                lower_bound_operands@,
                a,
                b,
                bound,
                lower_bound.results@.len(),
            );
            lemma_map_agrees(
                upper_bound,
                upper_bound_operands@,
                a,
                b,
                bound,
                upper_bound.results@.len(),
            );
            if let Ok(lower) = lower_value(lower_bound, lower_bound_operands@, a) {
                if let Ok(upper) = upper_value(upper_bound, upper_bound_operands@, a) {
                    lemma_for_agrees(
                        *body,
                        index,
                        lower as int,
                        upper as int,
                        step as int,
                        a,
                        b,
                        setting,
                        bound,
                    );
                    if let Some(partition) = setting.partition {
                        let trip = trip_count(lower as int, upper as int, step as int);
                        let threads = partition.threads as int;
                        let chunk = partition.chunk.resolved(trip, threads);
                        lemma_owned_agrees(
                            *body,
                            index,
                            lower as int,
                            step as int,
                            trip,
                            chunk,
                            threads,
                            partition.tid as int % threads,
                            partition.tid * chunk,
                            a,
                            b,
                            setting,
                            bound,
                        );
                    }
                }
            }
        },
        Tree::If { condition, operands, then_branch, else_branch } => {
            lemma_set_agrees(condition, operands@, a, b, bound, 0);
            law_walk_depends_on_enclosing_loops_only(*then_branch, a, b, setting, bound);
            if let Some(otherwise) = else_branch {
                law_walk_depends_on_enclosing_loops_only(*otherwise, a, b, setting, bound);
            }
        },
        Tree::Access { map, operands, .. } => {
            lemma_map_agrees(map, operands@, a, b, bound, map.results@.len());
        },
    }
}

pub proof fn lemma_block_agrees(
    stmts: Vec<Tree>,
    at: nat,
    a: Values,
    b: Values,
    setting: Setting,
    bound: Set<int>,
)
    requires
        agree(a, b, bound),
        scoped_from(stmts, at, bound),
    ensures
        alike(walk_block(stmts, at as int, a, setting), walk_block(stmts, at as int, b, setting)),
    decreases stmts, 1int, stmts@.len() - at,
{
    if at < stmts@.len() {
        let stmt = stmts[at as int];
        law_walk_depends_on_enclosing_loops_only(stmt, a, b, setting, bound);
        lemma_walk_keeps(stmt, a, setting, bound);
        lemma_walk_keeps(stmt, b, setting, bound);
        if let Ok(x) = walk(stmt, a, setting).stop {
            if let Ok(y) = walk(stmt, b, setting).stop {
                lemma_block_agrees(stmts, at + 1, x, y, setting, bound);
            }
        }
    }
}

pub proof fn lemma_for_agrees(
    body: Tree,
    ivar: int,
    current: int,
    upper: int,
    step: int,
    a: Values,
    b: Values,
    setting: Setting,
    bound: Set<int>,
)
    requires
        agree(a, b, bound),
        ivar >= 0,
        !bound.contains(ivar),
        scoped(body, bound.insert(ivar)),
    ensures
        alike(
            walk_for(body, ivar, current, upper, step, a, setting),
            walk_for(body, ivar, current, upper, step, b, setting),
        ),
    decreases
            body,
            1int,
            if current < upper {
                upper - current
            } else {
                0
            },
{
    if current < upper && step > 0 {
        let value = current as i64;
        let (inner_a, inner_b) = (a.with_ivar(ivar, value), b.with_ivar(ivar, value));
        lemma_iteration_agrees(body, ivar, value, a, b, setting, bound);
        if let Ok(x) = walk(body, inner_a, setting).stop {
            if let Ok(y) = walk(body, inner_b, setting).stop {
                lemma_for_agrees(body, ivar, current + step, upper, step, x, y, setting, bound);
            }
        }
    }
}

/// One iteration from environments that agree: the same accesses, and the
/// environments agree afterwards, with each other and with the ones before.
pub proof fn lemma_iteration_agrees(
    body: Tree,
    ivar: int,
    value: i64,
    a: Values,
    b: Values,
    setting: Setting,
    bound: Set<int>,
)
    requires
        agree(a, b, bound),
        ivar >= 0,
        !bound.contains(ivar),
        scoped(body, bound.insert(ivar)),
    ensures
        alike(
            walk(body, a.with_ivar(ivar, value), setting),
            walk(body, b.with_ivar(ivar, value), setting),
        ),
        walk(body, a.with_ivar(ivar, value), setting).stop matches Ok(x) ==> (walk(
            body,
            b.with_ivar(ivar, value),
            setting,
        ).stop matches Ok(y) && agree(x, y, bound) && agree(a, x, bound) && agree(b, y, bound)),
    decreases body, 1int, 0int,
{
    let (inner_a, inner_b) = (a.with_ivar(ivar, value), b.with_ivar(ivar, value));
    let wide = bound.insert(ivar);
    lemma_with_ivar_agrees(a, b, bound, ivar, value);
    lemma_with_ivar_agrees(a, a, bound, ivar, value);
    lemma_with_ivar_agrees(b, b, bound, ivar, value);
    law_walk_depends_on_enclosing_loops_only(body, inner_a, inner_b, setting, wide);
    lemma_walk_keeps(body, inner_a, setting, wide);
    lemma_walk_keeps(body, inner_b, setting, wide);
    if let Ok(x) = walk(body, inner_a, setting).stop {
        if let Ok(y) = walk(body, inner_b, setting).stop {
            lemma_narrow(inner_a, x, bound, ivar);
            lemma_narrow(inner_b, y, bound, ivar);
            lemma_narrow(inner_a, inner_b, bound, ivar);
        }
    }
}

pub proof fn lemma_owned_agrees(
    body: Tree,
    ivar: int,
    lower: int,
    step: int,
    trip: int,
    chunk: int,
    threads: int,
    tid: int,
    from: int,
    a: Values,
    b: Values,
    setting: Setting,
    bound: Set<int>,
)
    requires
        agree(a, b, bound),
        ivar >= 0,
        !bound.contains(ivar),
        scoped(body, bound.insert(ivar)),
    ensures
        alike(
            walk_owned(body, ivar, lower, step, trip, chunk, threads, tid, from, a, setting),
            walk_owned(body, ivar, lower, step, trip, chunk, threads, tid, from, b, setting),
        ),
    decreases body, 2int, trip - from,
{
    if from < trip {
        let value = (lower + from * step) as i64;
        let next = from + 1;
        lemma_iteration_agrees(body, ivar, value, a, b, setting, bound);
        lemma_owned_agrees(
            body,
            ivar,
            lower,
            step,
            trip,
            chunk,
            threads,
            tid,
            next,
            a,
            b,
            setting,
            bound,
        );
        if let Ok(x) = walk(body, a.with_ivar(ivar, value), setting).stop {
            if let Ok(y) = walk(body, b.with_ivar(ivar, value), setting).stop {
                lemma_owned_agrees(
                    body,
                    ivar,
                    lower,
                    step,
                    trip,
                    chunk,
                    threads,
                    tid,
                    next,
                    x,
                    y,
                    setting,
                    bound,
                );
            }
        }
    }
}

} // verus!
