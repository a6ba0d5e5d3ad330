//! How many symbols a walk reads.

use crate::affine_eval::{
    expr_value, lower_value, map_prefix, operand_at, set_from, upper_value, Values,
};
use crate::error::Error;
use crate::frontend::{facts_after, facts_after_from, noted, TreeFacts};
use crate::tree::{AffineExpr, AffineMap, IntegerSet, Tree, ValID};
use crate::walk::{trip_count, walk, walk_block, walk_for, walk_owned, Setting};
use vstd::prelude::*;

verus! {

broadcast use vstd::std_specs::vec::axiom_vec_index_decreases;

/// The symbols among the operands are among the first `count`.
pub open spec fn operands_bound(operands: Seq<ValID>, count: int) -> bool {
    forall|i: int|
        0 <= i < operands.len() ==> (#[trigger] operands[i] matches ValID::Symbol(index) ==> index
            < count)
}

/// The symbols of a tree are among the first `count`.
pub open spec fn symbols_bound(tree: Tree, count: int) -> bool
    decreases tree,
{
    match tree {
        Tree::For { lower_bound_operands, upper_bound_operands, body, .. } => {
            &&& operands_bound(lower_bound_operands@, count)
            &&& operands_bound(upper_bound_operands@, count)
            &&& symbols_bound(*body, count)
        },
        Tree::Block(stmts) => forall|i: int|
            0 <= i < stmts@.len() ==> symbols_bound(#[trigger] stmts[i], count),
        Tree::If { operands, then_branch, else_branch, .. } => {
            &&& operands_bound(operands@, count)
            &&& symbols_bound(*then_branch, count)
            &&& else_branch matches Some(otherwise) ==> symbols_bound(*otherwise, count)
        },
        Tree::Access { operands, .. } => operands_bound(operands@, count),
    }
}

/// A result is not the error of a symbol without a value.
pub open spec fn symbols_found<T>(result: Result<T, Error>) -> bool {
    result matches Err(error) ==> !(error is UnboundSymbol)
}

proof fn lemma_noted(operands: Seq<ValID>, count: nat, facts: TreeFacts, limit: int)
    requires
        count <= operands.len(),
        noted(operands, count, facts).symbols <= limit < usize::MAX,
    ensures
        facts.symbols <= noted(operands, count, facts).symbols,
        operands_bound(operands.take(count as int), limit),
    decreases count,
{
    if count > 0 {
        let before = noted(operands, (count - 1) as nat, facts);
        assert(before.symbols <= noted(operands, count, facts).symbols);
        lemma_noted(operands, (count - 1) as nat, facts, limit);
        let (shorter, longer) = (operands.take(count - 1), operands.take(count as int));
        assert forall|i: int| 0 <= i < longer.len() implies (#[trigger] longer[i] matches ValID::Symbol(
            index,
        ) ==> index < limit) by {
            if i < count - 1 {
                assert(longer[i] == shorter[i]);
            }
        }
    }
}

proof fn lemma_all_noted(operands: Seq<ValID>, facts: TreeFacts, limit: int)
    requires
        noted(operands, operands.len(), facts).symbols <= limit < usize::MAX,
    ensures
        facts.symbols <= noted(operands, operands.len(), facts).symbols,
        operands_bound(operands, limit),
{
    lemma_noted(operands, operands.len(), facts, limit);
    assert(operands.take(operands.len() as int) =~= operands);
}

proof fn lemma_facts(tree: Tree, depth: nat, facts: TreeFacts, limit: int)
    requires
        facts_after(tree, depth, facts).symbols <= limit < usize::MAX,
    ensures
        facts.symbols <= facts_after(tree, depth, facts).symbols,
        symbols_bound(tree, limit),
    decreases tree, 0int,
{
    match tree {
        Tree::For { lower_bound_operands, upper_bound_operands, body, .. } => {
            let lower = noted(lower_bound_operands@, lower_bound_operands@.len(), facts);
            let upper = noted(upper_bound_operands@, upper_bound_operands@.len(), lower);
            let inner = TreeFacts {
                max_depth: crate::frontend::larger_count(upper.max_depth, depth as int),
                ..upper
            };
            lemma_facts(*body, depth + 1, inner, limit);
            lemma_all_noted(upper_bound_operands@, lower, limit);
            lemma_all_noted(lower_bound_operands@, facts, limit);
        },
        Tree::Block(stmts) => {
            lemma_facts_from(stmts, 0, depth, facts, limit);
        },
        Tree::If { operands, then_branch, else_branch, .. } => {
            let start = noted(operands@, operands@.len(), facts);
            let first = facts_after(*then_branch, depth, start);
            if let Some(otherwise) = else_branch {
                lemma_facts(*otherwise, depth, first, limit);
            }
            lemma_facts(*then_branch, depth, start, limit);
            lemma_all_noted(operands@, facts, limit);
        },
        Tree::Access { operands, .. } => {
            lemma_all_noted(operands@, facts, limit);
        },
    }
}

proof fn lemma_facts_from(stmts: Vec<Tree>, at: nat, depth: nat, facts: TreeFacts, limit: int)
    requires
        facts_after_from(stmts, at, depth, facts).symbols <= limit < usize::MAX,
    ensures
        facts.symbols <= facts_after_from(stmts, at, depth, facts).symbols,
        forall|i: int| at <= i < stmts@.len() ==> symbols_bound(#[trigger] stmts[i], limit),
    decreases stmts, stmts@.len() - at,
{
    if at < stmts@.len() {
        let after = facts_after(stmts[at as int], depth, facts);
        lemma_facts_from(stmts, at + 1, depth, after, limit);
        lemma_facts(stmts[at as int], depth, facts, limit);
    }
}

proof fn lemma_expr_found(expr: AffineExpr, operands: Seq<ValID>, num_dims: int, env: Values)
    requires
        operands_bound(operands, env.symbols.len() as int),
        num_dims >= 0,
    ensures
        symbols_found(expr_value(expr, operands, num_dims, env)),
    decreases expr,
{
    match expr {
        AffineExpr::Constant(_) => {},
        AffineExpr::Dim(position) => {
            lemma_operand_found(operands, position as int, env);
        },
        AffineExpr::Symbol(position) => {
            lemma_operand_found(operands, num_dims + position, env);
        },
        AffineExpr::Add(l, r) => {
            lemma_expr_found(*l, operands, num_dims, env);
            lemma_expr_found(*r, operands, num_dims, env);
        },
        AffineExpr::Mul(l, r) => {
            lemma_expr_found(*l, operands, num_dims, env);
            lemma_expr_found(*r, operands, num_dims, env);
        },
        AffineExpr::Mod(l, r) => {
            lemma_expr_found(*l, operands, num_dims, env);
            lemma_expr_found(*r, operands, num_dims, env);
        },
        AffineExpr::FloorDiv(l, r) => {
            lemma_expr_found(*l, operands, num_dims, env);
            lemma_expr_found(*r, operands, num_dims, env);
        },
        AffineExpr::CeilDiv(l, r) => {
            lemma_expr_found(*l, operands, num_dims, env);
            lemma_expr_found(*r, operands, num_dims, env);
        },
    }
}

proof fn lemma_operand_found(operands: Seq<ValID>, position: int, env: Values)
    requires
        operands_bound(operands, env.symbols.len() as int),
        position >= 0,
    ensures
        symbols_found(operand_at(operands, position, env)),
{
    if position < operands.len() {
        if let ValID::Symbol(index) = operands[position] {
            assert(index < env.symbols.len());
        }
    }
}

proof fn lemma_map_found(map: AffineMap, operands: Seq<ValID>, count: nat, env: Values)
    requires
        operands_bound(operands, env.symbols.len() as int),
    ensures
        symbols_found(map_prefix(map, operands, env, count)),
    decreases count,
{
    if count > 0 {
        lemma_map_found(map, operands, (count - 1) as nat, env);
        lemma_expr_found(map.results@[count - 1], operands, map.num_dims as int, env);
    }
}

proof fn lemma_set_found(set: IntegerSet, operands: Seq<ValID>, at: int, env: Values)
    requires
        operands_bound(operands, env.symbols.len() as int),
        at >= 0,
    ensures
        symbols_found(set_from(set, operands, env, at)),
    decreases set.constraints@.len() - at,
{
    if at < set.constraints@.len() {
        lemma_expr_found(set.constraints@[at].expr, operands, set.num_dims as int, env);
        lemma_set_found(set, operands, at + 1, env);
    }
}

/// A walk finds its symbols and leaves their values alone.
pub open spec fn finds(stop: Result<Values, Error>, env: Values) -> bool {
    &&& symbols_found(stop)
    &&& stop matches Ok(after) ==> after.symbols == env.symbols
}

proof fn lemma_walk_finds(tree: Tree, env: Values, setting: Setting)
    requires
        symbols_bound(tree, env.symbols.len() as int),
    ensures
        finds(walk(tree, env, setting).stop, env),
    decreases tree, 0int, 0int,
{
    match tree {
        Tree::Block(stmts) => {
            lemma_block_finds(stmts, 0, env, setting);
        },
        Tree::For {
            lower_bound,
            upper_bound,
            lower_bound_operands,
            upper_bound_operands,
            step,
            ivar,
            body,
        } => {
            lemma_map_found(lower_bound, lower_bound_operands@, lower_bound.results@.len(), env);
            lemma_map_found(upper_bound, upper_bound_operands@, upper_bound.results@.len(), env);
            if let ValID::IVar(index) = ivar {
                if let Ok(lower) = lower_value(lower_bound, lower_bound_operands@, env) {
                    if let Ok(upper) = upper_value(upper_bound, upper_bound_operands@, env) {
                        lemma_for_finds(
                            *body,
                            index as int,
                            lower as int,
                            upper as int,
                            step as int,
                            env,
                            setting,
                        );
                        if let Some(partition) = setting.partition {
                            let trip = trip_count(lower as int, upper as int, step as int);
                            let threads = partition.threads as int;
                            let chunk = partition.chunk.resolved(trip, threads);
                            lemma_owned_finds(
                                *body,
                                index as int,
                                lower as int,
                                step as int,
                                trip,
                                chunk,
                                threads,
                                partition.tid as int % threads,
                                partition.tid * chunk,
                                env,
                                setting,
                            );
                        }
                    }
                }
            }
        },
        Tree::If { condition, operands, then_branch, else_branch } => {
            lemma_set_found(condition, operands@, 0, env);
            lemma_walk_finds(*then_branch, env, setting);
            if let Some(otherwise) = else_branch {
                lemma_walk_finds(*otherwise, env, setting);
            }
        },
        Tree::Access { site, memref, map, operands, is_write } => {
            lemma_map_found(map, operands@, map.results@.len(), env);
        },
    }
}

proof fn lemma_block_finds(stmts: Vec<Tree>, at: int, env: Values, setting: Setting)
    requires
        at >= 0,
        forall|i: int|
            0 <= i < stmts@.len() ==> symbols_bound(
                #[trigger] stmts[i],
                env.symbols.len() as int,
            ),
    ensures
        finds(walk_block(stmts, at, env, setting).stop, env),
    decreases stmts, 1int, stmts@.len() - at,
{
    if at < stmts@.len() {
        assert(symbols_bound(stmts[at], env.symbols.len() as int));
        lemma_walk_finds(stmts[at], env, setting);
        if let Ok(after) = walk(stmts[at], env, setting).stop {
            lemma_block_finds(stmts, at + 1, after, setting);
        }
    }
}

proof fn lemma_for_finds(
    body: Tree,
    ivar: int,
    current: int,
    upper: int,
    step: int,
    env: Values,
    setting: Setting,
)
    requires
        symbols_bound(body, env.symbols.len() as int),
    ensures
        finds(walk_for(body, ivar, current, upper, step, env, setting).stop, env),
    decreases
            body,
            1int,
            if current < upper {
                upper - current
            } else {
                0
            },
{
    if current < upper && step > 0 {
        let inner = env.with_ivar(ivar, current as i64);
        lemma_walk_finds(body, inner, setting);
        if let Ok(after) = walk(body, inner, setting).stop {
            lemma_for_finds(body, ivar, current + step, upper, step, after, setting);
        }
    }
}

proof fn lemma_owned_finds(
    body: Tree,
    ivar: int,
    lower: int,
    step: int,
    trip: int,
    chunk: int,
    threads: int,
    tid: int,
    from: int,
    env: Values,
    setting: Setting,
)
    requires
        symbols_bound(body, env.symbols.len() as int),
    ensures
        finds(
            walk_owned(body, ivar, lower, step, trip, chunk, threads, tid, from, env, setting).stop,
            env,
        ),
    decreases body, 1int, trip - from,
{
    if from < trip {
        if crate::schedule::owner(from, chunk, threads) != tid {
            lemma_owned_finds(
                body,
                ivar,
                lower,
                step,
                trip,
                chunk,
                threads,
                tid,
                from + 1,
                env,
                setting,
            );
        } else {
            let inner = env.with_ivar(ivar, (lower + from * step) as i64);
            lemma_walk_finds(body, inner, setting);
            if let Ok(after) = walk(body, inner, setting).stop {
                lemma_owned_finds(
                    body,
                    ivar,
                    lower,
                    step,
                    trip,
                    chunk,
                    threads,
                    tid,
                    from + 1,
                    after,
                    setting,
                );
            }
        }
    }
}

/// As many symbols as the facts of a tree count are enough: with a value for
/// each, no walk over the tree finds a symbol without one.
pub proof fn law_counted_symbols_are_enough(tree: Tree, env: Values, setting: Setting)
    requires
        facts_after(tree, 0, TreeFacts { symbols: 0, max_depth: 0 }).symbols <= env.symbols.len(),
        env.symbols.len() < usize::MAX,
    ensures
        symbols_found(walk(tree, env, setting).stop),
{
    let start = TreeFacts { symbols: 0, max_depth: 0 };
    lemma_facts(tree, 0, start, env.symbols.len() as int);
    lemma_walk_finds(tree, env, setting);
}

} // verus!
