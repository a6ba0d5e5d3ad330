//! Where what is found in a tree comes from: every access from a statement, and
//! every trip count from a loop.

use crate::fxmap::lookup;
use crate::order::lemma_data_has_coords;
use crate::parallel::{trip_at, trip_at_from};
use crate::address::MemrefKey;
use crate::affine_eval::{map_values, Values};
use crate::references::{key_of_memref, Table};
use crate::tree::{AffineExpr, Tree};
use crate::walk::{access_value, trip_count, walk, walk_block, walk_for, walk_owned, Emitted, Setting};
use vstd::prelude::*;

verus! {

broadcast use vstd::std_specs::vec::axiom_vec_index_decreases;

/// The access is one of a statement of the tree: of its site, to its array, and a
/// write where the statement writes.
pub open spec fn is_of_a_statement(tree: Tree, access: Emitted, table: Table) -> bool
    decreases tree,
{
    match tree {
        Tree::For { body, .. } => is_of_a_statement(*body, access, table),
        Tree::Block(stmts) => exists|i: int|
            0 <= i < stmts@.len() && is_of_a_statement(#[trigger] stmts[i], access, table),
        Tree::If { then_branch, else_branch, .. } => is_of_a_statement(*then_branch, access, table)
            || (else_branch matches Some(otherwise) && is_of_a_statement(
            *otherwise,
            access,
            table,
        )),
        Tree::Access { site, memref, is_write, .. } => {
            &&& lookup(table.sites, site) == Some(access.reference)
            &&& lookup(table.memrefs, key_of_memref(memref)) == Some(access.data.memref.0)
            &&& access.is_write == is_write
        },
    }
}

/// Every access of a walk is one of a statement, of its site, to its array, and a
/// write where the statement writes.
pub proof fn law_accesses_come_from_statements(tree: Tree, env: Values, setting: Setting)
    requires
        1 <= setting.block_size <= i64::MAX,
    ensures
        forall|i: int|
            0 <= i < walk(tree, env, setting).emitted.len() ==> is_of_a_statement(
                tree,
                #[trigger] walk(tree, env, setting).emitted[i],
                setting.table,
            ),
    decreases tree, 1int, 0int,
{
    let table = setting.table;
    match tree {
        Tree::For { step, body, .. } => {
            assert forall|inner: Values, access: Emitted| #[trigger]
                walk(*body, inner, setting).emitted.contains(access) implies is_of_a_statement(
                *body,
                access,
                table,
            ) by {
                law_accesses_come_from_statements(*body, inner, setting);
                let i = walk(*body, inner, setting).emitted.index_of(access);
                assert(is_of_a_statement(*body, walk(*body, inner, setting).emitted[i], table));
            }
            assert forall|i: int| 0 <= i < walk(tree, env, setting).emitted.len() implies
                is_of_a_statement(tree, #[trigger] walk(tree, env, setting).emitted[i], table) by {
                let access = walk(tree, env, setting).emitted[i];
                lemma_loop_accesses(tree, env, setting, access);
                assert(is_of_a_statement(*body, access, table));
            }
        },
        Tree::Block(stmts) => {
            lemma_block_accesses(stmts, 0, env, setting);
            assert forall|i: int| 0 <= i < walk(tree, env, setting).emitted.len() implies
                is_of_a_statement(tree, #[trigger] walk(tree, env, setting).emitted[i], table) by {
                let access = walk(tree, env, setting).emitted[i];
                assert(walk_block(stmts, 0, env, setting).emitted[i] == access);
                let k = choose|k: int|
                    0 <= k < stmts@.len() && is_of_a_statement(#[trigger] stmts[k], access, table);
                assert(is_of_a_statement(stmts[k], access, table));
            }
        },
        Tree::If { then_branch, else_branch, .. } => {
            law_accesses_come_from_statements(*then_branch, env, setting);
            if let Some(otherwise) = else_branch {
                law_accesses_come_from_statements(*otherwise, env, setting);
            }
            assert forall|i: int| 0 <= i < walk(tree, env, setting).emitted.len() implies
                is_of_a_statement(tree, #[trigger] walk(tree, env, setting).emitted[i], table) by {
                let access = walk(tree, env, setting).emitted[i];
                if walk(tree, env, setting) == walk(*then_branch, env, setting) {
                    assert(is_of_a_statement(*then_branch, access, table));
                } else if let Some(otherwise) = else_branch {
                    assert(walk(*otherwise, env, setting).emitted[i] == access);
                    assert(is_of_a_statement(*otherwise, access, table));
                }
            }
        },
        Tree::Access { site, memref, map, operands, is_write } => {
            if let Ok(access) = access_value(
                site,
                memref,
                map,
                operands@,
                is_write,
                env,
                setting,
            ) {
                let indices = map_values(map, operands@, env)->Ok_0;
                let key = lookup(table.memrefs, key_of_memref(memref))->0;
                lemma_data_has_coords(MemrefKey(key), indices, setting.block_size);
            }
        },
    }
}

/// An access of a loop is one of its body, with some values of the variables.
proof fn lemma_loop_accesses(tree: Tree, env: Values, setting: Setting, access: Emitted)
    requires
        tree is For,
        walk(tree, env, setting).emitted.contains(access),
        forall|inner: Values, other: Emitted| #[trigger]
            walk(*tree->body, inner, setting).emitted.contains(other) ==> is_of_a_statement(
                *tree->body,
                other,
                setting.table,
            ),
    ensures
        is_of_a_statement(*tree->body, access, setting.table),
{
    if let Tree::For {
        lower_bound,
        upper_bound,
        lower_bound_operands,
        upper_bound_operands,
        step,
        ivar,
        body,
    } = tree {
        let index = ivar->IVar_0 as int;
        let lower = crate::affine_eval::lower_value(
            lower_bound,
            lower_bound_operands@,
            env,
        )->Ok_0 as int;
        let upper = crate::affine_eval::upper_value(
            upper_bound,
            upper_bound_operands@,
            env,
        )->Ok_0 as int;
        match setting.partition {
            Some(partition) if partition.depth == ivar->IVar_0 => {
                let trip = trip_count(lower, upper, step as int);
                let threads = partition.threads as int;
                let chunk = partition.chunk.resolved(trip, threads);
                lemma_owned_accesses(
                    *body,
                    index,
                    lower,
                    step as int,
                    trip,
                    chunk,
                    threads,
                    partition.tid as int % threads,
                    partition.tid * chunk,
                    env,
                    setting,
                    access,
                );
            },
            _ => {
                lemma_for_accesses(
                    *body,
                    index,
                    lower,
                    upper,
                    step as int,
                    env,
                    setting,
                    access,
                );
            },
        }
    }
}

proof fn lemma_for_accesses(
    body: Tree,
    ivar: int,
    current: int,
    upper: int,
    step: int,
    env: Values,
    setting: Setting,
    access: Emitted,
)
    requires
        walk_for(body, ivar, current, upper, step, env, setting).emitted.contains(access),
        forall|inner: Values, other: Emitted| #[trigger]
            walk(body, inner, setting).emitted.contains(other) ==> is_of_a_statement(
                body,
                other,
                setting.table,
            ),
    ensures
        is_of_a_statement(body, access, setting.table),
    decreases
            if current < upper {
                upper - current
            } else {
                0
            },
{
    let all = walk_for(body, ivar, current, upper, step, env, setting).emitted;
    let i = all.index_of(access);
    assert(all[i] == access);
    let inner = env.with_ivar(ivar, current as i64);
    let first = walk(body, inner, setting);
    if i < first.emitted.len() {
        assert(first.emitted[i] == access);
        assert(walk(body, inner, setting).emitted.contains(access));
    } else {
        let after = first.stop->Ok_0;
        let rest = walk_for(body, ivar, current + step, upper, step, after, setting);
        assert(rest.emitted[i - first.emitted.len()] == access);
        lemma_for_accesses(body, ivar, current + step, upper, step, after, setting, access);
    }
}

proof fn lemma_owned_accesses(
    body: Tree,
    ivar: int,
    lower: int,
    step: int,
    trip: int,
    chunk: int,
    threads: int,
    tid: int,
    from: int,
    env: Values,
    setting: Setting,
    access: Emitted,
)
    requires
        walk_owned(
            body,
            ivar,
            lower,
            step,
            trip,
            chunk,
            threads,
            tid,
            from,
            env,
            setting,
        ).emitted.contains(access),
        forall|inner: Values, other: Emitted| #[trigger]
            walk(body, inner, setting).emitted.contains(other) ==> is_of_a_statement(
                body,
                other,
                setting.table,
            ),
    ensures
        is_of_a_statement(body, access, setting.table),
    decreases trip - from,
{
    let all = walk_owned(
        body,
        ivar,
        lower,
        step,
        trip,
        chunk,
        threads,
        tid,
        from,
        env,
        setting,
    ).emitted;
    let i = all.index_of(access);
    assert(all[i] == access);
    if crate::schedule::owner(from, chunk, threads) != tid {
        lemma_owned_accesses(
            body,
            ivar,
            lower,
            step,
            trip,
            chunk,
            threads,
            tid,
            from + 1,
            env,
            setting,
            access,
        );
    } else {
        let inner = env.with_ivar(ivar, (lower + from * step) as i64);
        let first = walk(body, inner, setting);
        if i < first.emitted.len() {
            assert(first.emitted[i] == access);
            assert(walk(body, inner, setting).emitted.contains(access));
        } else {
            let after = first.stop->Ok_0;
            let rest = walk_owned(
                body,
                ivar,
                lower,
                step,
                trip,
                chunk,
                threads,
                tid,
                from + 1,
                after,
                setting,
            );
            assert(rest.emitted[i - first.emitted.len()] == access);
            lemma_owned_accesses(
                body,
                ivar,
                lower,
                step,
                trip,
                chunk,
                threads,
                tid,
                from + 1,
                after,
                setting,
                access,
            );
        }
    }
}

proof fn lemma_block_accesses(stmts: Vec<Tree>, at: int, env: Values, setting: Setting)
    requires
        1 <= setting.block_size <= i64::MAX,
        at >= 0,
    ensures
        forall|i: int|
            0 <= i < walk_block(stmts, at, env, setting).emitted.len() ==> exists|k: int|
                0 <= k < stmts@.len() && is_of_a_statement(
                    #[trigger] stmts[k],
                    #[trigger] walk_block(stmts, at, env, setting).emitted[i],
                    setting.table,
                ),
    decreases stmts, 0int, stmts@.len() - at,
{
    if at < stmts@.len() {
        let first = walk(stmts[at], env, setting);
        law_accesses_come_from_statements(stmts[at], env, setting);
        let all = walk_block(stmts, at, env, setting).emitted;
        if first.stop is Ok {
            lemma_block_accesses(stmts, at + 1, first.stop->Ok_0, setting);
        }
        assert forall|i: int| 0 <= i < all.len() implies exists|k: int|
            0 <= k < stmts@.len() && is_of_a_statement(
                #[trigger] stmts[k],
                #[trigger] all[i],
                setting.table,
            ) by {
            if i < first.emitted.len() {
                assert(all[i] == first.emitted[i]);
                assert(is_of_a_statement(stmts[at], all[i], setting.table));
            } else {
                let rest = walk_block(stmts, at + 1, first.stop->Ok_0, setting).emitted;
                let j = i - first.emitted.len();
                assert(all[i] == rest[j]);
                let k = choose|k: int|
                    0 <= k < stmts@.len() && is_of_a_statement(
                        #[trigger] stmts[k],
                        rest[j],
                        setting.table,
                    );
                assert(is_of_a_statement(stmts[k], all[i], setting.table));
            }
        }
    }
}

/// A loop from `lower` by `step` has this many values below `upper`.
pub open spec fn makes_trips(lower: int, upper: int, step: int, trip: int) -> bool {
    if trip == 0 {
        lower >= upper
    } else {
        trip > 0 && lower + (trip - 1) * step < upper <= lower + trip * step
    }
}

/// The tree has a loop at a level whose bounds are constants, with this many
/// iterations.
pub open spec fn has_trip(tree: Tree, level: int, target: int, trip: int) -> bool
    decreases tree,
{
    match tree {
        Tree::For { lower_bound, upper_bound, step, body, .. } => if level == target {
            &&& lower_bound.results@.len() > 0
            &&& upper_bound.results@.len() > 0
            &&& step > 0
            &&& lower_bound.results@[0] matches AffineExpr::Constant(lower)
            &&& upper_bound.results@[0] matches AffineExpr::Constant(upper)
            &&& makes_trips(
                lower_bound.results@[0]->Constant_0 as int,
                upper_bound.results@[0]->Constant_0 as int,
                step as int,
                trip,
            )
        } else {
            has_trip(*body, level + 1, target, trip)
        },
        Tree::Block(stmts) => exists|i: int|
            0 <= i < stmts@.len() && has_trip(#[trigger] stmts[i], level, target, trip),
        Tree::If { then_branch, else_branch, .. } => has_trip(*then_branch, level, target, trip)
            || (else_branch matches Some(otherwise) && has_trip(*otherwise, level, target, trip)),
        Tree::Access { .. } => false,
    }
}

proof fn lemma_trips(lower: int, upper: int, step: int)
    requires
        step > 0,
    ensures
        forall|trip: int| #[trigger]
            makes_trips(lower, upper, step, trip) <==> trip == trip_count(lower, upper, step),
{
    let n = upper - lower + step - 1;
    let (q, m) = (n / step, n % step);
    vstd::arithmetic::div_mod::lemma_fundamental_div_mod(n, step);
    assert forall|trip: int| #[trigger]
        makes_trips(lower, upper, step, trip) <==> trip == trip_count(lower, upper, step) by {
        let count = trip_count(lower, upper, step);
        if lower >= upper {
            assert(q <= 0) by (nonlinear_arith)
                requires
                    n == step * q + m,
                    0 <= m < step,
                    n < step,
                    step > 0,
            ;
            if trip > 0 {
                assert((trip - 1) * step >= 0) by (nonlinear_arith)
                    requires
                        trip > 0,
                        step > 0,
                ;
            }
        } else {
            assert(q >= 1) by (nonlinear_arith)
                requires
                    n == step * q + m,
                    0 <= m < step,
                    n >= step,
                    step > 0,
            ;
            assert((q - 1) * step < upper - lower <= q * step) by (nonlinear_arith)
                requires
                    n == step * q + m,
                    n == upper - lower + step - 1,
                    0 <= m < step,
            ;
            if trip > 0 && makes_trips(lower, upper, step, trip) {
                assert(trip == q) by (nonlinear_arith)
                    requires
                        (q - 1) * step < upper - lower <= q * step,
                        (trip - 1) * step < upper - lower <= trip * step,
                        step > 0,
                ;
            }
        }
    }
}

/// A constant trip count is the number of iterations of a loop of its level, and
/// where there is none, no loop of the level has constant bounds and a number of
/// iterations that fits.
pub proof fn law_trip_count_is_that_of_a_loop(tree: Tree, level: nat, target: nat)
    ensures
        match trip_at(tree, level, target) {
            Some(trip) => has_trip(tree, level as int, target as int, trip as int),
            None => forall|trip: int|
                trip <= i64::MAX ==> !#[trigger] has_trip(
                    tree,
                    level as int,
                    target as int,
                    trip,
                ),
        },
    decreases tree, 1int, 0int,
{
    match tree {
        Tree::For { lower_bound, upper_bound, step, body, .. } => {
            if level == target {
                if step > 0 && lower_bound.results@.len() > 0 && upper_bound.results@.len() > 0
                    && lower_bound.results@[0] is Constant && upper_bound.results@[0] is Constant {
                    let (lower, upper) = (
                        lower_bound.results@[0]->Constant_0 as int,
                        upper_bound.results@[0]->Constant_0 as int,
                    );
                    lemma_trips(lower, upper, step as int);
                    assert(makes_trips(
                        lower,
                        upper,
                        step as int,
                        trip_count(lower, upper, step as int),
                    ));
                }
            } else {
                law_trip_count_is_that_of_a_loop(*body, level + 1, target);
                assert forall|trip: int| #[trigger]
                    has_trip(tree, level as int, target as int, trip) implies has_trip(
                    *body,
                    (level + 1) as int,
                    target as int,
                    trip,
                ) by {
                }
            }
        },
        Tree::Block(stmts) => {
            lemma_trips_from(stmts, 0, level, target);
            match trip_at(tree, level, target) {
                Some(trip) => {
                    let i = choose|i: int|
                        0 <= i < stmts@.len() && has_trip(
                            #[trigger] stmts[i],
                            level as int,
                            target as int,
                            trip as int,
                        );
                    assert(has_trip(stmts[i], level as int, target as int, trip as int));
                },
                None => {
                    assert forall|trip: int| trip <= i64::MAX implies !#[trigger] has_trip(
                        tree,
                        level as int,
                        target as int,
                        trip,
                    ) by {
                        if has_trip(tree, level as int, target as int, trip) {
                            let i = choose|i: int|
                                0 <= i < stmts@.len() && has_trip(
                                    #[trigger] stmts[i],
                                    level as int,
                                    target as int,
                                    trip,
                                );
                            assert(has_trip(stmts[i], level as int, target as int, trip));
                        }
                    }
                },
            }
        },
        Tree::If { then_branch, else_branch, .. } => {
            law_trip_count_is_that_of_a_loop(*then_branch, level, target);
            if let Some(otherwise) = else_branch {
                law_trip_count_is_that_of_a_loop(*otherwise, level, target);
            }
            if trip_at(tree, level, target) is None {
                assert forall|trip: int| trip <= i64::MAX implies !#[trigger] has_trip(
                    tree,
                    level as int,
                    target as int,
                    trip,
                ) by {
                    assert(!has_trip(*then_branch, level as int, target as int, trip));
                    if let Some(otherwise) = else_branch {
                        assert(!has_trip(*otherwise, level as int, target as int, trip));
                    }
                }
            }
        },
        Tree::Access { .. } => {},
    }
}

proof fn lemma_trips_from(stmts: Vec<Tree>, at: nat, level: nat, target: nat)
    ensures
        match trip_at_from(stmts, at, level, target) {
            Some(trip) => exists|i: int|
                0 <= i < stmts@.len() && has_trip(
                    #[trigger] stmts[i],
                    level as int,
                    target as int,
                    trip as int,
                ),
            None => forall|i: int, trip: int|
                at <= i < stmts@.len() && trip <= i64::MAX ==> !#[trigger] has_trip(
                    stmts[i],
                    level as int,
                    target as int,
                    trip,
                ),
        },
    decreases stmts, 0int, stmts@.len() - at,
{
    if at < stmts@.len() {
        law_trip_count_is_that_of_a_loop(stmts[at as int], level, target);
        lemma_trips_from(stmts, at + 1, level, target);
        if trip_at_from(stmts, at, level, target) is None {
            assert forall|i: int, trip: int|
                at <= i < stmts@.len() && trip <= i64::MAX implies !#[trigger] has_trip(
                stmts[i],
                level as int,
                target as int,
                trip,
            ) by {
                if i == at {
                    assert(!has_trip(stmts[at as int], level as int, target as int, trip));
                }
            }
        }
    }
}

} // verus!
