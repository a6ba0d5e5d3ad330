//! Splitting a loop over threads neither loses nor adds accesses.

use crate::affine_eval::{lower_value, set_value, upper_value, Values};
use crate::schedule::{law_every_iteration_has_one_owner, owner, Partition};
use crate::scope::{
    agree, lemma_block_agrees, lemma_for_agrees, lemma_iteration_agrees, lemma_owned_agrees,
    lemma_walk_keeps, scoped, scoped_from,
};
use crate::tree::{Tree, ValID};
use crate::walk::{
    lemma_skip_foreign, trip_count, walk, walk_block, walk_for, walk_owned, Emitted, Setting, Walk,
};
use vstd::multiset::Multiset;
use vstd::prelude::*;

verus! {

broadcast use vstd::std_specs::vec::axiom_vec_index_decreases;

/// No loop of the tree has the given induction variable.
pub open spec fn free_of(tree: Tree, depth: usize) -> bool
    decreases tree, 0int,
{
    match tree {
        Tree::For { ivar, body, .. } => ivar != ValID::IVar(depth) && free_of(*body, depth),
        Tree::Block(stmts) => free_from(stmts, 0, depth),
        Tree::If { then_branch, else_branch, .. } => {
            &&& free_of(*then_branch, depth)
            &&& else_branch matches Some(otherwise) ==> free_of(*otherwise, depth)
        },
        Tree::Access { .. } => true,
    }
}

pub open spec fn free_from(stmts: Vec<Tree>, at: nat, depth: usize) -> bool
    decreases stmts, stmts@.len() - at,
{
    at < stmts@.len() ==> free_of(stmts[at as int], depth) && free_from(stmts, at + 1, depth)
}

/// Every access of the tree lies inside exactly one loop with the given
/// induction variable.
pub open spec fn covered(tree: Tree, depth: usize) -> bool
    decreases tree, 0int,
{
    match tree {
        Tree::For { ivar, body, .. } => if ivar == ValID::IVar(depth) {
            free_of(*body, depth)
        } else {
            covered(*body, depth)
        },
        Tree::Block(stmts) => covered_from(stmts, 0, depth),
        Tree::If { then_branch, else_branch, .. } => {
            &&& covered(*then_branch, depth)
            &&& else_branch matches Some(otherwise) ==> covered(*otherwise, depth)
        },
        Tree::Access { .. } => false,
    }
}

pub open spec fn covered_from(stmts: Vec<Tree>, at: nat, depth: usize) -> bool
    decreases stmts, stmts@.len() - at,
{
    at < stmts@.len() ==> covered(stmts[at as int], depth) && covered_from(stmts, at + 1, depth)
}

/// The accesses of the first `count` threads together.
pub open spec fn together(count: nat, share: spec_fn(u32) -> Seq<Emitted>) -> Multiset<Emitted>
    decreases count,
{
    if count == 0 {
        Multiset::empty()
    } else {
        together((count - 1) as nat, share).add(share((count - 1) as u32).to_multiset())
    }
}

/// The setting of one thread.
pub open spec fn of_thread(setting: Setting, partition: Partition, tid: u32) -> Setting {
    Setting { partition: Some(Partition { tid, ..partition }), ..setting }
}

pub proof fn lemma_together_concat(
    count: nat,
    whole: spec_fn(u32) -> Seq<Emitted>,
    left: spec_fn(u32) -> Seq<Emitted>,
    right: spec_fn(u32) -> Seq<Emitted>,
)
    requires
        count <= u32::MAX,
        forall|tid: u32| tid < count ==> #[trigger] whole(tid) == left(tid) + right(tid),
    ensures
        together(count, whole) =~= together(count, left).add(together(count, right)),
    decreases count,
{
    if count > 0 {
        let tid = (count - 1) as u32;
        lemma_together_concat((count - 1) as nat, whole, left, right);
        assert(whole(tid) == left(tid) + right(tid));
        vstd::seq_lib::lemma_multiset_commutative(left(tid), right(tid));
    }
}

pub proof fn lemma_together_same(
    count: nat,
    left: spec_fn(u32) -> Seq<Emitted>,
    right: spec_fn(u32) -> Seq<Emitted>,
)
    requires
        count <= u32::MAX,
        forall|tid: u32| tid < count ==> #[trigger] left(tid) == right(tid),
    ensures
        together(count, left) == together(count, right),
    decreases count,
{
    if count > 0 {
        lemma_together_same((count - 1) as nat, left, right);
        assert(left((count - 1) as u32) == right((count - 1) as u32));
    }
}

/// Where exactly one thread has accesses, these are all.
pub proof fn lemma_together_one(
    count: nat,
    share: spec_fn(u32) -> Seq<Emitted>,
    who: u32,
    all: Seq<Emitted>,
)
    requires
        count <= u32::MAX,
        forall|tid: u32|
            tid < count ==> #[trigger] share(tid) == if tid == who {
                all
            } else {
                Seq::empty()
            },
    ensures
        together(count, share) =~= if who < count {
            all.to_multiset()
        } else {
            Multiset::empty()
        },
    decreases count,
{
    Seq::<Emitted>::empty().to_multiset_ensures();
    if count > 0 {
        let tid = (count - 1) as u32;
        lemma_together_one((count - 1) as nat, share, who, all);
        assert(share(tid) == if tid == who {
            all
        } else {
            Seq::empty()
        });
        assert(Seq::<Emitted>::empty().to_multiset().len() == 0);
        assert(Seq::<Emitted>::empty().to_multiset() =~= Multiset::empty());
    }
}

/// Without a loop at the depth, the partition does not matter.
pub proof fn lemma_free_walk(tree: Tree, env: Values, setting: Setting, partition: Partition)
    requires
        setting.partition is None,
        free_of(tree, partition.depth),
    ensures
        walk(tree, env, of_thread(setting, partition, partition.tid)) == walk(tree, env, setting),
    decreases tree, 0int, 0int,
{
    match tree {
        Tree::Block(stmts) => {
            lemma_free_block(stmts, 0, env, setting, partition);
        },
        Tree::For {
            lower_bound,
            upper_bound,
            lower_bound_operands,
            upper_bound_operands,
            step,
            ivar,
            body,
        } => {
            if let ValID::IVar(index) = ivar {
                if let Ok(lower) = lower_value(lower_bound, lower_bound_operands@, env) {
                    if let Ok(upper) = upper_value(upper_bound, upper_bound_operands@, env) {
                        lemma_free_for(
                            *body,
                            index as int,
                            lower as int,
                            upper as int,
                            step as int,
                            env,
                            setting,
                            partition,
                        );
                    }
                }
            }
        },
        Tree::If { then_branch, else_branch, .. } => {
            lemma_free_walk(*then_branch, env, setting, partition);
            if let Some(otherwise) = else_branch {
                lemma_free_walk(*otherwise, env, setting, partition);
            }
        },
        Tree::Access { .. } => {},
    }
}

proof fn lemma_free_block(
    stmts: Vec<Tree>,
    at: nat,
    env: Values,
    setting: Setting,
    partition: Partition,
)
    requires
        setting.partition is None,
        free_from(stmts, at, partition.depth),
    ensures
        walk_block(stmts, at as int, env, of_thread(setting, partition, partition.tid))
            == walk_block(stmts, at as int, env, setting),
    decreases stmts, 1int, stmts@.len() - at,
{
    if at < stmts@.len() {
        lemma_free_walk(stmts[at as int], env, setting, partition);
        if let Ok(between) = walk(stmts[at as int], env, setting).stop {
            lemma_free_block(stmts, at + 1, between, setting, partition);
        }
    }
}

proof fn lemma_free_for(
    body: Tree,
    ivar: int,
    current: int,
    upper: int,
    step: int,
    env: Values,
    setting: Setting,
    partition: Partition,
)
    requires
        setting.partition is None,
        free_of(body, partition.depth),
    ensures
        walk_for(
            body,
            ivar,
            current,
            upper,
            step,
            env,
            of_thread(setting, partition, partition.tid),
        ) == walk_for(body, ivar, current, upper, step, env, setting),
    decreases
            body,
            1int,
            if current < upper {
                upper - current
            } else {
                0
            },
{
    if current < upper && step > 0 {
        let inner = env.with_ivar(ivar, current as i64);
        lemma_free_walk(body, inner, setting, partition);
        if let Ok(between) = walk(body, inner, setting).stop {
            lemma_free_for(body, ivar, current + step, upper, step, between, setting, partition);
        }
    }
}

/// A loop is its first iteration and then the others, all from the same
/// environment.
pub proof fn lemma_for_unrolls(
    body: Tree,
    ivar: int,
    current: int,
    upper: int,
    step: int,
    env: Values,
    setting: Setting,
    bound: Set<int>,
)
    requires
        agree(env, env, bound),
        ivar >= 0,
        !bound.contains(ivar),
        scoped(body, bound.insert(ivar)),
        current < upper,
        step > 0,
        walk_for(body, ivar, current, upper, step, env, setting).stop is Ok,
    ensures
        walk(body, env.with_ivar(ivar, current as i64), setting).stop is Ok,
        walk_for(body, ivar, current + step, upper, step, env, setting).stop is Ok,
        walk_for(body, ivar, current, upper, step, env, setting).emitted == walk(
            body,
            env.with_ivar(ivar, current as i64),
            setting,
        ).emitted + walk_for(body, ivar, current + step, upper, step, env, setting).emitted,
{
    lemma_iteration_agrees(body, ivar, current as i64, env, env, setting, bound);
    let between = walk(body, env.with_ivar(ivar, current as i64), setting).stop->Ok_0;
    lemma_for_agrees(body, ivar, current + step, upper, step, env, between, setting, bound);
}

/// The owned iterations of a loop, likewise.
pub proof fn lemma_owned_unrolls(
    body: Tree,
    ivar: int,
    lower: int,
    step: int,
    trip: int,
    chunk: int,
    threads: int,
    tid: int,
    from: int,
    env: Values,
    setting: Setting,
    bound: Set<int>,
)
    requires
        agree(env, env, bound),
        ivar >= 0,
        !bound.contains(ivar),
        scoped(body, bound.insert(ivar)),
        from < trip,
        walk_owned(
            body,
            ivar,
            lower,
            step,
            trip,
            chunk,
            threads,
            tid,
            from,
            env,
            setting,
        ).stop is Ok,
    ensures
        walk_owned(
            body,
            ivar,
            lower,
            step,
            trip,
            chunk,
            threads,
            tid,
            from + 1,
            env,
            setting,
        ).stop is Ok,
        walk_owned(
            body,
            ivar,
            lower,
            step,
            trip,
            chunk,
            threads,
            tid,
            from,
            env,
            setting,
        ).emitted == if owner(from, chunk, threads) == tid {
            walk(body, env.with_ivar(ivar, (lower + from * step) as i64), setting).emitted
        } else {
            Seq::empty()
        } + walk_owned(
            body,
            ivar,
            lower,
            step,
            trip,
            chunk,
            threads,
            tid,
            from + 1,
            env,
            setting,
        ).emitted,
{
    let rest = walk_owned(
        body,
        ivar,
        lower,
        step,
        trip,
        chunk,
        threads,
        tid,
        from + 1,
        env,
        setting,
    );
    if owner(from, chunk, threads) == tid {
        let value = (lower + from * step) as i64;
        lemma_iteration_agrees(body, ivar, value, env, env, setting, bound);
        let between = walk(body, env.with_ivar(ivar, value), setting).stop->Ok_0;
        lemma_owned_agrees(
            body,
            ivar,
            lower,
            step,
            trip,
            chunk,
            threads,
            tid,
            from + 1,
            env,
            between,
            setting,
            bound,
        );
    } else {
        assert(Seq::empty() + rest.emitted =~= rest.emitted);
    }
}

/// What one thread emits of the parallel loop from iteration `from` on.
spec fn owned_share(
    body: Tree,
    ivar: int,
    lower: int,
    step: int,
    trip: int,
    chunk: int,
    from: int,
    env: Values,
    setting: Setting,
    partition: Partition,
) -> spec_fn(u32) -> Walk {
    |tid: u32|
        walk_owned(
            body,
            ivar,
            lower,
            step,
            trip,
            chunk,
            partition.threads as int,
            tid as int,
            from,
            env,
            of_thread(setting, partition, tid),
        )
}

/// The iterations of the parallel loop from `from` on are dealt out.
proof fn lemma_owned_split(
    body: Tree,
    lower: int,
    upper: int,
    step: int,
    chunk: int,
    from: int,
    env: Values,
    setting: Setting,
    partition: Partition,
    bound: Set<int>,
)
    requires
        setting.partition is None,
        agree(env, env, bound),
        !bound.contains(partition.depth as int),
        scoped(body, bound.insert(partition.depth as int)),
        free_of(body, partition.depth),
        partition.threads > 0,
        chunk > 0,
        step > 0,
        0 <= from <= trip_count(lower, upper, step),
        walk_for(
            body,
            partition.depth as int,
            lower + from * step,
            upper,
            step,
            env,
            setting,
        ).stop is Ok,
        forall|tid: u32|
            tid < partition.threads ==> (#[trigger] owned_share(
                body,
                partition.depth as int,
                lower,
                step,
                trip_count(lower, upper, step),
                chunk,
                from,
                env,
                setting,
                partition,
            )(tid)).stop is Ok,
    ensures
        together(
            partition.threads as nat,
            |tid: u32|
                owned_share(
                    body,
                    partition.depth as int,
                    lower,
                    step,
                    trip_count(lower, upper, step),
                    chunk,
                    from,
                    env,
                    setting,
                    partition,
                )(tid).emitted,
        ) =~= walk_for(
            body,
            partition.depth as int,
            lower + from * step,
            upper,
            step,
            env,
            setting,
        ).emitted.to_multiset(),
    decreases trip_count(lower, upper, step) - from,
{
    let trip = trip_count(lower, upper, step);
    let ivar = partition.depth as int;
    let count = partition.threads as nat;
    let threads = partition.threads as int;
    let here = owned_share(body, ivar, lower, step, trip, chunk, from, env, setting, partition);
    let all = |tid: u32| here(tid).emitted;
    lemma_trip_count(lower, upper, step, from);
    if from == trip {
        let none = |tid: u32| Seq::<Emitted>::empty();
        assert forall|tid: u32| tid < count implies #[trigger] all(tid) == none(tid) by {}
        lemma_together_same(count, all, none);
        lemma_together_one(count, none, 0, Seq::empty());
        assert(Seq::<Emitted>::empty().to_multiset() =~= Multiset::empty()) by {
            Seq::<Emitted>::empty().to_multiset_ensures();
            assert(Seq::<Emitted>::empty().to_multiset().len() == 0);
        }
    } else {
        let next = from + 1;
        let value = (lower + from * step) as i64;
        let inner = env.with_ivar(ivar, value);
        let after = owned_share(body, ivar, lower, step, trip, chunk, next, env, setting, partition);
        let first = walk(body, inner, setting).emitted;
        let who = owner(from, chunk, threads) as u32;
        law_every_iteration_has_one_owner(from, chunk, threads);
        assert(lower + next * step == lower + from * step + step) by (nonlinear_arith)
            requires
                next == from + 1,
        ;
        lemma_for_unrolls(body, ivar, lower + from * step, upper, step, env, setting, bound);
        let mine = |tid: u32|
            if tid == who {
                first
            } else {
                Seq::empty()
            };
        let others = |tid: u32| after(tid).emitted;
        assert forall|tid: u32| tid < count implies #[trigger] all(tid) == mine(tid) + others(tid)
            && after(tid).stop is Ok by {
            let own = of_thread(setting, partition, tid);
            assert(here(tid).stop is Ok);
            lemma_owned_unrolls(
                body,
                ivar,
                lower,
                step,
                trip,
                chunk,
                threads,
                tid as int,
                from,
                env,
                own,
                bound,
            );
            lemma_free_walk(body, inner, setting, Partition { tid, ..partition });
        }
        assert forall|tid: u32| tid < count implies (#[trigger] after(tid)).stop is Ok by {
            assert(all(tid) == mine(tid) + others(tid));
        }
        lemma_together_concat(count, all, mine, others);
        lemma_together_one(count, mine, who, first);
        lemma_owned_split(
            body,
            lower,
            upper,
            step,
            chunk,
            next,
            env,
            setting,
            partition,
            bound,
        );
        vstd::seq_lib::lemma_multiset_commutative(
            first,
            walk_for(body, ivar, lower + next * step, upper, step, env, setting).emitted,
        );
    }
}

/// Iteration `at` runs exactly when it is below the trip count.
pub proof fn lemma_trip_count(lower: int, upper: int, step: int, at: int)
    requires
        step > 0,
        at >= 0,
    ensures
        at < trip_count(lower, upper, step) <==> lower + at * step < upper,
{
    let sum = upper - lower + step - 1;
    vstd::arithmetic::div_mod::lemma_fundamental_div_mod(sum, step);
    let (q, m) = (sum / step, sum % step);
    assert(0 <= at * step) by (nonlinear_arith)
        requires
            at >= 0,
            step > 0,
    ;
    if at < q {
        assert(at * step <= step * q - step) by (nonlinear_arith)
            requires
                at <= q - 1,
                step > 0,
        ;
    } else {
        assert(at * step >= step * q) by (nonlinear_arith)
            requires
                at >= q,
                step > 0,
        ;
    }
}

/// What each thread emits.
pub open spec fn shares(tree: Tree, env: Values, setting: Setting, partition: Partition) -> spec_fn(
    u32,
) -> Seq<Emitted> {
    |tid: u32| walk(tree, env, of_thread(setting, partition, tid)).emitted
}

/// The threads together make exactly the accesses of the sequential walk.
///
/// This holds where every access lies inside the parallel loop (what stands
/// outside it, every thread repeats) and where variables are scoped.
pub proof fn law_threads_share_the_accesses(
    tree: Tree,
    env: Values,
    setting: Setting,
    partition: Partition,
    bound: Set<int>,
)
    requires
        setting.partition is None,
        partition.threads > 0,
        partition.chunk.valid(),
        agree(env, env, bound),
        !bound.contains(partition.depth as int),
        scoped(tree, bound),
        covered(tree, partition.depth),
        walk(tree, env, setting).stop is Ok,
        forall|tid: u32|
            tid < partition.threads ==> (#[trigger] walk(
                tree,
                env,
                of_thread(setting, partition, tid),
            )).stop is Ok,
    ensures
        together(partition.threads as nat, shares(tree, env, setting, partition)) == walk(
            tree,
            env,
            setting,
        ).emitted.to_multiset(),
    decreases tree, 0int, 0int,
{
    let count = partition.threads as nat;
    let all = shares(tree, env, setting, partition);
    match tree {
        Tree::Block(stmts) => {
            if stmts@.len() == 0 {
                lemma_nothing_split(count, all);
            } else {
                assert forall|tid: u32| tid < partition.threads implies (#[trigger] walk_block(
                    stmts,
                    0,
                    env,
                    of_thread(setting, partition, tid),
                )).stop is Ok by {
                    assert(walk(tree, env, of_thread(setting, partition, tid)).stop is Ok);
                }
                lemma_block_split(stmts, 0, env, setting, partition, bound);
                lemma_together_same(count, all, block_shares(stmts, 0, env, setting, partition));
            }
        },
        Tree::For {
            lower_bound,
            upper_bound,
            lower_bound_operands,
            upper_bound_operands,
            step,
            ivar,
            body,
        } => {
            let index = ivar->IVar_0;
            let lower = lower_value(lower_bound, lower_bound_operands@, env)->Ok_0 as int;
            let upper = upper_value(upper_bound, upper_bound_operands@, env)->Ok_0 as int;
            if index == partition.depth {
                let trip = trip_count(lower, upper, step as int);
                let threads = partition.threads as int;
                let chunk = partition.chunk.resolved(trip, threads);
                let own = owned_share(
                    *body,
                    index as int,
                    lower,
                    step as int,
                    trip,
                    chunk,
                    0,
                    env,
                    setting,
                    partition,
                );
                let own_emitted = |tid: u32| own(tid).emitted;
                assert forall|tid: u32| tid < partition.threads implies #[trigger] own(tid) == walk(
                    tree,
                    env,
                    of_thread(setting, partition, tid),
                ) by {
                    let mine = of_thread(setting, partition, tid);
                    assert(walk(tree, env, mine).stop is Ok);
                    vstd::arithmetic::div_mod::lemma_small_mod(tid as nat, threads as nat);
                    assert(0 <= tid * chunk) by (nonlinear_arith)
                        requires
                            tid >= 0,
                            chunk > 0,
                    ;
                    assert forall|other: int| 0 <= other < tid * chunk implies #[trigger] owner(
                        other,
                        chunk,
                        threads,
                    ) != tid by {
                        vstd::arithmetic::div_mod::lemma_fundamental_div_mod(other, chunk);
                        let (q, m) = (other / chunk, other % chunk);
                        assert(0 <= q < tid) by (nonlinear_arith)
                            requires
                                other == chunk * q + m,
                                0 <= m < chunk,
                                0 <= other < tid * chunk,
                        ;
                        vstd::arithmetic::div_mod::lemma_small_mod(q as nat, threads as nat);
                    }
                    lemma_skip_foreign(
                        *body,
                        index as int,
                        lower,
                        step as int,
                        trip,
                        chunk,
                        threads,
                        tid as int,
                        0,
                        tid * chunk,
                        env,
                        mine,
                    );
                }
                assert forall|tid: u32| tid < partition.threads implies (#[trigger] own(
                    tid,
                )).stop is Ok by {
                    assert(walk(tree, env, of_thread(setting, partition, tid)).stop is Ok);
                }
                assert(lower + 0 * step == lower);
                lemma_owned_split(
                    *body,
                    lower,
                    upper,
                    step as int,
                    chunk,
                    0,
                    env,
                    setting,
                    partition,
                    bound,
                );
                assert forall|tid: u32| tid < count implies #[trigger] all(tid) == own_emitted(
                    tid,
                ) by {
                    assert(own(tid) == walk(tree, env, of_thread(setting, partition, tid)));
                }
                lemma_together_same(count, all, own_emitted);
            } else {
                let i = index as int;
                assert forall|tid: u32| tid < partition.threads implies (#[trigger] walk_for(
                    *body,
                    i,
                    lower,
                    upper,
                    step as int,
                    env,
                    of_thread(setting, partition, tid),
                )).stop is Ok by {
                    assert(walk(tree, env, of_thread(setting, partition, tid)).stop is Ok);
                }
                lemma_for_split(
                    *body,
                    i,
                    lower,
                    upper,
                    step as int,
                    env,
                    setting,
                    partition,
                    bound,
                );
                lemma_together_same(
                    count,
                    all,
                    for_shares(*body, i, lower, upper, step as int, env, setting, partition),
                );
            }
        },
        Tree::If { condition, operands, then_branch, else_branch } => {
            match set_value(condition, operands@, env) {
                Ok(true) => {
                    assert forall|tid: u32| tid < partition.threads implies (#[trigger] walk(
                        *then_branch,
                        env,
                        of_thread(setting, partition, tid),
                    )).stop is Ok by {
                        assert(walk(tree, env, of_thread(setting, partition, tid)).stop is Ok);
                    }
                    law_threads_share_the_accesses(*then_branch, env, setting, partition, bound);
                    lemma_together_same(
                        count,
                        all,
                        shares(*then_branch, env, setting, partition),
                    );
                },
                _ => match else_branch {
                    Some(otherwise) => {
                        assert forall|tid: u32| tid < partition.threads implies (#[trigger] walk(
                            *otherwise,
                            env,
                            of_thread(setting, partition, tid),
                        )).stop is Ok by {
                            assert(walk(tree, env, of_thread(setting, partition, tid)).stop is Ok);
                        }
                        law_threads_share_the_accesses(*otherwise, env, setting, partition, bound);
                        lemma_together_same(
                            count,
                            all,
                            shares(*otherwise, env, setting, partition),
                        );
                    },
                    None => {
                        lemma_nothing_split(count, all);
                    },
                },
            }
        },
        Tree::Access { .. } => {},
    }
}

pub proof fn lemma_nothing_split(count: nat, share: spec_fn(u32) -> Seq<Emitted>)
    requires
        count <= u32::MAX,
        forall|tid: u32| tid < count ==> #[trigger] share(tid) == Seq::<Emitted>::empty(),
    ensures
        together(count, share) == Seq::<Emitted>::empty().to_multiset(),
{
    lemma_together_one(count, share, 0, Seq::empty());
    Seq::<Emitted>::empty().to_multiset_ensures();
    assert(Seq::<Emitted>::empty().to_multiset().len() == 0);
    assert(Seq::<Emitted>::empty().to_multiset() =~= Multiset::empty());
}

spec fn block_shares(
    stmts: Vec<Tree>,
    at: int,
    env: Values,
    setting: Setting,
    partition: Partition,
) -> spec_fn(u32) -> Seq<Emitted> {
    |tid: u32| walk_block(stmts, at, env, of_thread(setting, partition, tid)).emitted
}

spec fn for_shares(
    body: Tree,
    ivar: int,
    current: int,
    upper: int,
    step: int,
    env: Values,
    setting: Setting,
    partition: Partition,
) -> spec_fn(u32) -> Seq<Emitted> {
    |tid: u32|
        walk_for(
            body,
            ivar,
            current,
            upper,
            step,
            env,
            of_thread(setting, partition, tid),
        ).emitted
}

/// A block is its first statement and then the others, all from the same
/// environment.
pub proof fn lemma_block_unrolls(
    stmts: Vec<Tree>,
    at: nat,
    env: Values,
    setting: Setting,
    bound: Set<int>,
)
    requires
        agree(env, env, bound),
        scoped_from(stmts, at, bound),
        at < stmts@.len(),
        walk_block(stmts, at as int, env, setting).stop is Ok,
    ensures
        walk(stmts[at as int], env, setting).stop is Ok,
        walk_block(stmts, (at + 1) as int, env, setting).stop is Ok,
        walk_block(stmts, at as int, env, setting).emitted == walk(
            stmts[at as int],
            env,
            setting,
        ).emitted + walk_block(stmts, (at + 1) as int, env, setting).emitted,
{
    let between = walk(stmts[at as int], env, setting).stop->Ok_0;
    lemma_walk_keeps(stmts[at as int], env, setting, bound);
    lemma_block_agrees(stmts, at + 1, env, between, setting, bound);
}

proof fn lemma_block_split(
    stmts: Vec<Tree>,
    at: nat,
    env: Values,
    setting: Setting,
    partition: Partition,
    bound: Set<int>,
)
    requires
        setting.partition is None,
        partition.threads > 0,
        partition.chunk.valid(),
        agree(env, env, bound),
        !bound.contains(partition.depth as int),
        scoped_from(stmts, at, bound),
        covered_from(stmts, at, partition.depth),
        walk_block(stmts, at as int, env, setting).stop is Ok,
        forall|tid: u32|
            tid < partition.threads ==> (#[trigger] walk_block(
                stmts,
                at as int,
                env,
                of_thread(setting, partition, tid),
            )).stop is Ok,
    ensures
        together(partition.threads as nat, block_shares(stmts, at as int, env, setting, partition))
            == walk_block(stmts, at as int, env, setting).emitted.to_multiset(),
    decreases stmts, 1int, stmts@.len() - at,
{
    let count = partition.threads as nat;
    let all = block_shares(stmts, at as int, env, setting, partition);
    if at >= stmts@.len() {
        lemma_nothing_split(count, all);
    } else {
        let stmt = stmts[at as int];
        let first = shares(stmt, env, setting, partition);
        let rest = block_shares(stmts, (at + 1) as int, env, setting, partition);
        lemma_block_unrolls(stmts, at, env, setting, bound);
        assert forall|tid: u32| tid < count implies #[trigger] all(tid) == first(tid) + rest(tid)
            by {
            let own = of_thread(setting, partition, tid);
            assert(walk_block(stmts, at as int, env, own).stop is Ok);
            lemma_block_unrolls(stmts, at, env, own, bound);
        }
        assert forall|tid: u32| tid < partition.threads implies (#[trigger] walk(
            stmt,
            env,
            of_thread(setting, partition, tid),
        )).stop is Ok by {
            let own = of_thread(setting, partition, tid);
            assert(walk_block(stmts, at as int, env, own).stop is Ok);
            lemma_block_unrolls(stmts, at, env, own, bound);
        }
        assert forall|tid: u32| tid < partition.threads implies (#[trigger] walk_block(
            stmts,
            (at + 1) as int,
            env,
            of_thread(setting, partition, tid),
        )).stop is Ok by {
            let own = of_thread(setting, partition, tid);
            assert(walk_block(stmts, at as int, env, own).stop is Ok);
            lemma_block_unrolls(stmts, at, env, own, bound);
        }
        lemma_together_concat(count, all, first, rest);
        law_threads_share_the_accesses(stmt, env, setting, partition, bound);
        lemma_block_split(stmts, at + 1, env, setting, partition, bound);
        vstd::seq_lib::lemma_multiset_commutative(
            walk(stmt, env, setting).emitted,
            walk_block(stmts, (at + 1) as int, env, setting).emitted,
        );
    }
}

proof fn lemma_for_split(
    body: Tree,
    ivar: int,
    current: int,
    upper: int,
    step: int,
    env: Values,
    setting: Setting,
    partition: Partition,
    bound: Set<int>,
)
    requires
        setting.partition is None,
        partition.threads > 0,
        partition.chunk.valid(),
        agree(env, env, bound),
        ivar >= 0,
        ivar != partition.depth,
        !bound.contains(ivar),
        !bound.contains(partition.depth as int),
        scoped(body, bound.insert(ivar)),
        covered(body, partition.depth),
        walk_for(body, ivar, current, upper, step, env, setting).stop is Ok,
        forall|tid: u32|
            tid < partition.threads ==> (#[trigger] walk_for(
                body,
                ivar,
                current,
                upper,
                step,
                env,
                of_thread(setting, partition, tid),
            )).stop is Ok,
    ensures
        together(
            partition.threads as nat,
            for_shares(body, ivar, current, upper, step, env, setting, partition),
        ) == walk_for(body, ivar, current, upper, step, env, setting).emitted.to_multiset(),
    decreases
            body,
            1int,
            if current < upper {
                upper - current
            } else {
                0
            },
{
    let count = partition.threads as nat;
    let all = for_shares(body, ivar, current, upper, step, env, setting, partition);
    if current >= upper || step <= 0 {
        lemma_nothing_split(count, all);
    } else {
        let inner = env.with_ivar(ivar, current as i64);
        let next = current + step;
        let first = shares(body, inner, setting, partition);
        let rest = for_shares(body, ivar, next, upper, step, env, setting, partition);
        lemma_for_unrolls(body, ivar, current, upper, step, env, setting, bound);
        assert forall|tid: u32| tid < count implies #[trigger] all(tid) == first(tid) + rest(tid)
            by {
            let own = of_thread(setting, partition, tid);
            assert(walk_for(body, ivar, current, upper, step, env, own).stop is Ok);
            lemma_for_unrolls(body, ivar, current, upper, step, env, own, bound);
        }
        assert forall|tid: u32| tid < partition.threads implies (#[trigger] walk(
            body,
            inner,
            of_thread(setting, partition, tid),
        )).stop is Ok by {
            let own = of_thread(setting, partition, tid);
            assert(walk_for(body, ivar, current, upper, step, env, own).stop is Ok);
            lemma_for_unrolls(body, ivar, current, upper, step, env, own, bound);
        }
        assert forall|tid: u32| tid < partition.threads implies (#[trigger] walk_for(
            body,
            ivar,
            next,
            upper,
            step,
            env,
            of_thread(setting, partition, tid),
        )).stop is Ok by {
            let own = of_thread(setting, partition, tid);
            assert(walk_for(body, ivar, current, upper, step, env, own).stop is Ok);
            lemma_for_unrolls(body, ivar, current, upper, step, env, own, bound);
        }
        lemma_together_concat(count, all, first, rest);
        let wide = bound.insert(ivar);
        assert forall|i: int| #[trigger] wide.contains(i) implies 0 <= i < inner.ivars.len() by {
            if i != ivar {
                assert(bound.contains(i));
            }
        }
        law_threads_share_the_accesses(body, inner, setting, partition, wide);
        lemma_for_split(body, ivar, next, upper, step, env, setting, partition, bound);
        vstd::seq_lib::lemma_multiset_commutative(
            walk(body, inner, setting).emitted,
            walk_for(body, ivar, next, upper, step, env, setting).emitted,
        );
    }
}

} // verus!
