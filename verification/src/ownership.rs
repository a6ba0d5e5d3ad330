//! Which thread makes each access of a nest with a parallel loop.
//!
//! The accesses of the sequential walk, each labeled with the thread that owns
//! the iteration it lies in, hold the walk of every thread: a thread makes its
//! accesses in program order.

use crate::affine_eval::{lower_value, set_value, upper_value, Values};
use crate::history::{own, Event};
use crate::schedule::{law_every_iteration_has_one_owner, owner, Partition};
use crate::scope::{agree, scoped, scoped_from};
use crate::split::{
    covered, covered_from, free_from, free_of, law_threads_share_the_accesses, lemma_block_unrolls,
    lemma_for_unrolls, lemma_free_walk, lemma_owned_unrolls, lemma_trip_count, of_thread, shares,
    together,
};
use crate::tree::{Tree, ValID};
use crate::walk::{
    lemma_skip_foreign, trip_count, walk, walk_block, walk_for, walk_owned, Emitted, Setting,
};
use vstd::prelude::*;

verus! {

broadcast use vstd::std_specs::vec::axiom_vec_index_decreases;

/// The accesses of one thread.
pub open spec fn by_thread(tid: u32, emitted: Seq<Emitted>) -> Seq<Event> {
    emitted.map_values(|access: Emitted| (tid, access))
}

/// The accesses of a sequential walk with the threads that own them. What lies
/// outside the parallel loop has the label zero.
pub open spec fn labeled(tree: Tree, env: Values, setting: Setting, partition: Partition) -> Seq<
    Event,
>
    decreases tree, 0int, 0int,
{
    match tree {
        Tree::Block(stmts) => labeled_block(stmts, 0, env, setting, partition),
        Tree::For {
            lower_bound,
            upper_bound,
            lower_bound_operands,
            upper_bound_operands,
            step,
            ivar,
            body,
        } => {
            let index = ivar->IVar_0;
            let lower = lower_value(lower_bound, lower_bound_operands@, env)->Ok_0 as int;
            let upper = upper_value(upper_bound, upper_bound_operands@, env)->Ok_0 as int;
            if index == partition.depth {
                let trip = trip_count(lower, upper, step as int);
                labeled_owned(
                    *body,
                    lower,
                    step as int,
                    trip,
                    partition.chunk.resolved(trip, partition.threads as int),
                    0,
                    env,
                    setting,
                    partition,
                )
            } else {
                labeled_for(*body, index as int, lower, upper, step as int, env, setting, partition)
            }
        },
        Tree::If { condition, operands, then_branch, else_branch } => match set_value(
            condition,
            operands@,
            env,
        ) {
            Ok(true) => labeled(*then_branch, env, setting, partition),
            _ => match else_branch {
                Some(otherwise) => labeled(*otherwise, env, setting, partition),
                None => Seq::empty(),
            },
        },
        Tree::Access { .. } => by_thread(0, walk(tree, env, setting).emitted),
    }
}

/// The labeled accesses of the statements of a block from position `at` on.
pub open spec fn labeled_block(
    stmts: Vec<Tree>,
    at: nat,
    env: Values,
    setting: Setting,
    partition: Partition,
) -> Seq<Event>
    decreases stmts, 1int, stmts@.len() - at,
{
    if at >= stmts@.len() {
        Seq::empty()
    } else {
        labeled(stmts[at as int], env, setting, partition) + labeled_block(
            stmts,
            at + 1,
            env,
            setting,
            partition,
        )
    }
}

/// The labeled accesses of the iterations of another loop from the value
/// `current` on.
pub open spec fn labeled_for(
    body: Tree,
    ivar: int,
    current: int,
    upper: int,
    step: int,
    env: Values,
    setting: Setting,
    partition: Partition,
) -> Seq<Event>
    decreases
            body,
            1int,
            if current < upper {
                upper - current
            } else {
                0
            },
{
    if current >= upper || step <= 0 {
        Seq::empty()
    } else {
        labeled(body, env.with_ivar(ivar, current as i64), setting, partition) + labeled_for(
            body,
            ivar,
            current + step,
            upper,
            step,
            env,
            setting,
            partition,
        )
    }
}

/// The labeled accesses of the iterations of the parallel loop from number
/// `from` on.
pub open spec fn labeled_owned(
    body: Tree,
    lower: int,
    step: int,
    trip: int,
    chunk: int,
    from: int,
    env: Values,
    setting: Setting,
    partition: Partition,
) -> Seq<Event>
    decreases body, 1int, trip - from,
{
    if from >= trip {
        Seq::empty()
    } else {
        by_thread(
            owner(from, chunk, partition.threads as int) as u32,
            walk(
                body,
                env.with_ivar(partition.depth as int, (lower + from * step) as i64),
                setting,
            ).emitted,
        ) + labeled_owned(body, lower, step, trip, chunk, from + 1, env, setting, partition)
    }
}

/// Every access of the tree lies inside a loop with the given induction
/// variable.
pub open spec fn inside(tree: Tree, depth: usize) -> bool
    decreases tree, 0int,
{
    match tree {
        Tree::For { ivar, body, .. } => ivar == ValID::IVar(depth) || inside(*body, depth),
        Tree::Block(stmts) => inside_from(stmts, 0, depth),
        Tree::If { then_branch, else_branch, .. } => {
            &&& inside(*then_branch, depth)
            &&& else_branch matches Some(otherwise) ==> inside(*otherwise, depth)
        },
        Tree::Access { .. } => false,
    }
}

/// The accesses of the statements of a block from position `at` on lie inside
/// such a loop.
pub open spec fn inside_from(stmts: Vec<Tree>, at: nat, depth: usize) -> bool
    decreases stmts, stmts@.len() - at,
{
    at < stmts@.len() ==> inside(stmts[at as int], depth) && inside_from(stmts, at + 1, depth)
}

/// The elements of `part` are those of `whole` at ascending positions `at`.
pub open spec fn picks<A>(part: Seq<A>, whole: Seq<A>, at: Seq<int>) -> bool {
    &&& at.len() == part.len()
    &&& forall|i: int| 0 <= i < at.len() ==> 0 <= #[trigger] at[i] < whole.len() && part[i]
        == whole[at[i]]
    &&& forall|i: int, j: int| 0 <= i < j < at.len() ==> #[trigger] at[i] < #[trigger] at[j]
}

/// A sequence holds some of the elements of another, in their order.
pub open spec fn is_subsequence<A>(part: Seq<A>, whole: Seq<A>) -> bool {
    exists|at: Seq<int>| #[trigger] picks(part, whole, at)
}

/// The accesses of some events.
pub open spec fn accesses_of(events: Seq<Event>) -> Seq<Emitted> {
    events.map_values(|event: Event| event.1)
}

/// The events of a thread in two stretches are those in both, one behind the
/// other.
proof fn lemma_own_concat(first: Seq<Event>, rest: Seq<Event>, tid: u32)
    ensures
        own(first + rest, tid) == own(first, tid) + own(rest, tid),
    decreases rest.len(),
{
    let all = first + rest;
    if rest.len() == 0 {
        assert(all =~= first);
        assert(own(rest, tid) =~= Seq::empty());
        assert(own(first, tid) + own(rest, tid) =~= own(first, tid));
    } else {
        lemma_own_concat(first, rest.drop_last(), tid);
        assert(all.drop_last() =~= first + rest.drop_last());
        assert(own(all, tid) =~= own(first, tid) + own(rest, tid));
    }
}

/// The events of one thread are its own, and nobody else's.
proof fn lemma_own_by_thread(who: u32, emitted: Seq<Emitted>, tid: u32)
    ensures
        own(by_thread(who, emitted), tid) == if who == tid {
            by_thread(who, emitted)
        } else {
            Seq::empty()
        },
        accesses_of(by_thread(who, emitted)) == emitted,
    decreases emitted.len(),
{
    let all = by_thread(who, emitted);
    assert(accesses_of(all) =~= emitted);
    if emitted.len() == 0 {
        assert(own(all, tid) =~= Seq::empty());
        assert(all =~= Seq::empty());
    } else {
        lemma_own_by_thread(who, emitted.drop_last(), tid);
        assert(all.drop_last() =~= by_thread(who, emitted.drop_last()));
        if who == tid {
            assert(own(all, tid) =~= all);
        }
    }
}

/// The labeled accesses are those of the sequential walk, and those of a thread
/// among them are the walk of the thread.
pub open spec fn holds_walks(
    events: Seq<Event>,
    all: Seq<Emitted>,
    tid: u32,
    mine: Seq<Emitted>,
) -> bool {
    &&& accesses_of(events) == all
    &&& accesses_of(own(events, tid)) == mine
}

proof fn lemma_holds_both(
    first: Seq<Event>,
    rest: Seq<Event>,
    tid: u32,
    all: Seq<Emitted>,
    more: Seq<Emitted>,
    mine: Seq<Emitted>,
    mine_too: Seq<Emitted>,
)
    requires
        holds_walks(first, all, tid, mine),
        holds_walks(rest, more, tid, mine_too),
    ensures
        holds_walks(first + rest, all + more, tid, mine + mine_too),
{
    lemma_own_concat(first, rest, tid);
    assert(accesses_of(first + rest) =~= all + more);
    assert(accesses_of(own(first, tid) + own(rest, tid)) =~= mine + mine_too);
}

/// The accesses of the sequential walk, labeled with their owners, hold the
/// walk of each thread in program order.
///
/// As for [`crate::split`], every access has to lie inside the parallel loop.
pub proof fn law_threads_walk_in_program_order(
    tree: Tree,
    env: Values,
    setting: Setting,
    partition: Partition,
    bound: Set<int>,
    tid: u32,
)
    requires
        setting.partition is None,
        tid < partition.threads,
        partition.chunk.valid(),
        agree(env, env, bound),
        !bound.contains(partition.depth as int),
        scoped(tree, bound),
        covered(tree, partition.depth),
        walk(tree, env, setting).stop is Ok,
        walk(tree, env, of_thread(setting, partition, tid)).stop is Ok,
    ensures
        holds_walks(
            labeled(tree, env, setting, partition),
            walk(tree, env, setting).emitted,
            tid,
            walk(tree, env, of_thread(setting, partition, tid)).emitted,
        ),
    decreases tree, 0int, 0int,
{
    let mine = of_thread(setting, partition, tid);
    match tree {
        Tree::Block(stmts) => {
            if stmts@.len() == 0 {
                lemma_nothing(tid);
                assert(labeled_block(stmts, 0, env, setting, partition) =~= Seq::empty());
            } else {
                lemma_block_holds(stmts, 0, env, setting, partition, bound, tid);
            }
        },
        Tree::For {
            lower_bound,
            upper_bound,
            lower_bound_operands,
            upper_bound_operands,
            step,
            ivar,
            body,
        } => {
            let index = ivar->IVar_0;
            let lower = lower_value(lower_bound, lower_bound_operands@, env)->Ok_0 as int;
            let upper = upper_value(upper_bound, upper_bound_operands@, env)->Ok_0 as int;
            if index == partition.depth {
                let trip = trip_count(lower, upper, step as int);
                let threads = partition.threads as int;
                let chunk = partition.chunk.resolved(trip, threads);
                vstd::arithmetic::div_mod::lemma_small_mod(tid as nat, threads as nat);
                lemma_starts_at_own(
                    *body,
                    lower,
                    step as int,
                    trip,
                    chunk,
                    env,
                    setting,
                    partition,
                    tid,
                );
                assert(lower + 0 * step == lower);
                lemma_owned_holds(
                    *body,
                    lower,
                    upper,
                    step as int,
                    chunk,
                    0,
                    env,
                    setting,
                    partition,
                    bound,
                    tid,
                );
            } else {
                lemma_for_holds(
                    *body,
                    index as int,
                    lower,
                    upper,
                    step as int,
                    env,
                    setting,
                    partition,
                    bound,
                    tid,
                );
            }
        },
        Tree::If { condition, operands, then_branch, else_branch } => {
            match set_value(condition, operands@, env) {
                Ok(true) => {
                    law_threads_walk_in_program_order(
                        *then_branch,
                        env,
                        setting,
                        partition,
                        bound,
                        tid,
                    );
                },
                _ => match else_branch {
                    Some(otherwise) => {
                        law_threads_walk_in_program_order(
                            *otherwise,
                            env,
                            setting,
                            partition,
                            bound,
                            tid,
                        );
                    },
                    None => {
                        lemma_nothing(tid);
                    },
                },
            }
        },
        Tree::Access { .. } => {},
    }
}

/// Under a loop, no other loop has its variable.
proof fn lemma_bound_free(tree: Tree, bound: Set<int>, depth: usize)
    requires
        scoped(tree, bound),
        bound.contains(depth as int),
    ensures
        free_of(tree, depth),
    decreases tree, 0int,
{
    match tree {
        Tree::For { ivar, body, .. } => {
            lemma_bound_free(*body, bound.insert(ivar->IVar_0 as int), depth);
        },
        Tree::Block(stmts) => lemma_bound_free_from(stmts, 0, bound, depth),
        Tree::If { then_branch, else_branch, .. } => {
            lemma_bound_free(*then_branch, bound, depth);
            if let Some(otherwise) = else_branch {
                lemma_bound_free(*otherwise, bound, depth);
            }
        },
        Tree::Access { .. } => {},
    }
}

proof fn lemma_bound_free_from(stmts: Vec<Tree>, at: nat, bound: Set<int>, depth: usize)
    requires
        scoped_from(stmts, at, bound),
        bound.contains(depth as int),
    ensures
        free_from(stmts, at, depth),
    decreases stmts, stmts@.len() - at,
{
    if at < stmts@.len() {
        lemma_bound_free(stmts[at as int], bound, depth);
        lemma_bound_free_from(stmts, at + 1, bound, depth);
    }
}

/// Where variables are scoped, an access inside a loop with a given variable is
/// inside exactly one.
proof fn lemma_inside_covered(tree: Tree, bound: Set<int>, depth: usize)
    requires
        scoped(tree, bound),
        inside(tree, depth),
    ensures
        covered(tree, depth),
    decreases tree, 0int,
{
    match tree {
        Tree::For { ivar, body, .. } => {
            let inner = bound.insert(ivar->IVar_0 as int);
            if ivar == ValID::IVar(depth) {
                lemma_bound_free(*body, inner, depth);
            } else {
                lemma_inside_covered(*body, inner, depth);
            }
        },
        Tree::Block(stmts) => lemma_inside_covered_from(stmts, 0, bound, depth),
        Tree::If { then_branch, else_branch, .. } => {
            lemma_inside_covered(*then_branch, bound, depth);
            if let Some(otherwise) = else_branch {
                lemma_inside_covered(*otherwise, bound, depth);
            }
        },
        Tree::Access { .. } => {},
    }
}

proof fn lemma_inside_covered_from(stmts: Vec<Tree>, at: nat, bound: Set<int>, depth: usize)
    requires
        scoped_from(stmts, at, bound),
        inside_from(stmts, at, depth),
    ensures
        covered_from(stmts, at, depth),
    decreases stmts, stmts@.len() - at,
{
    if at < stmts@.len() {
        lemma_inside_covered(stmts[at as int], bound, depth);
        lemma_inside_covered_from(stmts, at + 1, bound, depth);
    }
}

/// The accesses of one thread among some events are a subsequence of all.
proof fn lemma_own_is_subsequence(events: Seq<Event>, tid: u32)
    ensures
        is_subsequence(accesses_of(own(events, tid)), accesses_of(events)),
    decreases events.len(),
{
    let (part, whole) = (accesses_of(own(events, tid)), accesses_of(events));
    if events.len() == 0 {
        assert(picks(part, whole, Seq::empty()));
    } else {
        let rest = events.drop_last();
        lemma_own_is_subsequence(rest, tid);
        let (before, all) = (accesses_of(own(rest, tid)), accesses_of(rest));
        let at = choose|at: Seq<int>| #[trigger] picks(before, all, at);
        assert forall|i: int| 0 <= i < all.len() implies all[i] == whole[i] by {}
        if events.last().0 == tid {
            let more = at.push(rest.len() as int);
            assert(part =~= before.push(events.last().1));
            assert(picks(part, whole, more));
        } else {
            assert(picks(part, whole, at));
        }
    }
}

/// Cursors that share a parallel loop deal out the stream of a sequential
/// cursor: the stream of each is a subsequence of it, and together they hold
/// each of its accesses, as often as it does.
///
/// Every access has to lie inside a loop with the parallel variable, since every
/// thread repeats what stands outside it, and variables have to be scoped, since
/// a thread leaves other values behind in its variables than the sequential walk
/// does.
pub proof fn law_threads_deal_out_the_stream(
    tree: Tree,
    symbols: Seq<i64>,
    setting: Setting,
    partition: Partition,
)
    requires
        setting.partition is None,
        partition.threads > 0,
        partition.chunk.valid(),
        scoped(tree, Set::empty()),
        inside(tree, partition.depth),
        ({
            let env = Values { ivars: Seq::empty(), symbols };
            &&& walk(tree, env, setting).stop is Ok
            &&& forall|tid: u32|
                tid < partition.threads ==> (#[trigger] walk(
                    tree,
                    env,
                    of_thread(setting, partition, tid),
                )).stop is Ok
        }),
    ensures
        ({
            let env = Values { ivars: Seq::empty(), symbols };
            &&& forall|tid: u32|
                tid < partition.threads ==> is_subsequence(
                    (#[trigger] walk(tree, env, of_thread(setting, partition, tid))).emitted,
                    walk(tree, env, setting).emitted,
                )
            &&& together(partition.threads as nat, shares(tree, env, setting, partition)) == walk(
                tree,
                env,
                setting,
            ).emitted.to_multiset()
        }),
{
    let env = Values { ivars: Seq::empty(), symbols };
    lemma_inside_covered(tree, Set::empty(), partition.depth);
    law_threads_share_the_accesses(tree, env, setting, partition, Set::empty());
    assert forall|tid: u32| tid < partition.threads implies is_subsequence(
        (#[trigger] walk(tree, env, of_thread(setting, partition, tid))).emitted,
        walk(tree, env, setting).emitted,
    ) by {
        law_threads_walk_in_program_order(tree, env, setting, partition, Set::empty(), tid);
        lemma_own_is_subsequence(labeled(tree, env, setting, partition), tid);
    }
}

proof fn lemma_nothing(tid: u32)
    ensures
        holds_walks(Seq::empty(), Seq::empty(), tid, Seq::empty()),
{
    let none = Seq::<Event>::empty();
    assert(own(none, tid) =~= Seq::empty());
    assert(accesses_of(none) =~= Seq::empty());
}

/// A thread's walk over the parallel loop may as well start at the first
/// iteration.
proof fn lemma_starts_at_own(
    body: Tree,
    lower: int,
    step: int,
    trip: int,
    chunk: int,
    env: Values,
    setting: Setting,
    partition: Partition,
    tid: u32,
)
    requires
        tid < partition.threads,
        chunk > 0,
    ensures
        ({
            let mine = of_thread(setting, partition, tid);
            let threads = partition.threads as int;
            let ivar = partition.depth as int;
            walk_owned(
                body,
                ivar,
                lower,
                step,
                trip,
                chunk,
                threads,
                tid as int,
                tid * chunk,
                env,
                mine,
            ) == walk_owned(
                body,
                ivar,
                lower,
                step,
                trip,
                chunk,
                threads,
                tid as int,
                0,
                env,
                mine,
            )
        }),
{
    let threads = partition.threads as int;
    assert(0 <= tid * chunk) by (nonlinear_arith)
        requires
            tid >= 0,
            chunk > 0,
    ;
    assert forall|other: int| 0 <= other < tid * chunk implies #[trigger] owner(
        other,
        chunk,
        threads,
    ) != tid by {
        vstd::arithmetic::div_mod::lemma_fundamental_div_mod(other, chunk);
        let (q, m) = (other / chunk, other % chunk);
        assert(0 <= q < tid) by (nonlinear_arith)
            requires
                other == chunk * q + m,
                0 <= m < chunk,
                0 <= other < tid * chunk,
        ;
        vstd::arithmetic::div_mod::lemma_small_mod(q as nat, threads as nat);
    }
    lemma_skip_foreign(
        body,
        partition.depth as int,
        lower,
        step,
        trip,
        chunk,
        threads,
        tid as int,
        0,
        tid * chunk,
        env,
        of_thread(setting, partition, tid),
    );
}

proof fn lemma_owned_holds(
    body: Tree,
    lower: int,
    upper: int,
    step: int,
    chunk: int,
    from: int,
    env: Values,
    setting: Setting,
    partition: Partition,
    bound: Set<int>,
    tid: u32,
)
    requires
        setting.partition is None,
        agree(env, env, bound),
        !bound.contains(partition.depth as int),
        scoped(body, bound.insert(partition.depth as int)),
        free_of(body, partition.depth),
        tid < partition.threads,
        chunk > 0,
        step > 0,
        0 <= from <= trip_count(lower, upper, step),
        walk_for(
            body,
            partition.depth as int,
            lower + from * step,
            upper,
            step,
            env,
            setting,
        ).stop is Ok,
        walk_owned(
            body,
            partition.depth as int,
            lower,
            step,
            trip_count(lower, upper, step),
            chunk,
            partition.threads as int,
            tid as int,
            from,
            env,
            of_thread(setting, partition, tid),
        ).stop is Ok,
    ensures
        holds_walks(
            labeled_owned(
                body,
                lower,
                step,
                trip_count(lower, upper, step),
                chunk,
                from,
                env,
                setting,
                partition,
            ),
            walk_for(
                body,
                partition.depth as int,
                lower + from * step,
                upper,
                step,
                env,
                setting,
            ).emitted,
            tid,
            walk_owned(
                body,
                partition.depth as int,
                lower,
                step,
                trip_count(lower, upper, step),
                chunk,
                partition.threads as int,
                tid as int,
                from,
                env,
                of_thread(setting, partition, tid),
            ).emitted,
        ),
    decreases trip_count(lower, upper, step) - from,
{
    let trip = trip_count(lower, upper, step);
    let ivar = partition.depth as int;
    let threads = partition.threads as int;
    let mine = of_thread(setting, partition, tid);
    lemma_trip_count(lower, upper, step, from);
    if from == trip {
        lemma_nothing(tid);
    } else {
        let next = from + 1;
        let inner = env.with_ivar(ivar, (lower + from * step) as i64);
        let first = walk(body, inner, setting).emitted;
        let who = owner(from, chunk, threads) as u32;
        law_every_iteration_has_one_owner(from, chunk, threads);
        assert(lower + next * step == lower + from * step + step) by (nonlinear_arith)
            requires
                next == from + 1,
        ;
        lemma_for_unrolls(body, ivar, lower + from * step, upper, step, env, setting, bound);
        lemma_owned_unrolls(
            body,
            ivar,
            lower,
            step,
            trip,
            chunk,
            threads,
            tid as int,
            from,
            env,
            mine,
            bound,
        );
        lemma_free_walk(body, inner, setting, Partition { tid, ..partition });
        lemma_own_by_thread(who, first, tid);
        assert(accesses_of(Seq::<Event>::empty()) =~= Seq::empty());
        lemma_owned_holds(
            body,
            lower,
            upper,
            step,
            chunk,
            next,
            env,
            setting,
            partition,
            bound,
            tid,
        );
        lemma_holds_both(
            by_thread(who, first),
            labeled_owned(body, lower, step, trip, chunk, next, env, setting, partition),
            tid,
            first,
            walk_for(body, ivar, lower + next * step, upper, step, env, setting).emitted,
            if who == tid {
                first
            } else {
                Seq::empty()
            },
            walk_owned(
                body,
                ivar,
                lower,
                step,
                trip,
                chunk,
                threads,
                tid as int,
                next,
                env,
                mine,
            ).emitted,
        );
    }
}

proof fn lemma_block_holds(
    stmts: Vec<Tree>,
    at: nat,
    env: Values,
    setting: Setting,
    partition: Partition,
    bound: Set<int>,
    tid: u32,
)
    requires
        setting.partition is None,
        tid < partition.threads,
        partition.chunk.valid(),
        agree(env, env, bound),
        !bound.contains(partition.depth as int),
        scoped_from(stmts, at, bound),
        covered_from(stmts, at, partition.depth),
        walk_block(stmts, at as int, env, setting).stop is Ok,
        walk_block(stmts, at as int, env, of_thread(setting, partition, tid)).stop is Ok,
    ensures
        holds_walks(
            labeled_block(stmts, at, env, setting, partition),
            walk_block(stmts, at as int, env, setting).emitted,
            tid,
            walk_block(stmts, at as int, env, of_thread(setting, partition, tid)).emitted,
        ),
    decreases stmts, 1int, stmts@.len() - at,
{
    let mine = of_thread(setting, partition, tid);
    if at >= stmts@.len() {
        lemma_nothing(tid);
    } else {
        let stmt = stmts[at as int];
        lemma_block_unrolls(stmts, at, env, setting, bound);
        lemma_block_unrolls(stmts, at, env, mine, bound);
        law_threads_walk_in_program_order(stmt, env, setting, partition, bound, tid);
        lemma_block_holds(stmts, at + 1, env, setting, partition, bound, tid);
        lemma_holds_both(
            labeled(stmt, env, setting, partition),
            labeled_block(stmts, at + 1, env, setting, partition),
            tid,
            walk(stmt, env, setting).emitted,
            walk_block(stmts, (at + 1) as int, env, setting).emitted,
            walk(stmt, env, mine).emitted,
            walk_block(stmts, (at + 1) as int, env, mine).emitted,
        );
    }
}

proof fn lemma_for_holds(
    body: Tree,
    ivar: int,
    current: int,
    upper: int,
    step: int,
    env: Values,
    setting: Setting,
    partition: Partition,
    bound: Set<int>,
    tid: u32,
)
    requires
        setting.partition is None,
        tid < partition.threads,
        partition.chunk.valid(),
        agree(env, env, bound),
        ivar >= 0,
        ivar != partition.depth,
        !bound.contains(ivar),
        !bound.contains(partition.depth as int),
        scoped(body, bound.insert(ivar)),
        covered(body, partition.depth),
        walk_for(body, ivar, current, upper, step, env, setting).stop is Ok,
        walk_for(
            body,
            ivar,
            current,
            upper,
            step,
            env,
            of_thread(setting, partition, tid),
        ).stop is Ok,
    ensures
        holds_walks(
            labeled_for(body, ivar, current, upper, step, env, setting, partition),
            walk_for(body, ivar, current, upper, step, env, setting).emitted,
            tid,
            walk_for(
                body,
                ivar,
                current,
                upper,
                step,
                env,
                of_thread(setting, partition, tid),
            ).emitted,
        ),
    decreases
            body,
            1int,
            if current < upper {
                upper - current
            } else {
                0
            },
{
    let mine = of_thread(setting, partition, tid);
    if current >= upper || step <= 0 {
        lemma_nothing(tid);
    } else {
        let inner = env.with_ivar(ivar, current as i64);
        let next = current + step;
        lemma_for_unrolls(body, ivar, current, upper, step, env, setting, bound);
        lemma_for_unrolls(body, ivar, current, upper, step, env, mine, bound);
        let wide = bound.insert(ivar);
        assert forall|i: int| #[trigger] wide.contains(i) implies 0 <= i < inner.ivars.len() by {
            if i != ivar {
                assert(bound.contains(i));
            }
        }
        law_threads_walk_in_program_order(body, inner, setting, partition, wide, tid);
        lemma_for_holds(body, ivar, next, upper, step, env, setting, partition, bound, tid);
        lemma_holds_both(
            labeled(body, inner, setting, partition),
            labeled_for(body, ivar, next, upper, step, env, setting, partition),
            tid,
            walk(body, inner, setting).emitted,
            walk_for(body, ivar, next, upper, step, env, setting).emitted,
            walk(body, inner, mine).emitted,
            walk_for(body, ivar, next, upper, step, env, mine).emitted,
        );
    }
}

} // verus!
