//! Reuse as a relation between timestamps.
//!
//! An access is related to every access from just behind its most recent
//! predecessor on the same datum up to itself, so that counting what it is
//! related to gives its reuse interval. Restricted to one thread, the same
//! construction gives the private reuse interval.
//!
//! A [`Relation`] says how a relation is put together; a polyhedral library
//! carries that out on timestamps. What it means is said here on the accesses
//! of a trace, in their order.

use crate::address::DataId;
use crate::history::{interval, last_use, lemma_last_use, own, Event};
use vstd::prelude::*;

verus! {

/// How a relation between accesses is put together.
#[derive(Debug)]
pub enum Relation {
    /// Pairs of accesses to one datum.
    SameDatum,
    /// Pairs whose first access is later than the second.
    Later,
    /// Pairs whose first access is not earlier than the second.
    NotEarlier,
    /// The pairs of a relation whose accesses come from one thread.
    SameThread(Box<Relation>),
    /// The pairs of a relation, turned round.
    Reverse(Box<Relation>),
    /// The pairs of both relations.
    Intersect(Box<Relation>, Box<Relation>),
    /// The pairs of the first relation that are not pairs of the second.
    Subtract(Box<Relation>, Box<Relation>),
    /// Of the pairs with one first access, the one with the latest second.
    Latest(Box<Relation>),
    /// The pairs linked by a pair of the first and a pair of the second
    /// relation.
    Chain(Box<Relation>, Box<Relation>),
    /// The pairs of the first relation whose first access has a pair in the
    /// second.
    Within(Box<Relation>, Box<Relation>),
    /// The pairs of the first relation whose first access has no pair in the
    /// second.
    Without(Box<Relation>, Box<Relation>),
}

impl Relation {
    /// The pairs of positions of a trace whose accesses are related.
    pub open spec fn pairs(self, trace: Seq<Event>) -> Set<(int, int)>
        decreases self,
    {
        match self {
            Relation::SameDatum => every_pair(trace).filter(
                |pair: (int, int)| trace[pair.0].1.data == trace[pair.1].1.data,
            ),
            Relation::Later => every_pair(trace).filter(|pair: (int, int)| pair.0 > pair.1),
            Relation::NotEarlier => every_pair(trace).filter(|pair: (int, int)| pair.0 >= pair.1),
            Relation::SameThread(inner) => inner.pairs(trace).filter(
                |pair: (int, int)| trace[pair.0].0 == trace[pair.1].0,
            ),
            Relation::Reverse(inner) => reversed(inner.pairs(trace)),
            Relation::Intersect(left, right) => left.pairs(trace).intersect(right.pairs(trace)),
            Relation::Subtract(left, right) => left.pairs(trace).difference(right.pairs(trace)),
            Relation::Latest(inner) => latest(inner.pairs(trace)),
            Relation::Chain(left, right) => chained(left.pairs(trace), right.pairs(trace)),
            Relation::Within(left, right) => left.pairs(trace).filter(
                |pair: (int, int)| has_pair(right.pairs(trace), pair.0),
            ),
            Relation::Without(left, right) => left.pairs(trace).filter(
                |pair: (int, int)| !has_pair(right.pairs(trace), pair.0),
            ),
        }
    }

    /// The accesses at two positions of a trace are related.
    pub open spec fn holds(self, trace: Seq<Event>, a: int, b: int) -> bool {
        self.pairs(trace).contains((a, b))
    }

    /// An equal relation.
    pub fn copy(&self) -> (copy: Relation)
        ensures
            copy == *self,
        decreases *self,
    {
        match self {
            Relation::SameDatum => Relation::SameDatum,
            Relation::Later => Relation::Later,
            Relation::NotEarlier => Relation::NotEarlier,
            Relation::SameThread(inner) => Relation::SameThread(Box::new(inner.copy())),
            Relation::Reverse(inner) => Relation::Reverse(Box::new(inner.copy())),
            Relation::Latest(inner) => Relation::Latest(Box::new(inner.copy())),
            Relation::Intersect(left, right) => Relation::Intersect(
                Box::new(left.copy()),
                Box::new(right.copy()),
            ),
            Relation::Subtract(left, right) => Relation::Subtract(
                Box::new(left.copy()),
                Box::new(right.copy()),
            ),
            Relation::Chain(left, right) => Relation::Chain(
                Box::new(left.copy()),
                Box::new(right.copy()),
            ),
            Relation::Within(left, right) => Relation::Within(
                Box::new(left.copy()),
                Box::new(right.copy()),
            ),
            Relation::Without(left, right) => Relation::Without(
                Box::new(left.copy()),
                Box::new(right.copy()),
            ),
        }
    }
}

/// Every pair of positions of a trace.
pub open spec fn every_pair(trace: Seq<Event>) -> Set<(int, int)> {
    Set::new(|pair: (int, int)| 0 <= pair.0 < trace.len() && 0 <= pair.1 < trace.len())
}

/// Pairs, turned round.
pub open spec fn reversed(pairs: Set<(int, int)>) -> Set<(int, int)> {
    Set::new(|pair: (int, int)| pairs.contains((pair.1, pair.0)))
}

/// Of the pairs with one first element, the one with the largest second.
pub open spec fn latest(pairs: Set<(int, int)>) -> Set<(int, int)> {
    pairs.filter(
        |pair: (int, int)|
            forall|c: int| #[trigger] pairs.contains((pair.0, c)) ==> c <= pair.1,
    )
}

/// The pairs linked by a pair of each.
pub open spec fn chained(left: Set<(int, int)>, right: Set<(int, int)>) -> Set<(int, int)> {
    Set::new(
        |pair: (int, int)|
            exists|c: int| #[trigger]
                left.contains((pair.0, c)) && right.contains((c, pair.1)),
    )
}

/// Some pair has the given first element.
pub open spec fn has_pair(pairs: Set<(int, int)>, first: int) -> bool {
    exists|second: int| #[trigger] pairs.contains((first, second))
}

/// The reuse relation over given order relations.
pub open spec fn reuse_over(later: Relation, not_earlier: Relation) -> Relation {
    let predecessor = Relation::Latest(
        Box::new(Relation::Intersect(Box::new(Relation::SameDatum), Box::new(later))),
    );
    Relation::Intersect(
        Box::new(
            Relation::Chain(Box::new(predecessor), Box::new(Relation::Reverse(Box::new(later)))),
        ),
        Box::new(not_earlier),
    )
}

/// The reuse relation over given order relations.
pub fn reuse_relation(later: Relation, not_earlier: Relation) -> (relation: Relation)
    ensures
        relation == reuse_over(later, not_earlier),
{
    let earlier = Relation::Reverse(Box::new(later.copy()));
    let predecessor = Relation::Latest(
        Box::new(Relation::Intersect(Box::new(Relation::SameDatum), Box::new(later))),
    );
    Relation::Intersect(
        Box::new(Relation::Chain(Box::new(predecessor), Box::new(earlier))),
        Box::new(not_earlier),
    )
}

/// Reuse in the order of the trace.
pub open spec fn sequential() -> Relation {
    reuse_over(Relation::Later, Relation::NotEarlier)
}

/// Reuse in the order of each thread by itself.
pub open spec fn private() -> Relation {
    reuse_over(
        Relation::SameThread(Box::new(Relation::Later)),
        Relation::SameThread(Box::new(Relation::NotEarlier)),
    )
}

/// Pairs of accesses to one datum by different threads.
pub open spec fn across_threads() -> Relation {
    Relation::Subtract(
        Box::new(Relation::SameDatum),
        Box::new(Relation::SameThread(Box::new(Relation::SameDatum))),
    )
}

/// The pairs of a relation whose accesses come from one thread.
pub fn same_thread(relation: Relation) -> (restricted: Relation)
    ensures
        restricted == Relation::SameThread(Box::new(relation)),
{
    Relation::SameThread(Box::new(relation))
}

/// Reuse in the order of the trace.
pub fn sequential_reuse() -> (relation: Relation)
    ensures
        relation == sequential(),
{
    reuse_relation(Relation::Later, Relation::NotEarlier)
}

/// Reuse in the order of each thread by itself.
pub fn private_reuse() -> (relation: Relation)
    ensures
        relation == private(),
{
    reuse_relation(same_thread(Relation::Later), same_thread(Relation::NotEarlier))
}

/// Pairs of accesses to one datum by different threads.
pub fn cross_thread() -> (relation: Relation)
    ensures
        relation == across_threads(),
{
    Relation::Subtract(
        Box::new(Relation::SameDatum),
        Box::new(same_thread(Relation::SameDatum)),
    )
}

/// Reuse of data that several threads touch, in the order of the trace.
pub open spec fn shared() -> Relation {
    Relation::Within(Box::new(sequential()), Box::new(across_threads()))
}

/// Reuse of data that only one thread touches, in the order of that thread.
pub open spec fn unshared() -> Relation {
    Relation::Without(Box::new(private()), Box::new(across_threads()))
}

/// The accesses to data that several threads touch, and all accesses to the
/// same data.
pub open spec fn sharing() -> Relation {
    Relation::Within(Box::new(Relation::SameDatum), Box::new(across_threads()))
}

/// Reuse of data that several threads touch: the interval that interception
/// splits is the one in the order of the trace.
pub fn shared_reuse() -> (relation: Relation)
    ensures
        relation == shared(),
{
    Relation::Within(Box::new(sequential_reuse()), Box::new(cross_thread()))
}

/// Reuse of data that only one thread touches: the interval that the other
/// threads stretch is the one in the order of that thread.
pub fn unshared_reuse() -> (relation: Relation)
    ensures
        relation == unshared(),
{
    Relation::Without(Box::new(private_reuse()), Box::new(cross_thread()))
}

/// The relation whose number of threads, for an access, is the number of
/// sharers of its datum.
pub fn sharers() -> (relation: Relation)
    ensures
        relation == sharing(),
{
    Relation::Within(Box::new(Relation::SameDatum), Box::new(cross_thread()))
}

/// What an access is related to.
pub open spec fn related(relation: Relation, trace: Seq<Event>, a: int) -> Set<int> {
    Set::new(|b: int| relation.holds(trace, a, b))
}

/// Two accesses are related across threads exactly when they touch one datum
/// from different threads.
pub proof fn law_across_threads(trace: Seq<Event>, a: int, b: int)
    requires
        0 <= a < trace.len(),
        0 <= b < trace.len(),
    ensures
        across_threads().holds(trace, a, b) <==> trace[a].1.data == trace[b].1.data && trace[a].0
            != trace[b].0,
{
    reveal_with_fuel(Relation::pairs, 4);
}

/// The latest of the accesses that precede position `a` and satisfy a
/// condition; the chain from it to the accesses behind it and up to `a`.
proof fn lemma_window(
    later: Relation,
    not_earlier: Relation,
    trace: Seq<Event>,
    a: int,
    pred: int,
    b: int,
)
    requires
        0 <= a < trace.len(),
        forall|x: int, y: int| #[trigger]
            later.holds(trace, x, y) ==> every_pair(trace).contains((x, y)),
        later.holds(trace, a, pred),
        trace[a].1.data == trace[pred].1.data,
        forall|c: int| #[trigger]
            later.holds(trace, a, c) && trace[a].1.data == trace[c].1.data ==> c <= pred,
    ensures
        reuse_over(later, not_earlier).holds(trace, a, b) <==> later.holds(trace, b, pred)
            && not_earlier.holds(trace, a, b),
{
    let both = Relation::Intersect(Box::new(Relation::SameDatum), Box::new(later));
    let predecessor = Relation::Latest(Box::new(both));
    let reverse = Relation::Reverse(Box::new(later));
    let chain = Relation::Chain(Box::new(predecessor), Box::new(reverse));
    assert(predecessor.pairs(trace) == latest(both.pairs(trace)));
    assert(chain.pairs(trace) == chained(predecessor.pairs(trace), reverse.pairs(trace)));
    assert(reverse.pairs(trace) == reversed(later.pairs(trace)));
    assert forall|c: int| #[trigger] both.pairs(trace).contains((a, c)) <==> later.holds(
        trace,
        a,
        c,
    ) && trace[a].1.data == trace[c].1.data by {
        assert(both.pairs(trace) == Relation::SameDatum.pairs(trace).intersect(later.pairs(trace)));
        if later.holds(trace, a, c) {
            assert(every_pair(trace).contains((a, c)));
        }
    }
    assert forall|c: int| #[trigger] predecessor.pairs(trace).contains((a, c)) <==> c == pred by {
        assert(both.pairs(trace).contains((a, pred)));
        if c != pred && predecessor.pairs(trace).contains((a, c)) {
            assert(both.pairs(trace).contains((a, c)));
            assert(later.holds(trace, a, c));
        }
        if c == pred {
            assert forall|d: int| #[trigger] both.pairs(trace).contains((a, d)) implies d
                <= pred by {
                assert(later.holds(trace, a, d));
            }
        }
    }
    if later.holds(trace, b, pred) {
        assert(reverse.pairs(trace).contains((pred, b)));
        let (left, right) = (predecessor.pairs(trace), reverse.pairs(trace));
        let pair = (a, b);
        assert(left.contains((pair.0, pred)) && right.contains((pred, pair.1)));
        assert(chained(left, right).contains(pair));
    }
    if chain.pairs(trace).contains((a, b)) {
        let c = choose|c: int| #[trigger]
            predecessor.pairs(trace).contains((a, c)) && reverse.pairs(trace).contains((c, b));
        assert(c == pred);
    }
}

/// Without a predecessor an access is related to nothing.
proof fn lemma_no_window(
    later: Relation,
    not_earlier: Relation,
    trace: Seq<Event>,
    a: int,
    b: int,
)
    requires
        0 <= a < trace.len(),
        forall|c: int|
            0 <= c < trace.len() && trace[a].1.data == trace[c].1.data ==> !#[trigger] later.holds(
                trace,
                a,
                c,
            ),
    ensures
        !reuse_over(later, not_earlier).holds(trace, a, b),
{
    let both = Relation::Intersect(Box::new(Relation::SameDatum), Box::new(later));
    let predecessor = Relation::Latest(Box::new(both));
    let reverse = Relation::Reverse(Box::new(later));
    let chain = Relation::Chain(Box::new(predecessor), Box::new(reverse));
    assert(predecessor.pairs(trace) == latest(both.pairs(trace)));
    assert(chain.pairs(trace) == chained(predecessor.pairs(trace), reverse.pairs(trace)));
    assert forall|c: int| !#[trigger] predecessor.pairs(trace).contains((a, c)) by {
        if predecessor.pairs(trace).contains((a, c)) {
            assert(both.pairs(trace) == Relation::SameDatum.pairs(trace).intersect(
                later.pairs(trace),
            ));
            assert(both.pairs(trace).contains((a, c)));
            assert(later.holds(trace, a, c));
        }
    }
    assert(!chain.pairs(trace).contains((a, b)));
}

/// The number of accesses that the sequential reuse relation pairs an access
/// with is the interval since its datum was last touched; an access without an
/// earlier one to its datum is paired with none.
pub proof fn law_sequential_reuse_counts_the_interval(trace: Seq<Event>, a: int)
    requires
        0 <= a < trace.len(),
    ensures
        related(sequential(), trace, a).finite(),
        related(sequential(), trace, a).len() == match interval(
            trace.take(a),
            trace[a].1.data,
        ) {
            Some(value) => value,
            None => 0,
        },
{
    let before = trace.take(a);
    let data = trace[a].1.data;
    let last = last_use(before, data);
    lemma_last_use(before, data);
    assert forall|i: int| last < i < a implies (#[trigger] trace[i]).1.data != data by {
        assert(before[i] == trace[i]);
    }
    if last >= 0 {
        assert(before[last] == trace[last]);
        assert forall|b: int| related(sequential(), trace, a).contains(b) <==> last + 1 <= b < a
            + 1 by {
            lemma_window(Relation::Later, Relation::NotEarlier, trace, a, last, b);
        }
        vstd::set_lib::lemma_int_range(last + 1, a + 1);
        assert(related(sequential(), trace, a) =~= vstd::set_lib::set_int_range(last + 1, a + 1));
    } else {
        assert forall|b: int| !related(sequential(), trace, a).contains(b) by {
            lemma_no_window(Relation::Later, Relation::NotEarlier, trace, a, b);
        }
        assert(related(sequential(), trace, a) =~= Set::empty());
    }
}

/// The position of a thread's most recent access to a datum, or -1.
spec fn last_own_use(trace: Seq<Event>, tid: u32, data: DataId) -> int
    decreases trace.len(),
{
    if trace.len() == 0 {
        -1
    } else if trace.last().0 == tid && trace.last().1.data == data {
        trace.len() - 1
    } else {
        last_own_use(trace.drop_last(), tid, data)
    }
}

proof fn lemma_last_own_use(trace: Seq<Event>, tid: u32, data: DataId)
    ensures
        ({
            let last = last_own_use(trace, tid, data);
            &&& -1 <= last < trace.len()
            &&& last >= 0 ==> trace[last].0 == tid && trace[last].1.data == data
            &&& forall|i: int|
                last < i < trace.len() && (#[trigger] trace[i]).0 == tid ==> trace[i].1.data
                    != data
            &&& last_use(own(trace, tid), data) == if last < 0 {
                -1
            } else {
                own(trace.take(last), tid).len() as int
            }
        }),
    decreases trace.len(),
{
    if trace.len() > 0 {
        let rest = trace.drop_last();
        lemma_last_own_use(rest, tid, data);
        let last = last_own_use(trace, tid, data);
        assert(own(rest, tid).push(trace.last()).drop_last() =~= own(rest, tid));
        if last == trace.len() - 1 {
            assert(trace.take(last) =~= rest);
        } else {
            if last >= 0 {
                assert(trace.take(last) =~= rest.take(last));
            }
            assert forall|i: int|
                last < i < trace.len() && (#[trigger] trace[i]).0 == tid implies trace[i].1.data
                != data by {
                if i < trace.len() - 1 {
                    assert(rest[i] == trace[i]);
                }
            }
        }
    }
}

/// The accesses of a thread between two positions are counted by its stream.
proof fn lemma_own_between(trace: Seq<Event>, tid: u32, from: int, to: int)
    requires
        0 <= from <= to <= trace.len(),
    ensures
        ({
            let set = Set::new(|b: int| from <= b < to && trace[b].0 == tid);
            &&& set.finite()
            &&& set.len() == own(trace.take(to), tid).len() - own(trace.take(from), tid).len()
        }),
    decreases to - from,
{
    let set = Set::new(|b: int| from <= b < to && trace[b].0 == tid);
    if from == to {
        assert(set =~= Set::empty());
    } else {
        lemma_own_between(trace, tid, from, to - 1);
        let fewer = Set::new(|b: int| from <= b < to - 1 && trace[b].0 == tid);
        assert(trace.take(to).drop_last() =~= trace.take(to - 1));
        assert(trace.take(to).last() == trace[to - 1]);
        if trace[to - 1].0 == tid {
            assert(set =~= fewer.insert(to - 1));
        } else {
            assert(set =~= fewer);
        }
    }
}

/// The number of accesses that the private reuse relation pairs an access with
/// is the interval, in its own thread's stream, since that thread last touched
/// the datum.
pub proof fn law_private_reuse_counts_the_private_interval(trace: Seq<Event>, a: int)
    requires
        0 <= a < trace.len(),
    ensures
        related(private(), trace, a).finite(),
        related(private(), trace, a).len() == match interval(
            own(trace.take(a), trace[a].0),
            trace[a].1.data,
        ) {
            Some(value) => value,
            None => 0,
        },
{
    let before = trace.take(a);
    let (tid, data) = (trace[a].0, trace[a].1.data);
    let last = last_own_use(before, tid, data);
    let later = Relation::SameThread(Box::new(Relation::Later));
    let not_earlier = Relation::SameThread(Box::new(Relation::NotEarlier));
    lemma_last_own_use(before, tid, data);
    assert forall|i: int| last < i < a && (#[trigger] trace[i]).0 == tid implies trace[i].1.data
        != data by {
        assert(before[i] == trace[i]);
    }
    assert forall|x: int, y: int| #[trigger] later.holds(trace, x, y) <==> 0 <= y < x < trace.len()
        && trace[x].0 == trace[y].0 by {
        reveal_with_fuel(Relation::pairs, 2);
    }
    assert forall|x: int, y: int| #[trigger] not_earlier.holds(trace, x, y) <==> 0 <= y <= x
        < trace.len() && trace[x].0 == trace[y].0 by {
        reveal_with_fuel(Relation::pairs, 2);
    }
    if last >= 0 {
        assert(before[last] == trace[last]);
        assert(trace.take(last) =~= before.take(last));
        let set = Set::new(|b: int| last + 1 <= b < a + 1 && trace[b].0 == tid);
        assert forall|b: int| related(private(), trace, a).contains(b) <==> set.contains(b) by {
            lemma_window(later, not_earlier, trace, a, last, b);
        }
        assert(related(private(), trace, a) =~= set);
        lemma_own_between(trace, tid, last + 1, a + 1);
        assert(trace.take(last + 1).drop_last() =~= trace.take(last));
        assert(trace.take(a + 1).drop_last() =~= before);
    } else {
        assert forall|b: int| !related(private(), trace, a).contains(b) by {
            lemma_no_window(later, not_earlier, trace, a, b);
        }
        assert(related(private(), trace, a) =~= Set::empty());
    }
}

/// Several threads touch the datum of an access.
pub open spec fn is_shared(trace: Seq<Event>, a: int) -> bool {
    exists|b: int|
        0 <= b < trace.len() && trace[a].1.data == (#[trigger] trace[b]).1.data && trace[a].0
            != trace[b].0
}

proof fn lemma_across_threads(trace: Seq<Event>, a: int)
    requires
        0 <= a < trace.len(),
    ensures
        has_pair(across_threads().pairs(trace), a) <==> is_shared(trace, a),
{
    let pairs = across_threads().pairs(trace);
    if has_pair(pairs, a) {
        let b = choose|b: int| #[trigger] pairs.contains((a, b));
        assert(pairs == Relation::SameDatum.pairs(trace).difference(
            Relation::SameThread(Box::new(Relation::SameDatum)).pairs(trace),
        ));
        assert(every_pair(trace).contains((a, b)));
        law_across_threads(trace, a, b);
        assert(across_threads().holds(trace, a, b));
        assert(trace[b].1.data == trace[a].1.data);
    }
    if is_shared(trace, a) {
        let b = choose|b: int|
            0 <= b < trace.len() && trace[a].1.data == (#[trigger] trace[b]).1.data && trace[a].0
                != trace[b].0;
        law_across_threads(trace, a, b);
        assert(across_threads().holds(trace, a, b));
        assert(pairs.contains((a, b)));
    }
}

/// Every reuse is counted once: a reuse of shared data by the interval in the
/// order of the trace, any other reuse by the interval in the order of its
/// thread.
pub proof fn law_reuse_is_shared_or_private(trace: Seq<Event>, a: int)
    requires
        0 <= a < trace.len(),
    ensures
        related(shared(), trace, a) == if is_shared(trace, a) {
            related(sequential(), trace, a)
        } else {
            Set::empty()
        },
        related(unshared(), trace, a) == if is_shared(trace, a) {
            Set::empty()
        } else {
            related(private(), trace, a)
        },
{
    lemma_across_threads(trace, a);
    let across = across_threads().pairs(trace);
    let (all, own) = (sequential().pairs(trace), private().pairs(trace));
    assert(shared().pairs(trace) == all.filter(|pair: (int, int)| has_pair(across, pair.0)));
    assert(unshared().pairs(trace) == own.filter(|pair: (int, int)| !has_pair(across, pair.0)));
    assert forall|b: int| #[trigger] shared().holds(trace, a, b) <==> is_shared(trace, a)
        && sequential().holds(trace, a, b) by {
    }
    assert forall|b: int| #[trigger] unshared().holds(trace, a, b) <==> !is_shared(trace, a)
        && private().holds(trace, a, b) by {
    }
    if is_shared(trace, a) {
        assert(related(shared(), trace, a) =~= related(sequential(), trace, a));
        assert(related(unshared(), trace, a) =~= Set::empty());
    } else {
        assert(related(shared(), trace, a) =~= Set::empty());
        assert(related(unshared(), trace, a) =~= related(private(), trace, a));
    }
}

/// The threads of the accesses that an access is related to.
pub open spec fn threads_of(relation: Relation, trace: Seq<Event>, a: int) -> Set<u32> {
    Set::new(|tid: u32| exists|b: int| #[trigger] relation.holds(trace, a, b) && trace[b].0 == tid)
}

/// The threads of an access to shared data are all those that touch the datum,
/// and at least two; an access to other data has none.
pub proof fn law_shared_data_have_several_sharers(trace: Seq<Event>, a: int)
    requires
        0 <= a < trace.len(),
    ensures
        forall|tid: u32| #[trigger]
            threads_of(sharing(), trace, a).contains(tid) <==> is_shared(trace, a) && exists|b: int|

                0 <= b < trace.len() && (#[trigger] trace[b]).1.data == trace[a].1.data
                    && trace[b].0 == tid,
        is_shared(trace, a) ==> exists|tid: u32| #[trigger]
            threads_of(sharing(), trace, a).contains(tid) && tid != trace[a].0,
        is_shared(trace, a) ==> threads_of(sharing(), trace, a).contains(trace[a].0),
{
    lemma_across_threads(trace, a);
    let across = across_threads().pairs(trace);
    let same = Relation::SameDatum.pairs(trace);
    assert(sharing().pairs(trace) == same.filter(|pair: (int, int)| has_pair(across, pair.0)));
    assert forall|b: int| #[trigger] sharing().holds(trace, a, b) <==> is_shared(trace, a) && 0 <= b
        < trace.len() && trace[a].1.data == trace[b].1.data by {
    }
    assert forall|tid: u32| #[trigger] threads_of(sharing(), trace, a).contains(tid) <==> is_shared(
        trace,
        a,
    ) && exists|b: int|
        0 <= b < trace.len() && (#[trigger] trace[b]).1.data == trace[a].1.data && trace[b].0
            == tid by {
        if is_shared(trace, a) && exists|b: int|
            0 <= b < trace.len() && (#[trigger] trace[b]).1.data == trace[a].1.data && trace[b].0
                == tid {
            let b = choose|b: int|
                0 <= b < trace.len() && (#[trigger] trace[b]).1.data == trace[a].1.data
                    && trace[b].0 == tid;
            assert(sharing().holds(trace, a, b));
        }
        if threads_of(sharing(), trace, a).contains(tid) {
            let b = choose|b: int| #[trigger] sharing().holds(trace, a, b) && trace[b].0 == tid;
            assert(trace[b].1.data == trace[a].1.data);
        }
    }
    if is_shared(trace, a) {
        let b = choose|b: int|
            0 <= b < trace.len() && trace[a].1.data == (#[trigger] trace[b]).1.data && trace[a].0
                != trace[b].0;
        assert(threads_of(sharing(), trace, a).contains(trace[b].0));
        assert(trace[a].1.data == trace[a].1.data);
        assert(threads_of(sharing(), trace, a).contains(trace[a].0));
    }
}

/// A program run again and again.
pub open spec fn repeated(period: Seq<Event>, times: nat) -> Seq<Event>
    decreases times,
{
    if times == 0 {
        Seq::empty()
    } else {
        repeated(period, (times - 1) as nat) + period
    }
}

/// The second run of a program is the steady state: in every later run each
/// access has the reuse interval that it has in the second.
pub proof fn law_second_run_is_the_steady_state(period: Seq<Event>, runs: nat, a: int)
    requires
        runs >= 1,
        0 <= a < period.len(),
    ensures
        interval(repeated(period, runs) + period.take(a), period[a].1.data) == interval(
            period + period.take(a),
            period[a].1.data,
        ),
        interval(period + period.take(a), period[a].1.data) is Some,
{
    let data = period[a].1.data;
    let (earlier, tail) = (repeated(period, (runs - 1) as nat), period + period.take(a));
    let whole = repeated(period, runs) + period.take(a);
    assert(whole =~= earlier + tail);
    let (last, found) = (last_use(tail, data), last_use(whole, data));
    lemma_last_use(tail, data);
    lemma_last_use(whole, data);
    assert(tail[a] == period[a]);
    let shift = earlier.len() as int;
    assert(whole[shift + last] == tail[last]);
    if found > shift + last {
        assert(whole[found] == tail[found - shift]);
    }
}

} // verus!
