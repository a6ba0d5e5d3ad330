//! What the polyhedral model counts is what the sampler measures.
//!
//! The relations of [`crate::reuse_relation`] are said on the accesses of a
//! trace, but carried out on timestamps. Where the timestamps ascend with the
//! trace and stand for its data, both readings are the same.

use crate::address::MAX_ARRAY_DIMS;
use crate::history::{interval, Event};
use crate::meaning::{sound, timestamp_dims};
use crate::order::{
    agrees, as_params, ascending, before, coordinate, first_difference,
    law_sampler_and_model_agree, outermost, plain, program_order, same_setting,
};
use crate::polyhedral::{failure, max_rank_of, plans, Plan, Purpose};
use crate::references::{
    key_of_memref, law_memref_keys_are_distinct, law_numbering_is_dense, Table,
};
use crate::reuse_relation::{
    chained, every_pair, has_pair, latest, law_sequential_reuse_counts_the_interval, related,
    reversed, sequential, Relation,
};
use crate::run::{completes, law_sequential_run_is_the_walk, prepared, RunConfig};
use crate::tree::{Tree, ValID};
use crate::walk::{walk, Emitted, Setting};
use vstd::prelude::*;

verus! {

/// What timestamps stand for.
pub ghost struct Meaning {
    /// The datum that is accessed.
    pub datum: spec_fn(Seq<int>) -> Seq<int>,
    /// The thread that makes the access.
    pub thread: spec_fn(Seq<int>) -> int,
}

/// A pair of timestamps.
pub type Stamps = (Seq<int>, Seq<int>);

/// Every pair of timestamps.
pub open spec fn every_stamps(points: Seq<Seq<int>>) -> Set<Stamps> {
    Set::new(|pair: Stamps| points.contains(pair.0) && points.contains(pair.1))
}

/// Pairs, turned round.
pub open spec fn reversed_stamps(pairs: Set<Stamps>) -> Set<Stamps> {
    Set::new(|pair: Stamps| pairs.contains((pair.1, pair.0)))
}

/// Of the pairs with one first timestamp, the one with the lexicographically
/// largest second.
pub open spec fn latest_stamps(pairs: Set<Stamps>) -> Set<Stamps> {
    pairs.filter(
        |pair: Stamps|
            forall|other: Seq<int>| #[trigger]
                pairs.contains((pair.0, other)) ==> other == pair.1 || before(other, pair.1),
    )
}

/// The pairs linked by a pair of each.
pub open spec fn chained_stamps(left: Set<Stamps>, right: Set<Stamps>) -> Set<Stamps> {
    Set::new(
        |pair: Stamps|
            exists|between: Seq<int>| #[trigger]
                left.contains((pair.0, between)) && right.contains((between, pair.1)),
    )
}

/// Some pair has the given first timestamp.
pub open spec fn has_stamps(pairs: Set<Stamps>, first: Seq<int>) -> bool {
    exists|second: Seq<int>| #[trigger] pairs.contains((first, second))
}

/// The pairs of timestamps that a relation holds of, as a polyhedral library
/// carries it out.
pub open spec fn on_stamps(relation: Relation, points: Seq<Seq<int>>, meaning: Meaning) -> Set<
    Stamps,
>
    decreases relation,
{
    match relation {
        Relation::SameDatum => every_stamps(points).filter(
            |pair: Stamps| (meaning.datum)(pair.0) == (meaning.datum)(pair.1),
        ),
        Relation::Later => every_stamps(points).filter(|pair: Stamps| before(pair.1, pair.0)),
        Relation::NotEarlier => every_stamps(points).filter(
            |pair: Stamps| pair.0 == pair.1 || before(pair.1, pair.0),
        ),
        Relation::SameThread(inner) => on_stamps(*inner, points, meaning).filter(
            |pair: Stamps| (meaning.thread)(pair.0) == (meaning.thread)(pair.1),
        ),
        Relation::Reverse(inner) => reversed_stamps(on_stamps(*inner, points, meaning)),
        Relation::Intersect(left, right) => on_stamps(*left, points, meaning).intersect(
            on_stamps(*right, points, meaning),
        ),
        Relation::Subtract(left, right) => on_stamps(*left, points, meaning).difference(
            on_stamps(*right, points, meaning),
        ),
        Relation::Latest(inner) => latest_stamps(on_stamps(*inner, points, meaning)),
        Relation::Chain(left, right) => chained_stamps(
            on_stamps(*left, points, meaning),
            on_stamps(*right, points, meaning),
        ),
        Relation::Within(left, right) => on_stamps(*left, points, meaning).filter(
            |pair: Stamps| has_stamps(on_stamps(*right, points, meaning), pair.0),
        ),
        Relation::Without(left, right) => on_stamps(*left, points, meaning).filter(
            |pair: Stamps| !has_stamps(on_stamps(*right, points, meaning), pair.0),
        ),
    }
}

/// Timestamps are those of the accesses of a trace, in their order, and stand
/// for their data and threads.
pub open spec fn are_stamps_of(points: Seq<Seq<int>>, meaning: Meaning, trace: Seq<Event>) -> bool {
    &&& points.len() == trace.len()
    &&& ascending(points)
    &&& forall|i: int, j: int|
        #![trigger points[i], points[j]]
        0 <= i < points.len() && 0 <= j < points.len() ==> ((meaning.datum)(points[i]) == (
        meaning.datum)(points[j]) <==> trace[i].1.data == trace[j].1.data) && ((meaning.thread)(
            points[i],
        ) == (meaning.thread)(points[j]) <==> trace[i].0 == trace[j].0)
}

/// Pairs of timestamps are those of pairs of positions.
pub open spec fn same_pairs(stamps: Set<Stamps>, pairs: Set<(int, int)>, points: Seq<Seq<int>>) -> bool {
    &&& forall|a: Seq<int>, b: Seq<int>| #[trigger]
        stamps.contains((a, b)) ==> points.contains(a) && points.contains(b)
    &&& forall|i: int, j: int| #[trigger]
        pairs.contains((i, j)) ==> 0 <= i < points.len() && 0 <= j < points.len()
    &&& forall|i: int, j: int|
        #![trigger pairs.contains((i, j))]
        #![trigger stamps.contains((points[i], points[j]))]
        0 <= i < points.len() && 0 <= j < points.len() ==> (pairs.contains((i, j))
            <==> stamps.contains((points[i], points[j])))
}

/// Lexicographic order of ascending points is the order of their positions.
proof fn lemma_positions(points: Seq<Seq<int>>, i: int, j: int)
    requires
        ascending(points),
        0 <= i < points.len(),
        0 <= j < points.len(),
    ensures
        before(points[i], points[j]) <==> i < j,
        points[i] == points[j] <==> i == j,
{
    if i < j {
        assert(before(points[i], points[j]));
        lemma_irreflexive(points[i], points[j]);
    } else if j < i {
        assert(before(points[j], points[i]));
        lemma_irreflexive(points[j], points[i]);
    } else {
        lemma_irreflexive(points[i], points[j]);
    }
}

proof fn lemma_irreflexive(a: Seq<int>, b: Seq<int>)
    ensures
        before(a, b) ==> a != b && !before(b, a),
        a == b ==> !before(a, b),
{
    if before(a, b) {
        let i = choose|i: int| #[trigger] first_difference(a, b, i) && a[i] < b[i];
        if before(b, a) {
            let j = choose|j: int| #[trigger] first_difference(b, a, j) && b[j] < a[j];
            if i < j {
                assert(b[i] == a[i]);
            } else if j < i {
                assert(a[j] == b[j]);
            }
        }
    }
}

/// A relation holds of the timestamps of two accesses exactly when it holds of
/// the accesses.
pub proof fn law_relations_are_the_same_on_timestamps(
    relation: Relation,
    points: Seq<Seq<int>>,
    meaning: Meaning,
    trace: Seq<Event>,
)
    requires
        are_stamps_of(points, meaning, trace),
    ensures
        same_pairs(on_stamps(relation, points, meaning), relation.pairs(trace), points),
    decreases relation,
{
    let stamps = on_stamps(relation, points, meaning);
    let pairs = relation.pairs(trace);
    match relation {
        Relation::SameDatum | Relation::Later | Relation::NotEarlier => {
            assert forall|i: int, j: int| 0 <= i < points.len() && 0 <= j < points.len() implies (
            #[trigger] pairs.contains((i, j)) <==> stamps.contains((points[i], points[j]))) by {
                lemma_positions(points, i, j);
                lemma_positions(points, j, i);
                assert(every_pair(trace).contains((i, j)));
                assert(points.contains(points[i]) && points.contains(points[j]));
                assert(every_stamps(points).contains((points[i], points[j])));
            }
            assert forall|a: Seq<int>, b: Seq<int>| #[trigger] stamps.contains((a, b)) implies
                points.contains(a) && points.contains(b) by {
                assert(every_stamps(points).contains((a, b)));
            }
        },
        Relation::SameThread(inner) => {
            law_relations_are_the_same_on_timestamps(*inner, points, meaning, trace);
            let (s, p) = (on_stamps(*inner, points, meaning), inner.pairs(trace));
            assert forall|i: int, j: int| 0 <= i < points.len() && 0 <= j < points.len() implies (
            #[trigger] pairs.contains((i, j)) <==> stamps.contains((points[i], points[j]))) by {
                assert(p.contains((i, j)) <==> s.contains((points[i], points[j])));
            }
            assert forall|i: int, j: int| #[trigger] pairs.contains((i, j)) implies 0 <= i
                < points.len() && 0 <= j < points.len() by {
                assert(p.contains((i, j)));
            }
            assert forall|a: Seq<int>, b: Seq<int>| #[trigger] stamps.contains((a, b)) implies
                points.contains(a) && points.contains(b) by {
                assert(s.contains((a, b)));
            }
        },
        Relation::Reverse(inner) => {
            law_relations_are_the_same_on_timestamps(*inner, points, meaning, trace);
            let (s, p) = (on_stamps(*inner, points, meaning), inner.pairs(trace));
            assert(pairs == reversed(p));
            assert forall|i: int, j: int| 0 <= i < points.len() && 0 <= j < points.len() implies (
            #[trigger] pairs.contains((i, j)) <==> stamps.contains((points[i], points[j]))) by {
                assert(p.contains((j, i)) <==> s.contains((points[j], points[i])));
            }
            assert forall|i: int, j: int| #[trigger] pairs.contains((i, j)) implies 0 <= i
                < points.len() && 0 <= j < points.len() by {
                assert(p.contains((j, i)));
            }
            assert forall|a: Seq<int>, b: Seq<int>| #[trigger] stamps.contains((a, b)) implies
                points.contains(a) && points.contains(b) by {
                assert(s.contains((b, a)));
            }
        },
        Relation::Intersect(left, right) => {
            law_relations_are_the_same_on_timestamps(*left, points, meaning, trace);
            law_relations_are_the_same_on_timestamps(*right, points, meaning, trace);
            lemma_both(*left, *right, points, meaning, trace);
        },
        Relation::Subtract(left, right) => {
            law_relations_are_the_same_on_timestamps(*left, points, meaning, trace);
            law_relations_are_the_same_on_timestamps(*right, points, meaning, trace);
            lemma_both(*left, *right, points, meaning, trace);
        },
        Relation::Latest(inner) => {
            law_relations_are_the_same_on_timestamps(*inner, points, meaning, trace);
            lemma_latest(
                on_stamps(*inner, points, meaning),
                inner.pairs(trace),
                points,
            );
        },
        Relation::Chain(left, right) => {
            law_relations_are_the_same_on_timestamps(*left, points, meaning, trace);
            law_relations_are_the_same_on_timestamps(*right, points, meaning, trace);
            lemma_chained(
                on_stamps(*left, points, meaning),
                left.pairs(trace),
                on_stamps(*right, points, meaning),
                right.pairs(trace),
                points,
            );
        },
        Relation::Within(left, right) => {
            law_relations_are_the_same_on_timestamps(*left, points, meaning, trace);
            law_relations_are_the_same_on_timestamps(*right, points, meaning, trace);
            lemma_both(*left, *right, points, meaning, trace);
        },
        Relation::Without(left, right) => {
            law_relations_are_the_same_on_timestamps(*left, points, meaning, trace);
            law_relations_are_the_same_on_timestamps(*right, points, meaning, trace);
            lemma_both(*left, *right, points, meaning, trace);
        },
    }
}

proof fn lemma_has(stamps: Set<Stamps>, pairs: Set<(int, int)>, points: Seq<Seq<int>>, i: int)
    requires
        same_pairs(stamps, pairs, points),
        0 <= i < points.len(),
    ensures
        has_pair(pairs, i) <==> has_stamps(stamps, points[i]),
{
    if has_pair(pairs, i) {
        let j = choose|j: int| #[trigger] pairs.contains((i, j));
        assert(stamps.contains((points[i], points[j])));
    }
    if has_stamps(stamps, points[i]) {
        let b = choose|b: Seq<int>| #[trigger] stamps.contains((points[i], b));
        let j = points.index_of(b);
        assert(pairs.contains((i, j)));
    }
}

/// The relations that are put together pair by pair.
proof fn lemma_both(
    left: Relation,
    right: Relation,
    points: Seq<Seq<int>>,
    meaning: Meaning,
    trace: Seq<Event>,
)
    requires
        same_pairs(on_stamps(left, points, meaning), left.pairs(trace), points),
        same_pairs(on_stamps(right, points, meaning), right.pairs(trace), points),
    ensures
        same_pairs(
            on_stamps(left, points, meaning).intersect(on_stamps(right, points, meaning)),
            left.pairs(trace).intersect(right.pairs(trace)),
            points,
        ),
        same_pairs(
            on_stamps(left, points, meaning).difference(on_stamps(right, points, meaning)),
            left.pairs(trace).difference(right.pairs(trace)),
            points,
        ),
        same_pairs(
            on_stamps(left, points, meaning).filter(
                |pair: Stamps| has_stamps(on_stamps(right, points, meaning), pair.0),
            ),
            left.pairs(trace).filter(|pair: (int, int)| has_pair(right.pairs(trace), pair.0)),
            points,
        ),
        same_pairs(
            on_stamps(left, points, meaning).filter(
                |pair: Stamps| !has_stamps(on_stamps(right, points, meaning), pair.0),
            ),
            left.pairs(trace).filter(|pair: (int, int)| !has_pair(right.pairs(trace), pair.0)),
            points,
        ),
{
    let (ls, lp) = (on_stamps(left, points, meaning), left.pairs(trace));
    let (rs, rp) = (on_stamps(right, points, meaning), right.pairs(trace));
    assert forall|i: int| 0 <= i < points.len() implies (#[trigger] has_pair(rp, i)
        <==> has_stamps(rs, points[i])) by {
        lemma_has(rs, rp, points, i);
    }
    assert(same_pairs(ls.intersect(rs), lp.intersect(rp), points));
    assert(same_pairs(ls.difference(rs), lp.difference(rp), points));
    let inside = |pair: Stamps| has_stamps(rs, pair.0);
    let within = |pair: (int, int)| has_pair(rp, pair.0);
    assert forall|i: int, j: int| 0 <= i < points.len() && 0 <= j < points.len() implies (
    #[trigger] lp.contains((i, j)) <==> ls.contains((points[i], points[j]))) by {
    }
    let (s, p) = (ls.filter(inside), lp.filter(within));
    assert forall|i: int, j: int| 0 <= i < points.len() && 0 <= j < points.len() implies (
    #[trigger] p.contains((i, j)) <==> s.contains((points[i], points[j]))) by {
        assert(lp.contains((i, j)) <==> ls.contains((points[i], points[j])));
        assert(has_pair(rp, i) <==> has_stamps(rs, points[i]));
    }
    assert(same_pairs(s, p, points));
    let outside = |pair: Stamps| !has_stamps(rs, pair.0);
    let without = |pair: (int, int)| !has_pair(rp, pair.0);
    let (s, p) = (ls.filter(outside), lp.filter(without));
    assert forall|i: int, j: int| 0 <= i < points.len() && 0 <= j < points.len() implies (
    #[trigger] p.contains((i, j)) <==> s.contains((points[i], points[j]))) by {
        assert(lp.contains((i, j)) <==> ls.contains((points[i], points[j])));
        assert(has_pair(rp, i) <==> has_stamps(rs, points[i]));
    }
    assert(same_pairs(s, p, points));
}

proof fn lemma_latest(stamps: Set<Stamps>, pairs: Set<(int, int)>, points: Seq<Seq<int>>)
    requires
        same_pairs(stamps, pairs, points),
        ascending(points),
    ensures
        same_pairs(latest_stamps(stamps), latest(pairs), points),
{
    let (s, p) = (latest_stamps(stamps), latest(pairs));
    assert forall|i: int, j: int| 0 <= i < points.len() && 0 <= j < points.len() implies (
    #[trigger] p.contains((i, j)) <==> s.contains((points[i], points[j]))) by {
        let (pair, stamp) = ((i, j), (points[i], points[j]));
        assert(pairs.contains((i, j)) <==> stamps.contains((points[i], points[j])));
        if p.contains((i, j)) {
            assert forall|other: Seq<int>| #[trigger] stamps.contains((points[i], other)) implies
                other == points[j] || before(other, points[j]) by {
                assert(points.contains(other));
                let k = points.index_of(other);
                assert(points[k] == other);
                assert(pairs.contains((pair.0, k)));
                lemma_positions(points, k, j);
            }
            assert(s.contains(stamp));
        }
        if s.contains((points[i], points[j])) {
            assert forall|c: int| #[trigger] pairs.contains((i, c)) implies c <= j by {
                assert(stamps.contains((stamp.0, points[c])));
                lemma_positions(points, c, j);
            }
            assert(p.contains(pair));
        }
    }
    assert forall|i: int, j: int| #[trigger] p.contains((i, j)) implies 0 <= i < points.len() && 0
        <= j < points.len() by {
        assert(pairs.contains((i, j)));
    }
    assert forall|a: Seq<int>, b: Seq<int>| #[trigger] s.contains((a, b)) implies points.contains(a)
        && points.contains(b) by {
        assert(stamps.contains((a, b)));
    }
}

proof fn lemma_chained(
    left_stamps: Set<Stamps>,
    left: Set<(int, int)>,
    right_stamps: Set<Stamps>,
    right: Set<(int, int)>,
    points: Seq<Seq<int>>,
)
    requires
        same_pairs(left_stamps, left, points),
        same_pairs(right_stamps, right, points),
    ensures
        same_pairs(chained_stamps(left_stamps, right_stamps), chained(left, right), points),
{
    let (s, p) = (chained_stamps(left_stamps, right_stamps), chained(left, right));
    assert forall|i: int, j: int| 0 <= i < points.len() && 0 <= j < points.len() implies (
    #[trigger] p.contains((i, j)) <==> s.contains((points[i], points[j]))) by {
        let (pair, stamp) = ((i, j), (points[i], points[j]));
        if p.contains((i, j)) {
            let c = choose|c: int| #[trigger] left.contains((i, c)) && right.contains((c, j));
            assert(left_stamps.contains((stamp.0, points[c])) && right_stamps.contains(
                (points[c], stamp.1),
            ));
            assert(s.contains(stamp));
        }
        if s.contains((points[i], points[j])) {
            let b = choose|b: Seq<int>| #[trigger]
                left_stamps.contains((points[i], b)) && right_stamps.contains((b, points[j]));
            assert(points.contains(b));
            let c = points.index_of(b);
            assert(points[c] == b);
            assert(left.contains((pair.0, c)) && right.contains((c, pair.1)));
            assert(p.contains(pair));
        }
    }
    assert forall|i: int, j: int| #[trigger] p.contains((i, j)) implies 0 <= i < points.len() && 0
        <= j < points.len() by {
        let c = choose|c: int| #[trigger] left.contains((i, c)) && right.contains((c, j));
        assert(left.contains((i, c)) && right.contains((c, j)));
    }
    assert forall|a: Seq<int>, b: Seq<int>| #[trigger] s.contains((a, b)) implies points.contains(a)
        && points.contains(b) by {
        let c = choose|c: Seq<int>| #[trigger]
            left_stamps.contains((a, c)) && right_stamps.contains((c, b));
        assert(left_stamps.contains((a, c)) && right_stamps.contains((c, b)));
    }
}

/// The timestamps that a timestamp is related to.
pub open spec fn related_stamps(
    relation: Relation,
    points: Seq<Seq<int>>,
    meaning: Meaning,
    point: Seq<int>,
) -> Set<Seq<int>> {
    Set::new(|other: Seq<int>| on_stamps(relation, points, meaning).contains((point, other)))
}

/// A timestamp is related to as many timestamps as its access is to accesses.
pub proof fn law_timestamps_have_the_counts_of_accesses(
    relation: Relation,
    points: Seq<Seq<int>>,
    meaning: Meaning,
    trace: Seq<Event>,
    a: int,
)
    requires
        are_stamps_of(points, meaning, trace),
        0 <= a < trace.len(),
    ensures
        related(relation, trace, a).finite(),
        related_stamps(relation, points, meaning, points[a]).finite(),
        related_stamps(relation, points, meaning, points[a]).len() == related(
            relation,
            trace,
            a,
        ).len(),
{
    law_relations_are_the_same_on_timestamps(relation, points, meaning, trace);
    let positions = related(relation, trace, a);
    let stamps = related_stamps(relation, points, meaning, points[a]);
    let pairs = relation.pairs(trace);
    let on = on_stamps(relation, points, meaning);
    let range = vstd::set_lib::set_int_range(0, points.len() as int);
    vstd::set_lib::lemma_int_range(0, points.len() as int);
    assert(positions.subset_of(range)) by {
        assert forall|b: int| positions.contains(b) implies range.contains(b) by {
            assert(pairs.contains((a, b)));
        }
    }
    vstd::set_lib::lemma_set_subset_finite(range, positions);
    let at = |b: int| points[b];
    assert(stamps =~= positions.map(at)) by {
        assert forall|other: Seq<int>| stamps.contains(other) <==> positions.map(at).contains(
            other,
        ) by {
            if stamps.contains(other) {
                assert(on.contains((points[a], other)));
                assert(points.contains(other));
                let b = points.index_of(other);
                assert(points[b] == other);
                assert(pairs.contains((a, b)));
                assert(positions.contains(b) && at(b) == other);
            }
            if positions.map(at).contains(other) {
                let b = choose|b: int| positions.contains(b) && at(b) == other;
                assert(pairs.contains((a, b)));
                assert(on.contains((points[a], points[b])));
            }
        }
    }
    assert forall|x: int, y: int| #[trigger]
        positions.contains(x) && #[trigger] positions.contains(y) && at(x) == at(y) implies x
        == y by {
        assert(pairs.contains((a, x)) && pairs.contains((a, y)));
        lemma_positions(points, x, y);
    }
    lemma_map_size(positions, at);
}

proof fn lemma_map_size(positions: Set<int>, at: spec_fn(int) -> Seq<int>)
    requires
        positions.finite(),
        forall|x: int, y: int| #[trigger]
            positions.contains(x) && #[trigger] positions.contains(y) && at(x) == at(y) ==> x == y,
    ensures
        positions.map(at).finite(),
        positions.map(at).len() == positions.len(),
    decreases positions.len(),
{
    if positions.len() == 0 {
        assert(positions =~= Set::empty());
        assert(positions.map(at) =~= Set::empty());
    } else {
        let x = positions.choose();
        let rest = positions.remove(x);
        lemma_map_size(rest, at);
        assert(positions.map(at) =~= rest.map(at).insert(at(x))) by {
            assert forall|value: Seq<int>| positions.map(at).contains(value) implies rest.map(
                at,
            ).insert(at(x)).contains(value) by {
                let y = choose|y: int| positions.contains(y) && at(y) == value;
                if y != x {
                    assert(rest.contains(y));
                }
            }
            assert forall|value: Seq<int>| rest.map(at).insert(at(x)).contains(
                value,
            ) implies positions.map(at).contains(value) by {
                if value != at(x) {
                    let y = choose|y: int| rest.contains(y) && at(y) == value;
                    assert(positions.contains(y));
                } else {
                    assert(positions.contains(x));
                }
            }
        }
        assert(!rest.map(at).contains(at(x))) by {
            if rest.map(at).contains(at(x)) {
                let y = choose|y: int| rest.contains(y) && at(y) == at(x);
                assert(positions.contains(y) && positions.contains(x));
            }
        }
    }
}

/// The interval that the polyhedral model counts for a timestamp is the reuse
/// interval that is measured for its access.
pub proof fn law_counted_interval_is_the_measured_one(
    points: Seq<Seq<int>>,
    meaning: Meaning,
    trace: Seq<Event>,
    a: int,
)
    requires
        are_stamps_of(points, meaning, trace),
        0 <= a < trace.len(),
    ensures
        related_stamps(sequential(), points, meaning, points[a]).len() == match interval(
            trace.take(a),
            trace[a].1.data,
        ) {
            Some(value) => value,
            None => 0,
        },
{
    law_timestamps_have_the_counts_of_accesses(sequential(), points, meaning, trace, a);
    law_sequential_reuse_counts_the_interval(trace, a);
}

/// What timestamps stand for in the polyhedral model of a sequential nest.
pub open spec fn model_meaning(data: Plan, params: Seq<int>) -> Meaning {
    Meaning {
        datum: |point: Seq<int>| data.image(params, point)->0,
        thread: |point: Seq<int>| 0int,
    }
}

/// The arrays of a table have numbers of their own.
pub open spec fn tells_arrays_apart(table: Table) -> bool {
    forall|a: usize, b: usize|
        #[trigger] table.memrefs.contains_key(a) && #[trigger] table.memrefs.contains_key(b)
            && table.memrefs[a] == table.memrefs[b] ==> a == b
}

/// Two accesses touch one datum exactly when the model relates them to one
/// tuple.
proof fn lemma_same_datum(
    left: Emitted,
    right: Emitted,
    first: Seq<int>,
    second: Seq<int>,
    table: Table,
    max_array_dim: int,
)
    requires
        tells_arrays_apart(table),
        0 <= max_array_dim <= MAX_ARRAY_DIMS,
        agrees(left, first, table, max_array_dim, 1),
        agrees(right, second, table, max_array_dim, 1),
    ensures
        first == second <==> left.data == right.data,
{
    let (a, b) = (first[0] as usize, second[0] as usize);
    if first == second {
        assert forall|place: int| 0 <= place < MAX_ARRAY_DIMS implies left.data.coords@[place]
            == right.data.coords@[place] by {
            assert(left.data.coords@[place] == coordinate(
                first,
                place - MAX_ARRAY_DIMS + max_array_dim,
                max_array_dim,
            ));
            assert(right.data.coords@[place] == coordinate(
                second,
                place - MAX_ARRAY_DIMS + max_array_dim,
                max_array_dim,
            ));
        }
        assert(left.data.coords@ =~= right.data.coords@);
        vstd::array::axiom_array_ext_equal(left.data.coords, right.data.coords);
    }
    if left.data == right.data {
        let (x, y) = (key_of_memref(ValID::Memref(a)), key_of_memref(ValID::Memref(b)));
        assert(table.memrefs.contains_key(x) && table.memrefs.contains_key(y));
        assert(x == y);
        if a != b {
            law_memref_keys_are_distinct(a, b, 0, 0, arbitrary(), arbitrary());
        }
        assert forall|at: int| 0 <= at < first.len() implies first[at] == second[at] by {
            if at > 0 {
                let place = at - 1 + MAX_ARRAY_DIMS - max_array_dim;
                assert(left.data.coords@[place] == coordinate(first, at - 1, max_array_dim));
                assert(right.data.coords@[place] == coordinate(second, at - 1, max_array_dim));
            }
        }
        assert(first =~= second);
    }
}

/// The timestamps that the model relates to one datum are those of accesses to
/// one datum.
pub proof fn lemma_same_tuples(
    tree: Tree,
    symbols: Seq<i64>,
    setting: Setting,
    purpose: Purpose,
    stamps: Plan,
    data: Plan,
)
    requires
        plain(tree, 0),
        sound(tree, 0),
        same_setting(setting, purpose),
        purpose->num_sets == 1,
        max_rank_of(tree) <= purpose->max_array_dim,
        tells_arrays_apart(setting.table),
        walk(tree, outermost(symbols), setting).stop is Ok,
        failure(tree, 0, Seq::empty(), Purpose::Timestamps) is None,
        plans(stamps, tree, 0, Seq::empty(), Purpose::Timestamps),
        failure(tree, 0, Seq::empty(), purpose) is None,
        plans(data, tree, 0, Seq::empty(), purpose),
    ensures
        ({
            let params = as_params(symbols);
            let points = program_order(tree, symbols);
            let accesses = walk(tree, outermost(symbols), setting).emitted;
            &&& points.len() == accesses.len()
            &&& forall|i: int, j: int|
                #![trigger points[i], points[j]]
                0 <= i < points.len() && 0 <= j < points.len() ==> (data.image(
                    params,
                    points[i],
                )->0 == data.image(params, points[j])->0 <==> accesses[i].data
                    == accesses[j].data)
        }),
{
    let params = as_params(symbols);
    let points = program_order(tree, symbols);
    let accesses = walk(tree, outermost(symbols), setting).emitted;
    let max_array_dim = purpose->max_array_dim as int;
    law_sampler_and_model_agree(tree, symbols, setting, purpose, stamps, data);
    assert forall|i: int, j: int|
        #![trigger points[i], points[j]]
        0 <= i < points.len() && 0 <= j < points.len() implies (data.image(params, points[i])->0
        == data.image(params, points[j])->0 <==> accesses[i].data == accesses[j].data) by {
        let (first, second) = (
            data.image(params, points[i])->0,
            data.image(params, points[j])->0,
        );
        assert(agrees(accesses[i], first, setting.table, max_array_dim, 1));
        assert(agrees(accesses[j], second, setting.table, max_array_dim, 1));
        lemma_same_datum(
            accesses[i],
            accesses[j],
            first,
            second,
            setting.table,
            max_array_dim,
        );
    }
}

/// The timestamps of the polyhedral model are those of the sequential run, in
/// its order, and stand for its data.
pub proof fn law_timestamps_stamp_the_sequential_run(
    tree: Tree,
    config: RunConfig,
    trace: Seq<Event>,
    stamps: Plan,
    data: Plan,
    purpose: Purpose,
)
    requires
        config.valid(),
        config.parallel_depth is None,
        config.block_size <= i64::MAX,
        completes(tree, config, trace),
        tells_arrays_apart(prepared(tree)->Ok_0),
        plain(tree, 0),
        sound(tree, 0),
        purpose == (Purpose::Accesses {
            block_size: config.block_size,
            max_array_dim: max_rank_of(tree) as usize,
            num_sets: 1,
        }),
        max_rank_of(tree) <= MAX_ARRAY_DIMS,
        failure(tree, 0, Seq::empty(), Purpose::Timestamps) is None,
        plans(stamps, tree, 0, Seq::empty(), Purpose::Timestamps),
        failure(tree, 0, Seq::empty(), purpose) is None,
        plans(data, tree, 0, Seq::empty(), purpose),
    ensures
        ({
            let params = as_params(config.symbols@);
            let points = program_order(tree, config.symbols@);
            &&& are_stamps_of(points, model_meaning(data, params), trace)
            &&& forall|point: Seq<int>| #[trigger]
                points.contains(point) <==> point.len() == timestamp_dims(tree, 0) && stamps.image(
                    params,
                    point,
                ) is Some
        }),
{
    law_sequential_run_is_the_walk(tree, config, trace);
    let table = prepared(tree)->Ok_0;
    let setting = config.setting(table, 0);
    let params = as_params(config.symbols@);
    let points = program_order(tree, config.symbols@);
    let meaning = model_meaning(data, params);
    assert(config.start() == outermost(config.symbols@));
    law_sampler_and_model_agree(tree, config.symbols@, setting, purpose, stamps, data);
    lemma_same_tuples(tree, config.symbols@, setting, purpose, stamps, data);
    assert forall|i: int, j: int|
        #![trigger points[i], points[j]]
        0 <= i < points.len() && 0 <= j < points.len() implies ((meaning.datum)(points[i]) == (
    meaning.datum)(points[j]) <==> trace[i].1.data == trace[j].1.data) && ((meaning.thread)(
        points[i],
    ) == (meaning.thread)(points[j]) <==> trace[i].0 == trace[j].0) by {
    }
}

/// A table that numbers at most as many arrays as there are numbers tells them
/// apart.
pub proof fn lemma_arrays_are_told_apart(tree: Tree)
    requires
        prepared(tree) is Ok,
        prepared(tree)->Ok_0.names.len() <= 0x1_0000_0000,
    ensures
        tells_arrays_apart(prepared(tree)->Ok_0),
{
    assert(Table::empty().dense());
    law_numbering_is_dense(tree, Table::empty());
}

/// The reuse interval that the sampler measures for an access of a sequential
/// run is what the model counts for its timestamp: the number of timestamps
/// that the reuse relation, carried out on the timestamps and data of the two
/// plans, relates it to.
pub proof fn law_model_counts_what_the_sampler_measures(
    tree: Tree,
    config: RunConfig,
    trace: Seq<Event>,
    stamps: Plan,
    data: Plan,
    purpose: Purpose,
    a: int,
)
    requires
        config.valid(),
        config.parallel_depth is None,
        config.block_size <= i64::MAX,
        completes(tree, config, trace),
        prepared(tree)->Ok_0.names.len() <= 0x1_0000_0000,
        plain(tree, 0),
        sound(tree, 0),
        purpose == (Purpose::Accesses {
            block_size: config.block_size,
            max_array_dim: max_rank_of(tree) as usize,
            num_sets: 1,
        }),
        max_rank_of(tree) <= MAX_ARRAY_DIMS,
        failure(tree, 0, Seq::empty(), Purpose::Timestamps) is None,
        plans(stamps, tree, 0, Seq::empty(), Purpose::Timestamps),
        failure(tree, 0, Seq::empty(), purpose) is None,
        plans(data, tree, 0, Seq::empty(), purpose),
        0 <= a < trace.len(),
    ensures
        ({
            let params = as_params(config.symbols@);
            let points = program_order(tree, config.symbols@);
            &&& points.len() == trace.len()
            &&& points[a].len() == timestamp_dims(tree, 0)
            &&& stamps.image(params, points[a]) is Some
            &&& related_stamps(
                sequential(),
                points,
                model_meaning(data, params),
                points[a],
            ).len() == match interval(trace.take(a), trace[a].1.data) {
                Some(value) => value,
                None => 0,
            }
        }),
{
    law_sequential_run_is_the_walk(tree, config, trace);
    lemma_arrays_are_told_apart(tree);
    law_timestamps_stamp_the_sequential_run(tree, config, trace, stamps, data, purpose);
    let points = program_order(tree, config.symbols@);
    let meaning = model_meaning(data, as_params(config.symbols@));
    assert(points.contains(points[a]));
    law_counted_interval_is_the_measured_one(points, meaning, trace, a);
}

} // verus!
