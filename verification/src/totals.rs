//! Sums over the entries of a tally.

use crate::fxmap::lists;
use crate::history::{count_of, occurrences, tally, Event};
use vstd::prelude::*;

verus! {

/// The sum of the counts of the entries whose key satisfies a condition.
pub open spec fn sum_where<K>(pairs: Seq<(K, nat)>, condition: spec_fn(K) -> bool) -> nat
    decreases pairs.len(),
{
    if pairs.len() == 0 {
        0
    } else {
        sum_where(pairs.drop_last(), condition) + share(pairs.last(), condition)
    }
}

/// What one entry adds to such a sum.
pub open spec fn share<K>(pair: (K, nat), condition: spec_fn(K) -> bool) -> nat {
    if condition(pair.0) {
        pair.1
    } else {
        0
    }
}

/// The accesses whose key satisfies a condition.
pub open spec fn keyed<K>(
    key: spec_fn(Seq<Event>, Event) -> Option<K>,
    condition: spec_fn(K) -> bool,
) -> spec_fn(Seq<Event>, Event) -> bool {
    |before: Seq<Event>, event: Event|
        key(before, event) matches Some(k) && condition(k)
}

proof fn lemma_sum_remove<K>(pairs: Seq<(K, nat)>, at: int, condition: spec_fn(K) -> bool)
    requires
        0 <= at < pairs.len(),
    ensures
        sum_where(pairs, condition) == sum_where(pairs.remove(at), condition) + share(
            pairs[at],
            condition,
        ),
    decreases pairs.len(),
{
    if at == pairs.len() - 1 {
        assert(pairs.remove(at) =~= pairs.drop_last());
    } else {
        lemma_sum_remove(pairs.drop_last(), at, condition);
        assert(pairs.remove(at).drop_last() =~= pairs.drop_last().remove(at));
        assert(pairs.remove(at).last() == pairs.last());
    }
}

proof fn lemma_sum_update<K>(
    pairs: Seq<(K, nat)>,
    at: int,
    pair: (K, nat),
    condition: spec_fn(K) -> bool,
)
    requires
        0 <= at < pairs.len(),
    ensures
        sum_where(pairs, condition) + share(pair, condition) == sum_where(
            pairs.update(at, pair),
            condition,
        ) + share(pairs[at], condition),
{
    lemma_sum_remove(pairs, at, condition);
    lemma_sum_remove(pairs.update(at, pair), at, condition);
    assert(pairs.remove(at) =~= pairs.update(at, pair).remove(at));
}

/// However the entries of a tally are listed, their counts add up to the number
/// of accesses that were tallied.
pub proof fn lemma_sum_of_tally<K>(
    trace: Seq<Event>,
    key: spec_fn(Seq<Event>, Event) -> Option<K>,
    pairs: Seq<(K, nat)>,
    condition: spec_fn(K) -> bool,
)
    requires
        lists(pairs, tally(trace, key)),
    ensures
        sum_where(pairs, condition) == occurrences(trace, keyed(key, condition)),
    decreases trace.len(),
{
    if trace.len() == 0 {
        if pairs.len() > 0 {
            assert(tally(trace, key).contains_key(pairs[0].0));
        }
    } else {
        let rest = trace.drop_last();
        let (before, now) = (tally(rest, key), tally(trace, key));
        match key(rest, trace.last()) {
            None => {
                lemma_sum_of_tally(rest, key, pairs, condition);
            },
            Some(k) => {
                let count = count_of(before, k);
                assert(now.contains_key(k));
                let at = choose|i: int|
                    0 <= i < pairs.len() && #[trigger] pairs[i] == (k, now[k]);
                if before.contains_key(k) {
                    let fewer = pairs.update(at, (k, count));
                    assert(lists(fewer, before)) by {
                        assert forall|i: int|
                            #![trigger fewer[i]]
                            0 <= i < fewer.len() implies before.contains_key(fewer[i].0)
                            && before[fewer[i].0] == fewer[i].1 by {
                            if i != at {
                                assert(pairs[i].0 != pairs[at].0);
                                assert(now.contains_key(pairs[i].0));
                            }
                        }
                        assert forall|i: int, j: int|
                            #![trigger fewer[i], fewer[j]]
                            0 <= i < j < fewer.len() implies fewer[i].0 != fewer[j].0 by {
                            assert(pairs[i].0 != pairs[j].0);
                        }
                        assert forall|other: K| #[trigger]
                            before.contains_key(other) implies exists|i: int|
                            0 <= i < fewer.len() && #[trigger] fewer[i] == (other, before[other]) by {
                            if other == k {
                                assert(fewer[at] == (other, before[other]));
                            } else {
                                assert(now.contains_key(other));
                                let i = choose|i: int|
                                    0 <= i < pairs.len() && #[trigger] pairs[i] == (
                                        other,
                                        now[other],
                                    );
                                assert(fewer[i] == (other, before[other]));
                            }
                        }
                    }
                    lemma_sum_of_tally(rest, key, fewer, condition);
                    lemma_sum_update(pairs, at, (k, count), condition);
                } else {
                    let fewer = pairs.remove(at);
                    assert(lists(fewer, before)) by {
                        assert forall|i: int|
                            #![trigger fewer[i]]
                            0 <= i < fewer.len() implies before.contains_key(fewer[i].0)
                            && before[fewer[i].0] == fewer[i].1 by {
                            let j = if i < at {
                                i
                            } else {
                                i + 1
                            };
                            assert(fewer[i] == pairs[j]);
                            assert(pairs[j].0 != pairs[at].0);
                            assert(now.contains_key(pairs[j].0));
                        }
                        assert forall|i: int, j: int|
                            #![trigger fewer[i], fewer[j]]
                            0 <= i < j < fewer.len() implies fewer[i].0 != fewer[j].0 by {
                            let a = if i < at {
                                i
                            } else {
                                i + 1
                            };
                            let b = if j < at {
                                j
                            } else {
                                j + 1
                            };
                            assert(pairs[a].0 != pairs[b].0);
                        }
                        assert forall|other: K| #[trigger]
                            before.contains_key(other) implies exists|i: int|
                            0 <= i < fewer.len() && #[trigger] fewer[i] == (other, before[other]) by {
                            assert(now.contains_key(other));
                            let i = choose|i: int|
                                0 <= i < pairs.len() && #[trigger] pairs[i] == (other, now[other]);
                            let j = if i < at {
                                i
                            } else {
                                i - 1
                            };
                            assert(i != at);
                            assert(fewer[j] == (other, before[other]));
                        }
                    }
                    lemma_sum_of_tally(rest, key, fewer, condition);
                    lemma_sum_remove(pairs, at, condition);
                }
            },
        }
    }
}

/// The counts of a listing as numbers.
pub open spec fn widened<K>(pairs: Seq<(K, u64)>) -> Seq<(K, nat)> {
    pairs.map_values(|pair: (K, u64)| (pair.0, pair.1 as nat))
}

/// A listing of a map lists its counts.
pub proof fn lemma_widened<K>(pairs: Seq<(K, u64)>, map: Map<K, u64>)
    requires
        lists(pairs, map),
    ensures
        lists(widened(pairs), map.map_values(|count: u64| count as nat)),
{
    let (wide, counts) = (widened(pairs), map.map_values(|count: u64| count as nat));
    assert forall|i: int| #![trigger wide[i]] 0 <= i < wide.len() implies counts.contains_key(
        wide[i].0,
    ) && counts[wide[i].0] == wide[i].1 by {
        assert(map.contains_key(pairs[i].0));
    }
    assert forall|i: int, j: int|
        #![trigger wide[i], wide[j]]
        0 <= i < j < wide.len() implies wide[i].0 != wide[j].0 by {
        assert(pairs[i].0 != pairs[j].0);
    }
    assert forall|key: K| #[trigger] counts.contains_key(key) implies exists|i: int|
        0 <= i < wide.len() && #[trigger] wide[i] == (key, counts[key]) by {
        assert(map.contains_key(key));
        let i = choose|i: int| 0 <= i < pairs.len() && #[trigger] pairs[i] == (key, map[key]);
        assert(wide[i] == (key, counts[key]));
    }
}

/// A part of a sum is at most the sum.
pub proof fn lemma_sum_prefix<K>(pairs: Seq<(K, nat)>, upto: int, condition: spec_fn(K) -> bool)
    requires
        0 <= upto <= pairs.len(),
    ensures
        sum_where(pairs.take(upto), condition) <= sum_where(pairs, condition),
    decreases pairs.len() - upto,
{
    if upto == pairs.len() {
        assert(pairs.take(upto) =~= pairs);
    } else {
        lemma_sum_prefix(pairs, upto + 1, condition);
        assert(pairs.take(upto + 1).drop_last() =~= pairs.take(upto));
    }
}

} // verus!
