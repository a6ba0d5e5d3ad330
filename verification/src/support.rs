//! The support of a distribution: equal reuse intervals become one entry.
//!
//! The weights that belong to the intervals are summed elsewhere; an entry says
//! which of them it takes.

use vstd::prelude::*;

verus! {

/// The support of the first intervals of a list: each entry is an interval and
/// the position behind its last weight. The first entry is that of interval
/// zero, with or without weights.
pub open spec fn support_of(intervals: Seq<i64>, count: nat) -> Seq<(i64, nat)>
    decreases count,
{
    if count == 0 {
        seq![(0i64, 0nat)]
    } else {
        let before = support_of(intervals, (count - 1) as nat);
        if before.last().0 == intervals[count - 1] {
            before.drop_last().push((intervals[count - 1], count))
        } else {
            before.push((intervals[count - 1], count))
        }
    }
}

/// The entries as mathematical values.
pub open spec fn entries(list: Seq<(i64, usize)>) -> Seq<(i64, nat)> {
    list.map_values(|entry: (i64, usize)| (entry.0, entry.1 as nat))
}

/// The support of sorted reuse intervals.
pub fn merge_intervals(intervals: &Vec<i64>) -> (list: Vec<(i64, usize)>)
    ensures
        entries(list@) == support_of(intervals@, intervals@.len()),
{
    let mut list: Vec<(i64, usize)> = Vec::new();
    list.push((0, 0));
    assert(entries(list@) =~= support_of(intervals@, 0));
    let mut at: usize = 0;
    while at < intervals.len()
        invariant
            at <= intervals@.len(),
            list@.len() > 0,
            entries(list@) == support_of(intervals@, at as nat),
        decreases intervals@.len() - at,
    {
        let ghost before = list@;
        let last: usize = list.len() - 1;
        assert(entries(list@).last() == (list@[last as int].0, list@[last as int].1 as nat));
        if list[last].0 == intervals[at] {
            list.set(last, (intervals[at], at + 1));
            assert(entries(list@) =~= entries(before).drop_last().push(
                (intervals@[at as int], (at + 1) as nat),
            ));
        } else {
            list.push((intervals[at], at + 1));
            assert(entries(list@) =~= entries(before).push(
                (intervals@[at as int], (at + 1) as nat),
            ));
        }
        at += 1;
    }
    list
}

/// The list is in ascending order.
pub open spec fn ascends(intervals: Seq<i64>) -> bool {
    forall|i: int, j: int| 0 <= i < j < intervals.len() ==> intervals[i] <= intervals[j]
}

/// Of sorted intervals without negative ones, every interval has one entry, in
/// ascending order.
pub proof fn law_support_is_sorted(intervals: Seq<i64>, count: nat)
    requires
        count <= intervals.len(),
        ascends(intervals),
        forall|i: int| 0 <= i < intervals.len() ==> #[trigger] intervals[i] >= 0,
    ensures
        ({
            let list = support_of(intervals, count);
            &&& list.len() > 0
            &&& list[0].0 == 0
            &&& forall|i: int, j: int|
                #![trigger list[i], list[j]]
                0 <= i < j < list.len() ==> list[i].0 < list[j].0
            &&& count > 0 ==> list.last().0 == intervals[count - 1]
        }),
    decreases count,
{
    if count > 0 {
        law_support_is_sorted(intervals, (count - 1) as nat);
        let before = support_of(intervals, (count - 1) as nat);
        let list = support_of(intervals, count);
        let value = intervals[count - 1];
        if count > 1 {
            assert(intervals[count - 2] <= value);
        }
        assert(before.last().0 <= value);
        if before.last().0 == value {
            assert forall|i: int| 0 <= i < list.len() implies #[trigger] list[i].0
                == before[i].0 by {
            }
            assert forall|i: int, j: int|
                #![trigger list[i], list[j]]
                0 <= i < j < list.len() implies list[i].0 < list[j].0 by {
                assert(list[i].0 == before[i].0 && list[j].0 == before[j].0);
                assert(before[i].0 < before[j].0);
            }
        } else {
            assert forall|i: int, j: int|
                #![trigger list[i], list[j]]
                0 <= i < j < list.len() implies list[i].0 < list[j].0 by {
                assert(list[i] == before[i]);
                if j < before.len() {
                    assert(list[j] == before[j]);
                    assert(before[i].0 < before[j].0);
                } else if i < before.len() - 1 {
                    assert(before[i].0 < before[before.len() - 1].0);
                }
            }
        }
    }
}

/// An entry takes the weights from the end of the entry before it.
pub open spec fn entry_start(list: Seq<(i64, nat)>, at: int) -> nat {
    if at <= 0 {
        0
    } else {
        list[at - 1].1
    }
}

/// Every weight belongs to one entry, the one of its own interval.
pub proof fn law_support_takes_every_weight(intervals: Seq<i64>, count: nat)
    requires
        count <= intervals.len(),
    ensures
        ({
            let list = support_of(intervals, count);
            &&& list.len() > 0
            &&& list.last().1 == count
            &&& forall|at: int, i: int|
                #![trigger list[at], intervals[i]]
                0 <= at < list.len() && entry_start(list, at) <= i < list[at].1
                    ==> intervals[i] == list[at].0
            &&& forall|at: int|
                #![trigger list[at]]
                0 <= at < list.len() ==> entry_start(list, at) <= list[at].1
        }),
    decreases count,
{
    if count > 0 {
        law_support_takes_every_weight(intervals, (count - 1) as nat);
        let before = support_of(intervals, (count - 1) as nat);
        let list = support_of(intervals, count);
        assert forall|at: int| 0 <= at < list.len() implies entry_start(list, at) == entry_start(
            before,
            at,
        ) by {
            if 0 < at {
                assert(list[at - 1] == before[at - 1]);
            }
        }
        assert forall|at: int, i: int|
            #![trigger list[at], intervals[i]]
            0 <= at < list.len() && entry_start(list, at) <= i < list[at].1 implies intervals[i]
            == list[at].0 by {
            assert(entry_start(list, at) == entry_start(before, at));
            if at < list.len() - 1 {
                assert(list[at] == before[at]);
            } else if i < count - 1 {
                assert(before[at].1 == count - 1);
            }
        }
        assert forall|at: int|
            #![trigger list[at]]
            0 <= at < list.len() implies entry_start(list, at) <= list[at].1 by {
            assert(entry_start(list, at) == entry_start(before, at));
            if at < before.len() {
                assert(entry_start(before, at) <= before[at].1);
            }
        }
    }
}

} // verus!
