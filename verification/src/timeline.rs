//! Which reuse distances the index of bounded size measures.
//!
//! The index gives each access the next position of a timeline and rebuilds the
//! timeline when it has grown too sparse or is full. A working set that fills
//! even a rebuilt timeline leaves data without a position; their next reuse is
//! then not measured. What happens is a function of the trace.

use crate::address::DataId;
use crate::binner::Binner;
use crate::history::{distance, distance_bin, last_use, lemma_last_use, tally, touched, Event};
use crate::reuse_distance::timeline_limit;
use vstd::prelude::*;

verus! {

/// The state of the timeline.
pub ghost struct Timeline {
    /// The data that have a position, in the order of their positions.
    pub placed: Seq<DataId>,
    /// The newest position handed out so far.
    pub used: int,
    /// The number of positions.
    pub positions: int,
    /// Whether an access has found no position.
    pub full: bool,
}

/// The data of a list without one of them.
pub open spec fn without_datum(placed: Seq<DataId>, data: DataId) -> Seq<DataId> {
    if placed.contains(data) {
        placed.remove(placed.index_of(data))
    } else {
        placed
    }
}

impl Timeline {
    /// The timeline before any access.
    pub open spec fn start() -> Timeline {
        Timeline { placed: Seq::empty(), used: 0, positions: 1024, full: false }
    }

    /// The distance that is measured for an access to a datum: the number of
    /// data with a later position, where the datum has one.
    pub open spec fn measured(self, data: DataId) -> Option<int> {
        if self.placed.contains(data) {
            Some(self.placed.len() - 1 - self.placed.index_of(data))
        } else {
            None
        }
    }

    /// The timeline after an access has taken the next position, if there is
    /// one. The largest 32-bit number stands for no position.
    pub open spec fn touched(self, data: DataId) -> Timeline {
        let kept = without_datum(self.placed, data);
        if self.used >= self.positions {
            Timeline { placed: kept, full: true, ..self }
        } else if self.used + 1 >= u32::MAX {
            Timeline { placed: kept, full: true, used: self.used + 1, ..self }
        } else {
            Timeline { placed: kept.push(data), used: self.used + 1, ..self }
        }
    }

    /// The timeline after it was rebuilt, where that is due: it is full, or more
    /// sparse than dense.
    pub open spec fn compacted(self) -> Timeline {
        let live = self.placed.len() as int;
        if self.used >= self.positions || self.used > 2 * vstd::math::max(live, 512) {
            Timeline {
                used: live,
                positions: vstd::math::max(vstd::math::min(4 * live, timeline_limit()), 1024),
                ..self
            }
        } else {
            self
        }
    }
}

/// The timeline after a trace.
pub open spec fn timeline(trace: Seq<Event>) -> Timeline
    decreases trace.len(),
{
    if trace.len() == 0 {
        Timeline::start()
    } else {
        timeline(trace.drop_last()).touched(trace.last().1.data).compacted()
    }
}

/// The bin of the reuse distance that is measured for an access.
pub open spec fn measured_bin(binner: Binner) -> spec_fn(Seq<Event>, Event) -> Option<u32> {
    |before: Seq<Event>, event: Event|
        match timeline(before).measured(event.1.data) {
            Some(value) => Some(binner.bin_of(value)),
            None => None,
        }
}

/// Until the timeline is full it holds every datum touched so far, in the order
/// of last use.
proof fn lemma_all_placed(trace: Seq<Event>)
    requires
        !timeline(trace).full,
    ensures
        forall|data: DataId| #[trigger]
            timeline(trace).placed.contains(data) <==> last_use(trace, data) >= 0,
        forall|i: int, j: int|
            #![trigger timeline(trace).placed[i], timeline(trace).placed[j]]
            0 <= i < j < timeline(trace).placed.len() ==> last_use(trace, timeline(trace).placed[i])
                < last_use(trace, timeline(trace).placed[j]),
        trace.len() > 0 ==> !timeline(trace.drop_last()).full,
    decreases trace.len(),
{
    if trace.len() > 0 {
        let rest = trace.drop_last();
        let data = trace.last().1.data;
        lemma_all_placed(rest);
        let before = timeline(rest).placed;
        let kept = without_datum(before, data);
        let after = timeline(trace).placed;
        let p = before.index_of(data);
        assert(after == kept.push(data));
        assert forall|i: int| 0 <= i < kept.len() implies kept[i] == before[if before.contains(data)
            && i >= p {
            i + 1
        } else {
            i
        }] by {}
        assert forall|i: int| 0 <= i < kept.len() implies #[trigger] kept[i] != data && last_use(
            rest,
            kept[i],
        ) >= 0 by {
            let j = if before.contains(data) && i >= p {
                i + 1
            } else {
                i
            };
            assert(kept[i] == before[j]);
            assert(before.contains(before[j]));
            if before[j] == data {
                assert(before[p] == data);
                assert(last_use(rest, before[p]) == last_use(rest, before[j]));
            }
        }
        assert forall|other: DataId| #[trigger] after.contains(other) <==> last_use(trace, other)
            >= 0 by {
            if other == data {
                assert(after[after.len() - 1] == data);
            } else {
                if after.contains(other) {
                    let i = after.index_of(other);
                    assert(kept[i] == other);
                }
                if last_use(trace, other) >= 0 {
                    assert(before.contains(other));
                    let j = before.index_of(other);
                    let i = if before.contains(data) && j > p {
                        j - 1
                    } else {
                        j
                    };
                    assert(kept[i] == other);
                    assert(after[i] == other);
                }
            }
        }
        assert forall|i: int, j: int|
            #![trigger after[i], after[j]]
            0 <= i < j < after.len() implies last_use(trace, after[i]) < last_use(
            trace,
            after[j],
        ) by {
            assert(after[i] == kept[i]);
            lemma_last_use(rest, kept[i]);
            if j < kept.len() {
                assert(after[j] == kept[j]);
                let (a, b) = if before.contains(data) {
                    (
                        if i >= p {
                            i + 1
                        } else {
                            i
                        },
                        if j >= p {
                            j + 1
                        } else {
                            j
                        },
                    )
                } else {
                    (i, j)
                };
                assert(kept[i] == before[a] && kept[j] == before[b]);
            }
        }
    }
}

/// Until the timeline is full the measured distance is the reuse distance.
proof fn lemma_measured_distance(trace: Seq<Event>, data: DataId)
    requires
        !timeline(trace).full,
    ensures
        timeline(trace).measured(data) == distance(trace, data),
{
    lemma_all_placed(trace);
    let placed = timeline(trace).placed;
    if placed.contains(data) {
        let i = placed.index_of(data);
        let last = last_use(trace, data);
        let rest = placed.skip(i + 1);
        let since = trace.skip(last + 1);
        assert(placed[i] == data);
        assert forall|other: DataId| rest.to_set().contains(other) <==> touched(since).contains(
            other,
        ) by {
            lemma_last_use(trace, other);
            lemma_last_use(trace, data);
            let named = since.map_values(|event: Event| event.1.data);
            if rest.contains(other) {
                let j = rest.index_of(other);
                assert(placed[j + i + 1] == other);
                let at = last_use(trace, other);
                assert(named[at - last - 1] == other);
            }
            if named.contains(other) {
                let k = named.index_of(other);
                assert(trace[k + last + 1].1.data == other);
                assert(last_use(trace, other) >= k + last + 1);
                assert(placed.contains(other));
                let j = placed.index_of(other);
                assert(placed[j] == other);
                assert(rest[j - i - 1] == other);
            }
        }
        assert(rest.to_set() =~= touched(since));
        assert(rest.no_duplicates()) by {
            assert forall|a: int, b: int|
                0 <= a < rest.len() && 0 <= b < rest.len() && a != b implies rest[a] != rest[b] by {
                assert(rest[a] == placed[a + i + 1] && rest[b] == placed[b + i + 1]);
            }
        }
        rest.unique_seq_to_set();
    }
}

/// Until the index is full, every reuse is measured and its distance is exact.
pub proof fn law_distances_are_exact_until_full(trace: Seq<Event>, binner: Binner)
    requires
        !timeline(trace).full,
    ensures
        tally(trace, measured_bin(binner)) == tally(trace, distance_bin(binner)),
    decreases trace.len(),
{
    if trace.len() > 0 {
        lemma_all_placed(trace);
        law_distances_are_exact_until_full(trace.drop_last(), binner);
        lemma_measured_distance(trace.drop_last(), trace.last().1.data);
    }
}

/// An index that has run out of room stays so.
pub proof fn law_full_stays_full(trace: Seq<Event>, event: Event)
    requires
        timeline(trace).full,
    ensures
        timeline(trace.push(event)).full,
{
    assert(trace.push(event).drop_last() =~= trace);
}

} // verus!
