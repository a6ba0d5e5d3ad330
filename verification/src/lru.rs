//! A fully associative LRU cache, and what reuse distance says about it.

use crate::address::DataId;
use crate::binner::{lemma_offset_bound, Binner};
use crate::history::{
    distance, distance_bin, is_cold, last_use, lemma_last_use, lemma_push, occurrences, touched,
    Event,
};
use crate::measure::bin_from;
use crate::totals::keyed;
use vstd::prelude::*;

verus! {

/// What a fully associative LRU cache of `blocks` blocks holds after a trace,
/// most recently used first.
pub open spec fn lru_contents(trace: Seq<Event>, blocks: nat) -> Seq<DataId>
    decreases trace.len(),
{
    if trace.len() == 0 {
        Seq::empty()
    } else {
        lru_access(lru_contents(trace.drop_last(), blocks), trace.last().1.data, blocks)
    }
}

/// One access to a cache: the datum moves to the front, and what no longer fits
/// is evicted from the back.
pub open spec fn lru_access(contents: Seq<DataId>, data: DataId, blocks: nat) -> Seq<DataId> {
    let others = if contents.contains(data) {
        contents.remove(contents.index_of(data))
    } else {
        contents
    };
    let all = seq![data] + others;
    if all.len() > blocks {
        all.take(blocks as int)
    } else {
        all
    }
}

spec fn since(trace: Seq<Event>, data: DataId) -> Set<DataId> {
    touched(trace.skip(last_use(trace, data) + 1))
}

proof fn lemma_since(trace: Seq<Event>, data: DataId, other: DataId)
    ensures
        since(trace, data).finite(),
        since(trace, data).contains(other) <==> last_use(trace, other) > last_use(trace, data),
{
    let from = last_use(trace, data) + 1;
    lemma_last_use(trace, data);
    lemma_last_use(trace, other);
    let seq = trace.skip(from).map_values(|event: Event| event.1.data);
    vstd::seq_lib::seq_to_set_is_finite(seq);
    if seq.contains(other) {
        let i = choose|i: int| 0 <= i < seq.len() && seq[i] == other;
        assert(trace[i + from].1.data == other);
    }
    let last = last_use(trace, other);
    if last >= from {
        assert(seq[last - from] == other);
    }
}

/// A datum used more recently has the smaller reuse distance.
proof fn lemma_recent_is_near(trace: Seq<Event>, near: DataId, far: DataId)
    requires
        0 <= last_use(trace, far) < last_use(trace, near),
    ensures
        distance(trace, near)->0 < distance(trace, far)->0,
{
    let (a, b) = (since(trace, near), since(trace, far));
    lemma_since(trace, near, near);
    lemma_since(trace, far, near);
    assert forall|d: DataId| a.insert(near).contains(d) implies b.contains(d) by {
        lemma_since(trace, near, d);
        lemma_since(trace, far, d);
    }
    vstd::set_lib::lemma_len_subset(a.insert(near), b);
}

/// How an access changes the distance of every other datum.
proof fn lemma_distance_push(trace: Seq<Event>, event: Event, data: DataId)
    requires
        data != event.1.data,
        last_use(trace, data) >= 0,
    ensures
        distance(trace.push(event), data) is Some,
        distance(trace.push(event), data)->0 == distance(trace, data)->0 + if last_use(
            trace,
            event.1.data,
        ) > last_use(trace, data) {
            0int
        } else {
            1int
        },
{
    let after = trace.push(event);
    lemma_push(trace, event);
    lemma_last_use(trace, data);
    lemma_since(trace, data, event.1.data);
    assert forall|d: DataId| since(after, data).contains(d) <==> since(trace, data).insert(
        event.1.data,
    ).contains(d) by {
        lemma_since(trace, data, d);
        lemma_since(after, data, d);
    }
    assert(since(after, data) =~= since(trace, data).insert(event.1.data));
}

spec fn by_distance(trace: Seq<Event>, contents: Seq<DataId>, blocks: nat) -> bool {
    &&& contents.len() <= blocks
    &&& forall|i: int|
        0 <= i < contents.len() ==> distance(trace, #[trigger] contents[i]) == Some(i)
    &&& forall|d: DataId|
        last_use(trace, d) >= 0 && (#[trigger] distance(trace, d))->0 < blocks ==> distance(
            trace,
            d,
        )->0 < contents.len() && contents[distance(trace, d)->0] == d
}

/// The cache holds the data of distance below its size, in order of distance.
proof fn lemma_contents_by_distance(trace: Seq<Event>, blocks: nat)
    ensures
        by_distance(trace, lru_contents(trace, blocks), blocks),
    decreases trace.len(),
{
    if trace.len() > 0 {
        let before = trace.drop_last();
        let event = trace.last();
        let data = event.1.data;
        assert(before.push(event) =~= trace);
        lemma_contents_by_distance(before, blocks);
        lemma_push(before, event);
        let contents = lru_contents(before, blocks);
        let now = lru_contents(trace, blocks);
        let others = if contents.contains(data) {
            contents.remove(contents.index_of(data))
        } else {
            contents
        };
        let all = seq![data] + others;
        let place = if contents.contains(data) {
            contents.index_of(data)
        } else {
            contents.len() as int
        };
        assert(touched(trace.skip(trace.len() as int)) =~= Set::empty());
        assert(distance(trace, data) == Some(0int));
        // Where each datum of the old contents stands now.
        assert forall|i: int| 0 <= i < contents.len() && contents[i] != data implies {
            let at = if i < place {
                i + 1
            } else {
                i
            };
            &&& all[at] == contents[i]
            &&& distance(trace, #[trigger] contents[i]) == Some(at)
        } by {
            let d = contents[i];
            assert(distance(before, d) == Some(i));
            lemma_distance_push(before, event, d);
            let (mine, theirs) = (last_use(before, d), last_use(before, data));
            if theirs > mine {
                lemma_recent_is_near(before, data, d);
                assert(contents[distance(before, data)->0] == data);
                lemma_unique_place(before, contents, data, place, distance(before, data)->0);
            } else if theirs >= 0 {
                lemma_last_use(before, d);
                lemma_last_use(before, data);
                lemma_recent_is_near(before, d, data);
                if place < contents.len() {
                    assert(distance(before, contents[place]) == Some(place));
                }
            } else if place < contents.len() {
                assert(distance(before, contents[place]) == Some(place));
            }
        }
        assert forall|i: int| 0 <= i < now.len() implies distance(trace, #[trigger] now[i]) == Some(
            i,
        ) by {
            assert(now[i] == all[i]);
            if i > 0 {
                let j = if i <= place {
                    i - 1
                } else {
                    i
                };
                assert(all[i] == contents[j]);
                if contents[j] == data {
                    assert(distance(before, contents[j]) == Some(j));
                    lemma_unique_place(before, contents, data, place, j);
                }
                assert(distance(trace, contents[j]) == Some(i));
            }
        }
        assert forall|d: DataId|
            last_use(trace, d) >= 0 && (#[trigger] distance(trace, d))->0
                < blocks implies distance(trace, d)->0 < now.len() && now[distance(trace, d)->0]
            == d by {
            if d != data {
                lemma_distance_push(before, event, d);
                let i = distance(before, d)->0;
                assert(contents[i] == d);
                assert(distance(trace, contents[i]) is Some);
            }
        }
    }
}

proof fn lemma_unique_place(
    trace: Seq<Event>,
    contents: Seq<DataId>,
    data: DataId,
    left: int,
    right: int,
)
    requires
        forall|i: int|
            0 <= i < contents.len() ==> distance(trace, #[trigger] contents[i]) == Some(i),
        contents.contains(data) ==> left == contents.index_of(data),
        0 <= right < contents.len(),
        contents[right] == data,
    ensures
        left == right,
{
    assert(contents.contains(data));
    let at = contents.index_of(data);
    assert(0 <= at < contents.len() && contents[at] == data);
    assert(distance(trace, contents[at]) == Some(at));
    assert(distance(trace, contents[right]) == Some(right));
}

/// An access hits a fully associative LRU cache exactly when its datum was
/// touched before and fewer distinct data than the cache has blocks were
/// touched since.
pub proof fn law_hit_iff_distance_below_size(trace: Seq<Event>, data: DataId, blocks: nat)
    ensures
        lru_contents(trace, blocks).contains(data) <==> (distance(trace, data) matches Some(
            between,
        ) && between < blocks),
{
    lemma_contents_by_distance(trace, blocks);
    let contents = lru_contents(trace, blocks);
    if contents.contains(data) {
        let i = choose|i: int| 0 <= i < contents.len() && contents[i] == data;
        assert(distance(trace, contents[i]) == Some(i));
    }
    if last_use(trace, data) >= 0 && distance(trace, data)->0 < blocks {
        let between = distance(trace, data)->0;
        lemma_since(trace, data, data);
        assert(contents[between] == data);
    }
}

/// The access misses a fully associative LRU cache of `blocks` blocks.
pub open spec fn lru_misses(blocks: nat) -> spec_fn(Seq<Event>, Event) -> bool {
    |before: Seq<Event>, event: Event| !lru_contents(before, blocks).contains(event.1.data)
}

/// Up to the size at which distances stop being kept exactly, the cold accesses
/// and the reuses in bins from the size on are the misses of an LRU cache.
pub proof fn law_exact_misses_are_lru_misses(trace: Seq<Event>, binner: Binner, blocks: u32)
    requires
        trace.len() <= u64::MAX,
        binner.resolution() > 0,
        0 < binner.threshold(),
        blocks <= binner.threshold(),
        binner.threshold() + 64 * binner.resolution() <= u32::MAX,
    ensures
        occurrences(trace, is_cold()) + occurrences(
            trace,
            keyed(distance_bin(binner), bin_from(blocks)),
        ) == occurrences(trace, lru_misses(blocks as nat)),
    decreases trace.len(),
{
    if trace.len() > 0 {
        let before = trace.drop_last();
        let data = trace.last().1.data;
        law_exact_misses_are_lru_misses(before, binner, blocks);
        law_hit_iff_distance_below_size(before, data, blocks as nat);
        lemma_last_use(before, data);
        if last_use(before, data) >= 0 {
            let value = distance(before, data)->0;
            let after = before.skip(last_use(before, data) + 1).map_values(
                |event: Event| event.1.data,
            );
            after.lemma_cardinality_of_set();
            if value >= binner.threshold() {
                lemma_offset_bound(binner.threshold(), binner.resolution(), value);
            }
        }
    }
}

} // verus!
