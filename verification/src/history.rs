//! What an interleaved access trace says about reuse.
//!
//! A trace is the sequence of accesses in the order in which they happened,
//! each with the thread that made it. Everything the sampler reports is a
//! function of that sequence, and this module says which.

use crate::address::DataId;
use crate::binner::Binner;
use crate::walk::Emitted;
use vstd::prelude::*;

verus! {

/// One access of a trace: the thread, and what it touched.
pub type Event = (u32, Emitted);

/// The position of the most recent access to a datum, or -1.
pub open spec fn last_use(trace: Seq<Event>, data: DataId) -> int
    decreases trace.len(),
{
    if trace.len() == 0 {
        -1
    } else if trace.last().1.data == data {
        trace.len() - 1
    } else {
        last_use(trace.drop_last(), data)
    }
}

/// The accesses of one thread, in order.
pub open spec fn own(trace: Seq<Event>, tid: u32) -> Seq<Event>
    decreases trace.len(),
{
    if trace.len() == 0 {
        Seq::empty()
    } else if trace.last().0 == tid {
        own(trace.drop_last(), tid).push(trace.last())
    } else {
        own(trace.drop_last(), tid)
    }
}

/// The data that a trace touches.
pub open spec fn touched(trace: Seq<Event>) -> Set<DataId> {
    trace.map_values(|event: Event| event.1.data).to_set()
}

/// Time since a datum was last touched, for an access that follows the trace.
pub open spec fn interval(trace: Seq<Event>, data: DataId) -> Option<int> {
    let last = last_use(trace, data);
    if last < 0 {
        None
    } else {
        Some(trace.len() - last)
    }
}

/// Number of distinct data touched since a datum was last touched.
pub open spec fn distance(trace: Seq<Event>, data: DataId) -> Option<int> {
    let last = last_use(trace, data);
    if last < 0 {
        None
    } else {
        Some(touched(trace.skip(last + 1)).len() as int)
    }
}

/// The previous access to a datum came from another thread.
pub open spec fn crosses_threads(trace: Seq<Event>, event: Event) -> bool {
    let last = last_use(trace, event.1.data);
    last >= 0 && trace[last].0 != event.0
}

/// How often each key occurs over a trace, where `key` gives the key of an
/// access from the accesses before it, if it has one.
pub open spec fn tally<K>(trace: Seq<Event>, key: spec_fn(Seq<Event>, Event) -> Option<K>) -> Map<
    K,
    nat,
>
    decreases trace.len(),
{
    if trace.len() == 0 {
        Map::empty()
    } else {
        let before = tally(trace.drop_last(), key);
        match key(trace.drop_last(), trace.last()) {
            Some(k) => before.insert(k, count_of(before, k) + 1),
            None => before,
        }
    }
}

/// The number of occurrences of a key.
pub open spec fn count_of<K>(counts: Map<K, nat>, key: K) -> nat {
    if counts.contains_key(key) {
        counts[key]
    } else {
        0
    }
}

/// Number of accesses for which a condition on them and the accesses before
/// them holds.
pub open spec fn occurrences(
    trace: Seq<Event>,
    condition: spec_fn(Seq<Event>, Event) -> bool,
) -> nat
    decreases trace.len(),
{
    if trace.len() == 0 {
        0
    } else {
        occurrences(trace.drop_last(), condition) + if condition(trace.drop_last(), trace.last()) {
            1nat
        } else {
            0nat
        }
    }
}

/// The bin of the interval between an access and the previous access to its
/// datum by any thread.
pub open spec fn cri_bin(binner: Binner) -> spec_fn(Seq<Event>, Event) -> Option<u32> {
    |before: Seq<Event>, event: Event|
        match interval(before, event.1.data) {
            Some(value) => Some(binner.bin_of(value)),
            None => None,
        }
}

/// The bin of the interval, in its own thread's stream, between an access and
/// that thread's previous access to the datum.
pub open spec fn pri_bin(binner: Binner) -> spec_fn(Seq<Event>, Event) -> Option<u32> {
    |before: Seq<Event>, event: Event|
        match interval(own(before, event.0), event.1.data) {
            Some(value) => Some(binner.bin_of(value)),
            None => None,
        }
}

/// The bin of the reuse distance of an access.
pub open spec fn distance_bin(binner: Binner) -> spec_fn(Seq<Event>, Event) -> Option<u32> {
    |before: Seq<Event>, event: Event|
        match distance(before, event.1.data) {
            Some(value) => Some(binner.bin_of(value)),
            None => None,
        }
}

/// What a reuse is counted under in the joint table: the access site, the
/// private bin (`u32::MAX` where the thread has not touched the datum before),
/// the concurrent bin, and whether the reuse crosses threads.
pub open spec fn joint_key(binner: Binner) -> spec_fn(Seq<Event>, Event) -> Option<
    (u32, u32, u32, bool),
> {
    |before: Seq<Event>, event: Event|
        match cri_bin(binner)(before, event) {
            Some(cri) => Some(
                (
                    event.1.reference,
                    match pri_bin(binner)(before, event) {
                        Some(pri) => pri,
                        None => u32::MAX,
                    },
                    cri,
                    crosses_threads(before, event),
                ),
            ),
            None => None,
        }
}

/// The access comes from the given site.
pub open spec fn at_site(site: int) -> spec_fn(Seq<Event>, Event) -> bool {
    |before: Seq<Event>, event: Event| event.1.reference == site
}

/// The access touches its datum for the first time.
pub open spec fn is_cold() -> spec_fn(Seq<Event>, Event) -> bool {
    |before: Seq<Event>, event: Event| last_use(before, event.1.data) < 0
}

/// The access comes from the given site and touches its datum for the first
/// time.
pub open spec fn is_cold_at(site: int) -> spec_fn(Seq<Event>, Event) -> bool {
    |before: Seq<Event>, event: Event|
        event.1.reference == site && last_use(before, event.1.data) < 0
}

/// The access comes from the given site, and its datum was last touched by the
/// same thread (`shared` is false) or by another (`shared` is true).
pub open spec fn is_reuse_at(site: int, shared: bool) -> spec_fn(Seq<Event>, Event) -> bool {
    |before: Seq<Event>, event: Event|
        event.1.reference == site && last_use(before, event.1.data) >= 0 && crosses_threads(
            before,
            event,
        ) == shared
}

/// The array that the most recent access of a site targeted.
pub open spec fn memref_at(trace: Seq<Event>, site: int) -> Option<u32>
    decreases trace.len(),
{
    if trace.len() == 0 {
        None
    } else if trace.last().1.reference == site {
        Some(trace.last().1.data.memref.0)
    } else {
        memref_at(trace.drop_last(), site)
    }
}

/// `last_use` is what it says: an access to the datum, and none after it.
pub proof fn lemma_last_use(trace: Seq<Event>, data: DataId)
    ensures
        -1 <= last_use(trace, data) < trace.len(),
        last_use(trace, data) >= 0 ==> trace[last_use(trace, data)].1.data == data,
        forall|i: int|
            last_use(trace, data) < i < trace.len() ==> (#[trigger] trace[i]).1.data != data,
    decreases trace.len(),
{
    if trace.len() > 0 && trace.last().1.data != data {
        lemma_last_use(trace.drop_last(), data);
        assert forall|i: int| last_use(trace, data) < i < trace.len() implies (
        #[trigger] trace[i]).1.data != data by {
            if i < trace.len() - 1 {
                assert(trace.drop_last()[i] == trace[i]);
            }
        }
    }
}

pub proof fn lemma_push(trace: Seq<Event>, event: Event)
    ensures
        trace.push(event).drop_last() == trace,
        trace.push(event).last() == event,
        own(trace.push(event), event.0) == own(trace, event.0).push(event),
        forall|tid: u32|
            tid != event.0 ==> #[trigger] own(trace.push(event), tid) == own(trace, tid),
        forall|data: DataId| #[trigger]
            last_use(trace.push(event), data) == if data == event.1.data {
                trace.len() as int
            } else {
                last_use(trace, data)
            },
{
    assert(trace.push(event).drop_last() =~= trace);
}

pub proof fn lemma_own_len(trace: Seq<Event>, tid: u32)
    ensures
        own(trace, tid).len() <= trace.len(),
    decreases trace.len(),
{
    if trace.len() > 0 {
        lemma_own_len(trace.drop_last(), tid);
    }
}

pub proof fn lemma_occurrences_bound(
    trace: Seq<Event>,
    condition: spec_fn(Seq<Event>, Event) -> bool,
)
    ensures
        occurrences(trace, condition) <= trace.len(),
    decreases trace.len(),
{
    if trace.len() > 0 {
        lemma_occurrences_bound(trace.drop_last(), condition);
    }
}

pub proof fn lemma_tally_bound<K>(
    trace: Seq<Event>,
    key: spec_fn(Seq<Event>, Event) -> Option<K>,
)
    ensures
        forall|k: K| #[trigger] count_of(tally(trace, key), k) <= trace.len(),
    decreases trace.len(),
{
    if trace.len() > 0 {
        lemma_tally_bound(trace.drop_last(), key);
        let before = tally(trace.drop_last(), key);
        assert forall|k: K| #[trigger] count_of(tally(trace, key), k) <= trace.len() by {
            assert(count_of(before, k) <= trace.len() - 1);
        }
    }
}

} // verus!
