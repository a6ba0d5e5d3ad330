//! How a merge ends: whether it drains, and what keeps it from that.

use crate::error::Error;
use crate::interleave::{lemma_in_turn, lemma_take_wf, Merge, Pick, Scheduler, Stream};
use crate::run::{driven, Pause};
use vstd::prelude::*;

verus! {

/// Every choice that is made while a merge is driven for at most `room` accesses
/// is the position of a live thread.
pub open spec fn choices_in_range(merge: Merge, room: nat) -> bool
    decreases room,
{
    if merge.live.len() == 0 || room == 0 {
        true
    } else {
        &&& merge.picks_in_range()
        &&& match merge.pick() {
            (Pick::At(position), picked) => match picked.take(position) {
                Ok((event, next)) => choices_in_range(next, (room - 1) as nat),
                Err(_) => true,
            },
            _ => true,
        }
    }
}

/// The number of accesses that some streams have left.
pub open spec fn work(streams: Seq<Stream>) -> nat
    decreases streams.len(),
{
    if streams.len() == 0 {
        0
    } else {
        work(streams.drop_last()) + streams.last().emitted.len()
    }
}

/// Some stream ends with the error.
pub open spec fn fails_with(streams: Seq<Stream>, error: Error) -> bool {
    exists|tid: int| 0 <= tid < streams.len() && (#[trigger] streams[tid]).error == Some(error)
}

/// No stream ends with an error.
pub open spec fn no_errors(streams: Seq<Stream>) -> bool {
    forall|tid: int| 0 <= tid < streams.len() ==> (#[trigger] streams[tid]).error is None
}

/// The scheduler makes its choices without help.
pub open spec fn chooses_alone(scheduler: Scheduler) -> bool {
    scheduler == Scheduler::Uniform || scheduler == Scheduler::RoundRobin
}

/// Replacing a stream changes the work by the difference.
proof fn lemma_work_update(streams: Seq<Stream>, tid: int, stream: Stream)
    requires
        0 <= tid < streams.len(),
    ensures
        work(streams.update(tid, stream)) + streams[tid].emitted.len() == work(streams)
            + stream.emitted.len(),
    decreases streams.len(),
{
    let now = streams.update(tid, stream);
    if tid == streams.len() - 1 {
        assert(now.drop_last() =~= streams.drop_last());
    } else {
        lemma_work_update(streams.drop_last(), tid, stream);
        assert(now.drop_last() =~= streams.drop_last().update(tid, stream));
    }
}

/// A choice in range takes an access off the work, or ends with the error of a
/// stream.
proof fn lemma_choice(merge: Merge, position: int)
    requires
        merge.wf(),
        0 <= position < merge.live.len(),
    ensures
        match merge.take(position) {
            Ok((event, next)) => {
                &&& next.wf()
                &&& next.scheduler == merge.scheduler
                &&& work(next.streams) + 1 == work(merge.streams)
                &&& next.streams.len() == merge.streams.len()
                &&& forall|tid: int|
                    0 <= tid < next.streams.len() ==> (#[trigger] next.streams[tid]).error
                        == merge.streams[tid].error
            },
            Err(error) => fails_with(merge.streams, error),
        },
{
    let tid = merge.live[position];
    assert(merge.live.contains(tid));
    let stream = merge.streams[tid as int];
    match merge.take(position) {
        Ok((event, next)) => {
            lemma_take_wf(merge, position);
            let rest = Stream { emitted: stream.emitted.skip(1), ..stream };
            lemma_work_update(merge.streams, tid as int, rest);
        },
        Err(error) => {
            assert(merge.streams[tid as int].error == Some(error));
        },
    }
}

/// A merge with a live thread has work left.
proof fn lemma_live_work(merge: Merge)
    requires
        merge.wf(),
        merge.live.len() > 0,
    ensures
        work(merge.streams) > 0,
{
    let tid = merge.live[0];
    assert(merge.live.contains(tid));
    let none = Stream { emitted: Seq::empty(), error: None };
    lemma_work_update(merge.streams, tid as int, none);
}

/// A merge whose choices are in range stops for one of these reasons: it has
/// drained, its scheduler needs help, there is more work than room, or a stream
/// has failed.
pub proof fn law_merges_end_for_a_reason(merge: Merge, room: nat)
    requires
        merge.wf(),
        choices_in_range(merge, room),
    ensures
        match driven(merge, room).end {
            Ok(pause) => chooses_alone(merge.scheduler) ==> pause == Pause::Drained,
            Err(error) => fails_with(merge.streams, error) || error == Error::TraceTooLong && work(
                merge.streams,
            ) > room,
        },
    decreases room,
{
    if merge.live.len() > 0 {
        lemma_live_work(merge);
        if room > 0 {
            if let (Pick::At(position), picked) = merge.pick() {
                assert(picked.wf());
                lemma_choice(picked, position);
                if let Ok((event, next)) = picked.take(position) {
                    law_merges_end_for_a_reason(next, (room - 1) as nat);
                    if let Err(error) = driven(next, (room - 1) as nat).end {
                        if fails_with(next.streams, error) {
                            let tid = choose|tid: int|
                                0 <= tid < next.streams.len() && (
                                #[trigger] next.streams[tid]).error == Some(error);
                            assert(merge.streams[tid].error == Some(error));
                        }
                    }
                }
            }
        }
    }
}

/// A merge drains where its choices are in range, its scheduler needs no help,
/// no stream fails, and there is room for all accesses.
pub proof fn law_merges_drain(merge: Merge, room: nat)
    requires
        merge.wf(),
        choices_in_range(merge, room),
        chooses_alone(merge.scheduler),
        no_errors(merge.streams),
        work(merge.streams) <= room,
    ensures
        driven(merge, room).end == Ok::<Pause, Error>(Pause::Drained),
{
    law_merges_end_for_a_reason(merge, room);
    if let Err(error) = driven(merge, room).end {
        let tid = choose|tid: int|
            0 <= tid < merge.streams.len() && (#[trigger] merge.streams[tid]).error == Some(error);
        assert(merge.streams[tid].error is None);
    }
}

/// The choices of a merge in lockstep are in range.
pub proof fn law_lockstep_chooses_live_threads(merge: Merge, room: nat)
    requires
        merge.scheduler == Scheduler::RoundRobin,
    ensures
        choices_in_range(merge, room),
    decreases room,
{
    if merge.live.len() > 0 && room > 0 {
        lemma_in_turn(merge.live, merge.last);
        let (pick, picked) = merge.pick();
        if let Ok((event, next)) = picked.take(pick->At_0) {
            law_lockstep_chooses_live_threads(next, (room - 1) as nat);
        }
    }
}

} // verus!
