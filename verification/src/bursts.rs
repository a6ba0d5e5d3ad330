//! A run that is granted to a thread is made in full, and no longer.

use crate::error::Error;
use crate::history::Event;
use crate::interleave::{lemma_take_wf, Merge, Pick, Scheduler};
use crate::rng::chacha8_below;
use crate::run::{driven, Pause};
use vstd::prelude::*;

verus! {

/// The first accesses of a thread, as events.
pub open spec fn made_by(tid: u32, merge: Merge, from: int, count: nat) -> Seq<Event> {
    Seq::new(count, |i: int| (tid, merge.streams[tid as int].emitted[from + i]))
}

/// The merge asks for a run, or no thread has work left.
pub open spec fn asks_or_drained(merge: Merge, end: Result<Pause, Error>) -> bool {
    match end {
        Ok(Pause::Run(position)) => merge.live.len() > 0,
        Ok(Pause::Drained) => merge.live.len() == 0,
        _ => false,
    }
}

/// The rest of a run: `remaining` more accesses of the thread, or all that it
/// has left.
proof fn lemma_run_goes_on(merge: Merge, tid: u32, remaining: u64, room: nat)
    requires
        merge.wf(),
        merge.scheduler == Scheduler::Burst,
        tid < merge.streams.len(),
        merge.streams[tid as int].error is None,
        merge.live.contains(tid) ==> merge.burst == Some((tid, remaining)),
        !merge.live.contains(tid) ==> merge.burst is None,
        room > remaining,
    ensures
        ({
            let left = merge.streams[tid as int].emitted.len();
            let count = if remaining <= left {
                remaining as nat
            } else {
                left
            };
            let rest = driven(merge, room);
            &&& rest.events == made_by(tid, merge, 0, count)
            &&& asks_or_drained(rest.merge, rest.end)
        }),
    decreases remaining,
{
    let stream = merge.streams[tid as int].emitted;
    let rest = driven(merge, room);
    if merge.running() {
        let (pick, picked) = merge.pick();
        let position = merge.live.index_of(tid);
        assert(merge.live[position] == tid);
        assert(pick == Pick::At(position));
        assert(picked.wf());
        let (event, next) = picked.take(position)->Ok_0;
        lemma_take_wf(picked, position);
        let fewer = (remaining - 1) as u64;
        assert(next.streams[tid as int].emitted == stream.skip(1));
        assert(next.live.contains(tid) <==> stream.skip(1).len() > 0);
        lemma_run_goes_on(next, tid, fewer, (room - 1) as nat);
        let later = driven(next, (room - 1) as nat);
        let count = if remaining <= stream.len() {
            remaining as nat
        } else {
            stream.len()
        };
        assert(rest.events =~= made_by(tid, merge, 0, count));
    } else {
        assert(remaining == 0 || stream.len() == 0) by {
            assert(merge.live.contains(tid) <==> stream.len() > 0);
        }
        assert(rest.events =~= made_by(tid, merge, 0, 0));
    }
}

/// A thread that was granted a run makes that many accesses in a row, or all
/// that it has left where those are fewer, in program order and with no access
/// of another thread between them. Directly behind them the next run is asked
/// for, or no thread has work left.
pub proof fn law_granted_runs_are_made(
    merge: Merge,
    position: int,
    run: u64,
    word_pos: u128,
    room: nat,
)
    requires
        merge.wf(),
        merge.scheduler == Scheduler::Burst,
        0 <= position < merge.live.len(),
        merge.streams[merge.live[position] as int].error is None,
        0 < run <= room,
    ensures
        ({
            let tid = merge.live[position];
            let left = merge.streams[tid as int].emitted.len();
            let count = if run <= left {
                run as nat
            } else {
                left
            };
            let granted = (Merge { word_pos, ..merge }).with_run(position, run).take(position);
            let rest = driven(granted->Ok_0.1, room);
            &&& granted is Ok
            &&& seq![granted->Ok_0.0] + rest.events == made_by(tid, merge, 0, count)
            &&& asks_or_drained(rest.merge, rest.end)
        }),
{
    let tid = merge.live[position];
    assert(merge.live.contains(tid));
    let stream = merge.streams[tid as int].emitted;
    let weighed = Merge { word_pos, ..merge };
    let started = weighed.with_run(position, run);
    assert(started.wf());
    let (event, next) = started.take(position)->Ok_0;
    lemma_take_wf(started, position);
    assert(next.streams[tid as int].emitted == stream.skip(1));
    assert(next.live.contains(tid) <==> stream.skip(1).len() > 0);
    lemma_run_goes_on(next, tid, (run - 1) as u64, room);
    let count = if run <= stream.len() {
        run as nat
    } else {
        stream.len()
    };
    assert(seq![event] + driven(next, room).events =~= made_by(tid, merge, 0, count));
}

/// Granting a run chooses the thread and nothing else: the access that is taken,
/// and what every thread has left, are the same whatever the length.
pub proof fn law_length_of_a_run_changes_no_access(
    merge: Merge,
    position: int,
    run: u64,
    other: u64,
)
    ensures
        match (merge.with_run(position, run).take(position), merge.with_run(position, other).take(
            position,
        )) {
            (Ok((event, next)), Ok((found, later))) => {
                &&& event == found
                &&& next.streams == later.streams
                &&& next.live == later.live
                &&& next.last == later.last
                &&& next.word_pos == later.word_pos
            },
            (Err(error), Err(found)) => error == found,
            _ => false,
        },
{
}

/// The uniform scheduler takes the live thread that the generator draws; the
/// burst scheduler draws the thread of a new run in the same way, and goes on
/// with the thread of a run that is not over. The other two draw nothing here.
pub proof fn law_choices_come_from_the_generator(merge: Merge)
    ensures
        ({
            let (drawn, word_pos) = chacha8_below(
                merge.seed,
                merge.word_pos,
                merge.live.len() as usize,
            );
            let (pick, after) = merge.pick();
            match merge.scheduler {
                Scheduler::Uniform => pick == Pick::At(drawn as int) && after.word_pos == word_pos
                    && after.burst == merge.burst,
                Scheduler::Burst => match merge.burst {
                    Some((tid, left)) if left > 0 && merge.live.contains(tid) => {
                        &&& pick matches Pick::At(position) && merge.live[position] == tid
                        &&& after.word_pos == merge.word_pos
                        &&& after.burst == Some((tid, (left - 1) as u64))
                    },
                    _ => pick == Pick::Run(drawn as int) && after.word_pos == word_pos,
                },
                _ => after == merge,
            }
        }),
        merge.pick().1.streams == merge.streams,
        merge.pick().1.live == merge.live,
        merge.pick().1.last == merge.last,
        merge.pick().1.seed == merge.seed,
        merge.pick().1.scheduler == merge.scheduler,
{
}

} // verus!
