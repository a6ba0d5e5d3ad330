//! Merging keeps every stream, and lockstep gives every thread its turn.
//!
//! The first holds of every merge that ran to its end, whoever chose the
//! threads: the scheduler, or a caller that answered it.

use crate::error::Error;
use crate::history::{own, Event};
use crate::interleave::{
    has_turn, in_turn, lemma_in_turn, lemma_take_wf, turn, Merge, Pick, Scheduler,
};
use crate::run::{driven, Pause};
use vstd::prelude::*;

verus! {

/// A state with the same work left, in which the live thread at a position
/// makes an access.
pub open spec fn step_from(
    merge: Merge,
    picked: Merge,
    position: int,
    event: Event,
    next: Merge,
) -> bool {
    &&& picked.live == merge.live
    &&& picked.streams == merge.streams
    &&& picked.take(position) == Ok::<(Event, Merge), Error>((event, next))
}

/// Some live thread makes an access.
pub open spec fn steps(merge: Merge, event: Event, next: Merge) -> bool {
    exists|picked: Merge, position: int| #[trigger]
        step_from(merge, picked, position, event, next)
}

/// The events of a merge that runs to its end, one access after the other.
pub open spec fn drains(merge: Merge, events: Seq<Event>) -> bool
    decreases events.len(),
{
    if events.len() == 0 {
        merge.live.len() == 0
    } else {
        exists|next: Merge| #[trigger]
            steps(merge, events[0], next) && drains(next, events.skip(1))
    }
}

/// What a step does to the work left.
proof fn lemma_step(merge: Merge, event: Event, next: Merge)
    requires
        merge.wf(),
        steps(merge, event, next),
    ensures
        next.wf(),
        merge.live.contains(event.0),
        event.0 < merge.streams.len(),
        next.streams.len() == merge.streams.len(),
        merge.streams[event.0 as int].emitted.len() > 0,
        merge.streams[event.0 as int].emitted[0] == event.1,
        next.streams == merge.streams.update(event.0 as int, next.streams[event.0 as int]),
        next.streams[event.0 as int].emitted == merge.streams[event.0 as int].emitted.skip(1),
        next.streams[event.0 as int].error == merge.streams[event.0 as int].error,
        next.last == Some(event.0),
{
    let (picked, position) = choose|picked: Merge, position: int| #[trigger]
        step_from(merge, picked, position, event, next);
    assert(picked.wf());
    lemma_take_wf(picked, position);
    assert(merge.live.contains(merge.live[position]));
    assert(next.streams =~= merge.streams.update(
        event.0 as int,
        next.streams[event.0 as int],
    ));
}

/// The events of a thread behind one more event.
pub proof fn lemma_own_front(event: Event, events: Seq<Event>, tid: u32)
    ensures
        own(seq![event] + events, tid) == if event.0 == tid {
            seq![event] + own(events, tid)
        } else {
            own(events, tid)
        },
    decreases events.len(),
{
    let all = seq![event] + events;
    if events.len() == 0 {
        assert(all.drop_last() =~= Seq::empty());
        assert(own(all.drop_last(), tid) =~= Seq::empty());
        assert(own(all, tid) =~= if event.0 == tid {
            seq![event]
        } else {
            Seq::empty()
        });
    } else {
        lemma_own_front(event, events.drop_last(), tid);
        assert(all.drop_last() =~= seq![event] + events.drop_last());
        assert(own(all, tid) =~= if event.0 == tid {
            seq![event] + own(events, tid)
        } else {
            own(events, tid)
        });
    }
}

/// Each thread's accesses stand in the merged order in program order, and none
/// is lost or added; a merge that drains has met no error.
pub proof fn law_merging_keeps_every_stream(merge: Merge, events: Seq<Event>, tid: u32)
    requires
        merge.wf(),
        tid < merge.streams.len(),
        drains(merge, events),
    ensures
        own(events, tid).map_values(|event: Event| event.1)
            == merge.streams[tid as int].emitted,
        merge.streams[tid as int].error is None,
    decreases events.len(),
{
    let access = |event: Event| event.1;
    let stream = merge.streams[tid as int].emitted;
    if events.len() == 0 {
        assert(!merge.live.contains(tid));
        assert(own(events, tid).map_values(access) =~= stream);
    } else {
        let (event, rest) = (events[0], events.skip(1));
        let next = choose|next: Merge| #[trigger] steps(merge, event, next) && drains(next, rest);
        lemma_step(merge, event, next);
        law_merging_keeps_every_stream(next, rest, tid);
        assert(events =~= seq![event] + rest);
        lemma_own_front(event, rest, tid);
        let mine = own(rest, tid);
        if event.0 == tid {
            assert((seq![event] + mine).map_values(access) =~= seq![event.1] + mine.map_values(
                access,
            ));
            assert(seq![stream[0]] + stream.skip(1) =~= stream);
        }
    }
}

/// The events of a merge come from its threads.
pub proof fn lemma_events_of_threads(merge: Merge, events: Seq<Event>)
    requires
        merge.wf(),
        drains(merge, events),
    ensures
        forall|i: int|
            0 <= i < events.len() ==> (#[trigger] events[i]).0 < merge.streams.len(),
    decreases events.len(),
{
    if events.len() > 0 {
        let (event, rest) = (events[0], events.skip(1));
        let next = choose|next: Merge| #[trigger] steps(merge, event, next) && drains(next, rest);
        lemma_step(merge, event, next);
        lemma_events_of_threads(next, rest);
        assert forall|i: int| 0 <= i < events.len() implies (#[trigger] events[i]).0
            < merge.streams.len() by {
            if i > 0 {
                assert(rest[i - 1] == events[i]);
            }
        }
    }
}

/// What a caller takes in answer to a paused merge is a step of it, whatever
/// the choice was.
pub proof fn law_answers_are_steps(
    merge: Merge,
    position: int,
    run: u64,
    word_pos: u128,
    event: Event,
    next: Merge,
)
    ensures
        (Merge { word_pos, ..merge }).take(position) == Ok::<(Event, Merge), Error>((event, next))
            ==> steps(merge, event, next),
        (Merge { word_pos, ..merge }).with_run(position, run).take(position) == Ok::<
            (Event, Merge),
            Error,
        >((event, next)) ==> steps(merge, event, next),
{
    let weighed = Merge { word_pos, ..merge };
    let granted = weighed.with_run(position, run);
    if weighed.take(position) == Ok::<(Event, Merge), Error>((event, next)) {
        assert(step_from(merge, weighed, position, event, next));
    }
    if granted.take(position) == Ok::<(Event, Merge), Error>((event, next)) {
        assert(step_from(merge, granted, position, event, next));
    }
}

/// A merge that is driven to where it stops, and then goes on from there to its
/// end, drains.
pub proof fn law_driven_merges_drain(merge: Merge, room: nat, rest: Seq<Event>)
    requires
        driven(merge, room).end is Ok,
        drains(driven(merge, room).merge, rest),
    ensures
        drains(merge, driven(merge, room).events + rest),
    decreases room,
{
    let whole = driven(merge, room);
    let events = whole.events + rest;
    if merge.live.len() == 0 {
        assert(events =~= rest);
    } else {
        let (pick, picked) = merge.pick();
        match pick {
            Pick::At(position) => {
                let (event, next) = picked.take(position)->Ok_0;
                let later = driven(next, (room - 1) as nat);
                law_driven_merges_drain(next, (room - 1) as nat, rest);
                assert(events[0] == event);
                assert(events.skip(1) =~= later.events + rest);
                assert(step_from(merge, picked, position, event, next));
                assert(steps(merge, event, next));
            },
            _ => {
                assert(events =~= rest);
                lemma_same_work(picked, merge, rest);
            },
        }
    }
}

/// What drains depends on the work left alone.
proof fn lemma_same_work(left: Merge, right: Merge, events: Seq<Event>)
    requires
        left.live == right.live,
        left.streams == right.streams,
        drains(left, events),
    ensures
        drains(right, events),
{
    if events.len() > 0 {
        let next = choose|next: Merge| #[trigger]
            steps(left, events[0], next) && drains(next, events.skip(1));
        let (picked, position) = choose|picked: Merge, position: int| #[trigger]
            step_from(left, picked, position, events[0], next);
        assert(step_from(right, picked, position, events[0], next));
        assert(steps(right, events[0], next));
    }
}

/// A merge that was driven to its end has drained.
pub proof fn lemma_driven_drains(merge: Merge, room: nat)
    requires
        driven(merge, room).end == Ok::<Pause, Error>(Pause::Drained),
    ensures
        drains(merge, driven(merge, room).events),
{
    let whole = driven(merge, room);
    lemma_ends_empty(merge, room);
    assert(drains(whole.merge, Seq::<Event>::empty()));
    law_driven_merges_drain(merge, room, Seq::empty());
    assert(whole.events + Seq::<Event>::empty() =~= whole.events);
}

proof fn lemma_ends_empty(merge: Merge, room: nat)
    requires
        driven(merge, room).end == Ok::<Pause, Error>(Pause::Drained),
    ensures
        driven(merge, room).merge.live.len() == 0,
    decreases room,
{
    if merge.live.len() > 0 {
        let (pick, picked) = merge.pick();
        let (event, next) = picked.take(pick->At_0)->Ok_0;
        lemma_ends_empty(next, (room - 1) as nat);
    }
}

/// A thread has exactly one event strictly between two positions.
pub open spec fn once_between(events: Seq<Event>, from: int, to: int, tid: u32) -> bool {
    exists|k: int|
        from < k < to && (#[trigger] events[k]).0 == tid && forall|other: int|
            from < other < to && other != k ==> (#[trigger] events[other]).0 != tid
}

/// A thread has no event strictly between two positions.
pub open spec fn never_between(events: Seq<Event>, from: int, to: int, tid: u32) -> bool {
    forall|k: int| from < k < to ==> (#[trigger] events[k]).0 != tid
}

/// The first step of a merge in lockstep.
proof fn lemma_lockstep_step(merge: Merge, room: nat)
    requires
        merge.wf(),
        merge.scheduler == Scheduler::RoundRobin,
        driven(merge, room).events.len() > 0,
    ensures
        room > 0,
        merge.live.len() > 0,
        ({
            let picked = merge.take(merge.live.index_of(in_turn(merge.live, merge.last)));
            let (event, next) = picked->Ok_0;
            &&& picked is Ok
            &&& event == driven(merge, room).events[0]
            &&& event.0 == in_turn(merge.live, merge.last)
            &&& has_turn(merge.live, merge.last, event.0)
            &&& driven(next, (room - 1) as nat).events == driven(merge, room).events.skip(1)
            &&& next.wf()
            &&& next.scheduler == Scheduler::RoundRobin
            &&& next.last == Some(event.0)
            &&& next.streams.len() == merge.streams.len()
            &&& next.streams[event.0 as int].emitted == merge.streams[event.0 as int].emitted.skip(
                1,
            )
            &&& forall|tid: u32|
                tid != event.0 && tid < merge.streams.len() ==> #[trigger] next.streams[tid as int]
                    == merge.streams[tid as int]
            &&& forall|tid: u32|
                tid != event.0 ==> (#[trigger] next.live.contains(tid) <==> merge.live.contains(tid))
        }),
{
    lemma_in_turn(merge.live, merge.last);
    let tid = in_turn(merge.live, merge.last);
    let position = merge.live.index_of(tid);
    assert(merge.live[position] == tid);
    let (event, next) = merge.take(position)->Ok_0;
    let rest = driven(next, (room - 1) as nat);
    assert(driven(merge, room) == rest.after(event));
    assert((seq![event] + rest.events).skip(1) =~= rest.events);
    assert(step_from(merge, merge, position, event, next));
    lemma_step(merge, event, next);
    assert forall|other: u32| other != tid implies (#[trigger] next.live.contains(other)
        <==> merge.live.contains(other)) by {
        if other < merge.streams.len() {
            assert(next.streams[other as int] == merge.streams[other as int]);
        }
    }
}

/// Until a thread's next event, a thread whose turn comes before then has one
/// event, and a thread whose turn has passed has none.
proof fn lemma_until_next(merge: Merge, room: nat, who: u32, to: int, tid: u32)
    requires
        merge.wf(),
        merge.scheduler == Scheduler::RoundRobin,
        merge.last is Some,
        merge.live.contains(who),
        tid != who,
        0 <= to < driven(merge, room).events.len(),
        driven(merge, room).events[to].0 == who,
        never_between(driven(merge, room).events, -1, to, who),
    ensures
        merge.live.contains(tid) && (merge.last->0 == who || turn(Some(who), tid) > turn(
            Some(who),
            merge.last->0,
        )) ==> once_between(driven(merge, room).events, -1, to, tid),
        merge.last->0 != who && turn(Some(who), tid) <= turn(Some(who), merge.last->0)
            ==> never_between(driven(merge, room).events, -1, to, tid),
    decreases to,
{
    let events = driven(merge, room).events;
    let last = merge.last->0;
    lemma_lockstep_step(merge, room);
    let (event, next) = merge.take(merge.live.index_of(in_turn(merge.live, merge.last)))->Ok_0;
    let first = event.0;
    assert(turn(merge.last, first) <= turn(merge.last, who));
    if merge.live.contains(tid) {
        assert(turn(merge.last, first) <= turn(merge.last, tid));
    }
    if to > 0 {
        assert(events[0].0 != who);
        let rest = events.skip(1);
        assert(rest[to - 1] == events[to]);
        assert forall|k: int| -1 < k < to - 1 implies (#[trigger] rest[k]).0 != who by {
            assert(rest[k] == events[k + 1]);
        }
        lemma_until_next(next, (room - 1) as nat, who, to - 1, tid);
        if once_between(rest, -1, to - 1, tid) && first != tid {
            let k = choose|k: int|
                -1 < k < to - 1 && (#[trigger] rest[k]).0 == tid && forall|other: int|
                    -1 < other < to - 1 && other != k ==> (#[trigger] rest[other]).0 != tid;
            assert(events[k + 1].0 == tid);
            assert forall|other: int| -1 < other < to && other != k + 1 implies (
            #[trigger] events[other]).0 != tid by {
                if other > 0 {
                    assert(rest[other - 1] == events[other]);
                }
            }
            assert(once_between(events, -1, to, tid));
        }
        if never_between(rest, -1, to - 1, tid) {
            assert forall|other: int| 0 < other < to implies (#[trigger] events[other]).0 != tid by {
                assert(rest[other - 1] == events[other]);
            }
            if first == tid {
                assert(events[0].0 == tid);
                assert(once_between(events, -1, to, tid));
            }
        }
    }
}

/// In lockstep, between two consecutive events of one thread, every other
/// thread that has work left at the first has exactly one event.
pub proof fn law_lockstep_gives_every_thread_its_turn(
    merge: Merge,
    room: nat,
    from: int,
    to: int,
    tid: u32,
)
    requires
        merge.wf(),
        merge.scheduler == Scheduler::RoundRobin,
        0 <= from < to < driven(merge, room).events.len(),
        driven(merge, room).events[from].0 == driven(merge, room).events[to].0,
        never_between(
            driven(merge, room).events,
            from,
            to,
            driven(merge, room).events[from].0,
        ),
        tid < merge.streams.len(),
        tid != driven(merge, room).events[from].0,
        own(driven(merge, room).events.take(from), tid).len()
            < merge.streams[tid as int].emitted.len(),
    ensures
        once_between(driven(merge, room).events, from, to, tid),
    decreases from,
{
    let events = driven(merge, room).events;
    let who = events[from].0;
    lemma_lockstep_step(merge, room);
    let (event, next) = merge.take(merge.live.index_of(in_turn(merge.live, merge.last)))->Ok_0;
    let rest = events.skip(1);
    assert(rest[to - 1] == events[to]);
    let later = (room - 1) as nat;
    if from == 0 {
        assert(events.take(0) =~= Seq::empty());
        assert(own(events.take(0), tid).len() == 0);
        assert(merge.live.contains(tid));
        assert forall|k: int| -1 < k < to - 1 implies (#[trigger] rest[k]).0 != who by {
            assert(rest[k] == events[k + 1]);
        }
        lemma_still_live(next, later, to - 1);
        lemma_until_next(next, later, who, to - 1, tid);
        lemma_shift(events, -1, to - 1, tid);
    } else {
        assert(rest[from - 1] == events[from]);
        assert forall|k: int| from - 1 < k < to - 1 implies (#[trigger] rest[k]).0 != who by {
            assert(rest[k] == events[k + 1]);
        }
        assert(events.take(from) =~= seq![event] + rest.take(from - 1));
        lemma_own_front(event, rest.take(from - 1), tid);
        law_lockstep_gives_every_thread_its_turn(next, later, from - 1, to - 1, tid);
        lemma_shift(events, from - 1, to - 1, tid);
    }
}

/// A thread with an event to come is live.
proof fn lemma_still_live(merge: Merge, room: nat, to: int)
    requires
        merge.wf(),
        merge.scheduler == Scheduler::RoundRobin,
        0 <= to < driven(merge, room).events.len(),
    ensures
        merge.live.contains(driven(merge, room).events[to].0),
    decreases to,
{
    let events = driven(merge, room).events;
    lemma_lockstep_step(merge, room);
    let (event, next) = merge.take(merge.live.index_of(in_turn(merge.live, merge.last)))->Ok_0;
    if to > 0 {
        assert(events.skip(1)[to - 1] == events[to]);
        lemma_still_live(next, (room - 1) as nat, to - 1);
    }
}

proof fn lemma_shift(events: Seq<Event>, from: int, to: int, tid: u32)
    requires
        events.len() > 0,
        -1 <= from <= to < events.len() - 1,
        once_between(events.skip(1), from, to, tid),
    ensures
        once_between(events, from + 1, to + 1, tid),
{
    let rest = events.skip(1);
    let k = choose|k: int|
        from < k < to && (#[trigger] rest[k]).0 == tid && forall|other: int|
            from < other < to && other != k ==> (#[trigger] rest[other]).0 != tid;
    assert(events[k + 1].0 == tid);
    assert forall|other: int| from + 1 < other < to + 1 && other != k + 1 implies (
    #[trigger] events[other]).0 != tid by {
        assert(rest[other - 1] == events[other]);
    }
}

} // verus!
