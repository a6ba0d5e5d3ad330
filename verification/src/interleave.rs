//! Deterministic merging of per-thread access streams.
//!
//! No real threads run here. The streams are merged into one global order by a
//! scheduler that draws from a seeded generator, so a run is a function of the
//! program and its configuration.
//!
//! [`Scheduler::Uniform`] and [`Scheduler::RoundRobin`] choose by themselves.
//! The other two need a choice made in floating point: the interleaver says
//! which, and the caller answers.

use crate::error::Error;
use crate::history::Event;
use crate::interp::Cursor;
use crate::rng::{chacha8_below, draw_below};
use crate::walk::{Emitted, Walk};
use vstd::prelude::*;

verus! {

/// How the next thread to step is chosen.
#[derive(Clone, Copy, Debug, PartialEq, Eq, Structural)]
pub enum Scheduler {
    /// Uniformly at random among threads that still have work.
    Uniform,
    /// Strict lockstep.
    RoundRobin,
    /// Threads advance at different average speeds.
    SkewedSpeed,
    /// A thread runs a geometric number of accesses before yielding.
    Burst,
}

impl Scheduler {
    /// The name of the scheduler in manifests.
    pub open spec fn name(self) -> Seq<char> {
        match self {
            Scheduler::Uniform => "uniform"@,
            Scheduler::RoundRobin => "round_robin"@,
            Scheduler::SkewedSpeed => "skewed_speed"@,
            Scheduler::Burst => "burst"@,
        }
    }

    /// The name of the scheduler in manifests.
    pub fn label(&self) -> (label: &'static str)
        ensures
            label@ == self.name(),
    {
        match self {
            Scheduler::Uniform => "uniform",
            Scheduler::RoundRobin => "round_robin",
            Scheduler::SkewedSpeed => "skewed_speed",
            Scheduler::Burst => "burst",
        }
    }
}

/// What a thread has left to do.
pub ghost struct Stream {
    pub emitted: Seq<Emitted>,
    /// The error after the last access, if there is one.
    pub error: Option<Error>,
}

impl Stream {
    /// What is left of a walk.
    pub open spec fn of(walk: Walk) -> Stream {
        Stream {
            emitted: walk.emitted,
            error: match walk.stop {
                Ok(_) => None,
                Err(error) => Some(error),
            },
        }
    }
}

/// The state of a merge.
pub ghost struct Merge {
    pub streams: Seq<Stream>,
    /// The threads that have work left, in the order in which they are chosen
    /// from.
    pub live: Seq<u32>,
    pub scheduler: Scheduler,
    pub seed: u64,
    pub word_pos: u128,
    /// The thread that made the last access.
    pub last: Option<u32>,
    /// The thread whose run goes on, and how many more accesses it has.
    pub burst: Option<(u32, u64)>,
}

/// How the next thread is chosen.
pub ghost enum Pick {
    At(int),
    Weigh,
    Run(int),
}

impl Merge {
    /// The live threads are those with accesses left, each once.
    pub open spec fn wf(self) -> bool {
        &&& self.live.no_duplicates()
        &&& self.streams.len() <= u32::MAX
        &&& forall|tid: u32| #[trigger]
            self.live.contains(tid) <==> tid < self.streams.len()
                && self.streams[tid as int].emitted.len() > 0
        &&& forall|tid: int|
            0 <= tid < self.streams.len() && (#[trigger] self.streams[tid]).emitted.len() == 0
                ==> self.streams[tid].error is None
    }

    /// A uniform draw among the live threads.
    pub open spec fn drawn(self) -> (int, Merge) {
        let (position, word_pos) = chacha8_below(
            self.seed,
            self.word_pos,
            self.live.len() as usize,
        );
        (position as int, Merge { word_pos, ..self })
    }

    /// Whether the run of a thread goes on.
    pub open spec fn running(self) -> bool {
        self.burst matches Some((tid, remaining)) && remaining > 0 && self.live.contains(tid)
    }

    /// The choice of the scheduler.
    pub open spec fn pick(self) -> (Pick, Merge) {
        match self.scheduler {
            Scheduler::Uniform => (Pick::At(self.drawn().0), self.drawn().1),
            Scheduler::RoundRobin => (
                Pick::At(self.live.index_of(in_turn(self.live, self.last))),
                self,
            ),
            Scheduler::SkewedSpeed => (Pick::Weigh, self),
            Scheduler::Burst => if self.running() {
                let (tid, remaining) = self.burst->0;
                (
                    Pick::At(self.live.index_of(tid)),
                    Merge { burst: Some((tid, (remaining - 1) as u64)), ..self },
                )
            } else {
                (Pick::Run(self.drawn().0), self.drawn().1)
            },
        }
    }

    /// The choice of the scheduler is the position of a live thread, if it is
    /// one.
    pub open spec fn picks_in_range(self) -> bool {
        match self.pick().0 {
            Pick::At(position) => 0 <= position < self.live.len(),
            Pick::Weigh => true,
            Pick::Run(position) => 0 <= position < self.live.len(),
        }
    }

    /// The next access of the live thread at a position, and the state after
    /// it. Where the thread fails behind that access, the error comes instead.
    pub open spec fn take(self, position: int) -> Result<(Event, Merge), Error> {
        if !(0 <= position < self.live.len()) {
            Err(Error::BadChoice { position: position as usize, live: self.live.len() as usize })
        } else {
            let tid = self.live[position];
            let stream = self.streams[tid as int];
            let rest = Stream { emitted: stream.emitted.skip(1), ..stream };
            let event = (tid, stream.emitted[0]);
            let streams = self.streams.update(tid as int, rest);
            if stream.emitted.len() > 1 {
                Ok((event, Merge { streams, last: Some(tid), ..self }))
            } else {
                match stream.error {
                    Some(error) => Err(error),
                    None => {
                        let live = without(self.live, position);
                        Ok(
                            (
                                event,
                                Merge {
                                    streams,
                                    live,
                                    last: Some(tid),
                                    burst: if self.burst matches Some((current, _)) && current
                                        == tid {
                                        None
                                    } else {
                                        self.burst
                                    },
                                    ..self
                                },
                            ),
                        )
                    },
                }
            }
        }
    }

    /// The state after a run of a given length was granted to the live thread
    /// at a position.
    pub open spec fn with_run(self, position: int, run: u64) -> Merge {
        Merge {
            burst: Some(
                (
                    self.live[position],
                    if run > 0 {
                        (run - 1) as u64
                    } else {
                        0
                    },
                ),
            ),
            ..self
        }
    }
}

/// When a thread's turn comes: threads above the last one first, each in the
/// order of its number.
pub open spec fn turn(last: Option<u32>, tid: u32) -> int {
    match last {
        Some(last) if tid <= last => tid + 0x1_0000_0000,
        _ => tid as int,
    }
}

/// The thread is live, and no live thread's turn comes before its own.
pub open spec fn has_turn(live: Seq<u32>, last: Option<u32>, tid: u32) -> bool {
    live.contains(tid) && forall|other: u32| #[trigger]
        live.contains(other) ==> turn(last, tid) <= turn(last, other)
}

/// The live thread whose turn it is in lockstep: the one with the least number
/// above the last one, or otherwise the one with the least number.
pub open spec fn in_turn(live: Seq<u32>, last: Option<u32>) -> u32 {
    choose|tid: u32| has_turn(live, last, tid)
}

/// One live thread has the turn.
pub proof fn lemma_in_turn(live: Seq<u32>, last: Option<u32>)
    requires
        live.len() > 0,
    ensures
        has_turn(live, last, in_turn(live, last)),
        forall|tid: u32| has_turn(live, last, tid) ==> tid == in_turn(live, last),
    decreases live.len(),
{
    let rest = live.drop_last();
    let end = live.last();
    assert(live.contains(live[live.len() - 1]));
    if rest.len() == 0 {
        assert forall|other: u32| #[trigger] live.contains(other) implies turn(last, end) <= turn(
            last,
            other,
        ) by {
        }
        assert(has_turn(live, last, end));
    } else {
        lemma_in_turn(rest, last);
        let best = in_turn(rest, last);
        let found = if turn(last, end) < turn(last, best) {
            end
        } else {
            best
        };
        let at = rest.index_of(best);
        assert(live[at] == best);
        assert forall|other: u32| #[trigger] live.contains(other) implies turn(last, found) <= turn(
            last,
            other,
        ) by {
            let i = live.index_of(other);
            if i < rest.len() {
                assert(rest[i] == other);
                assert(rest.contains(other));
            }
        }
        assert(has_turn(live, last, found));
    }
    assert forall|tid: u32| has_turn(live, last, tid) implies tid == in_turn(live, last) by {
        let other = in_turn(live, last);
        assert(has_turn(live, last, other));
        assert(turn(last, tid) == turn(last, other));
    }
}

/// A list without the element at a position, whose place the last one takes.
pub open spec fn without(list: Seq<u32>, position: int) -> Seq<u32> {
    list.update(position, list.last()).drop_last()
}

/// Removing an element by putting the last one in its place removes that one.
pub proof fn lemma_without(list: Seq<u32>, position: int)
    requires
        0 <= position < list.len(),
        list.no_duplicates(),
    ensures
        without(list, position).no_duplicates(),
        forall|value: u32| #[trigger]
            without(list, position).contains(value) <==> list.contains(value) && value
                != list[position],
{
    let rest = without(list, position);
    assert forall|value: u32| #[trigger] rest.contains(value) <==> list.contains(value) && value
        != list[position] by {
        if rest.contains(value) {
            let i = choose|i: int| 0 <= i < rest.len() && rest[i] == value;
            if i == position {
                assert(list[list.len() - 1] == value);
            } else {
                assert(list[i] == value);
            }
        }
        if list.contains(value) && value != list[position] {
            let i = choose|i: int| 0 <= i < list.len() && list[i] == value;
            if i == list.len() - 1 {
                assert(rest[position] == value);
            } else {
                assert(rest[i] == value);
            }
        }
    }
}

/// What the interleaver has to say.
pub enum Step {
    /// No thread has work left.
    Drained,
    /// The next access, and the thread that makes it.
    Access(u32, Emitted),
    /// A live thread has to be chosen by weight, with [`Interleaver::take`].
    Weigh,
    /// The live thread at this position starts a run, whose length has to be
    /// given with [`Interleaver::take_run`].
    Run(usize),
}

/// How the next thread is chosen.
enum Choice {
    At(usize),
    Weigh,
    Run(usize),
}

/// Merges per-thread cursors into a single deterministic access order.
pub struct Interleaver<'a, 'r> {
    cursors: Vec<Cursor<'a, 'r>>,
    /// One access of lookahead per thread, so the scheduler always picks among
    /// threads that have work left.
    pending: Vec<Option<Emitted>>,
    live: Vec<u32>,
    scheduler: Scheduler,
    seed: u64,
    word_pos: u128,
    last: Option<u32>,
    burst: Option<(u32, u64)>,
}

/// What a thread has left: the buffered access, and the rest of its walk.
spec fn stream_of(pending: Option<Emitted>, rest: Walk) -> Stream {
    match pending {
        Some(access) => Stream {
            emitted: seq![access] + rest.emitted,
            error: Stream::of(rest).error,
        },
        None => Stream::of(rest),
    }
}

impl<'a, 'r> View for Interleaver<'a, 'r> {
    type V = Merge;

    closed spec fn view(&self) -> Merge {
        Merge {
            streams: Seq::new(
                self.cursors@.len(),
                |tid: int| stream_of(self.pending@[tid], self.cursors@[tid].rest()),
            ),
            live: self.live@,
            scheduler: self.scheduler,
            seed: self.seed,
            word_pos: self.word_pos,
            last: self.last,
            burst: self.burst,
        }
    }
}

/// The streams of cursors that have not been started.
pub open spec fn streams_of(cursors: Seq<Cursor>) -> Seq<Stream> {
    cursors.map_values(|cursor: Cursor| Stream::of(cursor.rest()))
}

/// The threads with accesses, in order.
pub open spec fn live_among(streams: Seq<Stream>) -> Seq<u32>
    decreases streams.len(),
{
    if streams.len() == 0 {
        Seq::empty()
    } else {
        let before = live_among(streams.drop_last());
        if streams.last().emitted.len() > 0 {
            before.push((streams.len() - 1) as u32)
        } else {
            before
        }
    }
}

/// The error of the first thread that fails before its first access.
pub open spec fn first_failure(streams: Seq<Stream>) -> Option<Error>
    decreases streams.len(),
{
    if streams.len() == 0 {
        None
    } else {
        match first_failure(streams.drop_last()) {
            Some(error) => Some(error),
            None => if streams.last().emitted.len() == 0 {
                streams.last().error
            } else {
                None
            },
        }
    }
}

/// The state of a merge that has not been started.
pub open spec fn fresh(streams: Seq<Stream>, scheduler: Scheduler, seed: u64) -> Merge {
    Merge {
        streams,
        live: live_among(streams),
        scheduler,
        seed,
        word_pos: 0,
        last: None,
        burst: None,
    }
}

impl<'a, 'r> Interleaver<'a, 'r> {
    pub closed spec fn wf(&self) -> bool {
        &&& self@.wf()
        &&& self.pending@.len() == self.cursors@.len()
        &&& forall|tid: int|
            0 <= tid < self.cursors@.len() ==> (#[trigger] self.cursors@[tid]).wf()
        &&& forall|tid: int|
            0 <= tid < self.cursors@.len() && (#[trigger] self.pending@[tid]) is None
                ==> self.cursors@[tid].rest().emitted.len() == 0
    }

    /// What every user of a well-formed interleaver may rely on.
    pub proof fn lemma_wf(&self)
        requires
            self.wf(),
        ensures
            self@.wf(),
    {
    }

    /// A merge of the streams of some cursors, or the error of the first thread
    /// that fails before its first access.
    pub fn new(cursors: Vec<Cursor<'a, 'r>>, scheduler: Scheduler, seed: u64) -> (interleaver:
        Result<Self, Error>)
        requires
            cursors@.len() <= u32::MAX,
            forall|tid: int| 0 <= tid < cursors@.len() ==> (#[trigger] cursors@[tid]).wf(),
        ensures
            match first_failure(streams_of(cursors@)) {
                Some(error) => interleaver matches Err(found) && found == error,
                None => interleaver matches Ok(interleaver) && interleaver.wf() && interleaver@
                    == fresh(streams_of(cursors@), scheduler, seed),
            },
    {
        let ghost streams = streams_of(cursors@);
        let ghost given = cursors@;
        let mut walks: Vec<Cursor<'a, 'r>> = cursors;
        let mut pending: Vec<Option<Emitted>> = Vec::new();
        let mut live: Vec<u32> = Vec::new();
        let mut tid: usize = 0;
        while tid < walks.len()
            invariant
                tid <= walks@.len() == given.len(),
                given.len() <= u32::MAX,
                given == cursors@,
                streams == streams_of(given),
                pending@.len() == tid,
                forall|t: int| 0 <= t < walks@.len() ==> (#[trigger] walks@[t]).wf(),
                forall|t: int| tid <= t < walks@.len() ==> #[trigger] walks@[t] == given[t],
                forall|t: int|
                    0 <= t < tid ==> stream_of(#[trigger] pending@[t], walks@[t].rest())
                        == streams[t],
                forall|t: int|
                    0 <= t < tid && (#[trigger] pending@[t]) is None
                        ==> walks@[t].rest().emitted.len() == 0,
                live@ == live_among(streams.take(tid as int)),
                first_failure(streams.take(tid as int)) is None,
            decreases walks@.len() - tid,
        {
            let ghost before = walks@;
            let ghost earlier = pending@;
            proof {
                assert(streams.take(tid + 1).drop_last() =~= streams.take(tid as int));
                assert(walks@[tid as int] == given[tid as int]);
                assert(streams[tid as int] == Stream::of(given[tid as int].rest()));
            }
            match walks[tid].next_access() {
                Err(error) => {
                    proof {
                        lemma_first_failure(streams, tid + 1);
                    }
                    return Err(error);
                },
                Ok(next) => {
                    pending.push(next);
                    if next.is_some() {
                        live.push(tid as u32);
                    }
                    proof {
                        let stream = streams[tid as int];
                        if next is Some {
                            assert(seq![next->0] + stream.emitted.skip(1) =~= stream.emitted);
                        }
                        assert forall|t: int| 0 <= t < tid + 1 implies stream_of(
                            #[trigger] pending@[t],
                            walks@[t].rest(),
                        ) == streams[t] by {
                            if t < tid {
                                assert(pending@[t] == earlier[t]);
                                assert(walks@[t] == before[t]);
                            }
                        }
                    }
                },
            }
            tid += 1;
        }
        assert(streams.take(tid as int) =~= streams);
        let interleaver = Interleaver {
            cursors: walks,
            pending,
            live,
            scheduler,
            seed,
            word_pos: 0,
            last: None,
            burst: None,
        };
        proof {
            assert(interleaver@.streams =~= streams);
            lemma_live_among(streams);
            lemma_no_failure(streams);
        }
        Ok(interleaver)
    }

    /// The seed of the generator.
    pub fn seed(&self) -> (seed: u64)
        ensures
            seed == self@.seed,
    {
        self.seed
    }

    /// The word position of the generator.
    pub fn word_pos(&self) -> (word_pos: u128)
        ensures
            word_pos == self@.word_pos,
    {
        self.word_pos
    }

    /// The threads that have work left, in the order in which they are chosen
    /// from.
    pub fn live(&self) -> (live: &Vec<u32>)
        ensures
            live@ == self@.live,
    {
        &self.live
    }

    /// Draws a position among the live threads uniformly at random.
    pub fn draw(&mut self) -> (position: usize)
        requires
            old(self).wf(),
            old(self)@.live.len() > 0,
        ensures
            final(self).wf(),
            (position as int, final(self)@) == old(self)@.drawn(),
            position < old(self)@.live.len(),
    {
        let (position, word_pos): (usize, u128) = draw_below(
            self.seed,
            self.word_pos,
            self.live.len(),
        );
        self.word_pos = word_pos;
        assert(self@.streams =~= old(self)@.streams);
        position
    }

    /// The next access of the live thread at a position.
    fn take_at(&mut self, position: usize) -> (taken: Result<(u32, Emitted), Error>)
        requires
            old(self).wf(),
        ensures
            final(self).wf() || taken is Err,
            match old(self)@.take(position as int) {
                Ok((event, merge)) => taken == Ok::<(u32, Emitted), Error>(event) && final(self)@
                    == merge,
                Err(error) => taken == Err::<(u32, Emitted), Error>(error),
            },
    {
        let ghost before = *self;
        if position >= self.live.len() {
            return Err(Error::BadChoice { position, live: self.live.len() });
        }
        let tid: u32 = self.live[position];
        let thread: usize = tid as usize;
        assert(self@.live.contains(tid));
        assert(self@.streams[tid as int].emitted.len() > 0);
        let access: Emitted = match self.pending[thread] {
            Some(access) => access,
            None => {
                assert(false);
                return Err(Error::UnknownSite);
            },
        };
        let ghost stream = before@.streams[tid as int];
        assert(stream.emitted.skip(1) =~= before.cursors@[tid as int].rest().emitted);
        match self.cursors[thread].next_access() {
            Err(error) => {
                return Err(error);
            },
            Ok(Some(next)) => {
                self.pending[thread] = Some(next);
                proof {
                    assert(seq![next] + stream.emitted.skip(2) =~= stream.emitted.skip(1));
                    assert(stream.emitted.skip(1).skip(1) =~= stream.emitted.skip(2));
                }
            },
            Ok(None) => {
                self.pending[thread] = None;
                let _ = self.live.swap_remove(position);
                match self.burst {
                    Some((current, _)) => {
                        if current == tid {
                            self.burst = None;
                        }
                    },
                    None => {},
                }
            },
        }
        self.last = Some(tid);
        proof {
            let merge = before@.take(position as int)->Ok_0.1;
            assert(self@.streams =~= merge.streams);
            lemma_take_wf(before@, position as int);
        }
        Ok((tid, access))
    }

    /// Picks a position among the live threads, or says what is needed for it.
    fn choose_thread(&mut self) -> (choice: Choice)
        requires
            old(self).wf(),
            old(self)@.live.len() > 0,
        ensures
            final(self).wf(),
            final(self)@ == old(self)@.pick().1,
            match old(self)@.pick().0 {
                Pick::At(position) => choice matches Choice::At(found) && found == position,
                Pick::Weigh => choice is Weigh,
                Pick::Run(position) => choice matches Choice::Run(found) && found == position,
            },
            old(self)@.picks_in_range(),
    {
        match self.scheduler {
            Scheduler::Uniform => Choice::At(self.draw()),
            Scheduler::RoundRobin => {
                Choice::At(self.place_in_turn())
            },
            Scheduler::SkewedSpeed => Choice::Weigh,
            Scheduler::Burst => {
                match self.burst {
                    Some((tid, remaining)) => {
                        if remaining > 0 {
                            match self.place_of(tid) {
                                Some(position) => {
                                    self.burst = Some((tid, remaining - 1));
                                    assert(self@.streams =~= old(self)@.streams);
                                    return Choice::At(position);
                                },
                                None => {},
                            }
                        }
                    },
                    None => {},
                }
                Choice::Run(self.draw())
            },
        }
    }

    /// The position of the live thread whose turn it is in lockstep.
    fn place_in_turn(&self) -> (place: usize)
        requires
            self.wf(),
            self@.live.len() > 0,
        ensures
            place < self@.live.len(),
            place == self@.live.index_of(in_turn(self@.live, self@.last)),
    {
        let mut best: usize = 0;
        let mut at: usize = 1;
        while at < self.live.len()
            invariant
                self.wf(),
                best < at <= self.live@.len(),
                forall|i: int|
                    0 <= i < at ==> turn(self.last, self.live@[best as int]) <= turn(
                        self.last,
                        #[trigger] self.live@[i],
                    ),
            decreases self.live@.len() - at,
        {
            if self.turn_of(self.live[at]) < self.turn_of(self.live[best]) {
                best = at;
            }
            at += 1;
        }
        proof {
            let (live, tid) = (self.live@, self.live@[best as int]);
            assert(live.contains(tid));
            assert forall|other: u32| #[trigger] live.contains(other) implies turn(self.last, tid)
                <= turn(self.last, other) by {
                let i = live.index_of(other);
                assert(live[i] == other);
            }
            assert(has_turn(live, self.last, tid));
            lemma_in_turn(live, self.last);
            let place = live.index_of(tid);
            assert(live[place] == tid);
        }
        best
    }

    /// When a thread's turn comes.
    fn turn_of(&self, tid: u32) -> (moment: u64)
        ensures
            moment == turn(self.last, tid),
    {
        match self.last {
            Some(last) => if tid <= last {
                tid as u64 + 0x1_0000_0000
            } else {
                tid as u64
            },
            None => tid as u64,
        }
    }

    /// The position of a thread among the live ones.
    fn place_of(&self, tid: u32) -> (place: Option<usize>)
        requires
            self.wf(),
        ensures
            place is Some <==> self@.live.contains(tid),
            place matches Some(place) ==> place == self@.live.index_of(tid) && place
                < self@.live.len(),
    {
        let mut at: usize = 0;
        while at < self.live.len()
            invariant
                self.wf(),
                at <= self.live@.len(),
                forall|i: int| 0 <= i < at ==> self.live@[i] != tid,
            decreases self.live@.len() - at,
        {
            if self.live[at] == tid {
                proof {
                    assert(self.live@.contains(tid));
                    let place = self.live@.index_of(tid);
                    assert(self.live@[place] == tid);
                }
                return Some(at);
            }
            at += 1;
        }
        None
    }

    /// Yields the next access in the merged order, or what is needed to go on.
    pub fn next_access(&mut self) -> (step: Result<Step, Error>)
        requires
            old(self).wf(),
        ensures
            final(self).wf() || step is Err,
            old(self)@.live.len() > 0 ==> old(self)@.picks_in_range(),
            ({
                let merge = old(self)@;
                if merge.live.len() == 0 {
                    step matches Ok(Step::Drained) && final(self)@ == merge
                } else {
                    match merge.pick() {
                        (Pick::At(position), picked) => match picked.take(position) {
                            Ok((event, after)) => step matches Ok(Step::Access(tid, access))
                                && event == (tid, access) && final(self)@ == after,
                            Err(error) => step == Err::<Step, Error>(error),
                        },
                        (Pick::Weigh, picked) => step matches Ok(Step::Weigh) && final(self)@
                            == picked,
                        (Pick::Run(position), picked) => step matches Ok(Step::Run(found)) && found
                            == position && final(self)@ == picked,
                    }
                }
            }),
    {
        if self.live.len() == 0 {
            return Ok(Step::Drained);
        }
        match self.choose_thread() {
            Choice::At(position) => match self.take_at(position) {
                Ok((tid, access)) => Ok(Step::Access(tid, access)),
                Err(error) => Err(error),
            },
            Choice::Weigh => Ok(Step::Weigh),
            Choice::Run(position) => Ok(Step::Run(position)),
        }
    }

    /// Answers [`Step::Weigh`]: the next access of the live thread at the
    /// position that was chosen, with the generator left at `word_pos`.
    pub fn take(&mut self, position: usize, word_pos: u128) -> (taken: Result<
        (u32, Emitted),
        Error,
    >)
        requires
            old(self).wf(),
        ensures
            final(self).wf() || taken is Err,
            match (Merge { word_pos, ..old(self)@ }).take(position as int) {
                Ok((event, merge)) => taken == Ok::<(u32, Emitted), Error>(event) && final(self)@
                    == merge,
                Err(error) => taken == Err::<(u32, Emitted), Error>(error),
            },
    {
        self.word_pos = word_pos;
        assert(self@.streams =~= old(self)@.streams);
        self.take_at(position)
    }

    /// Answers [`Step::Run`]: grants the live thread at the position a run of
    /// the given length, and yields its next access.
    pub fn take_run(&mut self, position: usize, run: u64, word_pos: u128) -> (taken: Result<
        (u32, Emitted),
        Error,
    >)
        requires
            old(self).wf(),
        ensures
            final(self).wf() || taken is Err,
            match (Merge { word_pos, ..old(self)@ }).with_run(position as int, run).take(
                position as int,
            ) {
                Ok((event, merge)) => taken == Ok::<(u32, Emitted), Error>(event) && final(self)@
                    == merge,
                Err(error) => taken == Err::<(u32, Emitted), Error>(error),
            },
    {
        if position < self.live.len() {
            let remaining: u64 = if run > 0 {
                run - 1
            } else {
                0
            };
            self.burst = Some((self.live[position], remaining));
        }
        self.word_pos = word_pos;
        assert(self@.streams =~= old(self)@.streams);
        self.take_at(position)
    }
}

proof fn lemma_first_failure(streams: Seq<Stream>, at: int)
    requires
        0 <= at <= streams.len(),
        first_failure(streams.take(at)) is Some,
    ensures
        first_failure(streams) == first_failure(streams.take(at)),
    decreases streams.len() - at,
{
    if at == streams.len() {
        assert(streams.take(at) =~= streams);
    } else {
        assert(streams.take(at + 1).drop_last() =~= streams.take(at));
        lemma_first_failure(streams, at + 1);
    }
}

pub proof fn lemma_no_failure(streams: Seq<Stream>)
    requires
        first_failure(streams) is None,
    ensures
        forall|tid: int|
            0 <= tid < streams.len() && (#[trigger] streams[tid]).emitted.len() == 0
                ==> streams[tid].error is None,
    decreases streams.len(),
{
    if streams.len() > 0 {
        lemma_no_failure(streams.drop_last());
        assert forall|tid: int|
            0 <= tid < streams.len() && (#[trigger] streams[tid]).emitted.len()
                == 0 implies streams[tid].error is None by {
            if tid < streams.len() - 1 {
                assert(streams.drop_last()[tid] == streams[tid]);
            }
        }
    }
}

pub proof fn lemma_live_among(streams: Seq<Stream>)
    requires
        streams.len() <= u32::MAX,
    ensures
        live_among(streams).no_duplicates(),
        live_among(streams).len() <= streams.len(),
        forall|tid: u32| #[trigger]
            live_among(streams).contains(tid) <==> tid < streams.len()
                && streams[tid as int].emitted.len() > 0,
    decreases streams.len(),
{
    if streams.len() > 0 {
        let rest = streams.drop_last();
        lemma_live_among(rest);
        let (before, now) = (live_among(rest), live_among(streams));
        let last = (streams.len() - 1) as u32;
        assert forall|tid: u32| #[trigger] now.contains(tid) <==> tid < streams.len()
            && streams[tid as int].emitted.len() > 0 by {
            if now.contains(tid) {
                let i = choose|i: int| 0 <= i < now.len() && now[i] == tid;
                if i < before.len() {
                    assert(before[i] == tid);
                    assert(before.contains(tid));
                }
            }
            if tid < streams.len() && streams[tid as int].emitted.len() > 0 {
                if tid == last {
                    assert(now[before.len() as int] == tid);
                } else {
                    assert(rest[tid as int] == streams[tid as int]);
                    assert(before.contains(tid));
                    let i = choose|i: int| 0 <= i < before.len() && before[i] == tid;
                    assert(now[i] == tid);
                }
            }
        }
        assert(!before.contains(last));
        assert(now.no_duplicates());
    }
}

/// Taking an access keeps the live list right.
pub proof fn lemma_take_wf(merge: Merge, position: int)
    requires
        merge.wf(),
        merge.take(position) is Ok,
    ensures
        merge.take(position)->Ok_0.1.wf(),
{
    let now = merge.take(position)->Ok_0.1;
    let tid = merge.live[position];
    assert(merge.live.contains(tid));
    lemma_without(merge.live, position);
    assert forall|other: u32| #[trigger] now.live.contains(other) <==> other < now.streams.len()
        && now.streams[other as int].emitted.len() > 0 by {
        assert(merge.live.contains(other) <==> other < merge.streams.len()
            && merge.streams[other as int].emitted.len() > 0);
    }
    assert forall|other: int|
        0 <= other < now.streams.len() && (#[trigger] now.streams[other]).emitted.len()
            == 0 implies now.streams[other].error is None by {
        assert(merge.streams[other].emitted.len() == 0 ==> merge.streams[other].error is None);
    }
}

} // verus!
