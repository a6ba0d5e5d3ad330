//! One complete sampling run.
//!
//! A run is a function of the tree and the configuration: its trace is given by
//! a spec function of the two.

use crate::address::MAX_ARRAY_DIMS;
use crate::affine_eval::Values;
use crate::binner::Binner;
use crate::error::Error;
use crate::history::{own, Event};
use crate::interleave::{
    first_failure, fresh, lemma_live_among, lemma_no_failure, streams_of, Interleaver, Merge, Pick,
    Scheduler, Step, Stream,
};
use crate::interp::Cursor;
use crate::measure::Sampler;
use crate::merging::{
    drains, law_merging_keeps_every_stream, lemma_driven_drains, lemma_events_of_threads,
};
use crate::progress::{
    choices_in_range, chooses_alone, fails_with, law_merges_end_for_a_reason, no_errors, work,
};
use crate::references::{visited, ReferenceTable, Table};
use crate::schedule::{ChunkSize, Partition};
use crate::scope::scoped;
use crate::split::{
    covered, law_threads_share_the_accesses, lemma_nothing_split, lemma_together_concat,
    lemma_together_one, lemma_together_same, of_thread, shares, together,
};
use crate::tree::Tree;
use crate::walk::{walk, Emitted, Setting};
use vstd::prelude::*;

verus! {

/// Everything that determines the outcome of a run.
#[derive(Debug)]
pub struct RunConfig {
    /// Values for the program's symbols, by symbol number.
    pub symbols: Vec<i64>,
    /// Cache block size in array elements, applied to the innermost dimension.
    pub block_size: usize,
    pub threads: u32,
    /// Nesting depth of the loop to parallelize. `None` runs the nest
    /// sequentially.
    pub parallel_depth: Option<usize>,
    pub chunk: ChunkSize,
    pub scheduler: Scheduler,
    pub seed: u64,
    pub binner: Binner,
    /// Measure exact reuse distance as well as reuse interval.
    pub track_distance: bool,
}

impl RunConfig {
    /// Sizes and counts are positive.
    pub open spec fn valid(self) -> bool {
        self.block_size > 0 && self.threads > 0 && self.chunk.valid()
    }

    /// The number of streams: sequential mode is one stream.
    pub open spec fn stream_count(self) -> u32 {
        if self.parallel_depth is Some {
            self.threads
        } else {
            1
        }
    }

    /// One thread's share of the parallel loop.
    pub open spec fn partition(self, tid: u32) -> Option<Partition> {
        match self.parallel_depth {
            Some(depth) => Some(
                Partition { depth, tid, threads: self.threads, chunk: self.chunk },
            ),
            None => None,
        }
    }

    /// What the walk of one thread depends on besides the tree and the symbols.
    pub open spec fn setting(self, table: Table, tid: u32) -> Setting {
        Setting { table, block_size: self.block_size as int, partition: self.partition(tid) }
    }

    /// The values in scope at the start.
    pub open spec fn start(self) -> Values {
        Values { ivars: Seq::empty(), symbols: self.symbols@ }
    }

    /// The streams of all threads.
    pub open spec fn streams(self, tree: Tree, table: Table) -> Seq<Stream> {
        Seq::new(
            self.stream_count() as nat,
            |tid: int| Stream::of(walk(tree, self.start(), self.setting(table, tid as u32))),
        )
    }
}

/// Where a merge stops.
#[derive(Clone, Copy, Debug, PartialEq, Eq, Structural)]
pub enum Pause {
    /// No thread has work left.
    Drained,
    /// A live thread has to be chosen by weight.
    Weigh,
    /// The live thread at this position starts a run of a length to be given.
    Run(usize),
}

/// A merge that was driven to where it stops.
pub ghost struct Driven {
    pub events: Seq<Event>,
    pub merge: Merge,
    pub end: Result<Pause, Error>,
}

impl Driven {
    /// The same with one more event in front.
    pub open spec fn after(self, event: Event) -> Driven {
        Driven { events: seq![event] + self.events, ..self }
    }
}

/// Drives a merge to where it stops, for at most `room` accesses.
pub open spec fn driven(merge: Merge, room: nat) -> Driven
    decreases room,
{
    if merge.live.len() == 0 {
        Driven { events: Seq::empty(), merge, end: Ok(Pause::Drained) }
    } else if room == 0 {
        Driven { events: Seq::empty(), merge, end: Err(Error::TraceTooLong) }
    } else {
        match merge.pick() {
            (Pick::At(position), picked) => match picked.take(position) {
                Ok((event, next)) => driven(next, (room - 1) as nat).after(event),
                Err(error) => Driven { events: Seq::empty(), merge, end: Err(error) },
            },
            (Pick::Weigh, picked) => Driven {
                events: Seq::empty(),
                merge: picked,
                end: Ok(Pause::Weigh),
            },
            (Pick::Run(position), picked) => Driven {
                events: Seq::empty(),
                merge: picked,
                end: Ok(Pause::Run(position as usize)),
            },
        }
    }
}

/// Observes accesses in the merged order until no thread has work left or a
/// choice has to come from outside.
pub fn drive(interleaver: &mut Interleaver, sampler: &mut Sampler) -> (end: Result<Pause, Error>)
    requires
        old(interleaver).wf(),
        old(sampler).wf(),
        old(sampler).threads() == old(interleaver)@.streams.len(),
        old(sampler).history().len() <= u64::MAX,
    ensures
        final(sampler).wf(),
        final(sampler).threads() == old(sampler).threads(),
        final(sampler).references() == old(sampler).references(),
        final(sampler).bins() == old(sampler).bins(),
        final(sampler).has_distance() == old(sampler).has_distance(),
        ({
            let driven = driven(
                old(interleaver)@,
                (u64::MAX - old(sampler).history().len()) as nat,
            );
            &&& final(sampler).history() == old(sampler).history() + driven.events
            &&& end == driven.end
            &&& end is Ok ==> final(interleaver).wf() && final(interleaver)@ == driven.merge
        }),
        choices_in_range(old(interleaver)@, (u64::MAX - old(sampler).history().len()) as nat),
        match end {
            Ok(pause) => chooses_alone(old(interleaver)@.scheduler) ==> pause == Pause::Drained,
            Err(error) => fails_with(old(interleaver)@.streams, error) || error
                == Error::TraceTooLong && work(old(interleaver)@.streams)
                + old(sampler).history().len() > u64::MAX,
        },
{
    let ghost whole = driven(interleaver@, (u64::MAX - sampler.history().len()) as nat);
    let ghost before = sampler.history();
    let ghost start = interleaver@;
    let ghost all = (u64::MAX - sampler.history().len()) as nat;
    let ghost mut seen: Seq<Event> = Seq::empty();
    proof {
        interleaver.lemma_wf();
    }
    assert(before + seen =~= before);
    assert(seen + whole.events =~= whole.events);
    loop
        invariant
            interleaver.wf(),
            sampler.wf(),
            sampler.threads() == interleaver@.streams.len(),
            sampler.history().len() <= u64::MAX,
            before == old(sampler).history(),
            sampler.history() == before + seen,
            sampler.threads() == old(sampler).threads(),
            sampler.references() == old(sampler).references(),
            sampler.bins() == old(sampler).bins(),
            sampler.has_distance() == old(sampler).has_distance(),
            whole == driven(
                old(interleaver)@,
                (u64::MAX - old(sampler).history().len()) as nat,
            ),
            ({
                let rest = driven(interleaver@, (u64::MAX - sampler.history().len()) as nat);
                &&& whole.events == seen + rest.events
                &&& whole.merge == rest.merge
                &&& whole.end == rest.end
            }),
            start == old(interleaver)@,
            start.wf(),
            all == u64::MAX - old(sampler).history().len(),
            choices_in_range(interleaver@, (u64::MAX - sampler.history().len()) as nat)
                ==> choices_in_range(start, all),
        decreases u64::MAX - sampler.history().len(),
    {
        let ghost rest = driven(interleaver@, (u64::MAX - sampler.history().len()) as nat);
        let ghost merge = interleaver@;
        assert(seen + Seq::<Event>::empty() =~= seen);
        proof {
            interleaver.lemma_wf();
        }
        if interleaver.live().len() > 0 && sampler.total_accesses() == u64::MAX {
            proof {
                law_merges_end_for_a_reason(start, all);
            }
            return Err(Error::TraceTooLong);
        }
        match interleaver.next_access() {
            Err(error) => {
                proof {
                    law_merges_end_for_a_reason(start, all);
                }
                return Err(error);
            },
            Ok(Step::Drained) => {
                proof {
                    law_merges_end_for_a_reason(start, all);
                }
                return Ok(Pause::Drained);
            },
            Ok(Step::Weigh) => {
                proof {
                    law_merges_end_for_a_reason(start, all);
                }
                return Ok(Pause::Weigh);
            },
            Ok(Step::Run(position)) => {
                proof {
                    law_merges_end_for_a_reason(start, all);
                }
                return Ok(Pause::Run(position));
            },
            Ok(Step::Access(tid, access)) => {
                proof {
                    let (pick, picked) = merge.pick();
                    let position = pick->At_0;
                    assert(merge.live.contains(merge.live[position]));
                }
                sampler.observe(tid, access);
                proof {
                    let event: Event = (tid, access);
                    let next = driven(interleaver@, (u64::MAX - sampler.history().len()) as nat);
                    assert(rest == next.after(event));
                    assert(seen + rest.events =~= seen.push(event) + next.events);
                    assert(before + seen.push(event) =~= (before + seen).push(event));
                    seen = seen.push(event);
                }
            },
        }
    }
}

/// The number of streams of a run.
pub fn stream_count(config: &RunConfig) -> (count: u32)
    ensures
        count == config.stream_count(),
{
    match config.parallel_depth {
        Some(_) => config.threads,
        None => 1,
    }
}

/// Numbers the access sites and arrays of a tree, and rejects a tree without
/// accesses or with an array of too many dimensions.
pub fn prepare(tree: &Tree) -> (table: Result<ReferenceTable, Error>)
    ensures
        match prepared(*tree) {
            Ok(view) => table matches Ok(table) && table@ == view,
            Err(error) => table matches Err(found) && found == error,
        },
{
    match ReferenceTable::build(tree) {
        Err(error) => Err(error),
        Ok(table) => {
            if table.reference_count() == 0 {
                Err(Error::NoAccesses)
            } else if table.max_rank() > MAX_ARRAY_DIMS {
                Err(Error::KernelRankTooLarge { rank: table.max_rank() })
            } else {
                Ok(table)
            }
        },
    }
}

/// The numbering of a tree that can be sampled.
pub open spec fn prepared(tree: Tree) -> Result<Table, Error> {
    match visited(tree, Table::empty()) {
        Err(error) => Err(error),
        Ok(table) => if table.sites.dom().len() == 0 {
            Err(Error::NoAccesses)
        } else if table.max_rank > MAX_ARRAY_DIMS {
            Err(Error::KernelRankTooLarge { rank: table.max_rank as usize })
        } else {
            Ok(table)
        },
    }
}

/// One cursor per stream.
pub fn cursors<'a, 'r>(
    tree: &'a Tree,
    table: &'r ReferenceTable,
    config: &RunConfig,
) -> (cursors: Vec<Cursor<'a, 'r>>)
    requires
        config.valid(),
    ensures
        streams_of(cursors@) == config.streams(*tree, table@),
        forall|tid: int| 0 <= tid < cursors@.len() ==> (#[trigger] cursors@[tid]).wf(),
{
    let threads: u32 = stream_count(config);
    let mut cursors: Vec<Cursor<'a, 'r>> = Vec::new();
    let mut tid: u32 = 0;
    while tid < threads
        invariant
            config.valid(),
            threads == config.stream_count(),
            tid <= threads,
            cursors@.len() == tid,
            forall|t: int|
                0 <= t < tid ==> (#[trigger] cursors@[t]).wf() && cursors@[t].rest() == walk(
                    *tree,
                    config.start(),
                    config.setting(table@, t as u32),
                ),
        decreases threads - tid,
    {
        let partition: Option<Partition> = match config.parallel_depth {
            Some(depth) => Some(
                Partition { depth, tid, threads: config.threads, chunk: config.chunk },
            ),
            None => None,
        };
        let symbols: Vec<i64> = config.symbols.clone();
        cursors.push(Cursor::new(tree, table, symbols, config.block_size, partition));
        tid += 1;
    }
    assert(streams_of(cursors@) =~= config.streams(*tree, table@));
    cursors
}

/// The trace of a run, or its error.
pub open spec fn trace_of(tree: Tree, config: RunConfig) -> Result<Seq<Event>, Error> {
    match prepared(tree) {
        Err(error) => Err(error),
        Ok(table) => {
            let streams = config.streams(tree, table);
            match first_failure(streams) {
                Some(error) => Err(error),
                None => {
                    let driven = driven(
                        fresh(streams, config.scheduler, config.seed),
                        u64::MAX as nat,
                    );
                    match driven.end {
                        Ok(Pause::Drained) => Ok(driven.events),
                        Ok(_) => Err(Error::OutsideChoice),
                        Err(error) => Err(error),
                    }
                },
            }
        },
    }
}

/// The outcome of a run: a sampler that observed its trace, or its error.
pub open spec fn samples(tree: Tree, config: RunConfig, outcome: Result<Sampler, Error>) -> bool {
    match trace_of(tree, config) {
        Ok(trace) => {
            &&& outcome matches Ok(sampler)
            &&& sampler.wf()
            &&& sampler.history() == trace
            &&& sampler.threads() == config.stream_count()
            &&& prepared(tree) matches Ok(table) && sampler.references() == table.sites.dom().len()
            &&& sampler.bins() == config.binner
            &&& sampler.has_distance() == config.track_distance
        },
        Err(error) => outcome matches Err(found) && found == error,
    }
}

/// The configurations are equal, field by field.
pub open spec fn same_config(left: RunConfig, right: RunConfig) -> bool {
    &&& left.symbols@ == right.symbols@
    &&& left.block_size == right.block_size
    &&& left.threads == right.threads
    &&& left.parallel_depth == right.parallel_depth
    &&& left.chunk == right.chunk
    &&& left.scheduler == right.scheduler
    &&& left.seed == right.seed
    &&& left.binner == right.binner
    &&& left.track_distance == right.track_distance
}

/// Running again with an equal configuration reproduces the outcome: the same
/// error, or the same trace and every statistic of it, also where the
/// reuse-distance index ran out of room.
pub proof fn law_runs_are_reproducible(
    tree: Tree,
    configs: (RunConfig, RunConfig),
    outcomes: (Result<Sampler, Error>, Result<Sampler, Error>),
)
    requires
        same_config(configs.0, configs.1),
        samples(tree, configs.0, outcomes.0),
        samples(tree, configs.1, outcomes.1),
    ensures
        match outcomes {
            (Ok(left), Ok(right)) => {
                &&& left.history() == right.history()
                &&& left.bins() == right.bins()
                &&& left.statistics() == right.statistics()
            },
            (Err(left), Err(right)) => left == right,
            _ => false,
        },
{
    if let Ok(table) = prepared(tree) {
        let (left, right) = (configs.0.streams(tree, table), configs.1.streams(tree, table));
        assert forall|tid: int| 0 <= tid < left.len() implies left[tid] == right[tid] by {
            assert(configs.0.start() == configs.1.start());
        }
        assert(left =~= right);
    }
    assert(trace_of(tree, configs.0) == trace_of(tree, configs.1));
}

/// A run owes its sampler: the nest can be sampled, the scheduler makes its
/// choices without help, no walk fails, and 64 bits count the accesses.
pub open spec fn succeeds(tree: Tree, config: RunConfig) -> bool {
    &&& prepared(tree) matches Ok(table) && no_errors(config.streams(tree, table)) && work(
        config.streams(tree, table),
    ) <= u64::MAX
    &&& chooses_alone(config.scheduler)
}

/// Why a run has an error: the nest cannot be sampled, a walk fails, the
/// scheduler needs choices from outside, or there are too many accesses.
pub open spec fn explains(tree: Tree, config: RunConfig, error: Error) -> bool {
    match prepared(tree) {
        Err(found) => error == found,
        Ok(table) => {
            let streams = config.streams(tree, table);
            ||| fails_with(streams, error)
            ||| error == Error::OutsideChoice && !chooses_alone(config.scheduler)
            ||| error == Error::TraceTooLong && work(streams) > u64::MAX
        },
    }
}

/// Runs one sample to completion. A scheduler that needs choices from outside
/// has to be driven step by step instead.
pub fn run(tree: &Tree, config: &RunConfig) -> (sampler: Result<Sampler, Error>)
    requires
        config.valid(),
    ensures
        samples(*tree, *config, sampler),
        succeeds(*tree, *config) ==> sampler is Ok,
        sampler matches Err(error) ==> explains(*tree, *config, error),
        prepared(*tree) matches Ok(table) ==> {
            let streams = config.streams(*tree, table);
            first_failure(streams) is None ==> choices_in_range(
                fresh(streams, config.scheduler, config.seed),
                u64::MAX as nat,
            )
        },
{
    let table: ReferenceTable = match prepare(tree) {
        Ok(table) => table,
        Err(error) => {
            return Err(error);
        },
    };
    let cursors: Vec<Cursor> = cursors(tree, &table, config);
    proof {
        let streams = config.streams(*tree, table@);
        if let Some(error) = first_failure(streams) {
            lemma_failure_fails(streams, error);
        }
    }
    let mut sampler: Sampler = Sampler::new(
        stream_count(config) as usize,
        table.reference_count(),
        config.binner,
        config.track_distance,
    );
    assert(streams_of(cursors@).len() == cursors@.len());
    let mut interleaver: Interleaver = match Interleaver::new(
        cursors,
        config.scheduler,
        config.seed,
    ) {
        Ok(interleaver) => interleaver,
        Err(error) => {
            return Err(error);
        },
    };
    match drive(&mut interleaver, &mut sampler) {
        Err(error) => Err(error),
        Ok(Pause::Drained) => {
            proof {
                let driven = driven(
                    fresh(config.streams(*tree, table@), config.scheduler, config.seed),
                    u64::MAX as nat,
                );
                assert(Seq::<Event>::empty() + driven.events =~= driven.events);
            }
            Ok(sampler)
        },
        Ok(_) => Err(Error::OutsideChoice),
    }
}

/// The events of a run that came to its end. Where the scheduler asks for
/// choices, these are the events of some choices.
pub open spec fn completes(tree: Tree, config: RunConfig, events: Seq<Event>) -> bool {
    &&& prepared(tree) matches Ok(table) && first_failure(config.streams(tree, table)) is None
    &&& drains(
        fresh(config.streams(tree, prepared(tree)->Ok_0), config.scheduler, config.seed),
        events,
    )
}

/// A run without choices from outside comes to its end.
pub proof fn law_runs_complete(tree: Tree, config: RunConfig)
    requires
        trace_of(tree, config) is Ok,
    ensures
        completes(tree, config, trace_of(tree, config)->Ok_0),
{
    let streams = config.streams(tree, prepared(tree)->Ok_0);
    lemma_driven_drains(fresh(streams, config.scheduler, config.seed), u64::MAX as nat);
}

/// The accesses of a trace.
pub open spec fn accesses(trace: Seq<Event>) -> Seq<Emitted> {
    trace.map_values(|event: Event| event.1)
}

/// The events of a trace are the events of its threads.
proof fn lemma_by_thread(trace: Seq<Event>, count: nat)
    requires
        count <= u32::MAX,
        forall|i: int| 0 <= i < trace.len() ==> (#[trigger] trace[i]).0 < count,
    ensures
        together(count, |tid: u32| accesses(own(trace, tid))) =~= accesses(trace).to_multiset(),
    decreases trace.len(),
{
    let all = |tid: u32| accesses(own(trace, tid));
    if trace.len() == 0 {
        assert forall|tid: u32| tid < count implies #[trigger] all(tid) == Seq::<
            Emitted,
        >::empty() by {
            assert(all(tid) =~= Seq::empty());
        }
        lemma_nothing_split(count, all);
        assert(accesses(trace) =~= Seq::empty());
    } else {
        let rest = trace.drop_last();
        let event = trace.last();
        let before = |tid: u32| accesses(own(rest, tid));
        let last = |tid: u32|
            if tid == event.0 {
                seq![event.1]
            } else {
                Seq::empty()
            };
        assert forall|i: int| 0 <= i < rest.len() implies (#[trigger] rest[i]).0 < count by {
            assert(rest[i] == trace[i]);
        }
        lemma_by_thread(rest, count);
        assert forall|tid: u32| tid < count implies #[trigger] all(tid) == before(tid) + last(
            tid,
        ) by {
            assert(all(tid) =~= before(tid) + last(tid));
        }
        lemma_together_concat(count, all, before, last);
        lemma_together_one(count, last, event.0, seq![event.1]);
        vstd::seq_lib::lemma_multiset_commutative(accesses(rest), seq![event.1]);
        assert(accesses(trace) =~= accesses(rest) + seq![event.1]);
        assert(trace[trace.len() - 1].0 < count);
    }
}

/// The state that a run starts from is well formed.
pub proof fn lemma_fresh_wf(streams: Seq<Stream>, scheduler: Scheduler, seed: u64)
    requires
        streams.len() <= u32::MAX,
        first_failure(streams) is None,
    ensures
        fresh(streams, scheduler, seed).wf(),
{
    lemma_live_among(streams);
    lemma_no_failure(streams);
}

/// The first failure is a failure.
proof fn lemma_failure_fails(streams: Seq<Stream>, error: Error)
    requires
        first_failure(streams) == Some(error),
    ensures
        fails_with(streams, error),
    decreases streams.len(),
{
    let rest = streams.drop_last();
    if first_failure(rest) is Some {
        lemma_failure_fails(rest, error);
        let tid = choose|tid: int|
            0 <= tid < rest.len() && (#[trigger] rest[tid]).error == Some(error);
        assert(streams[tid].error == Some(error));
    } else {
        assert(streams[streams.len() - 1].error == Some(error));
    }
}

/// What a completed run says of its streams: every access of every stream, and
/// no error.
proof fn lemma_completed(tree: Tree, config: RunConfig, trace: Seq<Event>)
    requires
        config.valid(),
        completes(tree, config, trace),
    ensures
        ({
            let streams = config.streams(tree, prepared(tree)->Ok_0);
            &&& together(
                config.stream_count() as nat,
                |tid: u32| streams[tid as int].emitted,
            ) == accesses(trace).to_multiset()
            &&& forall|tid: int|
                0 <= tid < streams.len() ==> (#[trigger] streams[tid]).error is None
        }),
{
    let streams = config.streams(tree, prepared(tree)->Ok_0);
    let count = config.stream_count() as nat;
    let merge = fresh(streams, config.scheduler, config.seed);
    let all = |tid: u32| streams[tid as int].emitted;
    let own_all = |tid: u32| accesses(own(trace, tid));
    lemma_fresh_wf(streams, config.scheduler, config.seed);
    lemma_events_of_threads(merge, trace);
    lemma_by_thread(trace, count);
    assert forall|tid: u32| tid < count implies #[trigger] all(tid) == own_all(tid) by {
        law_merging_keeps_every_stream(merge, trace, tid);
    }
    lemma_together_same(count, all, own_all);
    assert forall|tid: int| 0 <= tid < streams.len() implies (
    #[trigger] streams[tid]).error is None by {
        law_merging_keeps_every_stream(merge, trace, tid as u32);
    }
}

/// Parallelizing a loop changes the order of the accesses and nothing else: a
/// parallel run makes the accesses of the sequential run, each as often.
///
/// Every access has to lie inside the parallel loop, since every thread repeats
/// what stands outside it.
pub proof fn law_parallel_run_makes_the_same_accesses(
    tree: Tree,
    parallel: RunConfig,
    sequential: RunConfig,
    interleaved: Seq<Event>,
    trace: Seq<Event>,
)
    requires
        parallel.valid(),
        sequential.valid(),
        parallel.parallel_depth is Some,
        sequential.parallel_depth is None,
        parallel.symbols@ == sequential.symbols@,
        parallel.block_size == sequential.block_size,
        scoped(tree, Set::empty()),
        covered(tree, parallel.parallel_depth->0),
        completes(tree, parallel, interleaved),
        completes(tree, sequential, trace),
    ensures
        accesses(interleaved).to_multiset() == accesses(trace).to_multiset(),
        interleaved.len() == trace.len(),
{
    let table = prepared(tree)->Ok_0;
    let env = sequential.start();
    let setting = sequential.setting(table, 0);
    let depth = parallel.parallel_depth->0;
    let partition = Partition {
        depth,
        tid: 0,
        threads: parallel.threads,
        chunk: parallel.chunk,
    };
    let (left, right) = (parallel.streams(tree, table), sequential.streams(tree, table));
    let count = parallel.threads as nat;
    lemma_completed(tree, parallel, interleaved);
    lemma_completed(tree, sequential, trace);
    let alone = |tid: u32| right[tid as int].emitted;
    let dealt = |tid: u32| left[tid as int].emitted;
    assert(right[0].error is None);
    lemma_together_one(1, alone, 0, walk(tree, env, setting).emitted);
    assert forall|tid: u32| tid < count implies left[tid as int] == Stream::of(
        #[trigger] walk(tree, env, of_thread(setting, partition, tid)),
    ) by {
        assert(of_thread(setting, partition, tid) == parallel.setting(table, tid));
        assert(env == parallel.start());
    }
    assert forall|tid: u32| tid < partition.threads implies (#[trigger] walk(
        tree,
        env,
        of_thread(setting, partition, tid),
    )).stop is Ok by {
        assert(left[tid as int].error is None);
    }
    law_threads_share_the_accesses(tree, env, setting, partition, Set::empty());
    lemma_together_same(count, dealt, shares(tree, env, setting, partition));
    let (a, b) = (accesses(interleaved), accesses(trace));
    a.to_multiset_ensures();
    b.to_multiset_ensures();
}

/// The events of one thread.
pub open spec fn single_thread(emitted: Seq<Emitted>) -> Seq<Event> {
    emitted.map_values(|access: Emitted| (0u32, access))
}

/// A sequential run observes the accesses of the walk over the nest, in their
/// order.
pub proof fn law_sequential_run_is_the_walk(tree: Tree, config: RunConfig, trace: Seq<Event>)
    requires
        config.valid(),
        config.parallel_depth is None,
        completes(tree, config, trace),
    ensures
        ({
            let walk = walk(tree, config.start(), config.setting(prepared(tree)->Ok_0, 0));
            &&& walk.stop is Ok
            &&& trace == single_thread(walk.emitted)
        }),
{
    let streams = config.streams(tree, prepared(tree)->Ok_0);
    let merge = fresh(streams, config.scheduler, config.seed);
    lemma_fresh_wf(streams, config.scheduler, config.seed);
    lemma_events_of_threads(merge, trace);
    law_merging_keeps_every_stream(merge, trace, 0);
    lemma_own_is_all(trace);
    assert(trace =~= single_thread(streams[0].emitted)) by {
        let mine = own(trace, 0).map_values(|event: Event| event.1);
        assert forall|i: int| 0 <= i < trace.len() implies trace[i] == single_thread(
            streams[0].emitted,
        )[i] by {
            assert(mine[i] == trace[i].1);
            assert(trace[i].0 == 0);
        }
    }
}

/// A sequential run owes its sampler where the walk over the nest does not fail
/// and 64 bits count its accesses.
pub proof fn law_sequential_run_succeeds(tree: Tree, config: RunConfig)
    requires
        config.parallel_depth is None,
        chooses_alone(config.scheduler),
        prepared(tree) is Ok,
        ({
            let walk = walk(tree, config.start(), config.setting(prepared(tree)->Ok_0, 0));
            walk.stop is Ok && walk.emitted.len() <= u64::MAX
        }),
    ensures
        succeeds(tree, config),
{
    let streams = config.streams(tree, prepared(tree)->Ok_0);
    assert(streams.len() == 1);
    assert(work(streams.drop_last()) == 0);
}

proof fn lemma_own_is_all(trace: Seq<Event>)
    requires
        forall|i: int| 0 <= i < trace.len() ==> (#[trigger] trace[i]).0 < 1,
    ensures
        own(trace, 0) == trace,
    decreases trace.len(),
{
    if trace.len() > 0 {
        let rest = trace.drop_last();
        assert forall|i: int| 0 <= i < rest.len() implies (#[trigger] rest[i]).0 < 1 by {
            assert(rest[i] == trace[i]);
        }
        lemma_own_is_all(rest);
        assert(trace[trace.len() - 1].0 < 1);
        assert(own(trace, 0) =~= trace);
    } else {
        assert(own(trace, 0) =~= trace);
    }
}

} // verus!
