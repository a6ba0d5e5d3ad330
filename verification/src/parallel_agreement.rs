//! What the polyhedral model counts for a parallel nest is what the sampler
//! measures thread by thread.
//!
//! The model reads a parallel nest in program order, each timestamp with the
//! thread that owns it; the sampler lets the threads run against each other.
//! A thread sees its own accesses in the same order in both.

use crate::address::MAX_ARRAY_DIMS;
use crate::agreement::{
    are_stamps_of, law_timestamps_have_the_counts_of_accesses, lemma_arrays_are_told_apart,
    lemma_same_tuples, related_stamps, Meaning,
};
use crate::history::{interval, own, Event};
use crate::interleave::fresh;
use crate::meaning::{sound, timestamp_dims};
use crate::merging::{law_merging_keeps_every_stream, lemma_events_of_threads};
use crate::order::{
    as_params, below, in_scope, law_sampler_and_model_agree, lemma_plain_is_scoped, outermost,
    plain, program_order,
};
use crate::ownership::{accesses_of, labeled, law_threads_walk_in_program_order};
use crate::parallel::{agreed, loops_at};
use crate::polyhedral::{failure, max_rank_of, plans, Plan, Purpose};
use crate::reuse_relation::{is_shared, law_private_reuse_counts_the_private_interval, private};
use crate::run::{completes, lemma_fresh_wf, prepared, RunConfig};
use crate::schedule::{ChunkSize, Partition};
use crate::scope::agree;
use crate::split::{covered, of_thread};
use crate::thread_stamps::{
    lemma_agreed_all, lemma_labels_are_owners, made_by_owners, thread_of_stamp,
};
use crate::tree::Tree;
use crate::walk::walk;
use vstd::prelude::*;

verus! {

/// What timestamps stand for in the polyhedral model of a parallel nest: the
/// thread is the owner of the coordinate in the dimension of the parallel loop.
pub open spec fn parallel_meaning(
    data: Plan,
    params: Seq<int>,
    dim: int,
    chunk: int,
    threads: int,
) -> Meaning {
    Meaning {
        datum: |point: Seq<int>| data.image(params, point)->0,
        thread: |point: Seq<int>| thread_of_stamp(point, dim, chunk, threads),
    }
}

/// The partition of a parallel run.
pub open spec fn partition_of(config: RunConfig) -> Partition {
    Partition {
        depth: config.parallel_depth->0,
        tid: 0,
        threads: config.threads,
        chunk: config.chunk,
    }
}

/// The sequential walk over a nest meets no error.
pub open spec fn walks_alone(tree: Tree, config: RunConfig) -> bool {
    prepared(tree) matches Ok(table) && walk(
        tree,
        outermost(config.symbols@),
        config.setting(table, 0),
    ).stop is Ok
}

/// The events of a parallel run, a sequential run of the same nest, and the
/// plans of its polyhedral model.
pub open spec fn same_program(
    tree: Tree,
    parallel: RunConfig,
    sequential: RunConfig,
    trace: Seq<Event>,
    stamps: Plan,
    data: Plan,
    purpose: Purpose,
    dim: nat,
    chunk: int,
) -> bool {
    &&& parallel.valid()
    &&& sequential.valid()
    &&& parallel.parallel_depth is Some
    &&& sequential.parallel_depth is None
    &&& parallel.symbols@ == sequential.symbols@
    &&& parallel.block_size == sequential.block_size
    &&& parallel.block_size <= i64::MAX
    &&& parallel.chunk matches ChunkSize::Fixed(size) && size == chunk
    &&& completes(tree, parallel, trace)
    &&& walks_alone(tree, sequential)
    &&& prepared(tree)->Ok_0.names.len() <= 0x1_0000_0000
    &&& plain(tree, 0)
    &&& sound(tree, 0)
    &&& covered(tree, parallel.parallel_depth->0)
    &&& agreed(None, loops_at(tree, 0, 0, parallel.parallel_depth->0 as nat)) == Ok::<
        Option<nat>,
        (nat, nat),
    >(Some(dim))
    &&& purpose == (Purpose::Accesses {
        block_size: parallel.block_size,
        max_array_dim: max_rank_of(tree) as usize,
        num_sets: 1,
    })
    &&& max_rank_of(tree) <= MAX_ARRAY_DIMS
    &&& failure(tree, 0, Seq::empty(), Purpose::Timestamps) is None
    &&& plans(stamps, tree, 0, Seq::empty(), Purpose::Timestamps)
    &&& failure(tree, 0, Seq::empty(), purpose) is None
    &&& plans(data, tree, 0, Seq::empty(), purpose)
}

/// The accesses of the sequential run, each with the thread that makes it in a
/// parallel run.
pub open spec fn owned_trace(tree: Tree, parallel: RunConfig, sequential: RunConfig) -> Seq<Event> {
    labeled(
        tree,
        outermost(sequential.symbols@),
        sequential.setting(prepared(tree)->Ok_0, 0),
        partition_of(parallel),
    )
}

/// The timestamps of the polyhedral model, with their owners, are those of the
/// sequential run with the threads of the parallel run.
pub proof fn law_timestamps_stamp_the_owned_trace(
    tree: Tree,
    parallel: RunConfig,
    sequential: RunConfig,
    trace: Seq<Event>,
    stamps: Plan,
    data: Plan,
    purpose: Purpose,
    dim: nat,
    chunk: int,
)
    requires
        same_program(tree, parallel, sequential, trace, stamps, data, purpose, dim, chunk),
    ensures
        are_stamps_of(
            program_order(tree, sequential.symbols@),
            parallel_meaning(
                data,
                as_params(sequential.symbols@),
                dim as int,
                chunk,
                parallel.threads as int,
            ),
            owned_trace(tree, parallel, sequential),
        ),
        made_by_owners(
            owned_trace(tree, parallel, sequential),
            program_order(tree, sequential.symbols@),
            dim as int,
            chunk,
            parallel.threads as int,
        ),
{
    lemma_arrays_are_told_apart(tree);
    let symbols = sequential.symbols@;
    let table = prepared(tree)->Ok_0;
    let setting = sequential.setting(table, 0);
    let partition = partition_of(parallel);
    let params = as_params(symbols);
    let points = program_order(tree, symbols);
    let events = owned_trace(tree, parallel, sequential);
    let threads = parallel.threads as int;
    let meaning = parallel_meaning(data, params, dim as int, chunk, threads);
    let none = Seq::<int>::empty();
    assert(sequential.start() == outermost(symbols));
    law_sampler_and_model_agree(tree, symbols, setting, purpose, stamps, data);
    lemma_same_tuples(tree, symbols, setting, purpose, stamps, data);
    lemma_agreed_all(None, loops_at(tree, 0, 0, partition.depth as nat), dim);
    assert(in_scope(outermost(symbols), none, params));
    lemma_labels_are_owners(
        tree,
        outermost(symbols),
        setting,
        partition,
        none,
        none,
        params,
        timestamp_dims(tree, 0),
        purpose,
        dim as int,
        chunk,
    );
    lemma_thread_walks(tree, parallel, sequential, trace, 0);
    let accesses = walk(tree, outermost(symbols), setting).emitted;
    assert forall|i: int, j: int|
        #![trigger points[i], points[j]]
        0 <= i < points.len() && 0 <= j < points.len() implies ((meaning.datum)(points[i]) == (
    meaning.datum)(points[j]) <==> events[i].1.data == events[j].1.data) && ((meaning.thread)(
        points[i],
    ) == (meaning.thread)(points[j]) <==> events[i].0 == events[j].0) by {
        assert(accesses_of(events)[i] == accesses[i] && accesses_of(events)[j] == accesses[j]);
        assert(events[i].0 == thread_of_stamp(points[i], dim as int, chunk, threads));
        assert(events[j].0 == thread_of_stamp(points[j], dim as int, chunk, threads));
    }
}

/// The events of a thread in a parallel run are its events in the owned trace.
proof fn lemma_thread_walks(
    tree: Tree,
    parallel: RunConfig,
    sequential: RunConfig,
    trace: Seq<Event>,
    tid: u32,
)
    requires
        parallel.valid(),
        sequential.valid(),
        parallel.parallel_depth is Some,
        sequential.parallel_depth is None,
        parallel.symbols@ == sequential.symbols@,
        parallel.block_size == sequential.block_size,
        completes(tree, parallel, trace),
        walks_alone(tree, sequential),
        plain(tree, 0),
        sound(tree, 0),
        covered(tree, parallel.parallel_depth->0),
        tid < parallel.threads,
    ensures
        prepared(tree) is Ok,
        accesses_of(owned_trace(tree, parallel, sequential)) == walk(
            tree,
            outermost(sequential.symbols@),
            sequential.setting(prepared(tree)->Ok_0, 0),
        ).emitted,
        own(trace, tid) == own(
            owned_trace(tree, parallel, sequential),
            tid,
        ),
{
    let table = prepared(tree)->Ok_0;
    let env = outermost(sequential.symbols@);
    let setting = sequential.setting(table, 0);
    let partition = partition_of(parallel);
    let streams = parallel.streams(tree, table);
    let events = owned_trace(tree, parallel, sequential);
    let merge = fresh(streams, parallel.scheduler, parallel.seed);
    assert(parallel.start() == env && sequential.start() == env);
    lemma_fresh_wf(streams, parallel.scheduler, parallel.seed);
    law_merging_keeps_every_stream(merge, trace, tid);
    assert(of_thread(setting, partition, tid) == parallel.setting(table, tid));
    assert(walk(tree, env, of_thread(setting, partition, tid)).stop is Ok);
    lemma_plain_is_scoped(tree, 0);
    assert(agree(env, env, below(0)));
    law_threads_walk_in_program_order(tree, env, setting, partition, below(0), tid);
    let (left, right) = (own(trace, tid), own(events, tid));
    lemma_own_label(trace, tid);
    lemma_own_label(events, tid);
    assert(accesses_of(left) == accesses_of(right));
    assert(left.len() == accesses_of(left).len() && right.len() == accesses_of(right).len());
    assert forall|i: int| 0 <= i < left.len() implies left[i] == right[i] by {
        assert(accesses_of(left)[i] == left[i].1);
        assert(accesses_of(right)[i] == right[i].1);
        assert(left[i].0 == tid && right[i].0 == tid);
    }
    assert(left =~= right);
}

/// The events of a thread carry its number.
proof fn lemma_own_label(trace: Seq<Event>, tid: u32)
    ensures
        forall|i: int| 0 <= i < own(trace, tid).len() ==> (#[trigger] own(trace, tid)[i]).0 == tid,
    decreases trace.len(),
{
    if trace.len() > 0 {
        lemma_own_label(trace.drop_last(), tid);
        let before = own(trace.drop_last(), tid);
        assert forall|i: int| 0 <= i < own(trace, tid).len() implies (#[trigger] own(
            trace,
            tid,
        )[i]).0 == tid by {
            if i < before.len() {
                assert(own(trace, tid)[i] == before[i]);
            }
        }
    }
}

/// The events of a thread before a position come before the one at it.
proof fn lemma_own_prefix(trace: Seq<Event>, tid: u32, a: int)
    requires
        0 <= a <= trace.len(),
    ensures
        own(trace.take(a), tid).is_prefix_of(own(trace, tid)),
        a < trace.len() && trace[a].0 == tid ==> own(trace.take(a), tid).len() < own(
            trace,
            tid,
        ).len() && own(trace, tid)[own(trace.take(a), tid).len() as int] == trace[a],
    decreases trace.len() - a,
{
    if a == trace.len() {
        assert(trace.take(a) =~= trace);
    } else {
        lemma_own_prefix(trace, tid, a + 1);
        assert(trace.take(a + 1).drop_last() =~= trace.take(a));
        assert(trace.take(a + 1).last() == trace[a]);
        let (before, longer) = (own(trace.take(a), tid), own(trace.take(a + 1), tid));
        if trace[a].0 == tid {
            assert(longer == before.push(trace[a]));
            assert(longer[before.len() as int] == trace[a]);
            assert(own(trace, tid).take(longer.len() as int)[before.len() as int] == own(
                trace,
                tid,
            )[before.len() as int]);
        }
    }
}

/// The private reuse interval that the model counts for a timestamp is the one
/// that the sampler measures, in any parallel run, for the access of the
/// timestamp in the stream of the thread that makes it.
pub proof fn law_model_counts_the_private_intervals(
    tree: Tree,
    parallel: RunConfig,
    sequential: RunConfig,
    trace: Seq<Event>,
    stamps: Plan,
    data: Plan,
    purpose: Purpose,
    dim: nat,
    chunk: int,
    a: int,
)
    requires
        same_program(tree, parallel, sequential, trace, stamps, data, purpose, dim, chunk),
        0 <= a < owned_trace(tree, parallel, sequential).len(),
    ensures
        ({
            let points = program_order(tree, sequential.symbols@);
            let meaning = parallel_meaning(
                data,
                as_params(sequential.symbols@),
                dim as int,
                chunk,
                parallel.threads as int,
            );
            let (tid, access) = owned_trace(tree, parallel, sequential)[a];
            let stream = own(trace, tid);
            let at = own(owned_trace(tree, parallel, sequential).take(a), tid).len() as int;
            &&& at < stream.len()
            &&& stream[at] == (tid, access)
            &&& related_stamps(private(), points, meaning, points[a]).len() == match interval(
                stream.take(at),
                access.data,
            ) {
                Some(value) => value,
                None => 0,
            }
        }),
{
    let events = owned_trace(tree, parallel, sequential);
    let (tid, access) = events[a];
    let points = program_order(tree, sequential.symbols@);
    let meaning = parallel_meaning(
        data,
        as_params(sequential.symbols@),
        dim as int,
        chunk,
        parallel.threads as int,
    );
    law_timestamps_stamp_the_owned_trace(
        tree,
        parallel,
        sequential,
        trace,
        stamps,
        data,
        purpose,
        dim,
        chunk,
    );
    lemma_labels_are_threads(
        events,
        points,
        dim as int,
        chunk,
        parallel.threads as int,
    );
    law_timestamps_have_the_counts_of_accesses(private(), points, meaning, events, a);
    law_private_reuse_counts_the_private_interval(events, a);
    lemma_thread_walks(tree, parallel, sequential, trace, tid);
    lemma_own_prefix(events, tid, a);
    let before = own(events.take(a), tid);
    assert(own(events, tid).take(before.len() as int) =~= before);
}

/// The labels of an owned trace are threads.
proof fn lemma_labels_are_threads(
    events: Seq<Event>,
    points: Seq<Seq<int>>,
    dim: int,
    chunk: int,
    threads: int,
)
    requires
        made_by_owners(events, points, dim, chunk, threads),
        threads > 0,
    ensures
        forall|i: int| 0 <= i < events.len() ==> (#[trigger] events[i]).0 < threads,
{
    assert forall|i: int| 0 <= i < events.len() implies (#[trigger] events[i]).0 < threads by {
        let quotient = points[i][dim] / chunk;
        assert(quotient % threads < threads) by (nonlinear_arith)
            requires
                threads > 0,
        ;
    }
}

/// The events of a thread are the events of the trace that carry its number.
proof fn lemma_own_contains(trace: Seq<Event>, tid: u32, event: Event)
    ensures
        own(trace, tid).contains(event) <==> trace.contains(event) && event.0 == tid,
    decreases trace.len(),
{
    if trace.len() > 0 {
        let (rest, last) = (trace.drop_last(), trace.last());
        lemma_own_contains(rest, tid, event);
        let before = own(rest, tid);
        assert(trace =~= rest.push(last));
        if rest.contains(event) {
            let i = rest.index_of(event);
            assert(trace[i] == event);
        }
        if event == last {
            assert(trace[trace.len() - 1] == event);
        }
        if trace.contains(event) && event != last {
            let i = trace.index_of(event);
            assert(rest[i] == event);
        }
        if last.0 == tid {
            let mine = before.push(last);
            assert(own(trace, tid) == mine);
            if before.contains(event) {
                let i = before.index_of(event);
                assert(mine[i] == event);
            }
            if event == last {
                assert(mine[before.len() as int] == event);
            }
            if mine.contains(event) && event != last {
                let i = mine.index_of(event);
                assert(before[i] == event);
            }
        }
    }
}

/// The data that the model finds shared are those that several threads touch in
/// the parallel run.
pub proof fn law_model_finds_the_shared_data(
    tree: Tree,
    parallel: RunConfig,
    sequential: RunConfig,
    trace: Seq<Event>,
    stamps: Plan,
    data: Plan,
    purpose: Purpose,
    dim: nat,
    chunk: int,
    a: int,
)
    requires
        same_program(tree, parallel, sequential, trace, stamps, data, purpose, dim, chunk),
        0 <= a < owned_trace(tree, parallel, sequential).len(),
    ensures
        ({
            let (tid, access) = owned_trace(tree, parallel, sequential)[a];
            is_shared(owned_trace(tree, parallel, sequential), a) <==> exists|b: int|
                0 <= b < trace.len() && (#[trigger] trace[b]).1.data == access.data && trace[b].0
                    != tid
        }),
{
    let events = owned_trace(tree, parallel, sequential);
    let (tid, access) = events[a];
    let points = program_order(tree, sequential.symbols@);
    law_timestamps_stamp_the_owned_trace(
        tree,
        parallel,
        sequential,
        trace,
        stamps,
        data,
        purpose,
        dim,
        chunk,
    );
    lemma_labels_are_threads(events, points, dim as int, chunk, parallel.threads as int);
    let streams = parallel.streams(tree, prepared(tree)->Ok_0);
    lemma_fresh_wf(streams, parallel.scheduler, parallel.seed);
    lemma_events_of_threads(fresh(streams, parallel.scheduler, parallel.seed), trace);
    if is_shared(events, a) {
        let b = choose|b: int|
            0 <= b < events.len() && events[a].1.data == (#[trigger] events[b]).1.data
                && events[a].0 != events[b].0;
        let event = events[b];
        assert(events.contains(event));
        lemma_thread_walks(tree, parallel, sequential, trace, event.0);
        lemma_own_contains(events, event.0, event);
        lemma_own_contains(trace, event.0, event);
        let c = trace.index_of(event);
        assert(trace[c].1.data == access.data && trace[c].0 != tid);
    }
    if exists|b: int|
        0 <= b < trace.len() && (#[trigger] trace[b]).1.data == access.data && trace[b].0 != tid {
        let b = choose|b: int|
            0 <= b < trace.len() && (#[trigger] trace[b]).1.data == access.data && trace[b].0
                != tid;
        let event = trace[b];
        assert(trace.contains(event));
        lemma_thread_walks(tree, parallel, sequential, trace, event.0);
        lemma_own_contains(events, event.0, event);
        lemma_own_contains(trace, event.0, event);
        let c = events.index_of(event);
        assert(events[a].1.data == events[c].1.data && events[a].0 != events[c].0);
    }
}

} // verus!
