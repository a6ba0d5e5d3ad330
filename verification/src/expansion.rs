//! Which reuse intervals are stretched and split by other threads, and how.
//!
//! A distribution of reuse intervals lists the intervals of data that only one
//! thread touches, and behind them those of shared data. Each gives one job;
//! an interval of shared data gives one job per number of sharers where those
//! were measured.

use vstd::prelude::*;

verus! {

/// Who touches the datum of a reuse.
#[derive(Clone, Copy, Debug, PartialEq, Eq, Structural)]
pub enum JobSharing {
    /// One thread.
    Private,
    /// Several threads. Where their number was measured, the job has the share
    /// of the measurement at position `degree`.
    Shared { sharers: u32, degree: Option<usize> },
}

/// A reuse interval to be expanded, by its position in the distribution.
#[derive(Clone, Copy, Debug, PartialEq, Eq, Structural)]
pub struct Job {
    pub entry: usize,
    pub sharing: JobSharing,
}

/// The jobs of the intervals of data that one thread touches.
pub open spec fn private_jobs(count: nat) -> Seq<Job> {
    Seq::new(count, |i: int| Job { entry: i as usize, sharing: JobSharing::Private })
}

/// The jobs of `count` intervals of shared data behind `first` others.
pub open spec fn shared_jobs(first: nat, count: nat, degrees: Seq<u32>, threads: u32) -> Seq<Job> {
    if degrees.len() == 0 {
        Seq::new(
            count,
            |i: int|
                Job {
                    entry: (first + i) as usize,
                    sharing: JobSharing::Shared { sharers: threads, degree: None },
                },
        )
    } else {
        Seq::new(
            count * degrees.len(),
            |i: int|
                {
                    let at = i % degrees.len() as int;
                    Job {
                        entry: (first + i / degrees.len() as int) as usize,
                        sharing: JobSharing::Shared {
                            sharers: degrees[at],
                            degree: Some(at as usize),
                        },
                    }
                },
        )
    }
}

/// The jobs of a distribution that was derived for a number of threads: the
/// first `private` intervals are of data that one thread touches, and `shared`
/// ones follow. `degrees` are the numbers of sharers that were measured; where
/// there are none, every thread is taken to be a sharer.
pub fn expansion_jobs(private: usize, shared: usize, degrees: &Vec<u32>, threads: u32) -> (jobs: Vec<
    Job,
>)
    requires
        private + shared <= usize::MAX,
    ensures
        jobs@ == private_jobs(private as nat) + shared_jobs(
            private as nat,
            shared as nat,
            degrees@,
            threads,
        ),
{
    let mut jobs: Vec<Job> = Vec::new();
    let mut at: usize = 0;
    while at < private
        invariant
            at <= private,
            jobs@ == private_jobs(at as nat),
        decreases private - at,
    {
        jobs.push(Job { entry: at, sharing: JobSharing::Private });
        assert(jobs@ =~= private_jobs((at + 1) as nat));
        at += 1;
    }
    let ghost before = private_jobs(private as nat);
    let mut done: usize = 0;
    assert(jobs@ =~= before + shared_jobs(private as nat, 0, degrees@, threads));
    while done < shared
        invariant
            private + shared <= usize::MAX,
            done <= shared,
            jobs@ == before + shared_jobs(private as nat, done as nat, degrees@, threads),
        decreases shared - done,
    {
        let ghost earlier = jobs@;
        let ghost first = shared_jobs(private as nat, done as nat, degrees@, threads);
        let ghost all = shared_jobs(private as nat, (done + 1) as nat, degrees@, threads);
        if degrees.len() == 0 {
            let sharing: JobSharing = JobSharing::Shared { sharers: threads, degree: None };
            jobs.push(Job { entry: private + done, sharing });
            assert(jobs@ =~= before + all);
        } else {
            push_degrees(&mut jobs, private + done, degrees);
            proof {
                let count = degrees@.len() as int;
                assert((done + 1) * count == done * count + count) by (nonlinear_arith);
                assert(all.len() == first.len() + count);
                assert forall|i: int| 0 <= i < all.len() implies all[i] == (first + degree_jobs(
                    (private + done) as usize,
                    degrees@,
                    degrees@.len(),
                ))[i] by {
                    if i < first.len() {
                        assert(all[i] == first[i]);
                    } else {
                        let rest = i - done * count;
                        vstd::arithmetic::div_mod::lemma_fundamental_div_mod_converse(
                            i,
                            count,
                            done as int,
                            rest,
                        );
                    }
                }
                assert(all =~= first + degree_jobs(
                    (private + done) as usize,
                    degrees@,
                    degrees@.len(),
                ));
                assert(jobs@ =~= before + all);
            }
        }
        done += 1;
    }
    jobs
}

/// The measured numbers of sharers that count, with their positions: at least
/// two sharers, and a positive weight.
pub open spec fn usable(degrees: Seq<(u32, bool)>, count: nat) -> Seq<(usize, u32)>
    decreases count,
{
    if count == 0 {
        Seq::empty()
    } else {
        let before = usable(degrees, (count - 1) as nat);
        let (degree, positive) = degrees[count - 1];
        if degree >= 2 && positive {
            before.push(((count - 1) as usize, degree))
        } else {
            before
        }
    }
}

/// The measured numbers of sharers that count, with their positions. Each is
/// given with whether its weight is positive.
pub fn usable_degrees(degrees: &Vec<(u32, bool)>) -> (kept: Vec<(usize, u32)>)
    ensures
        kept@ == usable(degrees@, degrees@.len()),
{
    let mut kept: Vec<(usize, u32)> = Vec::new();
    let mut at: usize = 0;
    while at < degrees.len()
        invariant
            at <= degrees@.len(),
            kept@ == usable(degrees@, at as nat),
        decreases degrees@.len() - at,
    {
        let (degree, positive): (u32, bool) = degrees[at];
        if degree >= 2 && positive {
            kept.push((at, degree));
        }
        at += 1;
    }
    kept
}

/// The jobs of one interval, one per number of sharers.
pub open spec fn degree_jobs(entry: usize, degrees: Seq<u32>, count: nat) -> Seq<Job> {
    Seq::new(
        count,
        |i: int|
            Job {
                entry,
                sharing: JobSharing::Shared { sharers: degrees[i], degree: Some(i as usize) },
            },
    )
}

fn push_degrees(jobs: &mut Vec<Job>, entry: usize, degrees: &Vec<u32>)
    ensures
        final(jobs)@ == old(jobs)@ + degree_jobs(entry, degrees@, degrees@.len()),
{
    let ghost before = jobs@;
    let mut at: usize = 0;
    assert(jobs@ =~= before + degree_jobs(entry, degrees@, 0));
    while at < degrees.len()
        invariant
            at <= degrees@.len(),
            jobs@ == before + degree_jobs(entry, degrees@, at as nat),
        decreases degrees@.len() - at,
    {
        let sharing: JobSharing = JobSharing::Shared { sharers: degrees[at], degree: Some(at) };
        jobs.push(Job { entry, sharing });
        assert(jobs@ =~= before + degree_jobs(entry, degrees@, (at + 1) as nat));
        at += 1;
    }
}

/// The jobs of a distribution that is rescaled to a number of threads: every
/// thread is taken to share what is shared.
pub open spec fn rescaled(shared: Seq<bool>, threads: u32) -> Seq<Job> {
    Seq::new(
        shared.len(),
        |i: int|
            Job {
                entry: i as usize,
                sharing: if shared[i] {
                    JobSharing::Shared { sharers: threads, degree: None }
                } else {
                    JobSharing::Private
                },
            },
    )
}

/// The jobs of a distribution that is rescaled to a number of threads, with
/// whether each interval is of shared data.
pub fn rescale_jobs(shared: &Vec<bool>, threads: u32) -> (jobs: Vec<Job>)
    ensures
        jobs@ == rescaled(shared@, threads),
{
    let mut jobs: Vec<Job> = Vec::new();
    let mut at: usize = 0;
    while at < shared.len()
        invariant
            at <= shared@.len(),
            jobs@ == rescaled(shared@.take(at as int), threads),
        decreases shared@.len() - at,
    {
        let sharing: JobSharing = if shared[at] {
            JobSharing::Shared { sharers: threads, degree: None }
        } else {
            JobSharing::Private
        };
        jobs.push(Job { entry: at, sharing });
        assert(jobs@ =~= rescaled(shared@.take(at + 1), threads));
        at += 1;
    }
    assert(shared@.take(at as int) =~= shared@);
    jobs
}

/// Whether the intervals of a distribution are of shared data: the private ones
/// come first.
pub open spec fn shared_flags(private: nat, shared: nat) -> Seq<bool> {
    Seq::new(private + shared, |i: int| i >= private)
}

/// Rescaling does what a derivation without measured numbers of sharers does at
/// the new number of threads.
pub proof fn law_rescaling_takes_every_thread_as_sharer(private: nat, shared: nat, threads: u32)
    ensures
        rescaled(shared_flags(private, shared), threads) == private_jobs(private) + shared_jobs(
            private,
            shared,
            Seq::empty(),
            threads,
        ),
{
    assert(rescaled(shared_flags(private, shared), threads) =~= private_jobs(private)
        + shared_jobs(private, shared, Seq::empty(), threads));
}

/// Where one number of sharers was measured, and it is the number of threads,
/// the derivation and a rescaling expand the same intervals in the same way.
pub proof fn law_full_sharing_is_what_rescaling_takes(private: nat, shared: nat, threads: u32, i: int)
    requires
        0 <= i < private + shared,
    ensures
        ({
            let measured = private_jobs(private) + shared_jobs(
                private,
                shared,
                seq![threads],
                threads,
            );
            let assumed = rescaled(shared_flags(private, shared), threads);
            &&& measured.len() == assumed.len()
            &&& measured[i].entry == assumed[i].entry
            &&& measured[i].sharing is Private == assumed[i].sharing is Private
            &&& measured[i].sharing is Shared ==> measured[i].sharing->sharers
                == assumed[i].sharing->sharers
        }),
{
    let one = seq![threads];
    assert(shared * one.len() == shared) by (nonlinear_arith)
        requires
            one.len() == 1,
    ;
    let k = i - private;
    assert(k / 1 == k && k % 1 == 0);
}

} // verus!
