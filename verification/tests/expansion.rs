//! Reuse intervals to be expanded.

use autolala::expansion::{expansion_jobs, rescale_jobs, usable_degrees, Job, JobSharing};

fn private(entry: usize) -> Job {
    Job { entry, sharing: JobSharing::Private }
}

fn shared(entry: usize, sharers: u32, degree: Option<usize>) -> Job {
    Job { entry, sharing: JobSharing::Shared { sharers, degree } }
}

#[test]
fn every_interval_gets_a_job_per_number_of_sharers() {
    assert_eq!(
        expansion_jobs(2, 2, &vec![3, 5], 8),
        vec![
            private(0),
            private(1),
            shared(2, 3, Some(0)),
            shared(2, 5, Some(1)),
            shared(3, 3, Some(0)),
            shared(3, 5, Some(1)),
        ]
    );
}

#[test]
fn without_a_measurement_every_thread_shares() {
    assert_eq!(
        expansion_jobs(1, 2, &vec![], 8),
        vec![private(0), shared(1, 8, None), shared(2, 8, None)]
    );
    assert_eq!(
        expansion_jobs(1, 2, &vec![], 8),
        rescale_jobs(&vec![false, true, true], 8)
    );
}

#[test]
fn rescaling_keeps_the_order() {
    assert_eq!(
        rescale_jobs(&vec![true, false, true], 16),
        vec![shared(0, 16, None), private(1), shared(2, 16, None)]
    );
    assert_eq!(rescale_jobs(&vec![], 16), vec![]);
}

#[test]
fn single_sharers_do_not_count() {
    assert_eq!(
        usable_degrees(&vec![(1, true), (2, true), (3, false), (4, true)]),
        vec![(1, 2), (3, 4)]
    );
}
