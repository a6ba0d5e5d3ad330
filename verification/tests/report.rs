//! Reports and digests.

use autolala::address::{DataId, MemrefKey};
use autolala::binner::Binner;
use autolala::digest::digest_bytes;
use autolala::interleave::Scheduler;
use autolala::interp::{ChunkSize, Emitted};
use autolala::measure::{Sampler, Sharing};
use autolala::report::{digest_of, Bucket, Manifest, Report};
use autolala::run::RunConfig;

fn bucket(bin: u32, count: u64) -> Bucket {
    Bucket { bin, count }
}

fn config() -> RunConfig {
    RunConfig {
        symbols: vec![3, -4],
        block_size: 8,
        threads: 2,
        parallel_depth: Some(1),
        chunk: ChunkSize::Fixed(5),
        scheduler: Scheduler::RoundRobin,
        seed: 42,
        binner: Binner::default(),
        track_distance: true,
    }
}

fn manifest(config: &RunConfig) -> Manifest {
    Manifest::new(
        "1.0".to_string(),
        "in.mlir".to_string(),
        digest_bytes(b"module {}"),
        None,
        4,
        config,
    )
}

fn access(reference: u32, index: i64) -> Emitted {
    let data = DataId::new(MemrefKey(0), &[index], 1).expect("fits");
    Emitted { reference, data, is_write: false }
}

#[test]
fn digest_changes_with_the_histogram() {
    let base = digest_of(10, 2, &vec![bucket(1, 3)], &vec![], None);
    assert_ne!(base, digest_of(10, 2, &vec![bucket(1, 4)], &vec![], None));
    assert_ne!(base, digest_of(10, 2, &vec![bucket(2, 3)], &vec![], None));
    assert_ne!(base, digest_of(11, 2, &vec![bucket(1, 3)], &vec![], None));
}

#[test]
fn absent_and_empty_distance_sections_differ() {
    let absent = digest_of(1, 0, &vec![], &vec![], None);
    let empty = digest_of(1, 0, &vec![], &vec![], Some(&vec![]));
    assert_ne!(absent, empty);
}

#[test]
fn digest_is_stable_for_equal_input() {
    let first =
        digest_of(7, 1, &vec![bucket(3, 9)], &vec![bucket(2, 4)], Some(&vec![bucket(1, 1)]));
    let second =
        digest_of(7, 1, &vec![bucket(3, 9)], &vec![bucket(2, 4)], Some(&vec![bucket(1, 1)]));
    assert_eq!(first, second);
}

#[test]
fn input_digest_distinguishes_sources() {
    assert_ne!(digest_bytes(b"module {}"), digest_bytes(b"module { }"));
}

#[test]
fn digests_are_fnv_1a() {
    assert_eq!(digest_bytes(b""), "cbf29ce484222325");
    assert_eq!(digest_bytes(b"a"), "af63dc4c8601ec8c");
    assert_eq!(digest_bytes(b"foobar"), "85944171f73967e8");
}

#[test]
fn manifests_repeat_the_configuration() {
    let mut config = config();
    let first = manifest(&config);
    assert_eq!(first.symbols, vec![3, -4]);
    assert_eq!((first.block_size, first.num_sets, first.threads), (8, 4, 2));
    assert_eq!((first.parallel_depth, first.seed), (Some(1), 42));
    assert_eq!(first.chunk, "5");
    assert_eq!(first.scheduler, Scheduler::RoundRobin);
    assert_eq!(first.input, "in.mlir");
    assert_eq!(first.tool_version, "1.0");
    config.chunk = ChunkSize::Auto;
    assert_eq!(manifest(&config).chunk, "auto");
}

#[test]
fn reports_are_sorted() {
    let mut sampler = Sampler::new(2, 2, Binner::default(), true);
    for (tid, reference, index) in
        [(0, 1, 0), (1, 0, 1), (1, 1, 0), (0, 1, 0), (0, 0, 1), (0, 0, 1), (1, 0, 1), (0, 1, 0)]
    {
        sampler.observe(tid, access(reference, index));
    }
    let report = Report::build(manifest(&config()), &sampler, vec!["A".to_string()]);
    assert_eq!(report.total_accesses, 8);
    assert_eq!(report.cold_accesses, 2);
    assert!(!report.reuse_distance_truncated);
    let bins = |buckets: &Vec<Bucket>| buckets.iter().map(|b| b.bin).collect::<Vec<_>>();
    let concurrent = bins(&report.concurrent_reuse_interval);
    assert!(concurrent.windows(2).all(|pair| pair[0] < pair[1]), "{concurrent:?}");
    assert_eq!(
        report.concurrent_reuse_interval,
        vec![bucket(1, 3), bucket(2, 1), bucket(3, 1), bucket(4, 1)]
    );
    assert_eq!(report.private_reuse_interval, vec![bucket(1, 2), bucket(2, 1), bucket(3, 1)]);
    assert_eq!(report.reuse_distance, Some(vec![bucket(0, 3), bucket(1, 3)]));
    let keys: Vec<_> = report
        .joint
        .iter()
        .map(|row| (row.reference, row.sharing, row.pri_bin, row.cri_bin, row.count))
        .collect();
    assert_eq!(
        keys,
        vec![
            (0, Sharing::Private, Some(1), 1, 1),
            (0, Sharing::Shared, None, 3, 1),
            (0, Sharing::Shared, Some(2), 1, 1),
            (1, Sharing::Private, Some(3), 4, 1),
            (1, Sharing::Shared, None, 2, 1),
            (1, Sharing::Shared, Some(1), 1, 1),
        ]
    );
    assert_eq!(report.memref_names, vec!["A".to_string()]);
    assert_eq!(
        report.digest,
        digest_of(
            8,
            2,
            &report.concurrent_reuse_interval,
            &report.private_reuse_interval,
            report.reuse_distance.as_ref()
        )
    );
}

#[test]
fn equal_runs_have_equal_digests() {
    let build = |distance| {
        let mut sampler = Sampler::new(1, 1, Binner::default(), distance);
        for index in [0, 1, 0, 2, 1, 0] {
            sampler.observe(0, access(0, index));
        }
        Report::build(manifest(&config()), &sampler, Vec::new()).digest
    };
    assert_eq!(build(true), build(true));
    assert_ne!(build(true), build(false));
}
