//! Walking a nest, and dealing its iterations to threads.

use autolala::address::MemrefKey;
use autolala::error::Error;
use autolala::interp::{ChunkSize, Cursor, Partition, ReferenceTable};
use autolala::schedule::next_owned_index;
use autolala::tree::{AffineExpr, AffineMap, Constraint, IntegerSet, Tree, ValID};

fn owned(trip: i64, chunk: i64, threads: i64, tid: i64) -> Vec<i64> {
    let mut chunk_index = tid;
    let mut offset = 0;
    let mut out = Vec::new();
    while let Some(index) = next_owned_index(&trip, chunk, threads, &mut chunk_index, &mut offset) {
        out.push(index);
    }
    out
}

fn bound(value: i64) -> AffineMap {
    AffineMap { num_dims: 0, results: vec![AffineExpr::Constant(value)] }
}

fn subscripts(count: usize) -> AffineMap {
    AffineMap { num_dims: count, results: (0..count).map(AffineExpr::Dim).collect() }
}

fn for_loop(depth: usize, lower: i64, upper: i64, step: i64, body: Tree) -> Tree {
    Tree::For {
        lower_bound: bound(lower),
        upper_bound: bound(upper),
        lower_bound_operands: Vec::new(),
        upper_bound_operands: Vec::new(),
        step,
        ivar: ValID::IVar(depth),
        body: Box::new(body),
    }
}

fn access(site: usize, memref: usize, ivars: &[usize]) -> Tree {
    Tree::Access {
        site,
        memref: ValID::Memref(memref),
        map: subscripts(ivars.len()),
        operands: ivars.iter().map(|ivar| ValID::IVar(*ivar)).collect(),
        is_write: false,
    }
}

fn drain(tree: &Tree, partition: Option<Partition>) -> Vec<(u32, i64)> {
    let table = ReferenceTable::build(tree).expect("builds");
    let mut cursor = Cursor::new(tree, &table, Vec::new(), 1, partition);
    let mut out = Vec::new();
    while let Some(access) = cursor.next_access().expect("walks") {
        out.push((access.reference, access.data.coords[5]));
    }
    out
}

fn failure(tree: &Tree) -> Error {
    let table = ReferenceTable::build(tree).expect("builds");
    let mut cursor = Cursor::new(tree, &table, Vec::new(), 1, None);
    loop {
        match cursor.next_access() {
            Ok(Some(_)) => {}
            Ok(None) => panic!("the walk ended"),
            Err(error) => return error,
        }
    }
}

#[test]
fn chunk_one_is_round_robin() {
    assert_eq!(owned(10, 1, 4, 0), vec![0, 4, 8]);
    assert_eq!(owned(10, 1, 4, 1), vec![1, 5, 9]);
    assert_eq!(owned(10, 1, 4, 3), vec![3, 7]);
}

#[test]
fn auto_chunk_gives_contiguous_blocks() {
    let chunk = ChunkSize::Auto.resolve(10, 4);
    assert_eq!(chunk, 3);
    assert_eq!(owned(10, chunk, 4, 0), vec![0, 1, 2]);
    assert_eq!(owned(10, chunk, 4, 1), vec![3, 4, 5]);
    assert_eq!(owned(10, chunk, 4, 3), vec![9]);
}

#[test]
fn every_iteration_is_owned_exactly_once() {
    for &chunk in &[1i64, 2, 3, 5, 16] {
        for &threads in &[2i64, 3, 8] {
            let mut all: Vec<i64> =
                (0..threads).flat_map(|tid| owned(37, chunk, threads, tid)).collect();
            all.sort_unstable();
            assert_eq!(all, (0..37).collect::<Vec<_>>(), "chunk={chunk} threads={threads}");
        }
    }
}

#[test]
fn threads_beyond_the_work_get_nothing() {
    assert!(owned(2, ChunkSize::Auto.resolve(2, 8), 8, 5).is_empty());
}

#[test]
fn repeated_memrefs_keep_one_stable_key_each() {
    let mut table = ReferenceTable::default();
    let a = ValID::Memref(0);
    let b = ValID::Memref(1);
    for (site, memref) in [&a, &a, &a, &a, &a, &b].into_iter().enumerate() {
        table.register(site, memref, 1);
    }
    assert_eq!(table.memref_names().len(), 2);
    let keys: std::collections::BTreeSet<_> =
        [&a, &b].iter().map(|memref| table.memref_of(memref).expect("interned").0).collect();
    assert_eq!(
        keys,
        [0, 1].into_iter().collect(),
        "two arrays must occupy two distinct keys"
    );
    assert_eq!(table.memref_of(&a).expect("interned"), MemrefKey(0));
    assert_eq!(table.memref_of(&b).expect("interned"), MemrefKey(1));
    assert_eq!(table.reference_count(), 6);
    assert_eq!(table.memref_names(), &vec!["m0".to_string(), "m1".to_string()]);
}

#[test]
fn empty_loop_yields_no_iterations() {
    assert!(owned(0, ChunkSize::Auto.resolve(0, 4), 4, 0).is_empty());
}

#[test]
fn walks_follow_program_order() {
    let tree = for_loop(
        0,
        1,
        6,
        2,
        Tree::Block(vec![access(10, 0, &[0]), for_loop(1, 0, 2, 1, access(20, 1, &[1]))]),
    );
    assert_eq!(
        drain(&tree, None),
        vec![(0, 1), (1, 0), (1, 1), (0, 3), (1, 0), (1, 1), (0, 5), (1, 0), (1, 1)]
    );
}

#[test]
fn a_partition_walks_its_own_iterations() {
    let tree = for_loop(0, 10, 30, 3, access(0, 0, &[0]));
    // Seven iterations: 10, 13, .., 28.
    let part = |tid| Partition { depth: 0, tid, threads: 2, chunk: ChunkSize::Fixed(2) };
    let values = |tid| drain(&tree, Some(part(tid))).into_iter().map(|a| a.1).collect::<Vec<_>>();
    assert_eq!(values(0), vec![10, 13, 22, 25]);
    assert_eq!(values(1), vec![16, 19, 28]);
}

#[test]
fn threads_deal_out_the_stream() {
    let tree = for_loop(0, 0, 5, 1, for_loop(1, 0, 3, 1, access(0, 0, &[1])));
    let all = drain(&tree, None);
    for chunk in [ChunkSize::Auto, ChunkSize::Fixed(1), ChunkSize::Fixed(2)] {
        for depth in [0, 1] {
            let mut dealt = Vec::new();
            for tid in 0..3 {
                let part = Partition { depth, tid, threads: 3, chunk };
                let stream = drain(&tree, Some(part));
                let mut rest = all.iter();
                assert!(stream.iter().all(|access| rest.any(|other| other == access)));
                dealt.extend(stream);
            }
            dealt.sort_unstable();
            let mut sorted = all.clone();
            sorted.sort_unstable();
            assert_eq!(dealt, sorted);
        }
    }
}

#[test]
fn a_drained_cursor_stays_drained() {
    let tree = for_loop(0, 0, 2, 1, access(0, 0, &[0]));
    let table = ReferenceTable::build(&tree).expect("builds");
    let mut cursor = Cursor::new(&tree, &table, Vec::new(), 1, None);
    assert!(cursor.next_access().expect("walks").is_some());
    assert!(cursor.next_access().expect("walks").is_some());
    for _ in 0..3 {
        assert!(cursor.next_access().expect("walks").is_none());
    }
}

#[test]
fn deeper_loops_are_walked_whole() {
    let tree = for_loop(0, 0, 2, 1, for_loop(1, 0, 3, 1, access(0, 0, &[0, 1])));
    let part = Partition { depth: 0, tid: 1, threads: 2, chunk: ChunkSize::Auto };
    assert_eq!(drain(&tree, Some(part)), vec![(0, 0), (0, 1), (0, 2)]);
    let part = Partition { depth: 1, tid: 1, threads: 2, chunk: ChunkSize::Auto };
    assert_eq!(drain(&tree, Some(part)), vec![(0, 2), (0, 2)]);
}

#[test]
fn branches_are_chosen_by_their_condition() {
    let condition = IntegerSet {
        num_dims: 1,
        constraints: vec![Constraint {
            expr: AffineExpr::Add(
                Box::new(AffineExpr::Dim(0)),
                Box::new(AffineExpr::Constant(-2)),
            ),
            equality: true,
        }],
    };
    let tree = for_loop(
        0,
        0,
        4,
        1,
        Tree::If {
            condition,
            operands: vec![ValID::IVar(0)],
            then_branch: Box::new(access(1, 0, &[0])),
            else_branch: Some(Box::new(Tree::Block(vec![access(2, 1, &[0])]))),
        },
    );
    assert_eq!(drain(&tree, None), vec![(1, 0), (1, 1), (0, 2), (1, 3)]);
}

#[test]
fn loops_near_the_largest_integer_end() {
    let tree = for_loop(0, i64::MAX - 3, i64::MAX, 2, access(0, 0, &[0]));
    assert_eq!(drain(&tree, None), vec![(0, i64::MAX - 3), (0, i64::MAX - 1)]);
}

#[test]
fn bad_loops_are_rejected() {
    let tree = for_loop(0, 0, 4, 0, access(0, 0, &[0]));
    assert_eq!(failure(&tree).message(), "affine.for step must be positive, found 0");
    let mut tree = for_loop(0, 0, 4, 1, access(0, 0, &[0]));
    if let Tree::For { ivar, .. } = &mut tree {
        *ivar = ValID::Symbol(3);
    }
    assert_eq!(
        failure(&tree).message(),
        "affine.for is driven by s3, which is not an induction variable"
    );
}

#[test]
fn accesses_to_other_things_than_arrays_are_rejected() {
    let mut tree = access(0, 0, &[]);
    if let Tree::Access { memref, .. } = &mut tree {
        *memref = ValID::IVar(1);
    }
    let error = ReferenceTable::build(&tree).err().expect("not an array");
    assert_eq!(error.message(), "access targets i1, which is not a memref");
}

#[test]
fn unregistered_sites_and_arrays_are_errors() {
    let tree = access(0, 0, &[]);
    let table = ReferenceTable::default();
    let mut cursor = Cursor::new(&tree, &table, Vec::new(), 1, None);
    let error = cursor.next_access().expect_err("not registered");
    assert_eq!(error.message(), "memref m0 was not registered by the reference pre-pass");
    let other = access(5, 0, &[]);
    let table = ReferenceTable::build(&other).expect("builds");
    let mut cursor = Cursor::new(&tree, &table, Vec::new(), 1, None);
    let error = cursor.next_access().expect_err("not registered");
    assert_eq!(error.message(), "access site was not registered by the reference pre-pass");
    assert!(table.reference_of(5).is_ok());
}

#[test]
fn accesses_of_too_many_subscripts_are_errors() {
    let mut tree = access(0, 0, &[0; 7]);
    tree = for_loop(0, 0, 1, 1, tree);
    let table = ReferenceTable::build(&tree).expect("builds");
    assert_eq!(table.max_rank(), 7);
    assert_eq!(
        failure(&tree).message(),
        "access has rank 7, above the sampler's supported maximum of 6"
    );
}

#[test]
fn global_arrays_are_told_apart_from_local_ones() {
    let global = |handle| ValID::Global { handle, name: "g".to_string() };
    let mut table = ReferenceTable::default();
    table.register(0, &ValID::Memref(2), 1);
    table.register(1, &global(4), 1);
    table.register(2, &global(8), 1);
    assert_eq!(table.memref_of(&ValID::Memref(2)).expect("known"), MemrefKey(0));
    assert_eq!(table.memref_of(&global(4)).expect("known"), MemrefKey(1));
    assert_eq!(table.memref_of(&global(8)).expect("known"), MemrefKey(2));
    assert_eq!(table.memref_names(), &vec!["m2".to_string(), "g".to_string(), "g".to_string()]);
}
