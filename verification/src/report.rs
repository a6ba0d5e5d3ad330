//! The results of a run, with the configuration that produced them.
//!
//! Every count is emitted alongside the full configuration and a digest of the
//! histograms. Running again with the same configuration reproduces the digest.

use crate::digest::{bytes_of, digest_words, fnv, hex_text};
use crate::fxmap::{fx_entries, lists};
use crate::history::{distance_bin, joint_key, tally};
use crate::interleave::Scheduler;
use crate::measure::{
    counts, is_stats_of, joint_rows, Histogram, JointKey, ReferenceStats, Sampler, Sharing,
    Statistics,
};
use crate::run::RunConfig;
use crate::schedule::ChunkSize;
use crate::sort::{sort_unstable, SortKey};
use crate::text::{push_signed, signed_decimal};
use crate::totals::{lemma_widened, widened};
use vstd::prelude::*;

verus! {

/// The exact configuration of a run.
#[derive(Debug)]
pub struct Manifest {
    pub tool_version: String,
    pub input: String,
    /// Digest of the source, so that a changed program is noticed.
    pub input_digest: String,
    pub target_function: Option<String>,
    pub symbols: Vec<i64>,
    pub block_size: usize,
    pub num_sets: usize,
    pub threads: u32,
    pub parallel_depth: Option<usize>,
    pub chunk: String,
    pub scheduler: Scheduler,
    pub seed: u64,
}

/// A chunk size in a manifest.
pub open spec fn chunk_text(chunk: ChunkSize) -> Seq<char> {
    match chunk {
        ChunkSize::Auto => "auto"@,
        ChunkSize::Fixed(chunk) => signed_decimal(chunk as int),
    }
}

impl Manifest {
    pub fn new(
        tool_version: String,
        input: String,
        input_digest: String,
        target_function: Option<String>,
        num_sets: usize,
        config: &RunConfig,
    ) -> (manifest: Self)
        ensures
            manifest.tool_version == tool_version,
            manifest.input == input,
            manifest.input_digest == input_digest,
            manifest.target_function == target_function,
            manifest.symbols@ == config.symbols@,
            manifest.block_size == config.block_size,
            manifest.num_sets == num_sets,
            manifest.threads == config.threads,
            manifest.parallel_depth == config.parallel_depth,
            manifest.chunk@ == chunk_text(config.chunk),
            manifest.scheduler == config.scheduler,
            manifest.seed == config.seed,
    {
        let mut chunk: String = String::new();
        match config.chunk {
            ChunkSize::Auto => {
                chunk.push_str("auto");
            },
            ChunkSize::Fixed(size) => {
                push_signed(&mut chunk, size);
            },
        }
        assert(chunk@ =~= chunk_text(config.chunk));
        Manifest {
            tool_version,
            input,
            input_digest,
            target_function,
            symbols: config.symbols.clone(),
            block_size: config.block_size,
            num_sets,
            threads: config.threads,
            parallel_depth: config.parallel_depth,
            chunk,
            scheduler: config.scheduler,
            seed: config.seed,
        }
    }
}

/// One bucket of a histogram.
#[derive(Clone, Copy, Debug, PartialEq, Eq, Structural)]
pub struct Bucket {
    pub bin: u32,
    pub count: u64,
}

/// The bins and counts of some buckets.
pub open spec fn bucket_pairs(buckets: Seq<Bucket>) -> Seq<(u32, nat)> {
    buckets.map_values(|bucket: Bucket| (bucket.bin, bucket.count as nat))
}

/// The buckets of a histogram: every bin once, in ascending order.
pub open spec fn is_buckets_of(buckets: Seq<Bucket>, histogram: Map<u32, nat>) -> bool {
    &&& lists(bucket_pairs(buckets), histogram)
    &&& forall|i: int, j: int|
        0 <= i < j < buckets.len() ==> (#[trigger] buckets[i]).bin < (#[trigger] buckets[j]).bin
}

/// Listings of a map stay listings when they are put in another order.
pub proof fn lemma_lists_reordered<K, V>(before: Seq<(K, V)>, after: Seq<(K, V)>, map: Map<K, V>)
    requires
        lists(before, map),
        before.to_multiset() == after.to_multiset(),
    ensures
        lists(after, map),
{
    before.to_multiset_ensures();
    after.to_multiset_ensures();
    assert forall|pair: (K, V)| #[trigger] after.contains(pair) <==> before.contains(pair) by {
        assert(after.contains(pair) <==> after.to_multiset().count(pair) > 0);
        assert(before.contains(pair) <==> before.to_multiset().count(pair) > 0);
    }
    assert(before.no_duplicates()) by {
        assert forall|i: int, j: int|
            0 <= i < before.len() && 0 <= j < before.len() && i != j implies before[i]
            != before[j] by {
            if i < j {
                assert(before[i].0 != before[j].0);
            } else {
                assert(before[j].0 != before[i].0);
            }
        }
    }
    before.lemma_multiset_has_no_duplicates();
    after.lemma_multiset_has_no_duplicates_conv();
    assert forall|i: int| #![trigger after[i]] 0 <= i < after.len() implies map.contains_key(
        after[i].0,
    ) && map[after[i].0] == after[i].1 by {
        assert(after.contains(after[i]));
        let j = choose|j: int| 0 <= j < before.len() && before[j] == after[i];
        assert(map.contains_key(before[j].0));
    }
    assert forall|i: int, j: int|
        #![trigger after[i], after[j]]
        0 <= i < j < after.len() implies after[i].0 != after[j].0 by {
        assert(map[after[i].0] == after[i].1 && map[after[j].0] == after[j].1);
        if after[i].0 == after[j].0 {
            assert(after[i] == after[j]);
        }
    }
    assert forall|k: K| #[trigger] map.contains_key(k) implies exists|i: int|
        0 <= i < after.len() && #[trigger] after[i] == (k, map[k]) by {
        let j = choose|j: int| 0 <= j < before.len() && #[trigger] before[j] == (k, map[k]);
        assert(before.contains(before[j]));
        assert(after.contains(before[j]));
        let i = choose|i: int| 0 <= i < after.len() && after[i] == before[j];
        assert(after[i] == (k, map[k]));
    }
}

/// The buckets of a histogram, in ascending order of their bins.
pub fn buckets(histogram: &Histogram) -> (items: Vec<Bucket>)
    ensures
        is_buckets_of(items@, counts(histogram@)),
{
    let mut pairs: Vec<(u32, u64)> = fx_entries(histogram);
    let ghost before = pairs@;
    sort_unstable(&mut pairs);
    proof {
        lemma_lists_reordered(before, pairs@, histogram@);
        lemma_widened(pairs@, histogram@);
    }
    let mut items: Vec<Bucket> = Vec::new();
    let mut at: usize = 0;
    while at < pairs.len()
        invariant
            at <= pairs@.len(),
            items@.len() == at,
            forall|i: int|
                0 <= i < at ==> (#[trigger] items@[i]).bin == pairs@[i].0 && items@[i].count
                    == pairs@[i].1,
        decreases pairs@.len() - at,
    {
        let (bin, count): (u32, u64) = pairs[at];
        items.push(Bucket { bin, count });
        at += 1;
    }
    proof {
        assert(bucket_pairs(items@) =~= widened(pairs@));
        assert forall|i: int, j: int| 0 <= i < j < items@.len() implies (#[trigger] items@[i]).bin
            < (#[trigger] items@[j]).bin by {
            assert(pairs@[i].at_most(pairs@[j]));
            assert(pairs@[i].0 != pairs@[j].0);
        }
    }
    items
}

/// One cell of the joint table. `pri_bin` is `None` where the thread had never
/// touched the datum before, which happens only for reuse across threads.
#[derive(Clone, Copy, Debug, PartialEq, Eq)]
pub struct JointRow {
    pub reference: u32,
    pub pri_bin: Option<u32>,
    pub cri_bin: u32,
    pub sharing: Sharing,
    pub count: u64,
}

impl JointRow {
    /// The key of the row in the joint table.
    pub open spec fn key(self) -> (u32, u32, u32, bool) {
        (
            self.reference,
            match self.pri_bin {
                Some(bin) => bin,
                None => u32::MAX,
            },
            self.cri_bin,
            self.sharing == Sharing::Shared,
        )
    }

    /// Rows are ordered by access site, sharing, private bin (rows without one
    /// first) and concurrent bin.
    pub open spec fn rank(self) -> (u32, u32, u64, u32) {
        (
            self.reference,
            if self.sharing == Sharing::Shared {
                1
            } else {
                0
            },
            match self.pri_bin {
                Some(bin) => (bin + 1) as u64,
                None => 0,
            },
            self.cri_bin,
        )
    }
}

/// Lexicographic order of ranks.
pub open spec fn rank_before(left: (u32, u32, u64, u32), right: (u32, u32, u64, u32)) -> bool {
    ||| left.0 < right.0
    ||| left.0 == right.0 && left.1 < right.1
    ||| left.0 == right.0 && left.1 == right.1 && left.2 < right.2
    ||| left.0 == right.0 && left.1 == right.1 && left.2 == right.2 && left.3 < right.3
}

/// The keys and counts of some rows.
pub open spec fn row_pairs(rows: Seq<JointRow>) -> Seq<((u32, u32, u32, bool), nat)> {
    rows.map_values(|row: JointRow| (row.key(), row.count as nat))
}

/// The rows of a joint table: every key once, in the order of the rows.
pub open spec fn is_rows_of(rows: Seq<JointRow>, table: Map<(u32, u32, u32, bool), nat>) -> bool {
    &&& lists(row_pairs(rows), table)
    &&& forall|i: int, j: int|
        0 <= i < j < rows.len() ==> rank_before(
            (#[trigger] rows[i]).rank(),
            (#[trigger] rows[j]).rank(),
        )
    &&& forall|i: int| 0 <= i < rows.len() ==> (#[trigger] rows[i]).pri_bin != Some(u32::MAX)
}

/// A row as a tuple whose order is the order of the rows.
type RowTuple = (u32, u32, u64, u32, u64);

/// The key and count of a row's tuple.
spec fn decoded(row: RowTuple) -> ((u32, u32, u32, bool), nat) {
    (
        (
            row.0,
            if row.2 == 0 {
                u32::MAX
            } else {
                (row.2 - 1) as u32
            },
            row.3,
            row.1 == 1,
        ),
        row.4 as nat,
    )
}

/// A tuple that stands for a row.
spec fn is_row(row: RowTuple) -> bool {
    row.1 <= 1 && row.2 <= u32::MAX
}

/// Listings of a map stay listings when what they are decoded from is put in
/// another order.
proof fn lemma_decoded_reordered(
    before: Seq<RowTuple>,
    after: Seq<RowTuple>,
    map: Map<(u32, u32, u32, bool), nat>,
)
    requires
        lists(before.map_values(|row: RowTuple| decoded(row)), map),
        before.to_multiset() == after.to_multiset(),
    ensures
        lists(after.map_values(|row: RowTuple| decoded(row)), map),
        forall|row: RowTuple| #[trigger] after.contains(row) <==> before.contains(row),
        after.no_duplicates(),
{
    let dec = |row: RowTuple| decoded(row);
    let (x, y) = (before.map_values(dec), after.map_values(dec));
    before.to_multiset_ensures();
    after.to_multiset_ensures();
    assert forall|row: RowTuple| #[trigger] after.contains(row) <==> before.contains(row) by {
        assert(after.contains(row) <==> after.to_multiset().count(row) > 0);
        assert(before.contains(row) <==> before.to_multiset().count(row) > 0);
    }
    assert(before.no_duplicates()) by {
        assert forall|i: int, j: int|
            0 <= i < before.len() && 0 <= j < before.len() && i != j implies before[i]
            != before[j] by {
            if i < j {
                assert(x[i].0 != x[j].0);
            } else {
                assert(x[j].0 != x[i].0);
            }
        }
    }
    before.lemma_multiset_has_no_duplicates();
    after.lemma_multiset_has_no_duplicates_conv();
    assert forall|i: int| #![trigger y[i]] 0 <= i < y.len() implies map.contains_key(y[i].0)
        && map[y[i].0] == y[i].1 by {
        assert(after.contains(after[i]));
        let j = choose|j: int| 0 <= j < before.len() && before[j] == after[i];
        assert(map.contains_key(x[j].0));
    }
    assert forall|i: int, j: int|
        #![trigger y[i], y[j]]
        0 <= i < j < y.len() implies y[i].0 != y[j].0 by {
        assert(after.contains(after[i]) && after.contains(after[j]));
        let a = choose|a: int| 0 <= a < before.len() && before[a] == after[i];
        let b = choose|b: int| 0 <= b < before.len() && before[b] == after[j];
        if a < b {
            assert(x[a].0 != x[b].0);
        } else if b < a {
            assert(x[b].0 != x[a].0);
        } else {
            assert(after[i] == after[j]);
        }
    }
    assert forall|k: (u32, u32, u32, bool)| #[trigger] map.contains_key(k) implies exists|i: int|
        0 <= i < y.len() && #[trigger] y[i] == (k, map[k]) by {
        let j = choose|j: int| 0 <= j < x.len() && #[trigger] x[j] == (k, map[k]);
        assert(before.contains(before[j]));
        assert(after.contains(before[j]));
        let i = choose|i: int| 0 <= i < after.len() && after[i] == before[j];
        assert(y[i] == (k, map[k]));
    }
}

/// The rows of a joint table, in their order.
fn sorted_rows(entries: Vec<(JointKey, u64)>, Ghost(table): Ghost<Map<(u32, u32, u32, bool), nat>>) -> (rows:
    Vec<JointRow>)
    requires
        lists(joint_rows(entries@), table),
    ensures
        is_rows_of(rows@, table),
{
    let mut tuples: Vec<RowTuple> = Vec::new();
    let mut at: usize = 0;
    while at < entries.len()
        invariant
            at <= entries@.len(),
            tuples@.len() == at,
            forall|i: int|
                0 <= i < at ==> is_row(#[trigger] tuples@[i]) && decoded(tuples@[i]) == (
                    entries@[i].0.tuple(),
                    entries@[i].1 as nat,
                ),
        decreases entries@.len() - at,
    {
        let (key, count): (JointKey, u64) = entries[at];
        let shared: u32 = match key.sharing {
            Sharing::Shared => 1,
            Sharing::Private => 0,
        };
        let pri: u64 = if key.pri_bin == u32::MAX {
            0
        } else {
            key.pri_bin as u64 + 1
        };
        tuples.push((key.reference, shared, pri, key.cri_bin, count));
        at += 1;
    }
    let ghost before = tuples@;
    assert(before.map_values(|row: RowTuple| decoded(row)) =~= joint_rows(entries@));
    sort_unstable(&mut tuples);
    proof {
        lemma_decoded_reordered(before, tuples@, table);
        assert forall|i: int| 0 <= i < tuples@.len() implies is_row(#[trigger] tuples@[i]) by {
            assert(tuples@.contains(tuples@[i]));
            let j = choose|j: int| 0 <= j < before.len() && before[j] == tuples@[i];
            assert(is_row(before[j]));
        }
    }
    let mut rows: Vec<JointRow> = Vec::new();
    let mut next: usize = 0;
    while next < tuples.len()
        invariant
            next <= tuples@.len(),
            rows@.len() == next,
            forall|i: int| 0 <= i < tuples@.len() ==> is_row(#[trigger] tuples@[i]),
            forall|i: int|
                0 <= i < next ==> decoded(tuples@[i]) == ((#[trigger] rows@[i]).key(), rows@[
                    i
                ].count as nat) && rows@[i].rank() == (
                    tuples@[i].0,
                    tuples@[i].1,
                    tuples@[i].2,
                    tuples@[i].3,
                ) && rows@[i].pri_bin != Some(u32::MAX),
        decreases tuples@.len() - next,
    {
        assert(is_row(tuples@[next as int]));
        let (reference, shared, pri, cri_bin, count): RowTuple = tuples[next];
        let sharing: Sharing = if shared == 1 {
            Sharing::Shared
        } else {
            Sharing::Private
        };
        let pri_bin: Option<u32> = if pri == 0 {
            None
        } else {
            Some((pri - 1) as u32)
        };
        rows.push(JointRow { reference, pri_bin, cri_bin, sharing, count });
        next += 1;
    }
    proof {
        let dec = |row: RowTuple| decoded(row);
        assert(row_pairs(rows@) =~= tuples@.map_values(dec));
        assert forall|i: int, j: int| 0 <= i < j < rows@.len() implies rank_before(
            (#[trigger] rows@[i]).rank(),
            (#[trigger] rows@[j]).rank(),
        ) by {
            assert(tuples@[i].at_most(tuples@[j]));
            let listed = tuples@.map_values(dec);
            assert(listed[i].0 != listed[j].0);
        }
    }
    rows
}

/// The numbers that a digest is made of.
pub open spec fn section_words(section: Option<Seq<Bucket>>, count: nat) -> Seq<u64>
    decreases count,
{
    match section {
        None => seq![u64::MAX],
        Some(buckets) => if count == 0 {
            seq![buckets.len() as u64]
        } else {
            section_words(section, (count - 1) as nat).push(buckets[count - 1].bin as u64).push(
                buckets[count - 1].count,
            )
        },
    }
}

/// The numbers of a whole section: its length and its buckets, or the largest
/// number where the section is absent.
pub open spec fn whole_section(section: Option<Seq<Bucket>>) -> Seq<u64> {
    section_words(
        section,
        match section {
            Some(buckets) => buckets.len(),
            None => 0,
        },
    )
}

/// The numbers that the digest of a run's histograms is made of.
pub open spec fn run_words(
    total: u64,
    cold: u64,
    cri: Seq<Bucket>,
    pri: Seq<Bucket>,
    distance: Option<Seq<Bucket>>,
) -> Seq<u64> {
    seq![total, cold] + whole_section(Some(cri)) + whole_section(Some(pri)) + whole_section(
        distance,
    )
}

/// The digest of a run's histograms.
pub open spec fn run_digest(
    total: u64,
    cold: u64,
    cri: Seq<Bucket>,
    pri: Seq<Bucket>,
    distance: Option<Seq<Bucket>>,
) -> Seq<char> {
    hex_text(fnv(bytes_of(run_words(total, cold, cri, pri, distance))), 16)
}

/// Appends the numbers of a section.
fn push_section(words: &mut Vec<u64>, buckets: &Vec<Bucket>)
    ensures
        final(words)@ == old(words)@ + whole_section(Some(buckets@)),
{
    let ghost before = words@;
    words.push(buckets.len() as u64);
    let mut at: usize = 0;
    assert(words@ =~= before + section_words(Some(buckets@), 0));
    while at < buckets.len()
        invariant
            at <= buckets@.len(),
            words@ == before + section_words(Some(buckets@), at as nat),
        decreases buckets@.len() - at,
    {
        words.push(buckets[at].bin as u64);
        words.push(buckets[at].count);
        assert(words@ =~= before + section_words(Some(buckets@), (at + 1) as nat));
        at += 1;
    }
}

/// The digest of a run's histograms. An absent section differs from an empty
/// one.
pub fn digest_of(
    total: u64,
    cold: u64,
    cri: &Vec<Bucket>,
    pri: &Vec<Bucket>,
    distance: Option<&Vec<Bucket>>,
) -> (digest: String)
    ensures
        digest@ == run_digest(
            total,
            cold,
            cri@,
            pri@,
            match distance {
                Some(buckets) => Some(buckets@),
                None => None,
            },
        ),
{
    let mut words: Vec<u64> = Vec::new();
    words.push(total);
    words.push(cold);
    assert(words@ =~= seq![total, cold]);
    push_section(&mut words, cri);
    push_section(&mut words, pri);
    match distance {
        Some(buckets) => {
            push_section(&mut words, buckets);
        },
        None => {
            words.push(u64::MAX);
            assert(words@ =~= seq![total, cold] + whole_section(Some(cri@)) + whole_section(
                Some(pri@),
            ) + whole_section(None));
        },
    }
    digest_words(&words)
}

/// A complete run.
#[derive(Debug)]
pub struct Report {
    pub manifest: Manifest,
    pub total_accesses: u64,
    pub cold_accesses: u64,
    /// Set when the reuse-distance index ran out of room: then `reuse_distance`
    /// is incomplete.
    pub reuse_distance_truncated: bool,
    pub concurrent_reuse_interval: Vec<Bucket>,
    pub private_reuse_interval: Vec<Bucket>,
    pub reuse_distance: Option<Vec<Bucket>>,
    pub joint: Vec<JointRow>,
    pub per_reference: Vec<ReferenceStats>,
    pub memref_names: Vec<String>,
    /// Digest over the histograms; equal runs have equal digests.
    pub digest: String,
}

impl Report {
    /// The report gives these statistics, in the order in which reports list
    /// them, and their digest.
    pub open spec fn tells(self, statistics: Statistics) -> bool {
        &&& self.total_accesses == statistics.total_accesses
        &&& self.cold_accesses == statistics.cold_accesses
        &&& self.reuse_distance_truncated == statistics.overflowed
        &&& is_buckets_of(self.concurrent_reuse_interval@, statistics.cri)
        &&& is_buckets_of(self.private_reuse_interval@, statistics.pri)
        &&& self.reuse_distance is Some <==> statistics.reuse_distance is Some
        &&& self.reuse_distance matches Some(buckets) ==> is_buckets_of(
            buckets@,
            statistics.reuse_distance->0,
        )
        &&& is_rows_of(self.joint@, statistics.joint)
        &&& self.per_reference@ == statistics.per_reference
        &&& self.digest@ == run_digest(
            self.total_accesses,
            self.cold_accesses,
            self.concurrent_reuse_interval@,
            self.private_reuse_interval@,
            self.distance_buckets(),
        )
    }

    /// The buckets of the reuse distances, where they are measured.
    pub open spec fn distance_buckets(self) -> Option<Seq<Bucket>> {
        match self.reuse_distance {
            Some(buckets) => Some(buckets@),
            None => None,
        }
    }

    /// The report of what a sampler has measured.
    pub fn build(manifest: Manifest, sampler: &Sampler, memref_names: Vec<String>) -> (report: Self)
        requires
            sampler.wf(),
        ensures
            report.manifest == manifest,
            report.memref_names == memref_names,
            report.tells(sampler.statistics()),
            report.reuse_distance matches Some(buckets) ==> (!sampler.full() ==> is_buckets_of(
                buckets@,
                tally(sampler.history(), distance_bin(sampler.bins())),
            )),
            forall|site: int|
                0 <= site < report.per_reference@.len() ==> is_stats_of(
                    #[trigger] report.per_reference@[site],
                    sampler.history(),
                    site,
                ),
    {
        let joint: Vec<JointRow> = sorted_rows(
            sampler.joint(),
            Ghost(tally(sampler.history(), joint_key(sampler.bins()))),
        );
        let concurrent_reuse_interval: Vec<Bucket> = buckets(sampler.cri());
        let private_reuse_interval: Vec<Bucket> = buckets(sampler.pri());
        let reuse_distance: Option<Vec<Bucket>> = match sampler.reuse_distance() {
            Some(histogram) => Some(buckets(histogram)),
            None => None,
        };
        let digest: String = digest_of(
            sampler.total_accesses(),
            sampler.cold_accesses(),
            &concurrent_reuse_interval,
            &private_reuse_interval,
            match &reuse_distance {
                Some(buckets) => Some(buckets),
                None => None,
            },
        );
        let stats: &Vec<ReferenceStats> = sampler.per_reference();
        let mut per_reference: Vec<ReferenceStats> = Vec::new();
        let mut at: usize = 0;
        while at < stats.len()
            invariant
                at <= stats@.len(),
                per_reference@ =~= stats@.take(at as int),
            decreases stats@.len() - at,
        {
            per_reference.push(stats[at]);
            at += 1;
        }
        assert(per_reference@ =~= stats@);
        Report {
            manifest,
            total_accesses: sampler.total_accesses(),
            cold_accesses: sampler.cold_accesses(),
            reuse_distance_truncated: sampler.overflowed(),
            concurrent_reuse_interval,
            private_reuse_interval,
            reuse_distance,
            joint,
            per_reference,
            memref_names,
            digest,
        }
    }
}

/// A section that a count of its buckets tells from an absent one.
pub open spec fn countable(section: Option<Seq<Bucket>>) -> bool {
    section matches Some(buckets) ==> buckets.len() < u64::MAX
}

/// Where the numbers of a section stand.
proof fn lemma_section_layout(buckets: Seq<Bucket>, count: nat)
    requires
        count <= buckets.len(),
    ensures
        ({
            let words = section_words(Some(buckets), count);
            &&& words.len() == 2 * count + 1
            &&& words[0] == buckets.len() as u64
            &&& forall|i: int|
                0 <= i < count ==> #[trigger] words[2 * i + 1] == buckets[i].bin && words[2 * i + 2]
                    == buckets[i].count
        }),
    decreases count,
{
    if count > 0 {
        lemma_section_layout(buckets, (count - 1) as nat);
        let before = section_words(Some(buckets), (count - 1) as nat);
        let words = section_words(Some(buckets), count);
        assert forall|i: int| 0 <= i < count implies #[trigger] words[2 * i + 1] == buckets[i].bin
            && words[2 * i + 2] == buckets[i].count by {
            if i < count - 1 {
                assert(words[2 * i + 1] == before[2 * i + 1]);
                assert(words[2 * i + 2] == before[2 * i + 2]);
            }
        }
    }
}

/// The numbers of a section say where it ends and what it holds.
proof fn lemma_section_read_back(
    left: Option<Seq<Bucket>>,
    right: Option<Seq<Bucket>>,
    x: Seq<u64>,
    y: Seq<u64>,
)
    requires
        countable(left),
        countable(right),
        whole_section(left) + x == whole_section(right) + y,
    ensures
        left == right,
        x == y,
{
    let (l, r) = (whole_section(left), whole_section(right));
    let (lx, ry) = (l + x, r + y);
    if let Some(buckets) = left {
        lemma_section_layout(buckets, buckets.len());
    }
    if let Some(buckets) = right {
        lemma_section_layout(buckets, buckets.len());
    }
    assert(l[0] == lx[0] && r[0] == ry[0]);
    if let (Some(a), Some(b)) = (left, right) {
        assert(a.len() == b.len());
        assert forall|i: int| 0 <= i < a.len() implies a[i] == b[i] by {
            assert(l[2 * i + 1] == lx[2 * i + 1] && r[2 * i + 1] == ry[2 * i + 1]);
            assert(l[2 * i + 2] == lx[2 * i + 2] && r[2 * i + 2] == ry[2 * i + 2]);
        }
        assert(a =~= b);
    }
    assert(lx.skip(l.len() as int) =~= x);
    assert(ry.skip(r.len() as int) =~= y);
}

/// Different histograms, an absent one and an empty one among them, give the
/// digest different numbers.
pub proof fn law_digests_take_different_numbers(
    totals: (u64, u64),
    colds: (u64, u64),
    cris: (Seq<Bucket>, Seq<Bucket>),
    pris: (Seq<Bucket>, Seq<Bucket>),
    distances: (Option<Seq<Bucket>>, Option<Seq<Bucket>>),
)
    requires
        countable(Some(cris.0)) && countable(Some(cris.1)),
        countable(Some(pris.0)) && countable(Some(pris.1)),
        countable(distances.0) && countable(distances.1),
        run_words(totals.0, colds.0, cris.0, pris.0, distances.0) == run_words(
            totals.1,
            colds.1,
            cris.1,
            pris.1,
            distances.1,
        ),
    ensures
        totals.0 == totals.1,
        colds.0 == colds.1,
        cris.0 == cris.1,
        pris.0 == pris.1,
        distances.0 == distances.1,
{
    let left = run_words(totals.0, colds.0, cris.0, pris.0, distances.0);
    let right = run_words(totals.1, colds.1, cris.1, pris.1, distances.1);
    assert(left[0] == totals.0 && right[0] == totals.1);
    assert(left[1] == colds.0 && right[1] == colds.1);
    let (c0, c1) = (whole_section(Some(cris.0)), whole_section(Some(cris.1)));
    let (p0, p1) = (whole_section(Some(pris.0)), whole_section(Some(pris.1)));
    let (d0, d1) = (whole_section(distances.0), whole_section(distances.1));
    assert(left.skip(2) =~= c0 + (p0 + d0));
    assert(right.skip(2) =~= c1 + (p1 + d1));
    lemma_section_read_back(Some(cris.0), Some(cris.1), p0 + d0, p1 + d1);
    lemma_section_read_back(Some(pris.0), Some(pris.1), d0, d1);
    assert(d0 + Seq::<u64>::empty() =~= d0);
    assert(d1 + Seq::<u64>::empty() =~= d1);
    lemma_section_read_back(distances.0, distances.1, Seq::empty(), Seq::empty());
}

/// A histogram has one list of buckets, so that equal runs have equal reports.
pub proof fn law_buckets_are_unique(
    left: Seq<Bucket>,
    right: Seq<Bucket>,
    histogram: Map<u32, nat>,
)
    requires
        is_buckets_of(left, histogram),
        is_buckets_of(right, histogram),
    ensures
        left == right,
{
    lemma_buckets_prefix(left, right, histogram, left.len());
    lemma_buckets_prefix(right, left, histogram, right.len());
    assert(left =~= right);
}

/// A joint table has one list of rows.
pub proof fn law_rows_are_unique(
    left: Seq<JointRow>,
    right: Seq<JointRow>,
    table: Map<(u32, u32, u32, bool), nat>,
)
    requires
        is_rows_of(left, table),
        is_rows_of(right, table),
    ensures
        left == right,
{
    lemma_rows_prefix(left, right, table, left.len());
    lemma_rows_prefix(right, left, table, right.len());
    assert(left =~= right);
}

/// Reports of equal statistics carry the same counts, lists and digest.
pub proof fn law_equal_runs_have_equal_digests(left: Report, right: Report, statistics: Statistics)
    requires
        left.tells(statistics),
        right.tells(statistics),
    ensures
        left.total_accesses == right.total_accesses,
        left.cold_accesses == right.cold_accesses,
        left.reuse_distance_truncated == right.reuse_distance_truncated,
        left.concurrent_reuse_interval@ == right.concurrent_reuse_interval@,
        left.private_reuse_interval@ == right.private_reuse_interval@,
        left.distance_buckets() == right.distance_buckets(),
        left.joint@ == right.joint@,
        left.per_reference@ == right.per_reference@,
        left.digest@ == right.digest@,
{
    law_buckets_are_unique(
        left.concurrent_reuse_interval@,
        right.concurrent_reuse_interval@,
        statistics.cri,
    );
    law_buckets_are_unique(
        left.private_reuse_interval@,
        right.private_reuse_interval@,
        statistics.pri,
    );
    if left.reuse_distance is Some {
        law_buckets_are_unique(
            left.reuse_distance->0@,
            right.reuse_distance->0@,
            statistics.reuse_distance->0,
        );
    }
    law_rows_are_unique(left.joint@, right.joint@, statistics.joint);
}

/// Two lists of rows agree as far as both go, and neither is shorter.
proof fn lemma_rows_prefix(
    left: Seq<JointRow>,
    right: Seq<JointRow>,
    table: Map<(u32, u32, u32, bool), nat>,
    count: nat,
)
    requires
        is_rows_of(left, table),
        is_rows_of(right, table),
        count <= left.len(),
    ensures
        count <= right.len(),
        forall|i: int| 0 <= i < count ==> left[i] == right[i],
    decreases count,
{
    if count > 0 {
        let at = count - 1;
        lemma_rows_prefix(left, right, table, at as nat);
        let (l, r) = (row_pairs(left), row_pairs(right));
        assert(l[at] == (left[at].key(), left[at].count as nat));
        assert(table.contains_key(l[at].0));
        let j = choose|j: int| 0 <= j < r.len() && #[trigger] r[j] == (l[at].0, table[l[at].0]);
        lemma_row_of_key(right[j], left[at]);
        assert(right[j] == left[at]);
        if j < at {
            assert(left[j] == right[j]);
            assert(rank_before(left[j].rank(), left[at].rank()));
        }
        if at < right.len() && j > at {
            assert(r[at] == (right[at].key(), right[at].count as nat));
            assert(table.contains_key(r[at].0));
            let k = choose|k: int| 0 <= k < l.len() && #[trigger] l[k] == (r[at].0, table[r[at].0]);
            lemma_row_of_key(left[k], right[at]);
            assert(left[k] == right[at]);
            assert(rank_before(right[at].rank(), right[j].rank()));
            if k < at {
                assert(right[k] == left[k]);
                assert(rank_before(right[k].rank(), right[at].rank()));
            } else if k > at {
                assert(rank_before(left[at].rank(), left[k].rank()));
            }
        }
    }
}

/// A row is given by its key and its count.
proof fn lemma_row_of_key(left: JointRow, right: JointRow)
    requires
        left.key() == right.key(),
        left.pri_bin != Some(u32::MAX),
        right.pri_bin != Some(u32::MAX),
    ensures
        left.count == right.count ==> left == right,
{
}

/// Two lists of buckets agree as far as both go, and neither is shorter.
proof fn lemma_buckets_prefix(
    left: Seq<Bucket>,
    right: Seq<Bucket>,
    histogram: Map<u32, nat>,
    count: nat,
)
    requires
        is_buckets_of(left, histogram),
        is_buckets_of(right, histogram),
        count <= left.len(),
    ensures
        count <= right.len(),
        forall|i: int| 0 <= i < count ==> left[i] == right[i],
    decreases count,
{
    if count > 0 {
        let at = count - 1;
        lemma_buckets_prefix(left, right, histogram, at as nat);
        let (l, r) = (bucket_pairs(left), bucket_pairs(right));
        assert(l[at] == (left[at].bin, left[at].count as nat));
        assert(histogram.contains_key(l[at].0));
        let j = choose|j: int|
            0 <= j < r.len() && #[trigger] r[j] == (l[at].0, histogram[l[at].0]);
        assert(right[j].bin == left[at].bin);
        if j < at {
            assert(left[j].bin < left[at].bin);
        } else if j > at {
            assert(right[at].bin < right[j].bin);
            assert(r[at] == (right[at].bin, right[at].count as nat));
            assert(histogram.contains_key(r[at].0));
            let i = choose|i: int|
                0 <= i < l.len() && #[trigger] l[i] == (r[at].0, histogram[r[at].0]);
            assert(left[i].bin == right[at].bin);
            if i < at {
                assert(right[i].bin < right[at].bin);
            } else if i > at {
                assert(left[at].bin < left[i].bin);
            }
        }
    }
}

} // verus!
