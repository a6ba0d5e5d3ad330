//! Reuse measurement over an interleaved access stream.
//!
//! The sampler takes the private and the concurrent view of every reuse *at the
//! same instant*: when thread `t` touches datum `d`, both the global time since
//! `d` was last touched by anyone (its CRI) and the thread-local time since `t`
//! itself last touched it (its PRI) are known. Recording the pair, rather than
//! two independent histograms, is what lets the joint law `CRI | PRI = r` be
//! measured.
//!
//! Both views are kept in one pass and no per-access history is stored: memory
//! is proportional to the working set, not to the length of the trace. The
//! history exists as a ghost value only, and every statistic is stated as a
//! function of it.

use crate::binner::Binner;
use crate::fxmap::{fx_entries, fx_get, fx_insert, lists, lookup, MapKey};
use crate::history::{
    count_of, cri_bin, crosses_threads, distance_bin, interval, is_cold, is_cold_at, is_reuse_at,
    joint_key, last_use, lemma_last_use, lemma_occurrences_bound, lemma_own_len, lemma_push,
    lemma_tally_bound, memref_at, occurrences, own, pri_bin, tally, touched, at_site, Event,
};
use crate::recency::{data_key, key_of, lemma_key_injective, DataKey, Previous, Recency};
use crate::timeline::{law_distances_are_exact_until_full, measured_bin, timeline};
use crate::totals::{
    keyed, lemma_sum_of_tally, lemma_sum_prefix, lemma_widened, sum_where, widened,
};
use crate::walk::Emitted;
use rustc_hash::FxHashMap;
use std::hash::Hash;
use vstd::prelude::*;

verus! {

/// Whether a reuse crossed a thread boundary.
#[derive(Clone, Copy, Debug, PartialEq, Eq, Hash, PartialOrd, Ord, Structural)]
pub enum Sharing {
    /// The previous access came from the same thread.
    Private,
    /// The previous access came from a different thread.
    Shared,
}

/// A sparse histogram over bin indices.
pub type Histogram = FxHashMap<u32, u64>;

/// Key of the joint `(PRI, CRI, sharing)` table.
#[derive(Clone, Copy, Debug, PartialEq, Eq, Hash, PartialOrd, Ord, Structural)]
pub struct JointKey {
    pub reference: u32,
    pub pri_bin: u32,
    pub cri_bin: u32,
    pub sharing: Sharing,
}

/// Per-reference tallies.
#[derive(Clone, Copy, Debug)]
pub struct ReferenceStats {
    /// Which array this access site targets.
    pub memref: Option<u32>,
    pub accesses: u64,
    pub cold: u64,
    pub private_reuses: u64,
    pub shared_reuses: u64,
}

impl Default for ReferenceStats {
    fn default() -> (stats: Self)
        ensures
            stats == (ReferenceStats {
                memref: None,
                accesses: 0,
                cold: 0,
                private_reuses: 0,
                shared_reuses: 0,
            }),
    {
        ReferenceStats { memref: None, accesses: 0, cold: 0, private_reuses: 0, shared_reuses: 0 }
    }
}

/// The counts of a map as numbers.
pub open spec fn counts<K>(map: Map<K, u64>) -> Map<K, nat> {
    map.map_values(|count: u64| count as nat)
}

/// The tallies of one access site over a trace.
pub open spec fn is_stats_of(stats: ReferenceStats, trace: Seq<Event>, site: int) -> bool {
    &&& stats.memref == memref_at(trace, site)
    &&& stats.accesses == occurrences(trace, at_site(site))
    &&& stats.cold == occurrences(trace, is_cold_at(site))
    &&& stats.private_reuses == occurrences(trace, is_reuse_at(site, false))
    &&& stats.shared_reuses == occurrences(trace, is_reuse_at(site, true))
}

/// The tallies of one access site of a trace that 64 bits can count.
pub open spec fn stats_of(trace: Seq<Event>, site: int) -> ReferenceStats {
    ReferenceStats {
        memref: memref_at(trace, site),
        accesses: occurrences(trace, at_site(site)) as u64,
        cold: occurrences(trace, is_cold_at(site)) as u64,
        private_reuses: occurrences(trace, is_reuse_at(site, false)) as u64,
        shared_reuses: occurrences(trace, is_reuse_at(site, true)) as u64,
    }
}

/// Every statistic of a run.
pub ghost struct Statistics {
    pub total_accesses: nat,
    pub cold_accesses: nat,
    pub cri: Map<u32, nat>,
    pub pri: Map<u32, nat>,
    /// Where reuse distances are measured.
    pub reuse_distance: Option<Map<u32, nat>>,
    pub overflowed: bool,
    pub joint: Map<(u32, u32, u32, bool), nat>,
    pub per_reference: Seq<ReferenceStats>,
}

/// Adds one to the count of a key.
fn bump<K: MapKey + Copy + Eq + Hash>(map: &mut FxHashMap<K, u64>, key: K)
    requires
        count_of(counts(old(map)@), key) < u64::MAX,
    ensures
        counts(final(map)@) == counts(old(map)@).insert(key, count_of(counts(old(map)@), key) + 1),
{
    let count: u64 = match fx_get(map, &key) {
        Some(count) => count,
        None => 0,
    };
    let ghost before = map@;
    assert(counts(before).contains_key(key) <==> before.contains_key(key));
    let _ = fx_insert(map, key, count + 1);
    assert(counts(map@) =~= counts(before).insert(key, count_of(counts(before), key) + 1));
}

/// One thread's last uses, as positions of its own stream.
spec fn private_ok(stream: Seq<Event>, last: Map<DataKey, u64>) -> bool {
    &&& forall|i: int|
        0 <= i < stream.len() ==> last.contains_key(key_of((#[trigger] stream[i]).1.data))
    &&& forall|key: DataKey| #[trigger]
        last.contains_key(key) ==> private_entry_ok(stream, key, last[key])
}

spec fn private_entry_ok(stream: Seq<Event>, key: DataKey, time: u64) -> bool {
    &&& 1 <= time <= stream.len()
    &&& key_of(stream[time - 1].1.data) == key
    &&& last_use(stream, stream[time - 1].1.data) == time - 1
}

proof fn lemma_private_push(stream: Seq<Event>, event: Event, last: Map<DataKey, u64>)
    requires
        private_ok(stream, last),
        stream.len() < u64::MAX,
    ensures
        private_ok(
            stream.push(event),
            last.insert(key_of(event.1.data), (stream.len() + 1) as u64),
        ),
        lookup(last, key_of(event.1.data)) == match interval(stream, event.1.data) {
            Some(value) => Some((stream.len() + 1 - value) as u64),
            None => None::<u64>,
        },
{
    let after = stream.push(event);
    let key = key_of(event.1.data);
    let now = last.insert(key, (stream.len() + 1) as u64);
    lemma_push(stream, event);
    lemma_last_use(stream, event.1.data);
    if last.contains_key(key) {
        lemma_key_injective(event.1.data, stream[last[key] - 1].1.data);
    }
    assert forall|i: int| 0 <= i < after.len() implies now.contains_key(
        key_of((#[trigger] after[i]).1.data),
    ) by {
        if i < stream.len() {
            assert(after[i] == stream[i]);
        }
    }
    assert forall|other: DataKey| #[trigger] now.contains_key(other) implies private_entry_ok(
        after,
        other,
        now[other],
    ) by {
        if other != key {
            let at = last[other] - 1;
            assert(after[at] == stream[at]);
            assert(stream[at].1.data != event.1.data);
        }
    }
}

/// Accumulates every statistic of one interleaved run.
pub struct Sampler {
    binner: Binner,
    clock: u64,
    recency: Recency,
    private_last: Vec<FxHashMap<DataKey, u64>>,
    private_clock: Vec<u64>,
    cri: Histogram,
    pri: Histogram,
    reuse_distance: Histogram,
    joint: FxHashMap<(u32, u32, u32, bool), u64>,
    per_reference: Vec<ReferenceStats>,
    total_accesses: u64,
    cold_accesses: u64,
}

impl Sampler {
    /// The accesses observed so far, in order.
    pub closed spec fn history(&self) -> Seq<Event> {
        self.recency.trace()
    }

    /// Number of threads.
    pub closed spec fn threads(&self) -> nat {
        self.private_last@.len()
    }

    /// Number of access sites with tallies of their own.
    pub closed spec fn references(&self) -> nat {
        self.per_reference@.len()
    }

    /// How reuse values are binned.
    pub closed spec fn bins(&self) -> Binner {
        self.binner
    }

    /// Whether reuse distances are measured.
    pub closed spec fn has_distance(&self) -> bool {
        self.recency.has_index()
    }

    /// Whether the reuse-distance index ran out of room.
    pub open spec fn full(&self) -> bool {
        self.has_distance() && timeline(self.history()).full
    }

    /// Every statistic of the run.
    pub open spec fn statistics(&self) -> Statistics {
        let trace = self.history();
        Statistics {
            total_accesses: trace.len(),
            cold_accesses: occurrences(trace, is_cold()),
            cri: tally(trace, cri_bin(self.bins())),
            pri: tally(trace, pri_bin(self.bins())),
            reuse_distance: if self.has_distance() {
                Some(tally(trace, measured_bin(self.bins())))
            } else {
                None
            },
            overflowed: self.full(),
            joint: tally(trace, joint_key(self.bins())),
            per_reference: Seq::new(self.references(), |site: int| stats_of(trace, site)),
        }
    }

    /// Every statistic is the one that the history gives.
    pub closed spec fn wf(&self) -> bool {
        let trace = self.recency.trace();
        &&& self.recency.wf()
        &&& self.clock == trace.len()
        &&& self.total_accesses == trace.len()
        &&& self.cold_accesses == occurrences(trace, is_cold())
        &&& self.private_clock@.len() == self.private_last@.len()
        &&& forall|tid: u32|
            tid < self.private_last@.len() ==> self.private_clock@[tid as int] == (#[trigger] own(
                trace,
                tid,
            )).len() && private_ok(own(trace, tid), self.private_last@[tid as int]@)
        &&& counts(self.cri@) == tally(trace, cri_bin(self.binner))
        &&& counts(self.pri@) == tally(trace, pri_bin(self.binner))
        &&& counts(self.joint@) == tally(trace, joint_key(self.binner))
        &&& self.recency.has_index() ==> counts(self.reuse_distance@) == tally(
            trace,
            measured_bin(self.binner),
        )
        &&& forall|site: int|
            0 <= site < self.per_reference@.len() ==> is_stats_of(
                #[trigger] self.per_reference@[site],
                trace,
                site,
            )
    }

    pub fn new(threads: usize, references: usize, binner: Binner, track_distance: bool) -> (sampler:
        Self)
        ensures
            sampler.wf(),
            sampler.history() == Seq::<Event>::empty(),
            sampler.threads() == threads,
            sampler.references() == references,
            sampler.bins() == binner,
            sampler.has_distance() == track_distance,
            !sampler.full(),
    {
        let mut private_last: Vec<FxHashMap<DataKey, u64>> = Vec::new();
        let mut private_clock: Vec<u64> = Vec::new();
        let mut thread: usize = 0;
        while thread < threads
            invariant
                thread <= threads,
                private_last@.len() == thread,
                private_clock@.len() == thread,
                forall|t: int|
                    0 <= t < thread ==> (#[trigger] private_last@[t])@ == Map::<
                        DataKey,
                        u64,
                    >::empty(),
                forall|t: int| 0 <= t < thread ==> #[trigger] private_clock@[t] == 0,
            decreases threads - thread,
        {
            private_last.push(FxHashMap::default());
            private_clock.push(0);
            thread += 1;
        }
        let mut per_reference: Vec<ReferenceStats> = Vec::new();
        let mut site: usize = 0;
        while site < references
            invariant
                site <= references,
                per_reference@.len() == site,
                forall|s: int|
                    0 <= s < site ==> is_stats_of(#[trigger] per_reference@[s], Seq::empty(), s),
            decreases references - site,
        {
            per_reference.push(ReferenceStats::default());
            site += 1;
        }
        let sampler = Sampler {
            binner,
            clock: 0,
            recency: Recency::new(track_distance),
            private_last,
            private_clock,
            cri: FxHashMap::default(),
            pri: FxHashMap::default(),
            reuse_distance: FxHashMap::default(),
            joint: FxHashMap::default(),
            per_reference,
            total_accesses: 0,
            cold_accesses: 0,
        };
        proof {
            let empty = Seq::<Event>::empty();
            assert(counts(sampler.cri@) =~= tally(empty, cri_bin(binner)));
            assert(counts(sampler.pri@) =~= tally(empty, pri_bin(binner)));
            assert(counts(sampler.joint@) =~= tally(empty, joint_key(binner)));
            assert(counts(sampler.reuse_distance@) =~= tally(empty, measured_bin(binner)));
        }
        sampler
    }

    /// Records one access from thread `tid`.
    pub fn observe(&mut self, tid: u32, access: Emitted)
        requires
            old(self).wf(),
            tid < old(self).threads(),
            old(self).history().len() < u64::MAX,
        ensures
            final(self).wf(),
            final(self).history() == old(self).history().push((tid, access)),
            final(self).threads() == old(self).threads(),
            final(self).references() == old(self).references(),
            final(self).bins() == old(self).bins(),
            final(self).has_distance() == old(self).has_distance(),
            old(self).full() ==> final(self).full(),
    {
        let ghost trace = self.recency.trace();
        let ghost event: Event = (tid, access);
        let ghost after = trace.push(event);
        let ghost stream = own(trace, tid);
        let ghost binner = self.binner;
        proof {
            lemma_push(trace, event);
            lemma_own_len(trace, tid);
            lemma_last_use(trace, access.data);
            lemma_last_use(stream, access.data);
            lemma_private_push(stream, event, self.private_last@[tid as int]@);
            lemma_occurrences_bound(trace, is_cold());
            lemma_tally_bound(trace, cri_bin(binner));
            lemma_tally_bound(trace, pri_bin(binner));
            lemma_tally_bound(trace, joint_key(binner));
            lemma_tally_bound(trace, measured_bin(binner));
            lemma_private_reuse(trace, tid, access.data);
        }
        self.clock = self.clock + 1;
        self.total_accesses = self.total_accesses + 1;
        let thread: usize = tid as usize;
        let private_now: u64 = self.private_clock[thread] + 1;
        self.private_clock[thread] = private_now;
        let key: DataKey = data_key(&access.data);
        let private_previous: Option<u64> = fx_insert(
            &mut self.private_last[thread],
            key,
            private_now,
        );
        let previous: Option<Previous> = self.recency.access(self.clock, tid, access);
        let reuse: Option<bool> = match previous {
            Some(entry) => Some(entry.tid != tid),
            None => None,
        };
        self.count_reference(access, reuse, Ghost(trace), Ghost(event));
        match previous {
            None => {
                self.cold_accesses = self.cold_accesses + 1;
            },
            Some(entry) => {
                match entry.distance {
                    Some(value) => {
                        let bin: u32 = self.binner.bin(value);
                        bump(&mut self.reuse_distance, bin);
                    },
                    None => {},
                }
                let cri_bin: u32 = self.binner.bin(self.clock - entry.time);
                bump(&mut self.cri, cri_bin);
                // A shared reuse can have no private predecessor at all: this
                // thread may never have touched the datum. Those reuses still
                // belong in the joint table, under the sentinel bin.
                let pri_bin: u32 = match private_previous {
                    Some(previous) => {
                        let bin: u32 = self.binner.bin(private_now - previous);
                        bump(&mut self.pri, bin);
                        bin
                    },
                    None => u32::MAX,
                };
                bump(&mut self.joint, (access.reference, pri_bin, cri_bin, entry.tid != tid));
            },
        }
        proof {
            assert(self.cold_accesses == occurrences(after, is_cold()));
            assert forall|other: u32| other < self.private_last@.len() implies self.private_clock@[
            other as int] == (#[trigger] own(after, other)).len() && private_ok(
                own(after, other),
                self.private_last@[other as int]@,
            ) by {
                assert(own(trace, other).len() == old(self).private_clock@[other as int]);
            }
            assert(counts(self.cri@) == tally(after, cri_bin(binner)));
            assert(counts(self.pri@) == tally(after, pri_bin(binner)));
            assert(counts(self.joint@) == tally(after, joint_key(binner)));
            assert(self.recency.has_index() ==> counts(self.reuse_distance@) == tally(
                after,
                measured_bin(binner),
            ));
        }
    }

    /// Adds one access to the tallies of its site; `reuse` says whether its
    /// datum was touched before, and then whether by another thread.
    fn count_reference(
        &mut self,
        access: Emitted,
        reuse: Option<bool>,
        Ghost(trace): Ghost<Seq<Event>>,
        Ghost(event): Ghost<Event>,
    )
        requires
            trace.len() < u64::MAX,
            event.1 == access,
            reuse is None <==> last_use(trace, access.data) < 0,
            reuse matches Some(shared) ==> shared == crosses_threads(trace, event),
            forall|site: int|
                0 <= site < old(self).per_reference@.len() ==> is_stats_of(
                    #[trigger] old(self).per_reference@[site],
                    trace,
                    site,
                ),
        ensures
            *final(self) == (Sampler { per_reference: final(self).per_reference, ..*old(self) }),
            final(self).per_reference@.len() == old(self).per_reference@.len(),
            forall|site: int|
                0 <= site < old(self).per_reference@.len() ==> is_stats_of(
                    #[trigger] final(self).per_reference@[site],
                    trace.push(event),
                    site,
                ),
    {
        let ghost before = self.per_reference@;
        let ghost after = trace.push(event);
        let site: usize = access.reference as usize;
        proof {
            lemma_push(trace, event);
            lemma_occurrences_bound(trace, at_site(site as int));
            lemma_occurrences_bound(trace, is_cold_at(site as int));
            lemma_occurrences_bound(trace, is_reuse_at(site as int, true));
            lemma_occurrences_bound(trace, is_reuse_at(site as int, false));
        }
        if site < self.per_reference.len() {
            let stats: &ReferenceStats = &self.per_reference[site];
            let updated = ReferenceStats {
                memref: Some(access.data.memref.0),
                accesses: stats.accesses + 1,
                cold: match reuse {
                    None => stats.cold + 1,
                    _ => stats.cold,
                },
                private_reuses: match reuse {
                    Some(false) => stats.private_reuses + 1,
                    _ => stats.private_reuses,
                },
                shared_reuses: match reuse {
                    Some(true) => stats.shared_reuses + 1,
                    _ => stats.shared_reuses,
                },
            };
            self.per_reference[site] = updated;
        }
        proof {
            assert forall|other: int| 0 <= other < before.len() implies is_stats_of(
                #[trigger] self.per_reference@[other],
                after,
                other,
            ) by {
                assert(is_stats_of(before[other], trace, other));
            }
        }
    }

    pub fn total_accesses(&self) -> (total: u64)
        requires
            self.wf(),
        ensures
            total == self.history().len(),
    {
        self.total_accesses
    }

    /// Number of accesses that touch their datum for the first time.
    pub fn cold_accesses(&self) -> (cold: u64)
        requires
            self.wf(),
        ensures
            cold == occurrences(self.history(), is_cold()),
    {
        self.cold_accesses
    }

    pub fn binner(&self) -> (binner: Binner)
        ensures
            binner == self.bins(),
    {
        self.binner
    }

    /// Intervals between accesses to one datum by any thread.
    pub fn cri(&self) -> (histogram: &Histogram)
        requires
            self.wf(),
        ensures
            counts(histogram@) == tally(self.history(), cri_bin(self.bins())),
    {
        &self.cri
    }

    /// Intervals between accesses to one datum by one thread, in its own time.
    pub fn pri(&self) -> (histogram: &Histogram)
        requires
            self.wf(),
        ensures
            counts(histogram@) == tally(self.history(), pri_bin(self.bins())),
    {
        &self.pri
    }

    /// Reuse distances, where they are measured. Until the index runs out of
    /// room every reuse is counted, and by its exact distance.
    pub fn reuse_distance(&self) -> (histogram: Option<&Histogram>)
        requires
            self.wf(),
        ensures
            histogram is Some <==> self.has_distance(),
            histogram matches Some(histogram) ==> counts(histogram@) == tally(
                self.history(),
                measured_bin(self.bins()),
            ) && (!self.full() ==> counts(histogram@) == tally(
                self.history(),
                distance_bin(self.bins()),
            )),
    {
        proof {
            if !timeline(self.history()).full {
                law_distances_are_exact_until_full(self.history(), self.binner);
            }
        }
        if self.recency.tracks_distance() {
            Some(&self.reuse_distance)
        } else {
            None
        }
    }

    /// The rows of the joint table, in an order that is left open.
    pub fn joint(&self) -> (rows: Vec<(JointKey, u64)>)
        requires
            self.wf(),
        ensures
            lists(joint_rows(rows@), tally(self.history(), joint_key(self.bins()))),
    {
        let entries: Vec<((u32, u32, u32, bool), u64)> = fx_entries(&self.joint);
        let mut rows: Vec<(JointKey, u64)> = Vec::new();
        let mut i: usize = 0;
        while i < entries.len()
            invariant
                i <= entries@.len(),
                rows@.len() == i,
                forall|r: int|
                    0 <= r < i ==> (#[trigger] rows@[r]).1 == entries@[r].1 && rows@[r].0.tuple()
                        == entries@[r].0,
            decreases entries@.len() - i,
        {
            let ((reference, pri_bin, cri_bin, shared), count): (
                (u32, u32, u32, bool),
                u64,
            ) = entries[i];
            let sharing: Sharing = if shared {
                Sharing::Shared
            } else {
                Sharing::Private
            };
            rows.push((JointKey { reference, pri_bin, cri_bin, sharing }, count));
            i += 1;
        }
        proof {
            lemma_widened(entries@, self.joint@);
            assert(joint_rows(rows@) =~= widened(entries@));
        }
        rows
    }

    /// The tallies of every access site.
    pub fn per_reference(&self) -> (stats: &Vec<ReferenceStats>)
        requires
            self.wf(),
        ensures
            stats@.len() == self.references(),
            forall|site: int|
                0 <= site < stats@.len() ==> is_stats_of(
                    #[trigger] stats@[site],
                    self.history(),
                    site,
                ),
            stats@ == self.statistics().per_reference,
    {
        proof {
            assert forall|site: int| 0 <= site < self.references() implies #[trigger] stats_of(
                self.history(),
                site,
            ) == self.per_reference@[site] by {
                assert(is_stats_of(self.per_reference@[site], self.history(), site));
            }
            assert(self.per_reference@ =~= self.statistics().per_reference);
        }
        &self.per_reference
    }

    /// True if the reuse-distance index ran out of room, which makes the
    /// distance histogram incomplete. The history decides that, and a trace of
    /// fewer than 2^31 - 1 distinct data never does it.
    pub fn overflowed(&self) -> (full: bool)
        requires
            self.wf(),
        ensures
            full == self.full(),
            full ==> self.has_distance() && touched(self.history()).len() >= 0x7fff_ffff,
    {
        proof {
            self.recency.lemma_wf();
        }
        self.recency.overflowed()
    }

    /// Number of accesses that miss when exactly the reuses in bins below
    /// `first_bin` hit: the cold accesses and the reuses in bins from
    /// `first_bin` on. `None` when reuse distances were not measured or the
    /// index ran out of room.
    pub fn exact_misses(&self, first_bin: u32) -> (misses: Option<u64>)
        requires
            self.wf(),
        ensures
            misses is Some <==> self.has_distance() && !self.full(),
            misses matches Some(misses) ==> misses == occurrences(self.history(), is_cold())
                + occurrences(
                self.history(),
                keyed(distance_bin(self.bins()), bin_from(first_bin)),
            ),
    {
        proof {
            self.recency.lemma_wf();
            if !timeline(self.history()).full {
                law_distances_are_exact_until_full(self.history(), self.binner);
            }
        }
        if !self.recency.tracks_distance() || self.recency.overflowed() {
            return None;
        }
        let entries: Vec<(u32, u64)> = fx_entries(&self.reuse_distance);
        let ghost wide = widened(entries@);
        let ghost key = distance_bin(self.binner);
        let ghost condition = bin_from(first_bin);
        let ghost trace = self.recency.trace();
        proof {
            lemma_widened(entries@, self.reuse_distance@);
            lemma_sum_of_tally(trace, key, wide, condition);
            lemma_cold_or_reuse(trace, self.binner, condition);
        }
        let mut misses: u64 = self.cold_accesses;
        let mut i: usize = 0;
        while i < entries.len()
            invariant
                i <= entries@.len(),
                wide == widened(entries@),
                condition == bin_from(first_bin),
                self.cold_accesses + sum_where(wide, condition) <= u64::MAX,
                misses == self.cold_accesses + sum_where(wide.take(i as int), condition),
            decreases entries@.len() - i,
        {
            let (bin, count): (u32, u64) = entries[i];
            proof {
                lemma_sum_prefix(wide, i + 1, condition);
                assert(wide.take(i + 1).drop_last() =~= wide.take(i as int));
                assert(wide.take(i + 1).last() == (bin, count as nat));
            }
            if bin >= first_bin {
                misses = misses + count;
            }
            i += 1;
        }
        assert(wide.take(i as int) =~= wide);
        Some(misses)
    }
}

impl JointKey {
    /// The fields as a tuple.
    pub open spec fn tuple(self) -> (u32, u32, u32, bool) {
        (self.reference, self.pri_bin, self.cri_bin, self.sharing == Sharing::Shared)
    }
}

/// The rows of a joint table as keys and numbers.
pub open spec fn joint_rows(rows: Seq<(JointKey, u64)>) -> Seq<((u32, u32, u32, bool), nat)> {
    rows.map_values(|row: (JointKey, u64)| (row.0.tuple(), row.1 as nat))
}

/// The bins from a given one on.
pub open spec fn bin_from(first: u32) -> spec_fn(u32) -> bool {
    |bin: u32| bin >= first
}

/// Cold accesses and reuses are different accesses.
proof fn lemma_cold_or_reuse(trace: Seq<Event>, binner: Binner, condition: spec_fn(u32) -> bool)
    ensures
        occurrences(trace, is_cold()) + occurrences(trace, keyed(distance_bin(binner), condition))
            <= trace.len(),
    decreases trace.len(),
{
    if trace.len() > 0 {
        lemma_cold_or_reuse(trace.drop_last(), binner, condition);
    }
}

/// Every access is either the first to its datum or counted once in the
/// histogram of concurrent intervals.
pub proof fn law_cold_accesses_and_reuses_are_all(trace: Seq<Event>, binner: Binner)
    ensures
        occurrences(trace, is_cold()) + occurrences(trace, keyed(cri_bin(binner), |bin: u32| true))
            == trace.len(),
    decreases trace.len(),
{
    if trace.len() > 0 {
        law_cold_accesses_and_reuses_are_all(trace.drop_last(), binner);
    }
}

/// Where one thread makes every access, each reuse is private and its private
/// interval is its concurrent interval.
pub proof fn law_one_thread_sees_one_view(before: Seq<Event>, event: Event, binner: Binner)
    requires
        forall|i: int| 0 <= i < before.len() ==> (#[trigger] before[i]).0 == event.0,
    ensures
        pri_bin(binner)(before, event) == cri_bin(binner)(before, event),
        !crosses_threads(before, event),
{
    lemma_own_all(before, event.0);
    lemma_last_use(before, event.1.data);
}

/// A reuse without a private predecessor crosses threads: whoever touched the
/// datum last was another thread.
pub proof fn law_first_use_by_a_thread_is_shared(before: Seq<Event>, event: Event, binner: Binner)
    requires
        cri_bin(binner)(before, event) is Some,
        pri_bin(binner)(before, event) is None,
    ensures
        crosses_threads(before, event),
{
    lemma_last_use(before, event.1.data);
    if before[last_use(before, event.1.data)].0 == event.0 {
        lemma_own_use(before, event.0, event.1.data);
    }
}

/// A thread that touched a datum last has touched it.
proof fn lemma_own_use(trace: Seq<Event>, tid: u32, data: crate::address::DataId)
    requires
        last_use(trace, data) >= 0,
        trace[last_use(trace, data)].0 == tid,
    ensures
        last_use(own(trace, tid), data) >= 0,
    decreases trace.len(),
{
    let rest = trace.drop_last();
    if trace.last().1.data != data {
        lemma_last_use(rest, data);
        lemma_own_use(rest, tid, data);
        assert(own(rest, tid).push(trace.last()).drop_last() =~= own(rest, tid));
    }
}

proof fn lemma_own_all(trace: Seq<Event>, tid: u32)
    requires
        forall|i: int| 0 <= i < trace.len() ==> (#[trigger] trace[i]).0 == tid,
    ensures
        own(trace, tid) == trace,
    decreases trace.len(),
{
    if trace.len() > 0 {
        assert forall|i: int| 0 <= i < trace.drop_last().len() implies (
        #[trigger] trace.drop_last()[i]).0 == tid by {
            assert(trace[i].0 == tid);
        }
        lemma_own_all(trace.drop_last(), tid);
        assert(trace.last().0 == tid);
        assert(trace.drop_last().push(trace.last()) =~= trace);
    } else {
        assert(own(trace, tid) =~= trace);
    }
}

/// A thread that has touched a datum is not the first to do so.
proof fn lemma_private_reuse(trace: Seq<Event>, tid: u32, data: crate::address::DataId)
    ensures
        last_use(own(trace, tid), data) >= 0 ==> last_use(trace, data) >= 0,
    decreases trace.len(),
{
    if trace.len() > 0 {
        let rest = trace.drop_last();
        lemma_private_reuse(rest, tid, data);
        assert(own(rest, tid).push(trace.last()).drop_last() =~= own(rest, tid));
    }
}

} // verus!
