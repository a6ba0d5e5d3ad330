//! The most recent access to every datum, and how many data came after it.

use crate::address::DataId;
use crate::fxmap::{fx_entries, fx_get, fx_insert, lists};
use crate::history::{distance, lemma_last_use, lemma_push, last_use, touched, Event};
use crate::reuse_distance::{timeline_limit, ReuseDistance};
use crate::sort::{is_sorted, SortKey};
use crate::timeline::{timeline, without_datum, Timeline};
use crate::walk::Emitted;
use rustc_hash::FxHashMap;
use vstd::prelude::*;

verus! {

/// A datum as a tuple of integers, the key under which maps hold it.
pub type DataKey = (u32, i64, i64, i64, i64, i64, i64);

/// The key of a datum.
pub open spec fn key_of(data: DataId) -> DataKey {
    (
        data.memref.0,
        data.coords@[0],
        data.coords@[1],
        data.coords@[2],
        data.coords@[3],
        data.coords@[4],
        data.coords@[5],
    )
}

/// Different data have different keys.
pub proof fn lemma_key_injective(left: DataId, right: DataId)
    ensures
        key_of(left) == key_of(right) ==> left == right,
{
    if key_of(left) == key_of(right) {
        assert(left.coords@ =~= right.coords@);
        vstd::array::axiom_array_ext_equal(left.coords, right.coords);
    }
}

/// The key of a datum.
pub fn data_key(data: &DataId) -> (key: DataKey)
    ensures
        key == key_of(*data),
{
    (
        data.memref.0,
        data.coords[0],
        data.coords[1],
        data.coords[2],
        data.coords[3],
        data.coords[4],
        data.coords[5],
    )
}

/// What is known about the most recent access to a datum.
#[derive(Clone, Copy, Debug)]
pub struct GlobalEntry {
    pub time: u64,
    pub tid: u32,
    /// Position of the datum's marker in the reuse-distance index, or
    /// `u32::MAX`.
    pub slot: u32,
}

/// What an access learns about the previous access to its datum.
#[derive(Clone, Copy, Debug)]
pub struct Previous {
    pub time: u64,
    pub tid: u32,
    /// Number of distinct data touched in between, where that is tracked.
    pub distance: Option<u64>,
}

spec fn entry_ok(trace: Seq<Event>, key: DataKey, entry: GlobalEntry) -> bool {
    &&& 1 <= entry.time <= trace.len()
    &&& key_of(trace[entry.time - 1].1.data) == key
    &&& trace[entry.time - 1].0 == entry.tid
    &&& last_use(trace, trace[entry.time - 1].1.data) == entry.time - 1
}

/// The map holds the last use of every datum of the trace, and nothing else.
spec fn entries_ok(trace: Seq<Event>, last: Map<DataKey, GlobalEntry>) -> bool {
    &&& forall|i: int|
        0 <= i < trace.len() ==> last.contains_key(key_of((#[trigger] trace[i]).1.data))
    &&& forall|key: DataKey| #[trigger]
        last.contains_key(key) ==> entry_ok(trace, key, last[key])
}

spec fn slotted(last: Map<DataKey, GlobalEntry>, key: DataKey) -> bool {
    last.contains_key(key) && last[key].slot != u32::MAX
}

/// Some datum has the slot.
spec fn is_slot(last: Map<DataKey, GlobalEntry>, slot: u32) -> bool {
    exists|key: DataKey| #[trigger] slotted(last, key) && last[key].slot == slot
}

/// Stored slots carry a marker and are ordered as the accesses are.
spec fn slots_ok(last: Map<DataKey, GlobalEntry>, marks: Set<int>) -> bool {
    &&& forall|key: DataKey| #[trigger]
        slotted(last, key) ==> marks.contains(last[key].slot as int)
    &&& forall|a: DataKey, b: DataKey|
        #[trigger] slotted(last, a) && #[trigger] slotted(last, b) && last[a].time < last[b].time
            ==> last[a].slot < last[b].slot
}

/// Every datum has a slot, and every marker belongs to a datum.
spec fn slots_complete(last: Map<DataKey, GlobalEntry>, marks: Set<int>) -> bool {
    &&& forall|key: DataKey| #[trigger] last.contains_key(key) ==> last[key].slot != u32::MAX
    &&& forall|at: int| #[trigger]
        marks.contains(at) ==> exists|key: DataKey|
            #[trigger] last.contains_key(key) && last[key].slot == at
}

/// The timeline is not sparse, and has room unless the data fill it.
spec fn timeline_ok(index: ReuseDistance) -> bool {
    &&& index.used() <= 2 * vstd::math::max(index.marks().len() as int, 512)
    &&& index.used() < index.positions() || index.marks().len() >= timeline_limit()
}

/// The data with a slot are those of a list, in the order of their last uses,
/// and every marker but one that stands for no slot is theirs.
spec fn models(last: Map<DataKey, GlobalEntry>, marks: Set<int>, placed: Seq<DataId>) -> bool {
    &&& forall|i: int| 0 <= i < placed.len() ==> slotted(last, key_of(#[trigger] placed[i]))
    &&& forall|i: int, j: int|
        #![trigger placed[i], placed[j]]
        0 <= i < j < placed.len() ==> last[key_of(placed[i])].time < last[key_of(placed[j])].time
    &&& forall|key: DataKey| #[trigger] slotted(last, key) ==> is_placed(placed, key)
    &&& forall|at: int| #[trigger]
        marks.contains(at) && at != u32::MAX ==> exists|i: int|
            0 <= i < placed.len() && last[key_of(#[trigger] placed[i])].slot == at
}

/// Some datum of the list has the key.
spec fn is_placed(placed: Seq<DataId>, key: DataKey) -> bool {
    exists|i: int| 0 <= i < placed.len() && key_of(#[trigger] placed[i]) == key
}

/// The index is in the state of a timeline.
spec fn line_ok(last: Map<DataKey, GlobalEntry>, index: ReuseDistance, line: Timeline) -> bool {
    &&& index.used() == line.used
    &&& index.positions() == line.positions
    &&& models(last, index.marks(), line.placed)
}

/// The markers behind a datum's own are those of the data behind it.
proof fn lemma_markers_behind(
    last: Map<DataKey, GlobalEntry>,
    marks: Set<int>,
    placed: Seq<DataId>,
    from: int,
)
    requires
        slots_ok(last, marks),
        models(last, marks, placed),
        !marks.contains(u32::MAX as int),
        -1 <= from < placed.len(),
    ensures
        from >= 0 ==> marks.filter(|at: int| at > last[key_of(placed[from])].slot).len()
            == placed.len() - 1 - from,
        marks.len() == placed.len(),
        placed.no_duplicates(),
{
    let slots = placed.map_values(|data: DataId| last[key_of(data)].slot as int);
    assert forall|i: int, j: int| 0 <= i < j < slots.len() implies slots[i] < slots[j] by {
        assert(slotted(last, key_of(placed[i])) && slotted(last, key_of(placed[j])));
        assert(last[key_of(placed[i])].time < last[key_of(placed[j])].time);
    }
    assert forall|at: int| marks.contains(at) <==> slots.to_set().contains(at) by {
        if marks.contains(at) {
            let i = choose|i: int|
                0 <= i < placed.len() && last[key_of(#[trigger] placed[i])].slot == at;
            assert(slots[i] == at);
        }
        if slots.to_set().contains(at) {
            let i = slots.index_of(at);
            assert(slotted(last, key_of(placed[i])));
        }
    }
    assert(marks =~= slots.to_set());
    assert(slots.no_duplicates());
    slots.unique_seq_to_set();
    assert(placed.no_duplicates()) by {
        assert forall|i: int, j: int| 0 <= i < placed.len() && 0 <= j < placed.len() && i
            != j implies placed[i] != placed[j] by {
            assert(slots[i] != slots[j]);
        }
    }
    if from >= 0 {
        let rest = slots.skip(from + 1);
        let behind = marks.filter(|at: int| at > last[key_of(placed[from])].slot);
        assert(slots[from] == last[key_of(placed[from])].slot);
        assert forall|at: int| behind.contains(at) <==> rest.to_set().contains(at) by {
            if behind.contains(at) {
                let i = slots.index_of(at);
                assert(slots[i] == at);
                assert(rest[i - from - 1] == at);
            }
            if rest.to_set().contains(at) {
                let i = rest.index_of(at);
                assert(slots[i + from + 1] == at);
                assert(slots.contains(at));
            }
        }
        assert(behind =~= rest.to_set());
        assert(rest.no_duplicates());
        rest.unique_seq_to_set();
    }
}

/// A datum has a slot exactly when it is in the list.
proof fn lemma_slotted(
    last: Map<DataKey, GlobalEntry>,
    marks: Set<int>,
    placed: Seq<DataId>,
    data: DataId,
)
    requires
        models(last, marks, placed),
    ensures
        slotted(last, key_of(data)) <==> placed.contains(data),
{
    if slotted(last, key_of(data)) {
        assert(is_placed(placed, key_of(data)));
        let i = choose|i: int| 0 <= i < placed.len() && key_of(#[trigger] placed[i]) == key_of(data);
        lemma_key_injective(placed[i], data);
    }
    if placed.contains(data) {
        let i = placed.index_of(data);
        assert(slotted(last, key_of(placed[i])));
    }
}

/// An access moves its datum to the end of the list, or takes it out.
proof fn lemma_models_push(
    trace: Seq<Event>,
    last: Map<DataKey, GlobalEntry>,
    marks: Set<int>,
    placed: Seq<DataId>,
    data: DataId,
    entry: GlobalEntry,
    after: Set<int>,
)
    requires
        entries_ok(trace, last),
        slots_ok(last, marks),
        models(last, marks, placed),
        !marks.contains(u32::MAX as int),
        entry.time == trace.len() + 1,
        ({
            let kept = if slotted(last, key_of(data)) {
                marks.remove(last[key_of(data)].slot as int)
            } else {
                marks
            };
            after == kept.insert(entry.slot as int) || entry.slot == u32::MAX && after == kept
        }),
    ensures
        models(
            last.insert(key_of(data), entry),
            after,
            if entry.slot == u32::MAX {
                without_datum(placed, data)
            } else {
                without_datum(placed, data).push(data)
            },
        ),
{
    let key = key_of(data);
    let now = last.insert(key, entry);
    let kept = without_datum(placed, data);
    let list = if entry.slot == u32::MAX {
        kept
    } else {
        kept.push(data)
    };
    lemma_slotted(last, marks, placed, data);
    lemma_markers_behind(last, marks, placed, -1);
    let p = placed.index_of(data);
    assert forall|i: int| 0 <= i < kept.len() implies placed.contains(#[trigger] kept[i])
        && kept[i] != data && now[key_of(kept[i])] == last[key_of(kept[i])] && slotted(
        last,
        key_of(kept[i]),
    ) by {
        let j = if placed.contains(data) && i >= p {
            i + 1
        } else {
            i
        };
        assert(kept[i] == placed[j]);
        assert(slotted(last, key_of(placed[j])));
        lemma_key_injective(placed[j], data);
    }
    assert forall|i: int| 0 <= i < list.len() implies slotted(now, key_of(#[trigger] list[i])) by {
        if i < kept.len() {
            assert(list[i] == kept[i]);
        }
    }
    assert forall|i: int, j: int|
        #![trigger list[i], list[j]]
        0 <= i < j < list.len() implies now[key_of(list[i])].time < now[key_of(list[j])].time by {
        assert(list[i] == kept[i]);
        if j < kept.len() {
            assert(list[j] == kept[j]);
            let (a, b) = if placed.contains(data) {
                (
                    if i >= p {
                        i + 1
                    } else {
                        i
                    },
                    if j >= p {
                        j + 1
                    } else {
                        j
                    },
                )
            } else {
                (i, j)
            };
            assert(kept[i] == placed[a] && kept[j] == placed[b]);
        } else {
            assert(slotted(last, key_of(kept[i])));
            assert(entry_ok(trace, key_of(kept[i]), last[key_of(kept[i])]));
        }
    }
    assert forall|other: DataKey| #[trigger] slotted(now, other) implies is_placed(list, other) by {
        if other == key {
            assert(list[list.len() - 1] == data);
        } else {
            assert(slotted(last, other));
            assert(is_placed(placed, other));
            let j = choose|j: int| 0 <= j < placed.len() && key_of(#[trigger] placed[j]) == other;
            let i = if placed.contains(data) && j > p {
                j - 1
            } else {
                j
            };
            assert(kept[i] == placed[j]);
            assert(list[i] == placed[j]);
        }
    }
    assert forall|at: int| #[trigger] after.contains(at) && at != u32::MAX implies exists|i: int|
        0 <= i < list.len() && now[key_of(#[trigger] list[i])].slot == at by {
        if at == entry.slot {
            assert(list[list.len() - 1] == data);
        } else {
            assert(marks.contains(at));
            let j = choose|j: int|
                0 <= j < placed.len() && last[key_of(#[trigger] placed[j])].slot == at;
            assert(placed[j] != data) by {
                if placed[j] == data {
                    assert(slotted(last, key));
                }
            }
            let i = if placed.contains(data) && j > p {
                j - 1
            } else {
                j
            };
            assert(kept[i] == placed[j]);
            assert(list[i] == placed[j]);
            assert(now[key_of(list[i])].slot == at);
        }
    }
}

/// Last uses of a trace, with reuse distances where they are asked for.
pub struct Recency {
    last: FxHashMap<DataKey, GlobalEntry>,
    distance: Option<ReuseDistance>,
    overflowed: bool,
    trace: Ghost<Seq<Event>>,
}

/// The markers that stand for the uses from position `from` on number the
/// distinct data touched there.
proof fn lemma_markers_count_data(
    trace: Seq<Event>,
    last: Map<DataKey, GlobalEntry>,
    marks: Set<int>,
    from: int,
    chosen: Set<int>,
)
    requires
        0 <= from <= trace.len(),
        entries_ok(trace, last),
        slots_ok(last, marks),
        slots_complete(last, marks),
        chosen.subset_of(marks),
        forall|key: DataKey| #[trigger]
            last.contains_key(key) ==> (chosen.contains(last[key].slot as int) <==> last[key].time
                > from),
    ensures
        chosen.finite(),
        chosen.len() == touched(trace.skip(from)).len(),
{
    let data = touched(trace.skip(from));
    let seq = trace.skip(from).map_values(|event: Event| event.1.data);
    let slot = |d: DataId| last[key_of(d)].slot as int;
    vstd::seq_lib::seq_to_set_is_finite(seq);
    assert forall|d: DataId| data.contains(d) implies last.contains_key(key_of(d))
        && last[key_of(d)].time > from && trace[last[key_of(d)].time - 1].1.data == d by {
        let i = choose|i: int| 0 <= i < seq.len() && seq[i] == d;
        assert(trace[i + from].1.data == d);
        lemma_last_use(trace, d);
        lemma_key_injective(d, trace[last[key_of(d)].time - 1].1.data);
    }
    assert(vstd::relations::injective_on(slot, data)) by {
        assert forall|a: DataId, b: DataId|
            data.contains(a) && data.contains(b) && #[trigger] slot(a) == #[trigger] slot(b) implies a
            == b by {
            assert(slotted(last, key_of(a)) && slotted(last, key_of(b)));
        }
    }
    assert forall|at: int| data.map(slot).contains(at) <==> chosen.contains(at) by {
        if data.map(slot).contains(at) {
            let d = choose|d: DataId| data.contains(d) && slot(d) == at;
        }
        if chosen.contains(at) {
            let key = choose|key: DataKey|
                #[trigger] last.contains_key(key) && last[key].slot == at;
            let i = last[key].time - 1;
            let d = trace[i].1.data;
            assert(seq[i - from] == d);
            assert(data.contains(d));
            assert(slot(d) == at);
        }
    }
    assert(data.map(slot) =~= chosen);
    vstd::set_lib::lemma_map_size(data, chosen, slot);
}

proof fn lemma_entries_push(
    trace: Seq<Event>,
    event: Event,
    last: Map<DataKey, GlobalEntry>,
    entry: GlobalEntry,
)
    requires
        entries_ok(trace, last),
        entry.time == trace.len() + 1,
        entry.tid == event.0,
    ensures
        entries_ok(trace.push(event), last.insert(key_of(event.1.data), entry)),
{
    let after = trace.push(event);
    let key = key_of(event.1.data);
    let now = last.insert(key, entry);
    lemma_push(trace, event);
    assert forall|i: int| 0 <= i < after.len() implies now.contains_key(
        key_of((#[trigger] after[i]).1.data),
    ) by {
        if i < trace.len() {
            assert(after[i] == trace[i]);
        }
    }
    assert forall|other: DataKey| #[trigger] now.contains_key(other) implies entry_ok(
        after,
        other,
        now[other],
    ) by {
        if other != key {
            let at = last[other].time - 1;
            assert(after[at] == trace[at]);
            assert(trace[at].1.data != event.1.data);
        }
    }
}

proof fn lemma_touched_push(trace: Seq<Event>, event: Event)
    ensures
        touched(trace.push(event)) == touched(trace).insert(event.1.data),
        touched(trace).finite(),
        touched(trace).len() <= touched(trace.push(event)).len(),
{
    let data = |event: Event| event.1.data;
    let (a, b) = (trace.map_values(data), trace.push(event).map_values(data));
    assert(b =~= a.push(event.1.data));
    vstd::seq_lib::seq_to_set_is_finite(a);
    assert forall|d: DataId| b.to_set().contains(d) <==> a.to_set().insert(
        event.1.data,
    ).contains(d) by {
        if a.contains(d) {
            let i = choose|i: int| 0 <= i < a.len() && a[i] == d;
            assert(b[i] == d);
        }
        assert(b[a.len() as int] == event.1.data);
        if b.contains(d) {
            let i = choose|i: int| 0 <= i < b.len() && b[i] == d;
            if i < a.len() {
                assert(a[i] == d);
            }
        }
    }
    assert(b.to_set() =~= a.to_set().insert(event.1.data));
}

/// Moving the marker of one datum to the newest position keeps the slots right.
proof fn lemma_slots_push(
    trace: Seq<Event>,
    last: Map<DataKey, GlobalEntry>,
    marks: Set<int>,
    key: DataKey,
    entry: GlobalEntry,
    after: Set<int>,
)
    requires
        entries_ok(trace, last),
        slots_ok(last, marks),
        entry.time == trace.len() + 1,
        forall|at: int| marks.contains(at) ==> at < entry.slot || entry.slot == u32::MAX,
        ({
            let kept = if slotted(last, key) {
                marks.remove(last[key].slot as int)
            } else {
                marks
            };
            after == kept.insert(entry.slot as int) || entry.slot == u32::MAX && after == kept
        }),
    ensures
        slots_ok(last.insert(key, entry), after),
        slots_complete(last, marks) && entry.slot != u32::MAX ==> slots_complete(
            last.insert(key, entry),
            after,
        ),
{
    let now = last.insert(key, entry);
    assert forall|other: DataKey| #[trigger] slotted(now, other) implies after.contains(
        now[other].slot as int,
    ) by {
        if other != key {
            assert(slotted(last, other));
            if slotted(last, key) {
                if last[other].time == last[key].time {
                    assert(other == key);
                }
                assert(last[other].slot != last[key].slot);
            }
        }
    }
    assert forall|a: DataKey, b: DataKey|
        #[trigger] slotted(now, a) && #[trigger] slotted(now, b) && now[a].time
            < now[b].time implies now[a].slot < now[b].slot by {
        if a != key {
            assert(slotted(last, a));
            if b != key {
                assert(slotted(last, b));
            }
        } else if b != key {
            assert(entry_ok(trace, b, last[b]));
        }
    }
    if slots_complete(last, marks) && entry.slot != u32::MAX {
        assert forall|at: int| #[trigger] after.contains(at) implies exists|other: DataKey|
            #[trigger] now.contains_key(other) && now[other].slot == at by {
            if at == entry.slot {
                assert(now.contains_key(key));
            } else {
                assert(marks.contains(at));
                let other = choose|other: DataKey|
                    #[trigger] last.contains_key(other) && last[other].slot == at;
                assert(now.contains_key(other));
            }
        }
    }
}

impl Recency {
    /// The accesses seen so far.
    pub closed spec fn trace(&self) -> Seq<Event> {
        self.trace@
    }

    /// Whether reuse distances are tracked.
    pub closed spec fn has_index(&self) -> bool {
        self.distance is Some
    }

    /// Whether the reuse-distance index ran out of room.
    pub closed spec fn full(&self) -> bool {
        self.overflowed
    }

    spec fn inner_wf(&self, line: Timeline) -> bool {
        &&& entries_ok(self.trace@, self.last@)
        &&& self.distance matches Some(index) ==> {
            &&& index.wf()
            &&& line_ok(self.last@, index, line)
            &&& self.overflowed == line.full
            &&& slots_ok(self.last@, index.marks())
            &&& !self.overflowed ==> slots_complete(self.last@, index.marks())
        }
        &&& self.distance is None ==> !self.overflowed
        &&& self.overflowed ==> touched(self.trace@).len() >= 0x7fff_ffff
    }

    /// The stored entries are the last uses of the trace, and the markers are
    /// theirs. Room runs out only for a working set of 2^31 - 1 data or more.
    pub closed spec fn wf(&self) -> bool {
        &&& self.inner_wf(timeline(self.trace@))
        &&& self.distance is Some ==> timeline(self.trace@).used < u32::MAX
        &&& self.distance matches Some(index) ==> (!self.overflowed ==> timeline_ok(index))
    }

    /// What holds of every trace that was tracked to its end.
    pub proof fn lemma_wf(&self)
        requires
            self.wf(),
        ensures
            self.full() ==> touched(self.trace()).len() >= 0x7fff_ffff,
            self.full() == (self.has_index() && timeline(self.trace()).full),
    {
    }

    /// The empty trace.
    pub fn new(track_distance: bool) -> (recency: Self)
        ensures
            recency.wf(),
            recency.trace() == Seq::<Event>::empty(),
            recency.has_index() == track_distance,
            !recency.full(),
    {
        let distance: Option<ReuseDistance> = if track_distance {
            Some(ReuseDistance::new())
        } else {
            None
        };
        let recency = Recency {
            last: FxHashMap::default(),
            distance,
            overflowed: false,
            trace: Ghost(Seq::empty()),
        };
        proof {
            if track_distance {
                let marks = recency.distance->0.marks();
                assert(models(recency.last@, marks, Timeline::start().placed));
            }
        }
        recency
    }

    /// Whether the reuse-distance index ran out of room.
    pub fn overflowed(&self) -> (full: bool)
        ensures
            full == self.full(),
    {
        self.overflowed
    }

    /// Whether reuse distances are tracked.
    pub fn tracks_distance(&self) -> (yes: bool)
        ensures
            yes == self.has_index(),
    {
        self.distance.is_some()
    }

    /// Records one access, the `now`-th of the trace.
    pub fn access(&mut self, now: u64, tid: u32, access: Emitted) -> (previous: Option<Previous>)
        requires
            old(self).wf(),
            now == old(self).trace().len() + 1,
        ensures
            final(self).wf(),
            final(self).trace() == old(self).trace().push((tid, access)),
            final(self).has_index() == old(self).has_index(),
            old(self).full() ==> final(self).full(),
            previous is None <==> last_use(old(self).trace(), access.data) < 0,
            previous matches Some(entry) ==> {
                let last = last_use(old(self).trace(), access.data);
                &&& entry.time == last + 1
                &&& entry.tid == old(self).trace()[last].0
                &&& old(self).has_index() && !old(self).full() ==> (entry.distance matches Some(
                    value,
                ) && distance(old(self).trace(), access.data) == Some(value as int))
                &&& !old(self).has_index() ==> entry.distance is None
                &&& old(self).has_index() ==> entry.distance == (match timeline(
                    old(self).trace(),
                ).measured(access.data) {
                    Some(value) => Some(value as u64),
                    None => None,
                }) && (entry.distance matches Some(value) ==> timeline(old(self).trace()).measured(
                    access.data,
                ) == Some(value as int))
            },
            previous is None && old(self).has_index() ==> timeline(old(self).trace()).measured(
                access.data,
            ) is None,
    {
        let ghost line = timeline(self.trace@);
        let ghost trace = self.trace@;
        let ghost after = trace.push((tid, access));
        let ghost last = self.last@;
        let key: DataKey = data_key(&access.data);
        let entry: Option<GlobalEntry> = fx_get(&self.last, &key);
        proof {
            lemma_last_use(trace, access.data);
            lemma_push(trace, (tid, access));
            if last.contains_key(key) {
                lemma_key_injective(access.data, trace[last[key].time - 1].1.data);
            }
        }
        let ghost before = self.distance;
        proof {
            if let Some(index) = before {
                index.lemma_wf();
                assert(!index.marks().contains(u32::MAX as int));
                lemma_slotted(last, index.marks(), line.placed, access.data);
                if slotted(last, key) {
                    let at = line.placed.index_of(access.data);
                    assert(line.placed[at] == access.data);
                    lemma_markers_behind(last, index.marks(), line.placed, at);
                }
                if !self.overflowed {
                    assert(trace.skip(0) =~= trace);
                    assert forall|other: DataKey| #[trigger] last.contains_key(other) implies (
                    index.marks().contains(last[other].slot as int) <==> last[other].time > 0) by {
                        assert(slotted(last, other));
                    }
                    lemma_markers_count_data(trace, last, index.marks(), 0, index.marks());
                    if last.contains_key(key) {
                        let s = last[key].slot as int;
                        assert(slotted(last, key));
                        assert forall|other: DataKey| #[trigger]
                            last.contains_key(other) implies (index.marks().filter(
                            |at: int| at > s,
                        ).contains(last[other].slot as int) <==> last[other].time
                            > last[key].time) by {
                            assert(slotted(last, other));
                            if last[other].time == last[key].time {
                                assert(other == key);
                            }
                        }
                        lemma_markers_count_data(
                            trace,
                            last,
                            index.marks(),
                            last[key].time as int,
                            index.marks().filter(|at: int| at > s),
                        );
                    }
                }
            }
        }
        let mut measured: Option<u64> = None;
        let mut slot: u32 = u32::MAX;
        match &mut self.distance {
            Some(index) => {
                match entry {
                    Some(entry) => {
                        if entry.slot != u32::MAX {
                            proof {
                                assert(slotted(last, key));
                            }
                            let value: u64 = index.distance_from(entry.slot);
                            measured = Some(value);
                        }
                    },
                    None => {},
                }
                slot = index.touch();
                if slot == u32::MAX {
                    self.overflowed = true;
                }
            },
            None => {},
        }
        self.trace = Ghost(after);
        let _ = fx_insert(&mut self.last, key, GlobalEntry { time: now, tid, slot });
        proof {
            lemma_entries_push(trace, (tid, access), last, self.last@[key]);
            lemma_touched_push(trace, (tid, access));
            if self.distance is Some {
                let index = self.distance->0;
                lemma_slots_push(
                    trace,
                    last,
                    before->0.marks(),
                    key,
                    self.last@[key],
                    index.marks(),
                );
                lemma_models_push(
                    trace,
                    last,
                    before->0.marks(),
                    line.placed,
                    access.data,
                    self.last@[key],
                    index.marks(),
                );
                index.lemma_wf();
            }
            assert(after.drop_last() =~= trace);
        }
        self.maybe_compact(Ghost(line.touched(access.data)));
        match entry {
            Some(entry) => Some(Previous { time: entry.time, tid: entry.tid, distance: measured }),
            None => None,
        }
    }

    /// Rebuilds the timeline when it has grown too sparse, renumbering every
    /// stored slot to match.
    fn maybe_compact(&mut self, Ghost(line): Ghost<Timeline>)
        requires
            old(self).inner_wf(line),
            old(self).has_index() ==> timeline(old(self).trace()) == line.compacted(),
        ensures
            final(self).wf(),
            final(self).trace() == old(self).trace(),
            final(self).has_index() == old(self).has_index(),
            final(self).full() == old(self).full(),
    {
        proof {
            if let Some(index) = &self.distance {
                index.lemma_wf();
                if line.used < line.positions {
                    assert(!index.marks().contains(u32::MAX as int));
                    lemma_markers_behind(self.last@, index.marks(), line.placed, -1);
                }
            }
        }
        let needed: bool = match &self.distance {
            Some(index) => index.needs_compaction(),
            None => false,
        };
        if !needed {
            return ;
        }
        let ghost last = self.last@;
        let ghost marks = self.distance->0.marks();
        let entries: Vec<(DataKey, GlobalEntry)> = fx_entries(&self.last);
        let mut slots: Vec<u32> = Vec::new();
        let mut i: usize = 0;
        while i < entries.len()
            invariant
                i <= entries@.len(),
                lists(entries@, last),
                slots_ok(last, marks),
                entries_ok(self.trace@, last),
                slots@.no_duplicates(),
                forall|j: int|
                    0 <= j < slots@.len() ==> slot_of_entry(entries@, i as int, #[trigger] slots@[j]),
                forall|e: int|
                    0 <= e < i && (#[trigger] entries@[e]).1.slot != u32::MAX ==> slots@.contains(
                        entries@[e].1.slot,
                    ),
            decreases entries@.len() - i,
        {
            let slot: u32 = entries[i].1.slot;
            let ghost earlier = slots@;
            if slot != u32::MAX {
                proof {
                    let key = entries@[i as int].0;
                    assert(slotted(last, key));
                    assert(!slots@.contains(slot)) by {
                        if slots@.contains(slot) {
                            let j = choose|j: int| 0 <= j < slots@.len() && slots@[j] == slot;
                            assert(slot_of_entry(entries@, i as int, slots@[j]));
                            let e = choose|e: int|
                                0 <= e < i && (#[trigger] entries@[e]).1.slot == slot;
                            assert(slotted(last, entries@[e].0));
                            assert(entries@[e].0 != key);
                            if last[key].time == last[entries@[e].0].time {
                                assert(entry_ok(self.trace@, key, last[key]));
                                assert(entry_ok(self.trace@, entries@[e].0, last[entries@[e].0]));
                            }
                        }
                    }
                }
                slots.push(slot);
            }
            i += 1;
            proof {
                assert forall|j: int| 0 <= j < slots@.len() implies slot_of_entry(
                    entries@,
                    i as int,
                    #[trigger] slots@[j],
                ) by {
                    if j < earlier.len() {
                        assert(slot_of_entry(entries@, i - 1, earlier[j]));
                        let e = choose|e: int|
                            0 <= e < i - 1 && (#[trigger] entries@[e]).1.slot == earlier[j];
                        assert(entries@[e].1.slot == slots@[j]);
                    } else {
                        assert(entries@[i - 1].1.slot == slots@[j]);
                    }
                }
                assert forall|e: int|
                    0 <= e < i && (#[trigger] entries@[e]).1.slot
                        != u32::MAX implies slots@.contains(entries@[e].1.slot) by {
                    if e < i - 1 {
                        let j = choose|j: int|
                            0 <= j < earlier.len() && earlier[j] == entries@[e].1.slot;
                        assert(slots@[j] == entries@[e].1.slot);
                    } else {
                        assert(slots@[slots@.len() - 1] == slot);
                    }
                }
            }
        }
        let ghost unsorted = slots@;
        proof {
            assert forall|j: int| 0 <= j < slots@.len() implies marks.contains(
                #[trigger] slots@[j] as int,
            ) && slots@[j] != u32::MAX by {
                assert(slot_of_entry(entries@, i as int, slots@[j]));
                let e = choose|e: int|
                    0 <= e < i && (#[trigger] entries@[e]).1.slot == slots@[j];
                assert(slotted(last, entries@[e].0));
            }
            self.distance->0.lemma_wf();
            lemma_distinct_marks(slots@, marks);
        }
        match &mut self.distance {
            Some(index) => {
                index.compact(&mut slots);
            },
            None => {},
        }
        let ghost index = self.distance;
        proof {
            lemma_sorted_strictly(unsorted, slots@);
            vstd::set_lib::lemma_int_range(1, (slots@.len() + 1) as int);
            assert(self.distance->0.marks() =~= vstd::set_lib::set_int_range(
                1,
                (slots@.len() + 1) as int,
            ));
            assert forall|j: int| 0 <= j < slots@.len() implies 1 <= #[trigger] slots@[j]
                < u32::MAX by {
                assert(slots@.contains(slots@[j]));
                let k = choose|k: int| 0 <= k < unsorted.len() && unsorted[k] == slots@[j];
                assert(marks.contains(unsorted[k] as int));
            }
            lemma_ranks(slots@);
        }
        let renumbered: FxHashMap<u32, u32> = ranks(&slots);
        let mut k: usize = 0;
        while k < entries.len()
            invariant
                k <= entries@.len(),
                lists(entries@, last),
                is_ranks(slots@, renumbered@),
                self.trace == old(self).trace,
                self.overflowed == old(self).overflowed,
                self.distance == index,
                forall|e: int|
                    0 <= e < entries@.len() && (#[trigger] entries@[e]).1.slot != u32::MAX
                        ==> slots@.contains(entries@[e].1.slot),
                forall|key: DataKey| #[trigger]
                    self.last@.contains_key(key) <==> last.contains_key(key),
                forall|e: int|
                    0 <= e < entries@.len() ==> self.last@[(#[trigger] entries@[e]).0] == if e < k {
                        moved(entries@[e].1, renumbered@)
                    } else {
                        entries@[e].1
                    },
            decreases entries@.len() - k,
        {
            let (key, entry): (DataKey, GlobalEntry) = entries[k];
            let ghost earlier = self.last@;
            if entry.slot != u32::MAX {
                match fx_get(&renumbered, &entry.slot) {
                    Some(slot) => {
                        let _ = fx_insert(&mut self.last, key, GlobalEntry { slot, ..entry });
                    },
                    None => {},
                }
            }
            k += 1;
            proof {
                assert(entries@[k - 1] == (key, entry));
                assert forall|e: int| 0 <= e < entries@.len() implies self.last@[(
                #[trigger] entries@[e]).0] == if e < k {
                    moved(entries@[e].1, renumbered@)
                } else {
                    entries@[e].1
                } by {
                    if e != k - 1 {
                        assert(entries@[e].0 != key);
                        assert(self.last@[entries@[e].0] == earlier[entries@[e].0]);
                    }
                }
            }
        }
        proof {
            let now = self.last@;
            assert forall|key: DataKey| #[trigger] last.contains_key(key) implies now[key] == moved(
                last[key],
                renumbered@,
            ) by {
                let e = choose|e: int|
                    0 <= e < entries@.len() && #[trigger] entries@[e] == (key, last[key]);
                assert(now[entries@[e].0] == moved(entries@[e].1, renumbered@));
            }
            assert forall|j: int| 0 <= j < slots@.len() implies is_slot(
                last,
                #[trigger] slots@[j],
            ) by {
                assert(slots@.contains(slots@[j]));
                let u = choose|u: int| 0 <= u < unsorted.len() && unsorted[u] == slots@[j];
                assert(slot_of_entry(entries@, entries@.len() as int, unsorted[u]));
                let e = choose|e: int|
                    0 <= e < entries@.len() && (#[trigger] entries@[e]).1.slot == unsorted[u];
                assert(slotted(last, entries@[e].0));
            }
            lemma_renumber(self.trace@, last, marks, slots@, renumbered@, now);
            lemma_models_renumber(last, marks, slots@, renumbered@, now, line.placed);
            let dense = self.distance->0.marks();
            assert(dense =~= Set::new(|at: int| 1 <= at <= slots@.len()));
            lemma_markers_behind(now, dense, line.placed, -1);
        }
    }
}

/// `map` holds the rank of every value, from one.
spec fn is_ranks(values: Seq<u32>, map: Map<u32, u32>) -> bool {
    &&& forall|i: int|
        0 <= i < values.len() ==> map.contains_key(#[trigger] values[i]) && map[values[i]] == i + 1
    &&& forall|value: u32| #[trigger] map.contains_key(value) ==> values.contains(value)
}

/// The rank of every value of an ascending sequence, from one.
fn ranks(values: &Vec<u32>) -> (map: FxHashMap<u32, u32>)
    requires
        values@.len() < u32::MAX,
        forall|i: int, j: int| 0 <= i < j < values@.len() ==> values@[i] < values@[j],
    ensures
        is_ranks(values@, map@),
{
    let mut map: FxHashMap<u32, u32> = FxHashMap::default();
    let mut i: usize = 0;
    while i < values.len()
        invariant
            i <= values@.len() < u32::MAX,
            forall|a: int, b: int| 0 <= a < b < values@.len() ==> values@[a] < values@[b],
            is_ranks(values@.take(i as int), map@),
        decreases values@.len() - i,
    {
        let ghost (before, earlier) = (values@.take(i as int), map@);
        let _ = fx_insert(&mut map, values[i], i as u32 + 1);
        i += 1;
        proof {
            let now = values@.take(i as int);
            assert forall|a: int| 0 <= a < now.len() implies map@.contains_key(#[trigger] now[a])
                && map@[now[a]] == a + 1 by {
                if a < i - 1 {
                    assert(now[a] == before[a]);
                    assert(earlier.contains_key(before[a]));
                    assert(values@[a] < values@[i - 1]);
                }
            }
            assert forall|value: u32| #[trigger] map@.contains_key(value) implies now.contains(
                value,
            ) by {
                if value == values@[i - 1] {
                    assert(now[i - 1] == value);
                } else {
                    assert(before.contains(value));
                    let a = choose|a: int| 0 <= a < before.len() && before[a] == value;
                    assert(now[a] == value);
                }
            }
        }
    }
    assert(values@.take(i as int) =~= values@);
    map
}

/// An entry with its slot replaced by the slot's rank.
spec fn moved(entry: GlobalEntry, ranks: Map<u32, u32>) -> GlobalEntry {
    if entry.slot == u32::MAX {
        entry
    } else {
        GlobalEntry { slot: ranks[entry.slot], ..entry }
    }
}

/// The rank of a value of a strictly ascending sequence is at most the value.
proof fn lemma_ranks(values: Seq<u32>)
    requires
        forall|i: int, j: int| 0 <= i < j < values.len() ==> values[i] < values[j],
        forall|i: int| 0 <= i < values.len() ==> 1 <= #[trigger] values[i] < u32::MAX,
    ensures
        values.len() < u32::MAX,
    decreases values.len(),
{
    if values.len() > 0 {
        lemma_rank_bound(values, values.len() - 1);
    }
}

proof fn lemma_rank_bound(values: Seq<u32>, i: int)
    requires
        0 <= i < values.len(),
        forall|i: int, j: int| 0 <= i < j < values.len() ==> values[i] < values[j],
        forall|i: int| 0 <= i < values.len() ==> 1 <= #[trigger] values[i] < u32::MAX,
    ensures
        i + 1 <= values[i],
    decreases i,
{
    if i > 0 {
        lemma_rank_bound(values, i - 1);
        assert(values[i - 1] < values[i]);
    }
}

/// Replacing every slot by its rank keeps the entries and their order.
proof fn lemma_renumber(
    trace: Seq<Event>,
    last: Map<DataKey, GlobalEntry>,
    marks: Set<int>,
    slots: Seq<u32>,
    ranks: Map<u32, u32>,
    now: Map<DataKey, GlobalEntry>,
)
    requires
        entries_ok(trace, last),
        slots_ok(last, marks),
        slots.len() < u32::MAX,
        is_ranks(slots, ranks),
        forall|i: int, j: int| 0 <= i < j < slots.len() ==> slots[i] < slots[j],
        forall|key: DataKey| #[trigger]
            slotted(last, key) ==> slots.contains(last[key].slot),
        forall|i: int|
            0 <= i < slots.len() ==> is_slot(last, #[trigger] slots[i]),
        forall|key: DataKey| #[trigger] now.contains_key(key) <==> last.contains_key(key),
        forall|key: DataKey| #[trigger]
            last.contains_key(key) ==> now[key] == moved(last[key], ranks),
    ensures
        entries_ok(trace, now),
        slots_ok(now, Set::new(|at: int| 1 <= at <= slots.len())),
        slots_complete(last, marks) ==> slots_complete(
            now,
            Set::new(|at: int| 1 <= at <= slots.len()),
        ),
{
    let dense = Set::new(|at: int| 1 <= at <= slots.len());
    assert forall|i: int| 0 <= i < trace.len() implies now.contains_key(
        key_of((#[trigger] trace[i]).1.data),
    ) by {
        assert(last.contains_key(key_of(trace[i].1.data)));
    }
    assert forall|key: DataKey| #[trigger] now.contains_key(key) implies entry_ok(
        trace,
        key,
        now[key],
    ) by {
        assert(last.contains_key(key));
    }
    assert forall|key: DataKey| #[trigger] slotted(now, key) implies slotted(last, key)
        && dense.contains(now[key].slot as int) && slots[now[key].slot - 1] == last[key].slot by {
        assert(last.contains_key(key));
        assert(slotted(last, key));
        let i = choose|i: int| 0 <= i < slots.len() && slots[i] == last[key].slot;
        assert(ranks[slots[i]] == i + 1);
    }
    assert forall|a: DataKey, b: DataKey|
        #[trigger] slotted(now, a) && #[trigger] slotted(now, b) && now[a].time
            < now[b].time implies now[a].slot < now[b].slot by {
        assert(last[a].slot < last[b].slot);
        if now[b].slot < now[a].slot {
            assert(slots[now[b].slot - 1] < slots[now[a].slot - 1]);
        }
    }
    if slots_complete(last, marks) {
        assert forall|key: DataKey| #[trigger] now.contains_key(key) implies now[key].slot
            != u32::MAX by {
            assert(last.contains_key(key));
            assert(slotted(last, key));
            let i = choose|i: int| 0 <= i < slots.len() && slots[i] == last[key].slot;
            assert(ranks[slots[i]] == i + 1);
        }
        assert forall|at: int| #[trigger] dense.contains(at) implies exists|key: DataKey|
            #[trigger] now.contains_key(key) && now[key].slot == at by {
            let slot = slots[at - 1];
            assert(is_slot(last, slot));
            let key = choose|key: DataKey|
                #[trigger] slotted(last, key) && last[key].slot == slot;
            assert(now.contains_key(key));
            assert(ranks[slots[at - 1]] == at);
        }
    }
}

/// Replacing every slot by its rank keeps the list of data with slots.
proof fn lemma_models_renumber(
    last: Map<DataKey, GlobalEntry>,
    marks: Set<int>,
    slots: Seq<u32>,
    ranks: Map<u32, u32>,
    now: Map<DataKey, GlobalEntry>,
    placed: Seq<DataId>,
)
    requires
        models(last, marks, placed),
        slots.len() < u32::MAX,
        is_ranks(slots, ranks),
        forall|key: DataKey| #[trigger]
            slotted(last, key) ==> slots.contains(last[key].slot),
        forall|i: int|
            0 <= i < slots.len() ==> is_slot(last, #[trigger] slots[i]),
        forall|key: DataKey| #[trigger] now.contains_key(key) <==> last.contains_key(key),
        forall|key: DataKey| #[trigger]
            last.contains_key(key) ==> now[key] == moved(last[key], ranks),
    ensures
        models(now, Set::new(|at: int| 1 <= at <= slots.len()), placed),
{
    let dense = Set::new(|at: int| 1 <= at <= slots.len());
    assert forall|key: DataKey| #[trigger] slotted(last, key) implies slotted(now, key) by {
        assert(last.contains_key(key));
        let i = choose|i: int| 0 <= i < slots.len() && slots[i] == last[key].slot;
        assert(ranks[slots[i]] == i + 1);
    }
    assert forall|i: int| 0 <= i < placed.len() implies slotted(now, key_of(#[trigger] placed[i]))
        && now[key_of(placed[i])].time == last[key_of(placed[i])].time by {
        assert(slotted(last, key_of(placed[i])));
    }
    assert forall|key: DataKey| #[trigger] slotted(now, key) implies is_placed(placed, key) by {
        assert(last.contains_key(key));
        assert(slotted(last, key));
    }
    assert forall|at: int| #[trigger] dense.contains(at) && at != u32::MAX implies exists|i: int|
        0 <= i < placed.len() && now[key_of(#[trigger] placed[i])].slot == at by {
        let slot = slots[at - 1];
        assert(is_slot(last, slot));
        let key = choose|key: DataKey| #[trigger] slotted(last, key) && last[key].slot == slot;
        assert(is_placed(placed, key));
        let i = choose|i: int| 0 <= i < placed.len() && key_of(#[trigger] placed[i]) == key;
        assert(last.contains_key(key));
        assert(ranks[slots[at - 1]] == at);
        assert(now[key_of(placed[i])].slot == at);
    }
}

/// Some entry among the first `upto` has the slot.
spec fn slot_of_entry(entries: Seq<(DataKey, GlobalEntry)>, upto: int, slot: u32) -> bool {
    slot != u32::MAX && exists|e: int| 0 <= e < upto && (#[trigger] entries[e]).1.slot == slot
}

proof fn lemma_distinct_marks(slots: Seq<u32>, marks: Set<int>)
    requires
        slots.no_duplicates(),
        marks.finite(),
        forall|j: int| 0 <= j < slots.len() ==> marks.contains(#[trigger] slots[j] as int),
    ensures
        slots.len() <= marks.len(),
{
    let wide = slots.map_values(|slot: u32| slot as int);
    assert(wide.no_duplicates());
    wide.unique_seq_to_set();
    assert(wide.to_set().subset_of(marks)) by {
        assert forall|at: int| wide.to_set().contains(at) implies marks.contains(at) by {
            let j = choose|j: int| 0 <= j < wide.len() && wide[j] == at;
            assert(marks.contains(slots[j] as int));
        }
    }
    vstd::set_lib::lemma_len_subset(wide.to_set(), marks);
}

/// Sorting distinct values puts them in strictly ascending order.
proof fn lemma_sorted_strictly(before: Seq<u32>, after: Seq<u32>)
    requires
        before.no_duplicates(),
        is_sorted(after),
        before.to_multiset() == after.to_multiset(),
    ensures
        after.len() == before.len(),
        forall|i: int, j: int| 0 <= i < j < after.len() ==> after[i] < after[j],
        forall|value: u32| #[trigger] after.contains(value) <==> before.contains(value),
{
    before.to_multiset_ensures();
    after.to_multiset_ensures();
    before.lemma_multiset_has_no_duplicates();
    after.lemma_multiset_has_no_duplicates_conv();
    assert forall|i: int, j: int| 0 <= i < j < after.len() implies after[i] < after[j] by {
        assert(after[i].at_most(after[j]));
    }
    assert forall|value: u32| #[trigger] after.contains(value) <==> before.contains(value) by {
        assert(after.contains(value) <==> after.to_multiset().count(value) > 0);
        assert(before.contains(value) <==> before.to_multiset().count(value) > 0);
    }
}

} // verus!
