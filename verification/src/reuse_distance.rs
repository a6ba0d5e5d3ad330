//! Exact LRU reuse distances: a Fenwick tree of markers over a timeline.
//!
//! Every datum that has been accessed owns one marker, at the timeline position
//! of its most recent access. The number of distinct data touched since is then
//! the number of markers behind that position. The timeline is rebuilt densely
//! once it outgrows the live markers, so memory tracks the working set rather
//! than the length of the trace.

use crate::sort::{is_sorted, sort_unstable};
use vstd::prelude::*;

verus! {

/// The largest timeline the tree can index.
pub open spec fn timeline_limit() -> int {
    if usize::MAX > u32::MAX {
        u32::MAX as int
    } else {
        usize::MAX - 1
    }
}

/// Number of markers in `1..=index`.
pub open spec fn count_upto(marks: Set<int>, index: int) -> int
    decreases index,
{
    if index <= 0 {
        0
    } else {
        count_upto(marks, index - 1) + if marks.contains(index) {
            1int
        } else {
            0int
        }
    }
}

/// The lowest set bit of a positive number: the width of a tree node's range.
pub open spec fn low_bit(index: u32) -> u32 {
    index & !((index - 1) as u32)
}

proof fn lemma_low_bit(index: u32)
    requires
        index > 0,
    ensures
        0 < low_bit(index) <= index,
{
    assert(index > 0 ==> 0 < index & !((index - 1) as u32) <= index) by (bit_vector);
}

/// A node strictly inside the range that `index` skips starts behind `index`.
proof fn lemma_skipped_node(index: u32, node: u32)
    requires
        0 < index < node < index + low_bit(index),
    ensures
        node - low_bit(node) >= index,
{
    assert(0 < index < node && node < index + (index & !((index - 1) as u32)) ==> node - (node & !((
    node - 1) as u32)) >= index) by (bit_vector);
}

/// From the next node on, covering `index` and covering its successor agree.
proof fn lemma_later_node(index: u32, node: u32)
    requires
        0 < index,
        node >= index + low_bit(index),
    ensures
        node - low_bit(node) < index <==> node - low_bit(node) < index + low_bit(index),
{
    assert(0 < index && node >= index + (index & !((index - 1) as u32)) ==> (node - (node & !((node
        - 1) as u32)) < index <==> node - (node & !((node - 1) as u32)) < index + (index & !((index
        - 1) as u32)))) by (bit_vector);
}

/// The tree node `node` counts position `at`.
spec fn covers(node: u32, at: int) -> bool {
    node - low_bit(node) < at <= node
}

/// The tree node `other` has not changed yet, and it counts position `index`
/// exactly when it counts position `node`.
spec fn waits(now: Seq<u32>, before: Seq<u32>, index: int, node: int, other: u32) -> bool {
    now[other as int] == before[other as int] && (covers(other, index) <==> covers(other, node))
}

/// The tree node `node` holds the number of markers of its range.
spec fn node_ok(tree: Seq<u32>, marks: Set<int>, node: u32) -> bool {
    tree[node as int] == count_upto(marks, node as int) - count_upto(marks, node - low_bit(node))
}

proof fn lemma_count_step(marks: Set<int>, low: int, high: int)
    requires
        0 <= low <= high,
    ensures
        0 <= count_upto(marks, high) - count_upto(marks, low) <= high - low,
    decreases high - low,
{
    if low < high {
        lemma_count_step(marks, low, high - 1);
    }
}

proof fn lemma_count_insert(marks: Set<int>, at: int, index: int)
    requires
        at >= 1,
        !marks.contains(at),
    ensures
        count_upto(marks.insert(at), index) == count_upto(marks, index) + if at <= index {
            1int
        } else {
            0int
        },
    decreases index,
{
    if index > 0 {
        lemma_count_insert(marks, at, index - 1);
    }
}

/// The counting function is the size of the set of markers it speaks of.
pub proof fn lemma_count_is_len(marks: Set<int>, index: int)
    ensures
        marks.filter(|at: int| 1 <= at <= index).finite(),
        count_upto(marks, index) == marks.filter(|at: int| 1 <= at <= index).len(),
    decreases index,
{
    let here = marks.filter(|at: int| 1 <= at <= index);
    if index <= 0 {
        assert(here =~= Set::empty());
    } else {
        lemma_count_is_len(marks, index - 1);
        let below = marks.filter(|at: int| 1 <= at <= index - 1);
        if marks.contains(index) {
            assert(here =~= below.insert(index));
        } else {
            assert(here =~= below);
        }
    }
}

/// Markers over a timeline of positions `1..=capacity`.
pub struct ReuseDistance {
    tree: Vec<u32>,
    used: u32,
    live: u32,
    marks: Ghost<Set<int>>,
}

impl ReuseDistance {
    /// The positions that carry a marker.
    pub closed spec fn marks(&self) -> Set<int> {
        self.marks@
    }

    /// The newest position handed out so far.
    pub closed spec fn used(&self) -> int {
        self.used as int
    }

    /// The number of positions of the timeline.
    pub closed spec fn positions(&self) -> int {
        self.tree@.len() - 1
    }

    /// Every tree node counts the markers of its range.
    pub closed spec fn tree_wf(&self) -> bool {
        &&& 1 <= self.tree@.len() <= timeline_limit() + 1
        &&& forall|node: u32| 1 <= node < self.tree@.len() ==> #[trigger] node_ok(self.tree@, self.marks@, node)
    }

    /// The tree is right, and the markers stand on positions handed out.
    pub closed spec fn wf(&self) -> bool {
        &&& self.tree_wf()
        &&& self.used < self.tree@.len()
        &&& self.marks@.finite()
        &&& self.live == self.marks@.len()
        &&& forall|at: int| #[trigger] self.marks@.contains(at) ==> 1 <= at <= self.used
    }

    /// What every user of a well-formed index may rely on.
    pub proof fn lemma_wf(&self)
        requires
            self.wf(),
        ensures
            self.tree_wf(),
            0 <= self.used() <= self.positions() <= timeline_limit(),
            self.marks().finite(),
            self.marks().len() <= self.used(),
            forall|at: int| #[trigger] self.marks().contains(at) ==> 1 <= at <= self.used(),
    {
        lemma_count_is_len(self.marks@, self.used as int);
        lemma_count_step(self.marks@, 0, self.used as int);
        assert(self.marks@.filter(|at: int| 1 <= at <= self.used as int) =~= self.marks@);
    }

    /// An index without markers.
    pub fn new() -> (index: Self)
        ensures
            index.wf(),
            index.marks() == Set::<int>::empty(),
            index.used() == 0,
            index.positions() == 1024,
    {
        let index = ReuseDistance { tree: vec![0;1025], used: 0, live: 0, marks: Ghost(Set::empty()) };
        proof {
            assert forall|node: u32| 1 <= node < index.tree@.len() implies node_ok(index.tree@, index.marks@, node) by {
                lemma_low_bit(node);
                lemma_count_none(node as int);
                lemma_count_none(node - low_bit(node));
            }
        }
        index
    }

    /// The number of positions of the timeline.
    pub fn capacity(&self) -> (capacity: u32)
        requires
            self.tree_wf(),
        ensures
            capacity == self.positions(),
    {
        (self.tree.len() - 1) as u32
    }

    /// Places a marker (`delta` of 1) or takes one away (`delta` of -1); a
    /// position behind the end of the timeline changes nothing.
    pub fn add(&mut self, index: u32, delta: i64)
        requires
            old(self).tree_wf(),
            index >= 1,
            delta == 1 && !old(self).marks().contains(index as int) || delta == -1 && old(
                self,
            ).marks().contains(index as int),
        ensures
            final(self).tree_wf(),
            final(self).used() == old(self).used(),
            final(self).live_count() == old(self).live_count(),
            final(self).positions() == old(self).positions(),
            final(self).marks() == if index > old(self).positions() {
                old(self).marks()
            } else if delta == 1 {
                old(self).marks().insert(index as int)
            } else {
                old(self).marks().remove(index as int)
            },
    {
        let ghost before = *self;
        let ghost after = if delta == 1 {
            self.marks@.insert(index as int)
        } else {
            self.marks@.remove(index as int)
        };
        proof {
            if delta == -1 {
                assert(after.insert(index as int) =~= self.marks@);
            }
            assert forall|at: int| count_upto(after, at) == #[trigger] count_upto(self.marks@, at)
                + if index <= at {
                delta as int
            } else {
                0
            } by {
                if delta == 1 {
                    lemma_count_insert(self.marks@, index as int, at);
                } else {
                    lemma_count_insert(after, index as int, at);
                }
            }
        }
        let capacity: u32 = self.capacity();
        if index > capacity {
            return ;
        }
        let mut node: u64 = index as u64;
        proof {
            assert forall|other: u32|
                1 <= other < node && other <= capacity implies #[trigger] self.tree@[other as int]
                == count_upto(after, other as int) - count_upto(
                after,
                other - low_bit(other),
            ) by {
                lemma_low_bit(other);
                assert(node_ok(before.tree@, before.marks@, other));
            }
        }
        while node <= capacity as u64
            invariant
                before.tree_wf(),
                1 <= index <= capacity,
                index <= node <= 2 * u32::MAX,
                capacity == before.tree@.len() - 1,
                self.tree@.len() == before.tree@.len(),
                self.used == before.used,
                self.live == before.live,
                self.marks == before.marks,
                delta == 1 || delta == -1,
                forall|at: int|
                    count_upto(after, at) == #[trigger] count_upto(before.marks@, at) + if index
                        <= at {
                        delta as int
                    } else {
                        0
                    },
                forall|other: u32|
                    1 <= other < node && other <= capacity ==> #[trigger] self.tree@[other as int]
                        == count_upto(after, other as int) - count_upto(
                        after,
                        other - low_bit(other),
                    ),
                forall|other: u32|
                    node <= other <= capacity ==> #[trigger] waits(
                        self.tree@,
                        before.tree@,
                        index as int,
                        node as int,
                        other,
                    ),
            decreases 2 * u32::MAX - node,
        {
            let here: u32 = node as u32;
            let width: u32 = here & !(here - 1);
            proof {
                lemma_low_bit(here);
                assert(waits(self.tree@, before.tree@, index as int, node as int, here));
                assert(covers(here, node as int));
                assert(node_ok(before.tree@, before.marks@, here));
                assert(self.tree@[here as int] == before.tree@[here as int]);
                assert(covers(here, index as int));
                lemma_count_step(after, here - low_bit(here), here as int);
            }
            let ghost earlier = self.tree@;
            self.tree[here as usize] = (self.tree[here as usize] as i64 + delta) as u32;
            node = node + width as u64;
            proof {
                assert forall|other: u32|
                    1 <= other < node && other
                        <= capacity implies #[trigger] self.tree@[other as int] == count_upto(
                    after,
                    other as int,
                ) - count_upto(after, other - low_bit(other)) by {
                    lemma_low_bit(other);
                    if other < here {
                        assert(self.tree@[other as int] == earlier[other as int]);
                    } else if other > here {
                        assert(waits(earlier, before.tree@, index as int, here as int, other));
                        assert(self.tree@[other as int] == earlier[other as int]);
                        lemma_skipped_node(here, other);
                        assert(node_ok(before.tree@, before.marks@, other));
                        assert(!covers(other, index as int));
                    }
                }
                assert forall|other: u32| node <= other <= capacity implies #[trigger] waits(
                    self.tree@,
                    before.tree@,
                    index as int,
                    node as int,
                    other,
                ) by {
                    assert(waits(earlier, before.tree@, index as int, here as int, other));
                    assert(self.tree@[other as int] == earlier[other as int]);
                    lemma_later_node(here, other);
                }
            }
        }
        self.marks = Ghost(after);
        proof {
            assert forall|other: u32| 1 <= other < self.tree@.len() implies #[trigger] node_ok(
                self.tree@,
                self.marks@,
                other,
            ) by {
                assert(self.tree@[other as int] == count_upto(after, other as int) - count_upto(
                    after,
                    other - low_bit(other),
                ));
            }
        }
    }

    /// Number of markers in `1..=index`.
    pub fn prefix(&self, index: u32) -> (total: u32)
        requires
            self.tree_wf(),
            index <= self.positions(),
        ensures
            total == count_upto(self.marks(), index as int),
    {
        let mut total: u32 = 0;
        let mut rest: u32 = index;
        proof {
            lemma_count_step(self.marks@, 0, index as int);
        }
        while rest > 0
            invariant
                self.tree_wf(),
                rest <= index < self.tree@.len(),
                0 <= count_upto(self.marks@, index as int) <= index,
                total + count_upto(self.marks@, rest as int) == count_upto(
                    self.marks@,
                    index as int,
                ),
            decreases rest,
        {
            proof {
                lemma_low_bit(rest);
                assert(node_ok(self.tree@, self.marks@, rest));
                lemma_count_step(self.marks@, 0, rest - low_bit(rest));
            }
            total = total + self.tree[rest as usize];
            rest = rest - (rest & !(rest - 1));
        }
        total
    }

    /// Retires the marker at `slot` and returns the number of markers behind it.
    pub fn distance_from(&mut self, slot: u32) -> (after: u64)
        requires
            old(self).wf(),
            old(self).marks().contains(slot as int),
        ensures
            final(self).wf(),
            final(self).marks() == old(self).marks().remove(slot as int),
            final(self).used() == old(self).used(),
            final(self).positions() == old(self).positions(),
            after == old(self).marks().filter(|at: int| at > slot).len(),
    {
        let ghost marks = self.marks@;
        proof {
            let used = self.used as int;
            lemma_count_is_len(marks, slot as int);
            let upto = marks.filter(|at: int| 1 <= at <= slot as int);
            let behind = marks.filter(|at: int| at > slot);
            assert(upto.disjoint(behind));
            assert(upto + behind =~= marks);
            vstd::set_lib::lemma_set_disjoint_lens(upto, behind);
        }
        let after: u32 = self.live - self.prefix(slot);
        self.add(slot, -1);
        self.live = self.live - 1;
        after as u64
    }

    /// Places a marker at the newest timeline position and returns that
    /// position, or `u32::MAX` where the timeline is full.
    pub fn touch(&mut self) -> (slot: u32)
        requires
            old(self).wf(),
        ensures
            final(self).wf(),
            final(self).positions() == old(self).positions(),
            old(self).used() >= old(self).positions() ==> slot == u32::MAX && *final(self) == *old(
                self,
            ),
            old(self).used() < old(self).positions() ==> {
                &&& slot == old(self).used() + 1
                &&& final(self).used() == slot
                &&& final(self).marks() == old(self).marks().insert(slot as int)
            },
    {
        if self.used >= self.capacity() {
            return u32::MAX;
        }
        proof {
            self.lemma_wf();
        }
        self.used = self.used + 1;
        self.live = self.live + 1;
        self.add(self.used, 1);
        self.used
    }

    /// True once the timeline is full, or more sparse than dense.
    pub fn needs_compaction(&self) -> (needed: bool)
        requires
            self.wf(),
        ensures
            needed <==> self.used() >= self.positions() || self.used() > 2 * vstd::math::max(
                self.marks().len() as int,
                512,
            ),
    {
        let floor: u64 = if self.live > 512 {
            self.live as u64
        } else {
            512
        };
        self.used >= self.capacity() || self.used as u64 > 2 * floor
    }

    /// Rebuilds the timeline densely: `slots` is sorted, and the marker of
    /// `slots[i]` moves to position `i + 1`.
    pub fn compact(&mut self, slots: &mut Vec<u32>)
        requires
            old(slots)@.len() <= timeline_limit(),
        ensures
            final(self).wf(),
            final(self).used() == old(slots)@.len(),
            final(self).marks() == Set::new(|at: int| 1 <= at <= old(slots)@.len()),
            final(self).positions() == vstd::math::max(
                vstd::math::min(4 * old(slots)@.len() as int, timeline_limit()),
                1024,
            ),
            is_sorted(final(slots)@),
            final(slots)@.to_multiset() == old(slots)@.to_multiset(),
    {
        sort_unstable(slots);
        proof {
            assert(slots@.len() == old(slots)@.to_multiset().len()) by {
                slots@.to_multiset_ensures();
            }
            old(slots)@.to_multiset_ensures();
        }
        let live: u32 = slots.len() as u32;
        let quadruple: u32 = if live <= 0x3fff_ffff {
            4 * live
        } else {
            u32::MAX
        };
        let capacity: u32 = if quadruple > 1024 {
            quadruple
        } else {
            1024
        };
        let cells: usize = if (capacity as usize) < usize::MAX {
            capacity as usize + 1
        } else {
            usize::MAX
        };
        self.tree = vec![0;cells];
        self.used = 0;
        self.live = 0;
        self.marks = Ghost(Set::empty());
        proof {
            assert forall|node: u32| 1 <= node < self.tree@.len() implies node_ok(self.tree@, self.marks@, node) by {
                lemma_low_bit(node);
                lemma_count_none(node as int);
                lemma_count_none(node - low_bit(node));
            }
        }
        let mut index: u32 = 0;
        while index < live
            invariant
                self.wf(),
                self.tree@.len() == cells,
                self.used == index,
                index <= live < cells,
                self.marks@ =~= Set::new(|at: int| 1 <= at <= index),
            decreases live - index,
        {
            proof {
                self.lemma_wf();
            }
            index = index + 1;
            self.used = index;
            self.live = self.live + 1;
            self.add(index, 1);
        }
    }

    /// The running tally of markers.
    pub closed spec fn live_count(&self) -> int {
        self.live as int
    }
}

proof fn lemma_count_none(index: int)
    ensures
        count_upto(Set::empty(), index) == 0,
    decreases index,
{
    if index > 0 {
        lemma_count_none(index - 1);
    }
}

} // verus!
