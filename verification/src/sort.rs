//! Sorting of integers and tuples of integers.

use vstd::prelude::*;

verus! {

/// Values with the order that the standard library gives them.
pub trait SortKey: Sized {
    /// The value is not larger than the other one.
    spec fn at_most(self, other: Self) -> bool;
}

impl SortKey for u32 {
    open spec fn at_most(self, other: Self) -> bool {
        self <= other
    }
}

impl SortKey for (u32, u64) {
    open spec fn at_most(self, other: Self) -> bool {
        self.0 < other.0 || (self.0 == other.0 && self.1 <= other.1)
    }
}

impl SortKey for (u32, u32, u64, u32, u64) {
    open spec fn at_most(self, other: Self) -> bool {
        ||| self.0 < other.0
        ||| self.0 == other.0 && self.1 < other.1
        ||| self.0 == other.0 && self.1 == other.1 && self.2 < other.2
        ||| self.0 == other.0 && self.1 == other.1 && self.2 == other.2 && self.3 < other.3
        ||| self.0 == other.0 && self.1 == other.1 && self.2 == other.2 && self.3 == other.3
            && self.4 <= other.4
    }
}

/// No element is larger than a later one.
pub open spec fn is_sorted<T: SortKey>(values: Seq<T>) -> bool {
    forall|i: int, j: int| 0 <= i <= j < values.len() ==> values[i].at_most(values[j])
}

/// `slice::sort_unstable`: puts integers, or tuples of integers in lexicographic
/// order, in ascending order, keeping each as often as it occurs.
#[verifier::external_body]
pub(crate) fn sort_unstable<T: SortKey + Ord>(values: &mut Vec<T>)
    ensures
        is_sorted(final(values)@),
        final(values)@.to_multiset() == old(values)@.to_multiset(),
{
    values.sort_unstable()
}

} // verus!
