//! Data identity at cache-block granularity.
//!
//! An access to element `(idx_0, .., idx_{n-1})` of an array is identified by
//! the tuple
//!
//! ```text
//! (memref, 0, .., 0, idx_0, .., idx_{n-2}, floor(idx_{n-1} / block_size))
//! ```
//!
//! that is, leading zeros pad every access out to a fixed number of
//! coordinates, and the *innermost* array dimension alone is divided by the
//! block size. The polyhedral access relation of [`crate::polyhedral`] uses the
//! same tuple.

use vstd::prelude::*;

verus! {

/// Largest array rank that a [`DataId`] can hold.
pub const MAX_ARRAY_DIMS: usize = 6;

/// Identifies which array an access targets, as a dense number.
#[derive(Clone, Copy, PartialEq, Eq, Hash, Debug, PartialOrd, Ord, Structural)]
pub struct MemrefKey(pub u32);

/// A cache block of an array: the unit whose reuse is tracked.
#[derive(Clone, Copy, PartialEq, Eq, Hash, Debug)]
pub struct DataId {
    pub memref: MemrefKey,
    /// Right-aligned coordinates; unused leading places are zero.
    pub coords: [i64; MAX_ARRAY_DIMS],
}

/// The block that an innermost subscript falls into.
pub open spec fn blocked(index: int, block_size: int) -> int {
    if 1 < block_size <= i64::MAX {
        index / block_size
    } else {
        index
    }
}

/// The coordinates of an access: zero padding, the outer subscripts, and the
/// block of the innermost one.
pub open spec fn packed(indices: Seq<i64>, block_size: int) -> Seq<int> {
    Seq::new(
        MAX_ARRAY_DIMS as nat,
        |place: int|
            {
                let at = place - (MAX_ARRAY_DIMS - indices.len());
                if at < 0 {
                    0
                } else if place == MAX_ARRAY_DIMS - 1 {
                    blocked(indices[at] as int, block_size)
                } else {
                    indices[at] as int
                }
            },
    )
}

/// A datum holds the given coordinates.
pub open spec fn has_coords(data: DataId, coords: Seq<int>) -> bool {
    forall|place: int|
        0 <= place < MAX_ARRAY_DIMS ==> #[trigger] data.coords@[place] == coords[place]
}

impl DataId {
    /// The identity of the block that holds the element at `indices`, or `None`
    /// where the access has more than [`MAX_ARRAY_DIMS`] subscripts.
    pub fn new(memref: MemrefKey, indices: &[i64], block_size: usize) -> (data: Option<Self>)
        requires
            block_size > 0,
        ensures
            data is None <==> indices@.len() > MAX_ARRAY_DIMS,
            data matches Some(data) ==> data.memref == memref && has_coords(
                data,
                packed(indices@, block_size as int),
            ),
    {
        if indices.len() > MAX_ARRAY_DIMS {
            return None;
        }
        let mut coords: [i64; MAX_ARRAY_DIMS] = [0;MAX_ARRAY_DIMS];
        let offset: usize = MAX_ARRAY_DIMS - indices.len();
        let mut at: usize = 0;
        while at < indices.len()
            invariant
                at <= indices@.len() <= MAX_ARRAY_DIMS,
                offset == MAX_ARRAY_DIMS - indices@.len(),
                forall|place: int|
                    0 <= place < MAX_ARRAY_DIMS ==> #[trigger] coords@[place] == if offset <= place
                        < offset + at {
                        indices@[place - offset]
                    } else {
                        0
                    },
            decreases indices@.len() - at,
        {
            coords[offset + at] = indices[at];
            at += 1;
        }
        let last: i64 = coords[MAX_ARRAY_DIMS - 1];
        if 1 < block_size && block_size as u64 <= i64::MAX as u64 {
            let divisor: i64 = block_size as i64;
            proof {
                lemma_quotient_fits(last as int, divisor as int);
            }
            match last.checked_div_euclid(divisor) {
                Some(quotient) => {
                    coords[MAX_ARRAY_DIMS - 1] = quotient;
                },
                None => {
                    assert(false);
                },
            }
        }
        Some(DataId { memref, coords })
    }

    /// The cache set that this block maps to under `num_sets` sets, taken from
    /// the blocked innermost coordinate alone.
    pub fn set_index(&self, num_sets: usize) -> (set: usize)
        requires
            num_sets > 0,
            num_sets as i64 == -1 ==> self.coords@[MAX_ARRAY_DIMS - 1] != i64::MIN,
        ensures
            set == self.coords@[MAX_ARRAY_DIMS - 1] as int % (num_sets as i64) as int,
    {
        let coord: i64 = self.coords[MAX_ARRAY_DIMS - 1];
        let sets: i64 = num_sets as i64;
        proof {
            assert(sets != 0 ==> 0 <= coord as int % sets as int && (sets > 0 ==> coord as int
                % sets as int <= sets) && (sets < 0 ==> coord as int % sets as int <= -sets))
                by (nonlinear_arith);
            assert(num_sets != 0 ==> num_sets as i64 != 0) by (bit_vector);
            assert(usize::MAX <= u32::MAX ==> 0 <= num_sets as i64 <= u32::MAX);
        }
        match coord.checked_rem_euclid(sets) {
            Some(set) => set as usize,
            None => {
                assert(false);
                0
            },
        }
    }
}

/// A floored quotient by a positive divisor lies between zero and the dividend.
pub proof fn lemma_quotient_fits(value: int, divisor: int)
    requires
        divisor >= 1,
    ensures
        value >= 0 ==> 0 <= value / divisor <= value,
        value < 0 ==> value <= value / divisor <= -1,
{
    assert(value >= 0 ==> 0 <= value / divisor <= value) by (nonlinear_arith)
        requires
            divisor >= 1,
    ;
    assert(value < 0 ==> value <= value / divisor <= -1) by (nonlinear_arith)
        requires
            divisor >= 1,
    ;
}

/// Two elements of one array share a block exactly when their outer subscripts
/// are equal and their innermost subscripts fall into one block.
pub proof fn law_blocks_only_the_innermost(left: Seq<i64>, right: Seq<i64>, block_size: int)
    requires
        1 <= block_size,
        1 <= left.len() == right.len() <= MAX_ARRAY_DIMS,
    ensures
        packed(left, block_size) == packed(right, block_size) <==> left.drop_last()
            == right.drop_last() && blocked(left.last() as int, block_size) == blocked(
            right.last() as int,
            block_size,
        ),
{
    let n = left.len();
    let (a, b) = (packed(left, block_size), packed(right, block_size));
    if a == b {
        assert forall|at: int| 0 <= at < n - 1 implies left[at] == right[at] by {
            assert(a[at + MAX_ARRAY_DIMS - n] == b[at + MAX_ARRAY_DIMS - n]);
        }
        assert(left.drop_last() =~= right.drop_last());
        assert(a[MAX_ARRAY_DIMS - 1] == b[MAX_ARRAY_DIMS - 1]);
    }
    if left.drop_last() == right.drop_last() && blocked(left.last() as int, block_size) == blocked(
        right.last() as int,
        block_size,
    ) {
        assert forall|place: int| 0 <= place < MAX_ARRAY_DIMS implies a[place] == b[place] by {
            let at = place - (MAX_ARRAY_DIMS - n);
            if 0 <= at < n - 1 {
                assert(left.drop_last()[at] == right.drop_last()[at]);
            }
        }
        assert(a =~= b);
    }
}

/// Padding an access with leading zero subscripts does not change its block.
pub proof fn law_padding_is_leading_zeros(indices: Seq<i64>, block_size: int)
    requires
        1 <= block_size,
        indices.len() < MAX_ARRAY_DIMS,
    ensures
        packed(seq![0i64] + indices, block_size) == packed(indices, block_size),
{
    assert forall|place: int| 0 <= place < MAX_ARRAY_DIMS implies packed(
        seq![0i64] + indices,
        block_size,
    )[place] == packed(indices, block_size)[place] by {
        if 1 < block_size {
            assert(0int / block_size == 0) by (nonlinear_arith)
                requires
                    1 < block_size,
            ;
        }
    }
    assert(packed(seq![0i64] + indices, block_size) =~= packed(indices, block_size));
}

} // verus!
