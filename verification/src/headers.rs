//! What stands before the nest in a written program: a line for every array, and
//! how much room each takes.

use crate::arrays::{brackets, Declared};
use crate::block_hash::{
    aligned, extent, first_unknown, offset_line, offset_lines, offset_of, size_product,
};
use crate::program::declarations;
use crate::text::decimal;
use vstd::prelude::*;

verus! {

/// The text of a declaration.
pub open spec fn declared_line(array: Declared, volatile: bool) -> Seq<char> {
    (if volatile {
        "volatile double "@
    } else {
        "double "@
    }) + array.name + seq!['['] + brackets(array.size, 0) + "];\n"@
}

proof fn lemma_flatten_push(lines: Seq<Seq<char>>, line: Seq<char>)
    ensures
        lines.push(line).flatten() == lines.flatten() + line,
{
    let longer = lines.push(line);
    longer.lemma_flatten_and_flatten_alt_are_equivalent();
    lines.lemma_flatten_and_flatten_alt_are_equivalent();
    assert(longer.drop_last() =~= lines);
    assert(longer.last() == line);
}

/// The declarations are one line for every array, in order.
pub proof fn law_every_array_is_declared(arrays: Seq<Declared>, volatile: bool, count: nat)
    requires
        count <= arrays.len(),
    ensures
        declarations(arrays, volatile, count) == Seq::new(
            count,
            |i: int| declared_line(arrays[i], volatile),
        ).flatten(),
    decreases count,
{
    let lines = Seq::new(count, |i: int| declared_line(arrays[i], volatile));
    if count > 0 {
        let before = Seq::new((count - 1) as nat, |i: int| declared_line(arrays[i], volatile));
        law_every_array_is_declared(arrays, volatile, (count - 1) as nat);
        lemma_flatten_push(before, declared_line(arrays[count - 1], volatile));
        assert(before.push(declared_line(arrays[count - 1], volatile)) =~= lines);
    } else {
        assert(declarations(arrays, volatile, count) =~= lines.flatten());
    }
}

/// The offsets are one line for every array, in order.
pub proof fn law_every_offset_is_defined(declared: Seq<Declared>, offsets: Seq<nat>, count: nat)
    requires
        count <= declared.len(),
        count <= offsets.len(),
    ensures
        offset_lines(declared, offsets, count) == Seq::new(
            count,
            |i: int|
                "static const unsigned long __OFF_"@ + declared[i].name + " = "@ + decimal(
                    offsets[i],
                ) + "UL;\n"@,
        ).flatten(),
    decreases count,
{
    let line = |i: int|
        "static const unsigned long __OFF_"@ + declared[i].name + " = "@ + decimal(offsets[i])
            + "UL;\n"@;
    let lines = Seq::new(count, line);
    if count > 0 {
        let before = Seq::new((count - 1) as nat, line);
        law_every_offset_is_defined(declared, offsets, (count - 1) as nat);
        lemma_flatten_push(before, line(count - 1));
        assert(before.push(line(count - 1)) =~= lines);
        assert(offset_line(declared[count - 1].name, offsets[count - 1]) == line(count - 1));
    } else {
        assert(offset_lines(declared, offsets, count) =~= lines.flatten());
    }
}

/// The array is declared.
pub open spec fn is_among(declared: Seq<Declared>, name: Seq<char>) -> bool {
    exists|i: int| 0 <= i < declared.len() && (#[trigger] declared[i]).name == name
}

/// The first accessed array without a declaration is refused, and nothing where
/// every one has a declaration.
pub proof fn law_first_undeclared_array_is_refused(
    accessed: Seq<Seq<char>>,
    declared: Seq<Declared>,
    at: int,
)
    requires
        at >= 0,
    ensures
        match first_unknown(accessed, declared, at) {
            Some(name) => exists|i: int|
                {
                    &&& at <= i < accessed.len()
                    &&& #[trigger] accessed[i] == name
                    &&& !is_among(declared, name)
                    &&& forall|j: int| at <= j < i ==> is_among(declared, #[trigger] accessed[j])
                },
            None => forall|i: int|
                at <= i < accessed.len() ==> is_among(declared, #[trigger] accessed[i]),
        },
    decreases accessed.len() - at,
{
    if at < accessed.len() {
        let here = accessed[at];
        if is_among(declared, here) {
            law_first_undeclared_array_is_refused(accessed, declared, at + 1);
            if let Some(name) = first_unknown(accessed, declared, at) {
                let i = choose|i: int|
                    {
                        &&& at + 1 <= i < accessed.len()
                        &&& #[trigger] accessed[i] == name
                        &&& !is_among(declared, name)
                        &&& forall|j: int|
                            at + 1 <= j < i ==> is_among(declared, #[trigger] accessed[j])
                    };
                assert(accessed[i] == name);
            }
        } else {
            assert(accessed[at] == here);
        }
    }
}

/// The product of some sizes.
pub open spec fn product(size: Seq<usize>) -> int {
    size.fold_left(1int, |all: int, one: usize| all * one)
}

/// The number of elements of an array is the product of its sizes; it cannot be
/// counted exactly where the product of the first ones is too large.
pub proof fn law_elements_are_the_product(size: Seq<usize>)
    ensures
        match size_product(size) {
            Some(elements) => elements == product(size) && elements <= usize::MAX,
            None => exists|count: int|
                0 <= count <= size.len() && #[trigger] product(size.take(count)) > usize::MAX,
        },
    decreases size.len(),
{
    reveal(Seq::fold_left);
    assert(size.take(size.len() as int) =~= size);
    if size.len() > 0 {
        let front = size.drop_last();
        law_elements_are_the_product(front);
        assert(product(size) == product(front) * size.last());
        if size_product(front) is None {
            let count = choose|count: int|
                0 <= count <= front.len() && #[trigger] product(front.take(count)) > usize::MAX;
            assert(front.take(count) =~= size.take(count));
        } else if size_product(size) is None {
            assert(product(size.take(size.len() as int)) > usize::MAX);
        }
    }
}

/// Rounding up to blocks gives the smallest multiple of the block size that is
/// not below the bytes.
pub proof fn law_alignment_is_the_next_multiple(bytes: int, block: int)
    requires
        block > 0,
        bytes >= 0,
    ensures
        bytes <= aligned(bytes, block) < bytes + block,
        aligned(bytes, block) % block == 0,
{
    let n = bytes + block - 1;
    let (q, m) = (n / block, n % block);
    vstd::arithmetic::div_mod::lemma_fundamental_div_mod(n, block);
    assert(bytes <= q * block < bytes + block) by (nonlinear_arith)
        requires
            n == bytes + block - 1,
            n == block * q + m,
            0 <= m < block,
    ;
    vstd::arithmetic::div_mod::lemma_mod_multiples_basic(q, block);
}

/// Every array starts where the one before it ends, rounded up to blocks, and the
/// first one at zero. Each element takes eight bytes.
pub proof fn law_arrays_are_packed(declared: Seq<Declared>, at: nat, block: int)
    requires
        block > 0,
        at < declared.len(),
        offset_of(declared, at + 1, block) is Some,
    ensures
        offset_of(declared, 0, block) == Some(0nat),
        offset_of(declared, at, block) is Some,
        ({
            let bytes = product(declared[at as int].size) * 8;
            let room = offset_of(declared, at + 1, block)->0 - offset_of(declared, at, block)->0;
            bytes <= room < bytes + block
        }),
{
    let array = declared[at as int];
    law_elements_are_the_product(array.size);
    let bytes = size_product(array.size)->0 * 8;
    law_alignment_is_the_next_multiple(bytes as int, block);
    assert(extent(array, block) is Some);
}

} // verus!
