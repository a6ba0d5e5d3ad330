//! A uniform mapping of memory blocks to cache sets.
//!
//! Arrays get logical byte offsets, one behind the other and aligned to blocks.
//! An access goes to an arena in which a permutation has shuffled the block
//! numbers. The permutation is a bijection, so distinct blocks stay distinct
//! and a fully associative cache sees no difference.

use crate::arrays::{all_declared, names, Declared, GlobalArrayDeclaration};
use crate::text::{decimal, push_decimal};
use vstd::arithmetic::div_mod::{
    lemma_fundamental_div_mod, lemma_mod_multiples_vanish, lemma_small_mod,
};
use vstd::arithmetic::power2::{
    lemma2_to64, lemma2_to64_rest, lemma_pow2_adds, lemma_pow2_pos, lemma_pow2_strictly_increases,
    lemma_pow2_unfold, pow2,
};
use vstd::prelude::*;

verus! {

/// The first odd factor of the permutation.
pub const FIRST_FACTOR: u64 = 0x9E37_79B9_7F4A_7C15;

/// The second odd factor of the permutation.
pub const SECOND_FACTOR: u64 = 0xBF58_476D_1CE4_E5B9;

/// The shift of the first and the last step.
pub open spec fn outer_shift(bits: nat) -> nat {
    if bits / 2 > 1 {
        bits / 2
    } else {
        1
    }
}

/// The shift of the middle step.
pub open spec fn inner_shift(bits: nat) -> nat {
    if bits / 3 > 1 {
        bits / 3
    } else {
        1
    }
}

/// `x ^ (x >> shift)`.
pub open spec fn fold(x: u64, shift: nat) -> u64 {
    x ^ (x >> (shift as u64))
}

/// The lowest bits of a product.
pub open spec fn scale(x: u64, factor: u64, bits: nat) -> u64 {
    ((x * factor) % pow2(bits) as int) as u64
}

/// The permutation of the block numbers below `2 ^ bits` that the emitted
/// program computes.
pub open spec fn permuted(x: u64, bits: nat) -> u64 {
    let (outer, inner) = (outer_shift(bits), inner_shift(bits));
    fold(
        scale(
            fold(scale(fold(x, outer), FIRST_FACTOR, bits), inner),
            SECOND_FACTOR,
            bits,
        ),
        outer,
    )
}

proof fn lemma_fold_injective(x: u64, y: u64, shift: nat)
    requires
        1 <= shift < 64,
        fold(x, shift) == fold(y, shift),
    ensures
        x == y,
{
    let s = shift as u64;
    assert(1 <= s < 64 && x ^ (x >> s) == y ^ (y >> s) ==> x == y) by (bit_vector);
}

proof fn lemma_fold_bound(x: u64, shift: nat, bits: nat)
    requires
        bits < 64,
        1 <= shift < 64,
        x < pow2(bits),
    ensures
        fold(x, shift) < pow2(bits),
{
    let (s, k) = (shift as u64, bits as u64);
    vstd::bits::lemma_u64_pow2_no_overflow(bits);
    vstd::bits::lemma_u64_shl_is_mul(1, k);
    assert(s < 64 && k < 64 && x < (1u64 << k) ==> x ^ (x >> s) < (1u64 << k)) by (bit_vector);
}

/// Multiplying by a number that has an inverse modulo a power of two can be
/// undone.
proof fn lemma_scale_undone(x: u64, factor: u64, inverse: int, quotient: int, bits: nat)
    requires
        bits <= 64,
        x < pow2(bits),
        factor * inverse == 1 + quotient * pow2(64),
    ensures
        (scale(x, factor, bits) * inverse) % pow2(bits) as int == x,
        scale(x, factor, bits) < pow2(bits),
{
    let p = pow2(bits) as int;
    let rest = pow2((64 - bits) as nat) as int;
    lemma_pow2_pos(bits);
    lemma_pow2_adds(bits, (64 - bits) as nat);
    let product = x * factor;
    lemma2_to64();
    if bits < 64 {
        lemma_pow2_strictly_increases(bits, 64);
    }
    assert(0 <= product % p < p) by (nonlinear_arith)
        requires
            p > 0,
    ;
    assert(scale(x, factor, bits) == product % p);
    vstd::arithmetic::div_mod::lemma_mul_mod_noop_left(product, inverse, p);
    assert(product * inverse == x as int + p * (rest * quotient * x)) by (nonlinear_arith)
        requires
            product == x * factor,
            factor * inverse == 1 + quotient * (p * rest),
    ;
    lemma_mod_multiples_vanish(rest * quotient * x, x as int, p);
    lemma_small_mod(x as nat, p as nat);
}

/// The permutation stays within its domain.
pub proof fn law_permutation_stays_in_range(x: u64, bits: nat)
    requires
        bits < 64,
        x < pow2(bits),
    ensures
        permuted(x, bits) < pow2(bits),
{
    let (outer, inner) = (outer_shift(bits), inner_shift(bits));
    lemma2_to64();
    let x1 = fold(x, outer);
    lemma_fold_bound(x, outer, bits);
    let x2 = scale(x1, FIRST_FACTOR, bits);
    lemma_scale_undone(x1, FIRST_FACTOR, 0xf1de_83e1_9937_733d, 10771413168148108919, bits);
    let x3 = fold(x2, inner);
    lemma_fold_bound(x2, inner, bits);
    let x4 = scale(x3, SECOND_FACTOR, bits);
    lemma_scale_undone(x3, SECOND_FACTOR, 0x96de_1b17_3f11_9089, 8125545580553827436, bits);
    lemma_fold_bound(x4, outer, bits);
}

/// Distinct block numbers stay distinct.
pub proof fn law_permutation_is_injective(x: u64, y: u64, bits: nat)
    requires
        bits < 64,
        x < pow2(bits),
        y < pow2(bits),
        permuted(x, bits) == permuted(y, bits),
    ensures
        x == y,
{
    let (outer, inner) = (outer_shift(bits), inner_shift(bits));
    lemma2_to64();
    let (x1, y1) = (fold(x, outer), fold(y, outer));
    lemma_fold_bound(x, outer, bits);
    lemma_fold_bound(y, outer, bits);
    let (x2, y2) = (scale(x1, FIRST_FACTOR, bits), scale(y1, FIRST_FACTOR, bits));
    lemma_scale_undone(x1, FIRST_FACTOR, 0xf1de_83e1_9937_733d, 10771413168148108919, bits);
    lemma_scale_undone(y1, FIRST_FACTOR, 0xf1de_83e1_9937_733d, 10771413168148108919, bits);
    let (x3, y3) = (fold(x2, inner), fold(y2, inner));
    lemma_fold_bound(x2, inner, bits);
    lemma_fold_bound(y2, inner, bits);
    let (x4, y4) = (scale(x3, SECOND_FACTOR, bits), scale(y3, SECOND_FACTOR, bits));
    lemma_scale_undone(x3, SECOND_FACTOR, 0x96de_1b17_3f11_9089, 8125545580553827436, bits);
    lemma_scale_undone(y3, SECOND_FACTOR, 0x96de_1b17_3f11_9089, 8125545580553827436, bits);
    lemma_fold_injective(x4, y4, outer);
    assert(x3 == y3);
    lemma_fold_injective(x2, y2, inner);
    assert(x1 == y1);
    lemma_fold_injective(x, y, outer);
}

/// Where the emitted program puts a byte.
pub open spec fn arena_address(address: int, block: int, bits: nat) -> int {
    permuted((address / block) as u64, bits) * block + address % block
}

/// Two bytes share a block of the arena exactly when they share a logical
/// block, every byte keeps its place within its block, and the arena is large
/// enough.
pub proof fn law_arena_keeps_blocks_apart(a: int, b: int, block: int, bits: nat)
    requires
        block > 0,
        bits < 64,
        0 <= a < pow2(bits) * block,
        0 <= b < pow2(bits) * block,
    ensures
        arena_address(a, block, bits) / block == arena_address(b, block, bits) / block <==> a
            / block == b / block,
        arena_address(a, block, bits) % block == a % block,
        0 <= arena_address(a, block, bits) < pow2(bits) * block,
{
    lemma_arena_block(a, block, bits);
    lemma_arena_block(b, block, bits);
    let (x, y) = ((a / block) as u64, (b / block) as u64);
    if permuted(x, bits) == permuted(y, bits) {
        law_permutation_is_injective(x, y, bits);
    }
}

proof fn lemma_arena_block(a: int, block: int, bits: nat)
    requires
        block > 0,
        bits < 64,
        0 <= a < pow2(bits) * block,
    ensures
        0 <= a / block < pow2(bits) <= u64::MAX,
        arena_address(a, block, bits) / block == permuted((a / block) as u64, bits),
        arena_address(a, block, bits) % block == a % block,
        0 <= arena_address(a, block, bits) < pow2(bits) * block,
{
    let p = pow2(bits) as int;
    lemma2_to64();
    lemma_pow2_strictly_increases(bits, 64);
    lemma_fundamental_div_mod(a, block);
    let (q, m) = (a / block, a % block);
    assert(0 <= m < block) by (nonlinear_arith)
        requires
            block > 0,
            m == a % block,
    ;
    assert(0 <= q < p) by (nonlinear_arith)
        requires
            a == block * q + m,
            0 <= m < block,
            0 <= a < p * block,
    ;
    let to = permuted(q as u64, bits) as int;
    law_permutation_stays_in_range(q as u64, bits);
    vstd::arithmetic::div_mod::lemma_fundamental_div_mod_converse(to * block + m, block, to, m);
    assert(0 <= to * block + m < p * block) by (nonlinear_arith)
        requires
            0 <= to <= p - 1,
            0 <= m < block,
    ;
}

/// The product of sizes, as long as no partial product overflows.
pub open spec fn size_product(size: Seq<usize>) -> Option<nat>
    decreases size.len(),
{
    if size.len() == 0 {
        Some(1)
    } else {
        match size_product(size.drop_last()) {
            None => None,
            Some(product) => if product * size.last() <= usize::MAX {
                Some((product * size.last()) as nat)
            } else {
                None
            },
        }
    }
}

/// A number rounded up to a multiple of the block size.
pub open spec fn aligned(bytes: int, block: int) -> int {
    ((bytes + block - 1) / block) * block
}

/// The bytes that an array takes up, as long as they can be counted.
pub open spec fn extent(array: Declared, block: int) -> Option<nat> {
    match size_product(array.size) {
        None => None,
        Some(product) => if product * 8 <= u64::MAX && aligned((product * 8) as int, block) <= u64::MAX {
            Some(aligned((product * 8) as int, block) as nat)
        } else {
            None
        },
    }
}

/// The offset behind the first arrays, as long as it can be counted.
pub open spec fn offset_of(declared: Seq<Declared>, count: nat, block: int) -> Option<nat>
    decreases count,
{
    if count == 0 {
        Some(0)
    } else {
        match offset_of(declared, (count - 1) as nat, block) {
            None => None,
            Some(before) => match extent(declared[count - 1], block) {
                None => None,
                Some(bytes) => if before + bytes <= u64::MAX {
                    Some(before + bytes)
                } else {
                    None
                },
            },
        }
    }
}

/// `2 ^ bits` is the smallest power of two that is at least `count`.
pub open spec fn is_bits_for(count: int, bits: nat) -> bool {
    count <= pow2(bits) && (bits > 0 ==> pow2((bits - 1) as nat) < count)
}

/// The number of bits of the smallest power of two that is at least `count`.
pub open spec fn bits_for(count: int) -> nat {
    choose|bits: nat| is_bits_for(count, bits)
}

proof fn lemma_bits_for(count: int, bits: nat)
    requires
        is_bits_for(count, bits),
    ensures
        bits_for(count) == bits,
{
    let other = bits_for(count);
    assert(is_bits_for(count, other));
    if other < bits {
        if other < bits - 1 {
            lemma_pow2_strictly_increases(other, (bits - 1) as nat);
        }
    } else if bits < other {
        if bits < other - 1 {
            lemma_pow2_strictly_increases(bits, (other - 1) as nat);
        }
    }
}

/// A power of two.
pub open spec fn is_power_of_two(value: int) -> bool {
    exists|exponent: nat| #[trigger] pow2(exponent) == value
}

/// How the arrays are laid out.
pub ghost struct Arena {
    pub offsets: Seq<nat>,
    pub total_blocks: nat,
    pub bits: nat,
    pub block_bits: nat,
}

/// The layout of the arrays, as long as it can be counted.
pub open spec fn arena_of(declared: Seq<Declared>, block: int) -> Option<Arena> {
    match offset_of(declared, declared.len(), block) {
        None => None,
        Some(total) => {
            let blocks = total as int / block;
            let total_blocks = if blocks < 1 {
                1
            } else {
                blocks
            };
            if total_blocks > 0x8000_0000_0000_0000 {
                None
            } else {
                Some(
                    Arena {
                        offsets: Seq::new(
                            declared.len(),
                            |i: int| offset_of(declared, i as nat, block)->0,
                        ),
                        total_blocks: total_blocks as nat,
                        bits: bits_for(total_blocks),
                        block_bits: bits_for(block),
                    },
                )
            }
        },
    }
}

/// What keeps a layout from being emitted.
#[derive(Debug)]
pub enum HashError {
    /// An accessed array without a declaration.
    Undeclared { name: String },
    /// More bytes than can be counted.
    Overflow,
}

impl HashError {
    /// The message of an error.
    pub open spec fn text(&self) -> Seq<char> {
        match *self {
            HashError::Undeclared { name } =>
                "--hash needs the size of every accessed array, but `"@ + name@
                + "` is not declared via memref.global, memref.alloc, or the module's `simulation.dims` attribute"@,
            HashError::Overflow => "the declared arrays exceed 64 bits"@,
        }
    }

    /// The message of an error.
    pub fn message(&self) -> (text: String)
        ensures
            text@ == self.text(),
    {
        let mut text: String = String::new();
        match self {
            HashError::Undeclared { name } => {
                text.push_str("--hash needs the size of every accessed array, but `");
                text.push_str(name.as_str());
                text.push_str(
                    "` is not declared via memref.global, memref.alloc, or the module's `simulation.dims` attribute",
                );
            },
            HashError::Overflow => {
                text.push_str("the declared arrays exceed 64 bits");
            },
        }
        assert(text@ =~= self.text());
        text
    }
}

fn product_of(size: &Vec<usize>) -> (product: Option<usize>)
    ensures
        match size_product(size@) {
            Some(expected) => product == Some(expected as usize),
            None => product is None,
        },
        size_product(size@) matches Some(expected) ==> expected <= usize::MAX,
{
    let mut product: usize = 1;
    let mut at: usize = 0;
    assert(size@.take(0) =~= Seq::empty());
    while at < size.len()
        invariant
            at <= size@.len(),
            size_product(size@.take(at as int)) == Some(product as nat),
        decreases size@.len() - at,
    {
        assert(size@.take(at + 1).drop_last() =~= size@.take(at as int));
        assert(0 <= product * size@[at as int]) by (nonlinear_arith)
            requires
                product >= 0,
                size@[at as int] >= 0,
        ;
        match product.checked_mul(size[at]) {
            Some(next) => {
                product = next;
            },
            None => {
                proof {
                    lemma_product_failure(size@, at + 1);
                }
                return None;
            },
        }
        at += 1;
    }
    assert(size@.take(at as int) =~= size@);
    Some(product)
}

proof fn lemma_product_failure(size: Seq<usize>, at: int)
    requires
        0 <= at <= size.len(),
        size_product(size.take(at)) is None,
    ensures
        size_product(size) is None,
    decreases size.len() - at,
{
    if at == size.len() {
        assert(size.take(at) =~= size);
    } else {
        assert(size.take(at + 1).drop_last() =~= size.take(at));
        lemma_product_failure(size, at + 1);
    }
}

fn extent_of(array: &GlobalArrayDeclaration, block: u64) -> (bytes: Option<u64>)
    requires
        block > 0,
    ensures
        match extent(array@, block as int) {
            Some(expected) => bytes == Some(expected as u64) && expected <= u64::MAX,
            None => bytes is None,
        },
{
    let product: usize = match product_of(&array.size) {
        Some(product) => product,
        None => {
            return None;
        },
    };
    let bytes: u64 = match (product as u64).checked_mul(8) {
        Some(bytes) => bytes,
        None => {
            return None;
        },
    };
    let blocks: u128 = (bytes as u128 + block as u128 - 1) / (block as u128);
    proof {
        let (n, d) = (bytes + block - 1, block as int);
        crate::address::lemma_quotient_fits(n, d);
        assert(0 <= blocks * block <= n) by (nonlinear_arith)
            requires
                blocks == n / d,
                d == block,
                d > 0,
                n >= 0,
        ;
    }
    let rounded: u128 = blocks * (block as u128);
    if rounded > u64::MAX as u128 {
        return None;
    }
    Some(rounded as u64)
}

proof fn lemma_offset_failure(declared: Seq<Declared>, count: nat, all: nat, block: int)
    requires
        count <= all,
        offset_of(declared, count, block) is None,
    ensures
        offset_of(declared, all, block) is None,
    decreases all,
{
    if count < all {
        lemma_offset_failure(declared, count, (all - 1) as nat, block);
    }
}

/// The smallest exponent of a power of two that is at least `count`.
fn bit_count(count: u64) -> (bits: u32)
    requires
        count <= 0x8000_0000_0000_0000,
    ensures
        bits == bits_for(count as int),
        is_bits_for(count as int, bits as nat),
        bits <= 63,
{
    let mut bits: u32 = 0;
    let mut power: u64 = 1;
    proof {
        lemma2_to64();
        lemma2_to64_rest();
    }
    while power < count
        invariant
            bits <= 63,
            power == pow2(bits as nat),
            count <= 0x8000_0000_0000_0000,
            bits > 0 ==> pow2((bits - 1) as nat) < count,
            pow2(63) == 0x8000_0000_0000_0000,
        decreases 63 - bits,
    {
        proof {
            lemma_pow2_unfold((bits + 1) as nat);
            if bits == 63 {
                assert(false);
            }
        }
        bits += 1;
        power = power * 2;
    }
    proof {
        lemma_bits_for(count as int, bits as nat);
    }
    bits
}

/// The line that defines an array's offset.
pub open spec fn offset_line(name: Seq<char>, offset: nat) -> Seq<char> {
    "static const unsigned long __OFF_"@ + name + " = "@ + decimal(offset) + "UL;\n"@
}

/// The lines that define the offsets of the first arrays.
pub open spec fn offset_lines(declared: Seq<Declared>, offsets: Seq<nat>, count: nat) -> Seq<char>
    decreases count,
{
    if count == 0 {
        Seq::empty()
    } else {
        offset_lines(declared, offsets, (count - 1) as nat) + offset_line(
            declared[count - 1].name,
            offsets[count - 1],
        )
    }
}

/// One folding and scaling step of the permutation.
pub open spec fn step_line(shift: nat, factor: Seq<char>, mask: nat) -> Seq<char> {
    "\tx ^= x >> "@ + decimal(shift) + "; x = (x * "@ + factor + ") & "@ + decimal(mask) + "UL;\n"@
}

/// The permutation as a C function.
pub open spec fn permutation_text(bits: nat) -> Seq<char> {
    let mask = (pow2(bits) - 1) as nat;
    "static inline __attribute__((always_inline)) unsigned long __perm(unsigned long x) {\n"@
        + step_line(outer_shift(bits), "0x9E3779B97F4A7C15UL"@, mask) + step_line(
        inner_shift(bits),
        "0xBF58476D1CE4E5B9UL"@,
        mask,
    ) + "\tx ^= x >> "@ + decimal(outer_shift(bits)) + "; return x;\n}\n"@
}

/// The access to the arena as a C function.
pub open spec fn arena_text(block_bits: nat, block: nat) -> Seq<char> {
    "static inline __attribute__((always_inline)) void __access(unsigned long a) {\n\t__ARENA[(__perm(a >> "@
        + decimal(block_bits) + ") << "@ + decimal(block_bits) + ") | (a & "@ + decimal(
        (block - 1) as nat,
    ) + "UL)] = 0;\n}\n"@
}

/// What stands before the program when blocks are permuted.
pub open spec fn preamble_text(declared: Seq<Declared>, arena: Arena, block: nat) -> Seq<char> {
    "\n// --hash: uniform set-index permutation over "@ + decimal(arena.total_blocks)
        + " logical blocks\n"@ + offset_lines(declared, arena.offsets, declared.len())
        + "alignas(4096) static volatile unsigned char __ARENA["@ + decimal(
        ((pow2(arena.bits) * block) % 0x1_0000_0000_0000_0000) as nat,
    ) + "UL];\n"@ + permutation_text(arena.bits) + arena_text(arena.block_bits, block)
}

/// The name is one of the declared arrays.
pub open spec fn is_known(name: Seq<char>, declared: Seq<Declared>) -> bool {
    exists|i: int| 0 <= i < declared.len() && (#[trigger] declared[i]).name == name
}

/// The first accessed array that is not declared.
pub open spec fn first_unknown(accessed: Seq<Seq<char>>, declared: Seq<Declared>, at: int) -> Option<
    Seq<char>,
>
    decreases accessed.len() - at,
{
    if at >= accessed.len() {
        None
    } else if is_known(accessed[at], declared) {
        first_unknown(accessed, declared, at + 1)
    } else {
        Some(accessed[at])
    }
}

fn is_declared(name: &String, declared: &Vec<GlobalArrayDeclaration>) -> (known: bool)
    ensures
        known == is_known(name@, all_declared(declared@)),
{
    let mut at: usize = 0;
    while at < declared.len()
        invariant
            at <= declared@.len(),
            forall|i: int| 0 <= i < at ==> (#[trigger] declared@[i]).name@ != name@,
        decreases declared@.len() - at,
    {
        if declared[at].name.eq(name) {
            assert(all_declared(declared@)[at as int].name == name@);
            return true;
        }
        at += 1;
    }
    assert forall|i: int| 0 <= i < all_declared(declared@).len() implies (#[trigger] all_declared(
        declared@,
    )[i]).name != name@ by {
        assert(declared@[i].name@ != name@);
    }
    false
}

/// The name of the first accessed array that is not declared.
fn find_undeclared(accessed: &Vec<String>, declared: &Vec<GlobalArrayDeclaration>) -> (name: Option<
    String,
>)
    ensures
        match first_unknown(names(accessed@), all_declared(declared@), 0) {
            Some(expected) => name matches Some(name) && name@ == expected,
            None => name is None,
        },
{
    let mut at: usize = 0;
    while at < accessed.len()
        invariant
            at <= accessed@.len(),
            first_unknown(names(accessed@), all_declared(declared@), 0) == first_unknown(
                names(accessed@),
                all_declared(declared@),
                at as int,
            ),
        decreases accessed@.len() - at,
    {
        assert(names(accessed@)[at as int] == accessed@[at as int]@);
        if !is_declared(&accessed[at], declared) {
            return Some(accessed[at].clone());
        }
        at += 1;
    }
    None
}

fn push_step(text: &mut String, shift: u32, factor: &str, mask: u64)
    ensures
        final(text)@ == old(text)@ + step_line(shift as nat, factor@, mask as nat),
{
    let ghost before = text@;
    text.push_str("\tx ^= x >> ");
    push_decimal(text, shift as u64);
    text.push_str("; x = (x * ");
    text.push_str(factor);
    text.push_str(") & ");
    push_decimal(text, mask);
    text.push_str("UL;\n");
    assert(text@ =~= before + step_line(shift as nat, factor@, mask as nat));
}

fn push_permutation(text: &mut String, bits: u32)
    requires
        bits < 64,
    ensures
        final(text)@ == old(text)@ + permutation_text(bits as nat),
{
    let ghost before = text@;
    proof {
        lemma_pow2_pos(bits as nat);
        vstd::bits::lemma_u64_pow2_no_overflow(bits as nat);
        vstd::bits::lemma_u64_shl_is_mul(1, bits as u64);
    }
    let mask: u64 = (1u64 << (bits as u64)) - 1;
    let outer: u32 = if bits / 2 > 1 {
        bits / 2
    } else {
        1
    };
    let inner: u32 = if bits / 3 > 1 {
        bits / 3
    } else {
        1
    };
    text.push_str(
        "static inline __attribute__((always_inline)) unsigned long __perm(unsigned long x) {\n",
    );
    push_step(text, outer, "0x9E3779B97F4A7C15UL", mask);
    push_step(text, inner, "0xBF58476D1CE4E5B9UL", mask);
    text.push_str("\tx ^= x >> ");
    push_decimal(text, outer as u64);
    text.push_str("; return x;\n}\n");
    assert(text@ =~= before + permutation_text(bits as nat));
}

fn push_arena_access(text: &mut String, block_bits: u32, block: u64)
    requires
        block > 0,
    ensures
        final(text)@ == old(text)@ + arena_text(block_bits as nat, block as nat),
{
    let ghost before = text@;
    text.push_str(
        "static inline __attribute__((always_inline)) void __access(unsigned long a) {\n\t__ARENA[(__perm(a >> ",
    );
    push_decimal(text, block_bits as u64);
    text.push_str(") << ");
    push_decimal(text, block_bits as u64);
    text.push_str(") | (a & ");
    push_decimal(text, block - 1);
    text.push_str("UL)] = 0;\n}\n");
    assert(text@ =~= before + arena_text(block_bits as nat, block as nat));
}

/// Lays the arrays out; the offsets, and the bytes in all.
fn offsets_of(declared: &Vec<GlobalArrayDeclaration>, block: u64) -> (layout: Option<
    (Vec<u64>, u64),
>)
    requires
        block > 0,
    ensures
        match offset_of(all_declared(declared@), declared@.len(), block as int) {
            None => layout is None,
            Some(total) => {
                &&& layout matches Some((offsets, found))
                &&& found == total
                &&& offsets@.len() == declared@.len()
                &&& forall|i: int|
                    0 <= i < offsets@.len() ==> offset_of(
                        all_declared(declared@),
                        i as nat,
                        block as int,
                    ) == Some(#[trigger] offsets@[i] as nat)
            },
        },
{
    let ghost views = all_declared(declared@);
    let mut offsets: Vec<u64> = Vec::new();
    let mut next: u64 = 0;
    let mut at: usize = 0;
    while at < declared.len()
        invariant
            block > 0,
            at <= declared@.len(),
            views == all_declared(declared@),
            offsets@.len() == at,
            offset_of(views, at as nat, block as int) == Some(next as nat),
            forall|i: int|
                0 <= i < at ==> offset_of(views, i as nat, block as int) == Some(
                    #[trigger] offsets@[i] as nat,
                ),
        decreases declared@.len() - at,
    {
        assert(views[at as int] == declared@[at as int]@);
        let failed: bool = match extent_of(&declared[at], block) {
            Some(bytes) => match next.checked_add(bytes) {
                Some(sum) => {
                    offsets.push(next);
                    next = sum;
                    false
                },
                None => true,
            },
            None => true,
        };
        if failed {
            proof {
                lemma_offset_failure(views, (at + 1) as nat, views.len(), block as int);
            }
            return None;
        }
        at += 1;
    }
    Some((offsets, next))
}

/// The outcome of emitting the preamble.
pub open spec fn preamble(declared: Seq<Declared>, accessed: Seq<Seq<char>>, block: int) -> Result<
    Seq<char>,
    Option<Seq<char>>,
> {
    match first_unknown(accessed, declared, 0) {
        Some(name) => Err(Some(name)),
        None => match arena_of(declared, block) {
            None => Err(None),
            Some(arena) => Ok(preamble_text(declared, arena, block as nat)),
        },
    }
}

/// The arena of some arrays, as machine integers.
struct Layout {
    offsets: Vec<u64>,
    total_blocks: u64,
    bits: u32,
    block_bits: u32,
}

/// Lays out the arena of the arrays.
fn layout_of(declared: &Vec<GlobalArrayDeclaration>, block: u64) -> (layout: Option<Layout>)
    requires
        is_power_of_two(block as int),
        block > 0,
    ensures
        match arena_of(all_declared(declared@), block as int) {
            None => layout is None,
            Some(arena) => {
                &&& layout matches Some(layout)
                &&& layout.total_blocks == arena.total_blocks
                &&& layout.bits == arena.bits
                &&& layout.bits < 64
                &&& layout.block_bits == arena.block_bits
                &&& layout.offsets@.len() == declared@.len()
                &&& layout.offsets@.map_values(|offset: u64| offset as nat) == arena.offsets
            },
        },
{
    let (offsets, total): (Vec<u64>, u64) = match offsets_of(declared, block) {
        Some(layout) => layout,
        None => {
            return None;
        },
    };
    let blocks: u64 = total / block;
    let total_blocks: u64 = if blocks < 1 {
        1
    } else {
        blocks
    };
    if total_blocks > 0x8000_0000_0000_0000 {
        return None;
    }
    proof {
        lemma_power_fits(block as int);
    }
    let bits: u32 = bit_count(total_blocks);
    let block_bits: u32 = bit_count(block);
    assert(offsets@.map_values(|offset: u64| offset as nat) =~= arena_of(
        all_declared(declared@),
        block as int,
    )->0.offsets);
    Some(Layout { offsets, total_blocks, bits, block_bits })
}

/// Writes the offsets of the arrays.
fn push_offsets(text: &mut String, declared: &Vec<GlobalArrayDeclaration>, offsets: &Vec<u64>)
    requires
        offsets@.len() == declared@.len(),
    ensures
        final(text)@ == old(text)@ + offset_lines(
            all_declared(declared@),
            offsets@.map_values(|offset: u64| offset as nat),
            declared@.len(),
        ),
{
    let ghost start = text@;
    let ghost views = all_declared(declared@);
    let ghost numbers = offsets@.map_values(|offset: u64| offset as nat);
    let mut at: usize = 0;
    assert(text@ =~= start + offset_lines(views, numbers, 0));
    while at < declared.len()
        invariant
            at <= declared@.len(),
            views == all_declared(declared@),
            offsets@.len() == declared@.len(),
            numbers == offsets@.map_values(|offset: u64| offset as nat),
            text@ == start + offset_lines(views, numbers, at as nat),
        decreases declared@.len() - at,
    {
        let ghost earlier = text@;
        assert(views[at as int].name == declared@[at as int].name@);
        text.push_str("static const unsigned long __OFF_");
        text.push_str(declared[at].name.as_str());
        text.push_str(" = ");
        push_decimal(text, offsets[at]);
        text.push_str("UL;\n");
        proof {
            let line = offset_line(views[at as int].name, numbers[at as int]);
            assert(text@ =~= earlier + line);
            assert(text@ =~= start + offset_lines(views, numbers, (at + 1) as nat));
        }
        at += 1;
    }
}

/// The size of the arena in bytes, modulo two to the power of 64.
fn arena_size(bits: u32, block: u64) -> (size: u64)
    requires
        bits < 64,
    ensures
        size == (pow2(bits as nat) * block) % 0x1_0000_0000_0000_0000,
{
    proof {
        lemma2_to64();
        lemma_pow2_strictly_increases(bits as nat, 64);
        vstd::bits::lemma_u64_pow2_no_overflow(bits as nat);
        vstd::bits::lemma_u64_shl_is_mul(1, bits as u64);
        assert(0 <= pow2(bits as nat) * block <= 0xffff_ffff_ffff_ffff * 0xffff_ffff_ffff_ffff)
            by (nonlinear_arith)
            requires
                0 <= pow2(bits as nat) <= 0xffff_ffff_ffff_ffff,
                0 <= block <= 0xffff_ffff_ffff_ffff,
        ;
    }
    let power: u64 = 1u64 << (bits as u64);
    let size: u128 = ((power as u128) * (block as u128)) % 0x1_0000_0000_0000_0000;
    size as u64
}

/// Writes what a program needs to permute its blocks: the offsets of the
/// arrays, the arena, the permutation, and the access through it.
pub fn emit_hash_preamble(
    text: &mut String,
    declared: &Vec<GlobalArrayDeclaration>,
    accessed: &Vec<String>,
    block_size: usize,
) -> (done: Result<(), HashError>)
    requires
        block_size > 0,
        is_power_of_two(block_size as int),
    ensures
        match preamble(all_declared(declared@), names(accessed@), block_size as int) {
            Ok(written) => done is Ok && final(text)@ == old(text)@ + written,
            Err(Some(name)) => {
                &&& done matches Err(HashError::Undeclared { name: found })
                &&& found@ == name
                &&& final(text)@ == old(text)@
            },
            Err(None) => done matches Err(HashError::Overflow) && final(text)@ == old(text)@,
        },
{
    let ghost before = text@;
    match find_undeclared(accessed, declared) {
        Some(name) => {
            return Err(HashError::Undeclared { name });
        },
        None => {},
    }
    let block: u64 = block_size as u64;
    let layout: Layout = match layout_of(declared, block) {
        Some(layout) => layout,
        None => {
            return Err(HashError::Overflow);
        },
    };
    let size: u64 = arena_size(layout.bits, block);
    text.push_str("\n// --hash: uniform set-index permutation over ");
    push_decimal(text, layout.total_blocks);
    text.push_str(" logical blocks\n");
    push_offsets(text, declared, &layout.offsets);
    text.push_str("alignas(4096) static volatile unsigned char __ARENA[");
    push_decimal(text, size);
    text.push_str("UL];\n");
    push_permutation(text, layout.bits);
    push_arena_access(text, layout.block_bits, block);
    proof {
        let views = all_declared(declared@);
        assert(text@ =~= before + preamble_text(
            views,
            arena_of(views, block as int)->0,
            block as nat,
        ));
    }
    Ok(())
}

proof fn lemma_power_fits(value: int)
    requires
        is_power_of_two(value),
        value <= u64::MAX,
    ensures
        value <= 0x8000_0000_0000_0000,
{
    let exponent = choose|exponent: nat| #[trigger] pow2(exponent) == value;
    lemma2_to64();
    lemma2_to64_rest();
    if exponent >= 64 {
        if exponent > 64 {
            lemma_pow2_strictly_increases(64, exponent);
        }
    } else if exponent < 63 {
        lemma_pow2_strictly_increases(exponent, 63);
    }
}

/// An array does not reach into the next one, and every array starts at a
/// multiple of the block size.
pub proof fn law_arrays_do_not_overlap(declared: Seq<Declared>, at: nat, next: nat, block: int)
    requires
        block > 0,
        at < next <= declared.len(),
        offset_of(declared, next, block) is Some,
    ensures
        offset_of(declared, at, block) is Some,
        size_product(declared[at as int].size) is Some,
        offset_of(declared, at, block)->0 + size_product(declared[at as int].size)->0 * 8
            <= offset_of(declared, next, block)->0,
        offset_of(declared, next, block)->0 as int % block == 0,
    decreases next,
{
    let before = (next - 1) as nat;
    let last = extent(declared[next - 1], block)->0 as int;
    if at < before {
        law_arrays_do_not_overlap(declared, at, before, block);
    } else {
        lemma_offset_aligned(declared, before, block);
    }
    let bytes = size_product(declared[next - 1].size)->0 * 8;
    let n = bytes + block - 1;
    lemma_fundamental_div_mod(n, block);
    let (q, m) = (n / block, n % block);
    assert(bytes <= q * block) by (nonlinear_arith)
        requires
            n == block * q + m,
            0 <= m < block,
            n == bytes + block - 1,
    ;
    lemma_mod_multiples_vanish(q, offset_of(declared, before, block)->0 as int, block);
    assert(block * q == q * block) by (nonlinear_arith);
}

proof fn lemma_offset_aligned(declared: Seq<Declared>, count: nat, block: int)
    requires
        block > 0,
        offset_of(declared, count, block) is Some,
    ensures
        offset_of(declared, count, block)->0 as int % block == 0,
    decreases count,
{
    if count == 0 {
        lemma_small_mod(0, block as nat);
    } else {
        lemma_offset_aligned(declared, (count - 1) as nat, block);
        let bytes = size_product(declared[count - 1].size)->0 * 8;
        let q = (bytes + block - 1) / block;
        lemma_mod_multiples_vanish(
            q,
            offset_of(declared, (count - 1) as nat, block)->0 as int,
            block,
        );
        assert(block * q == q * block) by (nonlinear_arith);
    }
}

} // verus!
