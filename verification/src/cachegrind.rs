//! What a cache simulation run needs besides the program: which cache sizes to
//! try, whether a cache is valid, and what the simulator reported.

use crate::block_hash::is_power_of_two;
use crate::text::{
    chars_of, contains, decimal, occurs_in, parse_unsigned, push_decimal, split, split_at, texts,
    trim, trimmed, unsigned_value,
};
use vstd::arithmetic::power2::{lemma2_to64, lemma_pow2_pos, lemma_pow2_strictly_increases, lemma_pow2_unfold, pow2};
use vstd::prelude::*;

verus! {

/// Why a cache is not valid.
#[derive(Clone, Copy, Debug, PartialEq, Eq, Structural)]
pub enum GeometryError {
    /// An associativity or block size of zero.
    Zero,
    /// A size that is not a multiple of associativity times block size.
    NotAMultiple,
    /// A number of sets that is not a power of two.
    SetCount,
    /// An associativity times block size that cannot be counted.
    Overflow,
}

/// Why a cache is not valid, if it is not. The number of sets, the size divided
/// by associativity times block size, has to be a power of two.
pub open spec fn geometry_failure(size: int, assoc: int, block: int) -> Option<GeometryError> {
    if assoc <= 0 || block <= 0 {
        Some(GeometryError::Zero)
    } else if assoc * block > usize::MAX {
        Some(GeometryError::Overflow)
    } else if size % (assoc * block) != 0 {
        Some(GeometryError::NotAMultiple)
    } else if !is_power_of_two(size / (assoc * block)) {
        Some(GeometryError::SetCount)
    } else {
        None
    }
}

/// Whether a number is a power of two.
pub fn power_of_two(value: usize) -> (yes: bool)
    ensures
        yes == is_power_of_two(value as int),
{
    let mut power: u128 = 1;
    let ghost mut exponent: nat = 0;
    proof {
        lemma2_to64();
    }
    while power < value as u128
        invariant
            power == pow2(exponent),
            power <= 2 * 0xffff_ffff_ffff_ffff,
            forall|e: nat| e < exponent ==> #[trigger] pow2(e) < value,
        decreases 2 * 0xffff_ffff_ffff_ffff - power,
    {
        proof {
            lemma_pow2_pos(exponent);
            lemma_pow2_unfold(exponent + 1);
            assert forall|e: nat| e < exponent + 1 implies #[trigger] pow2(e) < value by {
                if e == exponent {
                    assert(pow2(e) == power);
                }
            }
            exponent = exponent + 1;
        }
        power = power * 2;
    }
    proof {
        if power != value {
            assert forall|e: nat| #[trigger] pow2(e) != value by {
                if e > exponent {
                    lemma_pow2_strictly_increases(exponent, e);
                }
            }
        }
    }
    power == value as u128
}

/// Checks that a cache is one that the simulator accepts.
pub fn check_cache_geometry(size: usize, assoc: usize, block: usize) -> (checked: Result<
    (),
    GeometryError,
>)
    ensures
        match geometry_failure(size as int, assoc as int, block as int) {
            Some(failure) => checked == Err::<(), GeometryError>(failure),
            None => checked is Ok,
        },
{
    if assoc == 0 || block == 0 {
        return Err(GeometryError::Zero);
    }
    let denom: usize = match assoc.checked_mul(block) {
        Some(denom) => denom,
        None => {
            return Err(GeometryError::Overflow);
        },
    };
    assert(assoc * block > 0) by (nonlinear_arith)
        requires
            assoc > 0,
            block > 0,
    ;
    if size % denom != 0 {
        return Err(GeometryError::NotAMultiple);
    }
    if !power_of_two(size / denom) {
        return Err(GeometryError::SetCount);
    }
    Ok(())
}

/// The message for a cache that is not valid.
pub open spec fn geometry_text(
    error: GeometryError,
    name: Seq<char>,
    size: nat,
    assoc: nat,
    block: nat,
) -> Seq<char> {
    match error {
        GeometryError::Zero => name + " cache: assoc and block must be > 0"@,
        GeometryError::Overflow => name + " cache: assoc*block exceeds the address space"@,
        GeometryError::NotAMultiple => name + " cache size "@ + decimal(size)
            + " is not a multiple of assoc*block ("@ + decimal(assoc) + seq!['*'] + decimal(block)
            + seq!['='] + decimal((assoc * block) as nat) + seq![')'],
        GeometryError::SetCount => name + " cache set count "@ + decimal(
            (size as int / (assoc * block) as int) as nat,
        ) + " = "@ + decimal(size) + "/("@ + decimal(assoc) + seq!['*'] + decimal(block)
            + ") is not a power of two;          cachegrind will refuse this config. Pick a size/assoc/block whose set count is a          power of two, or run a valid config and derive this associativity with assoc-conv."@,
    }
}

/// The message for a cache that is not valid.
pub fn geometry_message(
    error: GeometryError,
    name: &str,
    size: usize,
    assoc: usize,
    block: usize,
) -> (text: String)
    requires
        geometry_failure(size as int, assoc as int, block as int) == Some(error),
    ensures
        text@ == geometry_text(error, name@, size as nat, assoc as nat, block as nat),
{
    let mut text: String = String::new();
    text.push_str(name);
    match error {
        GeometryError::Zero => {
            text.push_str(" cache: assoc and block must be > 0");
        },
        GeometryError::Overflow => {
            text.push_str(" cache: assoc*block exceeds the address space");
        },
        GeometryError::NotAMultiple => {
            assert(assoc * block > 0) by (nonlinear_arith)
                requires
                    assoc > 0,
                    block > 0,
            ;
            text.push_str(" cache size ");
            push_decimal(&mut text, size as u64);
            text.push_str(" is not a multiple of assoc*block (");
            push_decimal(&mut text, assoc as u64);
            text.push('*');
            push_decimal(&mut text, block as u64);
            text.push('=');
            push_decimal(&mut text, (assoc * block) as u64);
            text.push(')');
        },
        GeometryError::SetCount => {
            assert(assoc * block > 0) by (nonlinear_arith)
                requires
                    assoc > 0,
                    block > 0,
            ;
            text.push_str(" cache set count ");
            push_decimal(&mut text, (size / (assoc * block)) as u64);
            text.push_str(" = ");
            push_decimal(&mut text, size as u64);
            text.push_str("/(");
            push_decimal(&mut text, assoc as u64);
            text.push('*');
            push_decimal(&mut text, block as u64);
            text.push_str(
                ") is not a power of two;          cachegrind will refuse this config. Pick a size/assoc/block whose set count is a          power of two, or run a valid config and derive this associativity with assoc-conv.",
            );
        },
    }
    assert(text@ =~= geometry_text(error, name@, size as nat, assoc as nat, block as nat));
    text
}

/// The sizes of a batch for a given associativity: `factor`, doubled as long as
/// the limit allows.
pub open spec fn doubled_sizes(factor: nat, limit: nat) -> Seq<usize>
    decreases
            if factor <= limit {
                limit - factor + 1
            } else {
                0
            },
{
    if factor == 0 || factor > limit {
        Seq::empty()
    } else {
        seq![factor as usize] + doubled_sizes(2 * factor, limit)
    }
}

/// The cache sizes of a run: one, or a batch up to it. With an associativity
/// the batch doubles from one set on, and otherwise it grows block by block.
pub open spec fn batch(
    batched: bool,
    associativity: Option<usize>,
    block_size: usize,
    cache_size: usize,
) -> Seq<usize> {
    if !batched {
        seq![cache_size]
    } else {
        match associativity {
            Some(assoc) => doubled_sizes((block_size * assoc) as nat, cache_size as nat),
            None => Seq::new(
                (cache_size as int / block_size as int) as nat,
                |i: int| ((i + 1) * block_size) as usize,
            ),
        }
    }
}

/// The cache sizes of a run.
pub fn cache_sizes(
    batched: bool,
    associativity: Option<usize>,
    block_size: usize,
    cache_size: usize,
) -> (sizes: Vec<usize>)
    requires
        batched ==> block_size > 0 && (associativity matches Some(assoc) ==> assoc > 0 && block_size
            * assoc <= usize::MAX),
    ensures
        sizes@ == batch(batched, associativity, block_size, cache_size),
{
    if !batched {
        return vec![cache_size];
    }
    let mut sizes: Vec<usize> = Vec::new();
    match associativity {
        Some(assoc) => {
            let first: usize = block_size * assoc;
            assert(first > 0) by (nonlinear_arith)
                requires
                    first == block_size * assoc,
                    block_size > 0,
                    assoc > 0,
            ;
            let mut factor: u128 = first as u128;
            assert(sizes@ + doubled_sizes(factor as nat, cache_size as nat) =~= doubled_sizes(
                factor as nat,
                cache_size as nat,
            ));
            while factor <= cache_size as u128
                invariant
                    0 < factor <= 2 * 0xffff_ffff_ffff_ffff,
                    batch(batched, associativity, block_size, cache_size) == sizes@
                        + doubled_sizes(factor as nat, cache_size as nat),
                decreases 2 * 0xffff_ffff_ffff_ffff - factor,
            {
                let ghost rest = doubled_sizes((2 * factor) as nat, cache_size as nat);
                let ghost earlier = sizes@;
                sizes.push(factor as usize);
                assert(earlier + (seq![factor as usize] + rest) =~= sizes@ + rest);
                factor = factor * 2;
            }
            assert(sizes@ + Seq::empty() =~= sizes@);
        },
        None => {
            let count: usize = cache_size / block_size;
            let mut at: usize = 0;
            while at < count
                invariant
                    block_size > 0,
                    count == cache_size as int / block_size as int,
                    at <= count,
                    sizes@ =~= Seq::new(at as nat, |i: int| ((i + 1) * block_size) as usize),
                decreases count - at,
            {
                proof {
                    let (c, b) = (cache_size as int, block_size as int);
                    assert(0 <= (at + 1) * block_size <= c) by (nonlinear_arith)
                        requires
                            b == block_size,
                            b > 0,
                            at + 1 <= c / b,
                            at >= 0,
                            c >= 0,
                    ;
                }
                sizes.push((at + 1) * block_size);
                at += 1;
            }
        },
    }
    sizes
}

/// What the simulator counted.
#[derive(Clone, Copy, Debug, PartialEq, Eq, Structural)]
pub struct Summary {
    pub total_access: usize,
    pub d1_miss_count: usize,
    pub ll_miss_count: usize,
}

/// What has been read of a summary so far.
#[derive(Clone, Copy, Debug, PartialEq, Eq)]
pub struct Partial {
    pub total_access: Option<usize>,
    pub d1_miss_count: Option<usize>,
    pub ll_miss_count: Option<usize>,
}

/// A text without its commas.
pub open spec fn without_commas(text: Seq<char>) -> Seq<char>
    decreases text.len(),
{
    if text.len() == 0 {
        Seq::empty()
    } else {
        let before = without_commas(text.drop_last());
        if text.last() == ',' {
            before
        } else {
            before.push(text.last())
        }
    }
}

/// The count of a line: the number between its first colon and what follows, a
/// second colon or an opening parenthesis, with commas between its digits.
pub open spec fn line_count(line: Seq<char>) -> Option<Option<usize>> {
    let pieces = split(line, ':');
    if pieces.len() < 2 {
        None
    } else {
        let value = split(pieces[1], '(')[0];
        Some(
            match unsigned_value(without_commas(trimmed(value)), usize::MAX as nat) {
                Some(count) => Some(count as usize),
                None => None,
            },
        )
    }
}

/// A summary after one more line.
pub open spec fn with_line(partial: Partial, line: Seq<char>) -> Partial {
    match line_count(line) {
        None => partial,
        Some(count) => if occurs_in(line, "D refs:"@) {
            Partial { total_access: count, ..partial }
        } else if occurs_in(line, "D1  misses:"@) {
            Partial { d1_miss_count: count, ..partial }
        } else if occurs_in(line, "LLd misses:"@) {
            Partial { ll_miss_count: count, ..partial }
        } else {
            partial
        },
    }
}

/// A summary after some lines; where a count occurs twice, the last one stands.
pub open spec fn with_lines(lines: Seq<Seq<char>>) -> Partial
    decreases lines.len(),
{
    if lines.len() == 0 {
        Partial { total_access: None, d1_miss_count: None, ll_miss_count: None }
    } else {
        with_line(with_lines(lines.drop_last()), lines.last())
    }
}

/// The summary of the simulator's output, if it is complete.
pub open spec fn summary_of(output: Seq<char>) -> Option<Summary> {
    match with_lines(split(output, '\n')) {
        Partial {
            total_access: Some(total_access),
            d1_miss_count: Some(d1_miss_count),
            ll_miss_count: Some(ll_miss_count),
        } => Some(Summary { total_access, d1_miss_count, ll_miss_count }),
        _ => None,
    }
}

fn drop_commas(text: &Vec<char>) -> (out: Vec<char>)
    ensures
        out@ == without_commas(text@),
{
    let mut out: Vec<char> = Vec::new();
    let mut at: usize = 0;
    assert(text@.take(0) =~= Seq::empty());
    while at < text.len()
        invariant
            at <= text@.len(),
            out@ == without_commas(text@.take(at as int)),
        decreases text@.len() - at,
    {
        assert(text@.take(at + 1).drop_last() =~= text@.take(at as int));
        if text[at] != ',' {
            out.push(text[at]);
        }
        at += 1;
    }
    assert(text@.take(at as int) =~= text@);
    out
}

fn count_of_line(line: &Vec<char>) -> (count: Option<Option<usize>>)
    ensures
        count == line_count(line@),
{
    let pieces: Vec<Vec<char>> = split_at(line, ':');
    assert(texts(pieces@).len() == pieces@.len());
    if pieces.len() < 2 {
        return None;
    }
    assert(texts(pieces@)[1] == pieces@[1]@);
    let values: Vec<Vec<char>> = split_at(&pieces[1], '(');
    assert(texts(values@).len() == values@.len());
    assert(split(pieces@[1]@, '(').len() > 0);
    assert(texts(values@)[0] == values@[0]@);
    let digits: Vec<char> = drop_commas(&trim(&values[0]));
    Some(
        match parse_unsigned(&digits, usize::MAX as u64) {
            Some(count) => Some(count as usize),
            None => None,
        },
    )
}

/// Reads the summary of the simulator's output. `None` means that the output
/// holds no complete summary, which is different from counts of zero.
pub fn parse_summary(output: &str) -> (summary: Option<Summary>)
    ensures
        summary == summary_of(output@),
{
    let chars: Vec<char> = chars_of(output);
    let lines: Vec<Vec<char>> = split_at(&chars, '\n');
    let refs: Vec<char> = chars_of("D refs:");
    let d1: Vec<char> = chars_of("D1  misses:");
    let ll: Vec<char> = chars_of("LLd misses:");
    let ghost all = texts(lines@);
    let mut partial: Partial = Partial {
        total_access: None,
        d1_miss_count: None,
        ll_miss_count: None,
    };
    let mut at: usize = 0;
    assert(all.take(0) =~= Seq::empty());
    while at < lines.len()
        invariant
            at <= lines@.len(),
            all == texts(lines@),
            refs@ == "D refs:"@,
            d1@ == "D1  misses:"@,
            ll@ == "LLd misses:"@,
            partial == with_lines(all.take(at as int)),
        decreases lines@.len() - at,
    {
        proof {
            assert(all.take(at + 1).drop_last() =~= all.take(at as int));
            assert(all[at as int] == lines@[at as int]@);
        }
        let line: &Vec<char> = &lines[at];
        match count_of_line(line) {
            None => {},
            Some(count) => {
                if contains(line, &refs) {
                    partial.total_access = count;
                } else if contains(line, &d1) {
                    partial.d1_miss_count = count;
                } else if contains(line, &ll) {
                    partial.ll_miss_count = count;
                }
            },
        }
        at += 1;
    }
    assert(all.take(at as int) =~= all);
    match (partial.total_access, partial.d1_miss_count, partial.ll_miss_count) {
        (Some(total_access), Some(d1_miss_count), Some(ll_miss_count)) => Some(
            Summary { total_access, d1_miss_count, ll_miss_count },
        ),
        _ => None,
    }
}

/// Whether blocks can be permuted: both caches have the same block size, a
/// power of two of at most a page.
pub fn hash_blocks_fit(d1_block_size: usize, ll_block_size: usize) -> (fit: bool)
    ensures
        fit == (d1_block_size == ll_block_size && is_power_of_two(d1_block_size as int)
            && d1_block_size <= 4096),
{
    d1_block_size == ll_block_size && power_of_two(d1_block_size) && d1_block_size <= 4096
}

/// The associativity of a cache: the given one, or otherwise as many ways as
/// blocks.
pub fn associativity_of(given: Option<usize>, cache_size: usize, block_size: usize) -> (ways: usize)
    requires
        block_size > 0,
    ensures
        ways == match given {
            Some(ways) => ways,
            None => (cache_size as int / block_size as int) as usize,
        },
{
    match given {
        Some(ways) => ways,
        None => cache_size / block_size,
    }
}

/// The option that describes a cache to the simulator.
pub open spec fn cache_flag_text(name: Seq<char>, size: nat, assoc: nat, block: nat) -> Seq<char> {
    "--"@ + name + seq!['='] + decimal(size) + seq![','] + decimal(assoc) + seq![','] + decimal(
        block,
    )
}

/// The option that describes a cache to the simulator.
pub fn cache_flag(name: &str, size: usize, assoc: usize, block: usize) -> (flag: String)
    ensures
        flag@ == cache_flag_text(name@, size as nat, assoc as nat, block as nat),
{
    let mut flag: String = String::new();
    flag.push_str("--");
    flag.push_str(name);
    flag.push('=');
    push_decimal(&mut flag, size as u64);
    flag.push(',');
    push_decimal(&mut flag, assoc as u64);
    flag.push(',');
    push_decimal(&mut flag, block as u64);
    assert(flag@ =~= cache_flag_text(name@, size as nat, assoc as nat, block as nat));
    flag
}

/// Every cache of a batch with a given associativity can be simulated, as long
/// as its first one can.
pub proof fn law_batches_are_valid(factor: nat, limit: nat, assoc: int, block: int, at: int)
    requires
        limit <= usize::MAX,
        geometry_failure(factor as int, assoc, block) is None,
        0 <= at < doubled_sizes(factor, limit).len(),
    ensures
        geometry_failure(doubled_sizes(factor, limit)[at] as int, assoc, block) is None,
    decreases at,
{
    if at > 0 {
        let denominator = assoc * block;
        let (sets, rest) = (factor as int / denominator, factor as int % denominator);
        assert(denominator > 0) by (nonlinear_arith)
            requires
                assoc > 0,
                block > 0,
                denominator == assoc * block,
        ;
        vstd::arithmetic::div_mod::lemma_fundamental_div_mod(factor as int, denominator);
        assert(2 * factor == (2 * sets) * denominator + 0) by (nonlinear_arith)
            requires
                factor == denominator * sets + rest,
                rest == 0,
        ;
        vstd::arithmetic::div_mod::lemma_fundamental_div_mod_converse(
            2 * factor as int,
            denominator,
            2 * sets,
            0,
        );
        let exponent = choose|exponent: nat| #[trigger] pow2(exponent) == sets;
        lemma_pow2_unfold(exponent + 1);
        assert(pow2(exponent + 1) == 2 * sets);
        law_batches_are_valid(2 * factor, limit, assoc, block, at - 1);
    }
}

} // verus!
