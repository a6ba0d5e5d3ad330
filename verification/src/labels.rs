//! What the simulator's output says, line by line: each count stands behind its
//! label.

use crate::cachegrind::{
    batch, doubled_sizes, geometry_failure, line_count, summary_of, with_line, with_lines,
    without_commas, Partial, Summary,
};
use crate::reading::{
    is_blank, is_digit, joined, lacks, law_decimal_is_read_back, law_decimal_stands_for_the_number,
    law_joined_texts_are_the_pieces, law_trimming_takes_off_white_space,
};
use crate::text::{decimal, is_space, lemma_is_first_of, occurs_at, occurs_in, split};
use vstd::arithmetic::power2::{lemma2_to64, lemma_pow2_unfold, pow2};
use vstd::prelude::*;

verus! {

/// The counts of a summary.
pub ghost enum Counted {
    Accesses,
    FirstLevelMisses,
    LastLevelMisses,
}

/// The label of a count.
pub open spec fn label(counted: Counted) -> Seq<char> {
    match counted {
        Counted::Accesses => "D refs:"@,
        Counted::FirstLevelMisses => "D1  misses:"@,
        Counted::LastLevelMisses => "LLd misses:"@,
    }
}

/// A count of what has been read so far.
pub open spec fn count_in(partial: Partial, counted: Counted) -> Option<usize> {
    match counted {
        Counted::Accesses => partial.total_access,
        Counted::FirstLevelMisses => partial.d1_miss_count,
        Counted::LastLevelMisses => partial.ll_miss_count,
    }
}

/// The parts of a line with a count: anything without a colon, the label, white
/// space, the number with or without commas between its digits, white space, and
/// then nothing or a remark in parentheses.
pub ghost struct CountLine {
    pub before: Seq<char>,
    pub counted: Counted,
    pub blank: Seq<char>,
    pub number: Seq<char>,
    pub space: Seq<char>,
    pub remark: Seq<char>,
}

/// The text of a line.
pub open spec fn line_text(line: CountLine) -> Seq<char> {
    line.before + label(line.counted) + line.blank + line.number + line.space + line.remark
}

/// The line has such parts, and its number is this one.
pub open spec fn counts(line: CountLine, value: nat) -> bool {
    &&& lacks(line.before, ':')
    &&& is_blank(line.blank)
    &&& line.number.filter(|c: char| c != ',') == decimal(value)
    &&& is_blank(line.space)
    &&& line.remark.len() > 0 ==> line.remark[0] == '('
    &&& lacks(line.remark, ':')
}

proof fn lemma_without_commas(text: Seq<char>)
    ensures
        without_commas(text) == text.filter(|c: char| c != ','),
    decreases text.len(),
{
    reveal(Seq::filter);
    if text.len() > 0 {
        lemma_without_commas(text.drop_last());
    } else {
        assert(without_commas(text) =~= text.filter(|c: char| c != ','));
    }
}

/// What is left without the commas says what was there.
proof fn lemma_kept(text: Seq<char>, i: int)
    requires
        0 <= i < text.len(),
        forall|j: int|
            0 <= j < without_commas(text).len() ==> is_digit(#[trigger] without_commas(text)[j]),
    ensures
        is_digit(text[i]) || text[i] == ',',
    decreases text.len(),
{
    let front = text.drop_last();
    let left = without_commas(front);
    let whole = without_commas(text);
    if i == text.len() - 1 {
        if text[i] != ',' {
            assert(whole == left.push(text.last()));
            assert(is_digit(whole[left.len() as int]));
        }
    } else {
        assert forall|j: int| 0 <= j < left.len() implies is_digit(#[trigger] left[j]) by {
            assert(whole[j] == left[j]);
        }
        lemma_kept(front, i);
        assert(front[i] == text[i]);
    }
}

/// A text up to a character, where that is known.
proof fn lemma_first_piece(front: Seq<char>, c: char, rest: Seq<char>)
    requires
        lacks(front, c),
        rest.len() > 0 ==> rest[0] == c,
    ensures
        split(front + rest, c)[0] == front,
        rest.len() == 0 ==> split(front + rest, c) == seq![front],
        rest.len() > 0 ==> split(front + rest, c) == seq![front] + split(rest.skip(1), c),
{
    let text = front + rest;
    assert forall|i: int| 0 <= i < front.len() implies #[trigger] text[i] != c by {
        assert(text[i] == front[i]);
    }
    lemma_is_first_of(text, c, front.len() as int);
    assert(text.take(front.len() as int) =~= front);
    if rest.len() == 0 {
        assert(text =~= front);
    } else {
        assert(text[front.len() as int] == rest[0]);
        assert(text.skip(front.len() as int + 1) =~= rest.skip(1));
    }
}

proof fn lemma_lacks_concat(left: Seq<char>, right: Seq<char>, c: char)
    requires
        lacks(left, c),
        lacks(right, c),
    ensures
        lacks(left + right, c),
{
    assert forall|i: int| 0 <= i < (left + right).len() implies #[trigger] (left + right)[i]
        != c by {
        if i < left.len() {
            assert(left[i] != c);
        } else {
            assert(right[i - left.len()] != c);
        }
    }
}

proof fn lemma_lacks_blank(text: Seq<char>, c: char)
    requires
        is_blank(text),
        !is_space(c),
    ensures
        lacks(text, c),
{
    assert forall|i: int| 0 <= i < text.len() implies #[trigger] text[i] != c by {
        assert(is_space(text[i]));
    }
}

/// The characters of a label: a colon at the end and nowhere else.
proof fn lemma_label(counted: Counted)
    ensures
        label(counted).len() > 0,
        label(counted).last() == ':',
        lacks(label(counted).drop_last(), ':'),
{
    reveal_strlit("D refs:");
    reveal_strlit("D1  misses:");
    reveal_strlit("LLd misses:");
}

/// A line with one colon, at the end of a label, holds no other label.
proof fn lemma_one_label(before: Seq<char>, counted: Counted, rest: Seq<char>, other: Counted)
    requires
        lacks(before, ':'),
        lacks(rest, ':'),
    ensures
        occurs_in(before + label(counted) + rest, label(other)) <==> counted == other,
{
    let text = before + label(counted) + rest;
    lemma_label(counted);
    lemma_label(other);
    let colon = before.len() + label(counted).len() - 1;
    if counted == other {
        let from = before.len() as int;
        assert(text.subrange(from, from + label(other).len()) =~= label(other));
        assert(occurs_at(text, label(other), before.len() as int));
    } else if occurs_in(text, label(other)) {
        let at = choose|at: int| occurs_at(text, label(other), at);
        let part = text.subrange(at, at + label(other).len());
        let end = at + label(other).len() - 1;
        assert(part[label(other).len() - 1] == text[end]);
        if end < before.len() {
            assert(before[end] != ':');
        } else if end < colon {
            let i = end - before.len();
            assert(label(counted).drop_last()[i] != ':');
            assert(text[end] == label(counted)[i]);
        } else if end > colon {
            assert(rest[end - colon - 1] != ':');
        }
        assert(end == colon);
        reveal_strlit("D refs:");
        reveal_strlit("D1  misses:");
        reveal_strlit("LLd misses:");
        assert(part[label(other).len() - 3] == text[end - 2]);
        assert(text[end - 2] == label(counted)[label(counted).len() - 3]);
        if counted != Counted::Accesses && other != Counted::Accesses {
            assert(part[label(other).len() - 9] == text[end - 8]);
            assert(text[end - 8] == label(counted)[label(counted).len() - 9]);
        }
    }
}

/// A line with a label and a number gives that count exactly that number, and
/// leaves the other counts as they were.
pub proof fn law_line_gives_its_count(partial: Partial, line: CountLine, value: nat)
    requires
        counts(line, value),
        value <= usize::MAX,
    ensures
        line_count(line_text(line)) == Some(Some(value as usize)),
        count_in(with_line(partial, line_text(line)), line.counted) == Some(value as usize),
        forall|other: Counted|
            other != line.counted ==> #[trigger] count_in(
                with_line(partial, line_text(line)),
                other,
            ) == count_in(partial, other),
{
    let text = line_text(line);
    let (name, number) = (label(line.counted), line.number);
    let tail = line.blank + number + line.space + line.remark;
    lemma_label(line.counted);
    lemma_without_commas(number);
    law_decimal_stands_for_the_number(value);
    assert(number.len() > 0) by {
        reveal(Seq::filter);
    }
    assert forall|i: int| 0 <= i < number.len() implies is_digit(#[trigger] number[i]) || number[i]
        == ',' by {
        lemma_kept(number, i);
    }
    assert(lacks(number, ':') && lacks(number, '('));
    lemma_lacks_blank(line.blank, ':');
    lemma_lacks_blank(line.space, ':');
    lemma_lacks_blank(line.blank, '(');
    lemma_lacks_blank(line.space, '(');
    lemma_lacks_concat(line.blank, number, ':');
    lemma_lacks_concat(line.blank + number, line.space, ':');
    lemma_lacks_concat(line.blank + number + line.space, line.remark, ':');
    lemma_lacks_concat(line.blank, number, '(');
    lemma_lacks_concat(line.blank + number, line.space, '(');
    lemma_lacks_concat(line.before, name.drop_last(), ':');
    // The piece between the colons.
    let front = line.before + name.drop_last();
    assert(text =~= front + (seq![':'] + tail));
    lemma_first_piece(front, ':', seq![':'] + tail);
    assert((seq![':'] + tail).skip(1) =~= tail);
    let none: Seq<char> = Seq::empty();
    lemma_first_piece(tail, ':', none);
    assert(tail + none =~= tail);
    assert(split(text, ':') =~= seq![front, tail]);
    // The number in it.
    let value_text = line.blank + number + line.space;
    assert(tail =~= value_text + line.remark);
    lemma_first_piece(value_text, '(', line.remark);
    assert(is_digit(number[0]) || number[0] == ',');
    assert(is_digit(number[number.len() - 1]) || number[number.len() - 1] == ',');
    law_trimming_takes_off_white_space(line.blank, number, line.space);
    law_decimal_is_read_back(value, usize::MAX as nat);
    assert(line_count(text) == Some(Some(value as usize)));
    // Its label, and no other.
    assert(text =~= line.before + name + tail);
    lemma_one_label(line.before, line.counted, tail, Counted::Accesses);
    lemma_one_label(line.before, line.counted, tail, Counted::FirstLevelMisses);
    lemma_one_label(line.before, line.counted, tail, Counted::LastLevelMisses);
}

/// A line without a label leaves its count as it was.
pub proof fn law_other_lines_leave_a_count(partial: Partial, line: Seq<char>, counted: Counted)
    requires
        !occurs_in(line, label(counted)),
    ensures
        count_in(with_line(partial, line), counted) == count_in(partial, counted),
{
}

/// The last of the lines with a label gives its count.
proof fn lemma_last_count(
    lines: Seq<Seq<char>>,
    counted: Counted,
    at: int,
    line: CountLine,
    value: nat,
)
    requires
        0 <= at < lines.len(),
        lines[at] == line_text(line),
        line.counted == counted,
        counts(line, value),
        value <= usize::MAX,
        forall|i: int| at < i < lines.len() ==> !occurs_in(#[trigger] lines[i], label(counted)),
    ensures
        count_in(with_lines(lines), counted) == Some(value as usize),
    decreases lines.len(),
{
    let front = lines.drop_last();
    if at == lines.len() - 1 {
        law_line_gives_its_count(with_lines(front), line, value);
    } else {
        assert forall|i: int| at < i < front.len() implies !occurs_in(
            #[trigger] front[i],
            label(counted),
        ) by {
            assert(front[i] == lines[i]);
        }
        assert(front[at] == lines[at]);
        lemma_last_count(front, counted, at, line, value);
        assert(!occurs_in(lines[lines.len() - 1], label(counted)));
        law_other_lines_leave_a_count(with_lines(front), lines.last(), counted);
    }
}

proof fn lemma_no_count(lines: Seq<Seq<char>>, counted: Counted)
    requires
        forall|i: int| 0 <= i < lines.len() ==> !occurs_in(#[trigger] lines[i], label(counted)),
    ensures
        count_in(with_lines(lines), counted) is None,
    decreases lines.len(),
{
    if lines.len() > 0 {
        let front = lines.drop_last();
        assert forall|i: int| 0 <= i < front.len() implies !occurs_in(
            #[trigger] front[i],
            label(counted),
        ) by {
            assert(front[i] == lines[i]);
        }
        lemma_no_count(front, counted);
        assert(!occurs_in(lines[lines.len() - 1], label(counted)));
        law_other_lines_leave_a_count(with_lines(front), lines.last(), counted);
    }
}

/// The last line of the output with a label is this one, and its number is this.
pub open spec fn last_with_label(
    lines: Seq<Seq<char>>,
    at: int,
    line: CountLine,
    counted: Counted,
    value: nat,
) -> bool {
    &&& 0 <= at < lines.len()
    &&& lines[at] == line_text(line)
    &&& line.counted == counted
    &&& counts(line, value)
    &&& value <= usize::MAX
    &&& forall|i: int| at < i < lines.len() ==> !occurs_in(#[trigger] lines[i], label(counted))
}

/// Where every label has a line, the summary holds the number of the last line
/// of each.
pub proof fn law_summary_holds_the_counts(
    output: Seq<char>,
    lines: Seq<Seq<char>>,
    refs: (int, CountLine, nat),
    first: (int, CountLine, nat),
    last: (int, CountLine, nat),
)
    requires
        output == joined(lines, '\n'),
        forall|i: int| 0 <= i < lines.len() ==> lacks(#[trigger] lines[i], '\n'),
        last_with_label(lines, refs.0, refs.1, Counted::Accesses, refs.2),
        last_with_label(lines, first.0, first.1, Counted::FirstLevelMisses, first.2),
        last_with_label(lines, last.0, last.1, Counted::LastLevelMisses, last.2),
    ensures
        summary_of(output) == Some(
            Summary {
                total_access: refs.2 as usize,
                d1_miss_count: first.2 as usize,
                ll_miss_count: last.2 as usize,
            },
        ),
{
    law_joined_texts_are_the_pieces(lines, '\n');
    lemma_last_count(lines, Counted::Accesses, refs.0, refs.1, refs.2);
    lemma_last_count(lines, Counted::FirstLevelMisses, first.0, first.1, first.2);
    lemma_last_count(lines, Counted::LastLevelMisses, last.0, last.1, last.2);
}

/// Where a label has no line, there is no summary.
pub proof fn law_summary_needs_every_label(lines: Seq<Seq<char>>, counted: Counted)
    requires
        lines.len() > 0,
        forall|i: int|
            0 <= i < lines.len() ==> lacks(#[trigger] lines[i], '\n') && !occurs_in(
                lines[i],
                label(counted),
            ),
    ensures
        summary_of(joined(lines, '\n')) is None,
{
    law_joined_texts_are_the_pieces(lines, '\n');
    lemma_no_count(lines, counted);
}

/// The sizes of a batch with a given associativity double from the first one,
/// and go on as long as the limit allows.
pub proof fn law_batches_double(factor: nat, limit: nat)
    requires
        0 < factor,
        limit <= usize::MAX,
    ensures
        forall|i: int|
            0 <= i < doubled_sizes(factor, limit).len() ==> #[trigger] doubled_sizes(
                factor,
                limit,
            )[i] == factor * pow2(i as nat) && factor * pow2(i as nat) <= limit,
        factor * pow2(doubled_sizes(factor, limit).len()) > limit,
    decreases
            if factor <= limit {
                limit - factor + 1
            } else {
                0
            },
{
    let sizes = doubled_sizes(factor, limit);
    lemma2_to64();
    if factor <= limit {
        let rest = doubled_sizes(2 * factor, limit);
        law_batches_double(2 * factor, limit);
        assert(sizes == seq![factor as usize] + rest);
        assert forall|i: int| 0 <= i < sizes.len() implies #[trigger] sizes[i] == factor * pow2(
            i as nat,
        ) && factor * pow2(i as nat) <= limit by {
            if i > 0 {
                assert(sizes[i] == rest[i - 1]);
                lemma_pow2_unfold(i as nat);
                let power = pow2((i - 1) as nat);
                assert((2 * factor) * power == factor * (2 * power)) by (nonlinear_arith);
            } else {
                assert(factor * 1 == factor) by (nonlinear_arith);
            }
        }
        lemma_pow2_unfold(sizes.len());
        let power = pow2(rest.len());
        assert((2 * factor) * power == factor * (2 * power)) by (nonlinear_arith);
    } else {
        assert(factor * 1 == factor) by (nonlinear_arith);
    }
}

/// The sizes of a batch without an associativity are the multiples of the block
/// size up to the cache size, in order and without a gap.
pub proof fn law_batches_take_every_multiple(block_size: usize, cache_size: usize)
    requires
        block_size > 0,
    ensures
        forall|i: int|
            0 <= i < batch(true, None, block_size, cache_size).len() ==> #[trigger] batch(
                true,
                None,
                block_size,
                cache_size,
            )[i] == (i + 1) * block_size && (i + 1) * block_size <= cache_size,
        (batch(true, None, block_size, cache_size).len() + 1) * block_size > cache_size,
{
    let sizes = batch(true, None, block_size, cache_size);
    let (b, c) = (block_size as int, cache_size as int);
    let count = c / b;
    vstd::arithmetic::div_mod::lemma_fundamental_div_mod(c, b);
    assert((count + 1) * b > c) by (nonlinear_arith)
        requires
            c == b * count + c % b,
            c % b < b,
    ;
    assert forall|i: int| 0 <= i < sizes.len() implies #[trigger] sizes[i] == (i + 1) * block_size
        && (i + 1) * block_size <= cache_size by {
        assert(0 <= (i + 1) * b <= c) by (nonlinear_arith)
            requires
                b > 0,
                0 <= i < count,
                c == b * count + c % b,
                c % b >= 0,
        ;
    }
}

/// A cache is valid exactly where it is a power of two many sets, each of as many
/// blocks as the associativity says, and one set can be counted.
pub proof fn law_valid_caches_are_made_of_sets(size: nat, assoc: nat, block: nat)
    ensures
        geometry_failure(size as int, assoc as int, block as int) is None <==> {
            &&& 0 < assoc * block <= usize::MAX
            &&& exists|exponent: nat| size == #[trigger] pow2(exponent) * (assoc * block)
        },
{
    let set = (assoc * block) as int;
    assert(set > 0 <==> assoc > 0 && block > 0) by (nonlinear_arith)
        requires
            set == assoc * block,
            assoc >= 0,
            block >= 0,
    ;
    if set > 0 {
        vstd::arithmetic::div_mod::lemma_fundamental_div_mod(size as int, set);
        if geometry_failure(size as int, assoc as int, block as int) is None {
            let exponent = choose|exponent: nat| #[trigger] pow2(exponent) == size as int / set;
            let sets = pow2(exponent) as int;
            assert(set * sets == sets * set) by (nonlinear_arith);
            assert(size == pow2(exponent) * (assoc * block));
        }
        if exists|exponent: nat| size == #[trigger] pow2(exponent) * (assoc * block) {
            let exponent = choose|exponent: nat|
                size == #[trigger] pow2(exponent) * (assoc * block);
            let sets = pow2(exponent) as int;
            assert(size == sets * set + 0);
            vstd::arithmetic::div_mod::lemma_fundamental_div_mod_converse(
                size as int,
                set,
                sets,
                0,
            );
        }
    }
}

} // verus!
