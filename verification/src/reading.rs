//! What the elementary functions on text mean: numerals, pieces and white space.

use crate::text::{
    decimal, digit, digits_value, first_of, is_space, lemma_is_first_of,
    signed_decimal, signed_value, split, trim_end, trim_start, trimmed, unsigned_value,
};
use vstd::arithmetic::power::{lemma_pow0, lemma_pow_adds, pow};
use vstd::prelude::*;

verus! {

/// A decimal digit.
pub open spec fn is_digit(c: char) -> bool {
    '0' <= c <= '9'
}

/// The number that a row of digits stands for: the first digit counts as many
/// tens as there are digits behind it.
pub open spec fn numeral(text: Seq<char>) -> int
    decreases text.len(),
{
    if text.len() == 0 {
        0
    } else {
        (text[0] as int - '0' as int) * pow(10, (text.len() - 1) as nat) + numeral(text.skip(1))
    }
}

proof fn lemma_numeral_push(text: Seq<char>, c: char)
    ensures
        numeral(text.push(c)) == 10 * numeral(text) + (c as int - '0' as int),
    decreases text.len(),
{
    let longer = text.push(c);
    if text.len() == 0 {
        assert(longer.skip(1) =~= Seq::empty());
        lemma_pow0(10);
        assert(numeral(longer.skip(1)) == 0);
        assert(numeral(longer) == (c as int - '0' as int) * 1);
    } else {
        assert(longer.skip(1) =~= text.skip(1).push(c));
        lemma_numeral_push(text.skip(1), c);
        let tens = pow(10, (text.len() - 1) as nat);
        lemma_pow_adds(10, 1, (text.len() - 1) as nat);
        vstd::arithmetic::power::lemma_pow1(10);
        let high = text[0] as int - '0' as int;
        assert(pow(10, text.len()) == 10 * tens);
        assert(high * (10 * tens) == 10 * (high * tens)) by (nonlinear_arith);
    }
}

/// Digits are read as the number that they stand for, and nothing else is read.
pub proof fn law_digits_are_read_as_a_numeral(text: Seq<char>)
    ensures
        digits_value(text) is Some <==> forall|i: int| 0 <= i < text.len() ==> is_digit(
            #[trigger] text[i],
        ),
        digits_value(text) matches Some(value) ==> value == numeral(text),
    decreases text.len(),
{
    if text.len() > 0 {
        let front = text.drop_last();
        law_digits_are_read_as_a_numeral(front);
        assert(front.push(text.last()) =~= text);
        lemma_numeral_push(front, text.last());
        if digits_value(text) is Some {
            assert forall|i: int| 0 <= i < text.len() implies is_digit(#[trigger] text[i]) by {
                if i < text.len() - 1 {
                    assert(text[i] == front[i]);
                    assert(is_digit(front[i]));
                }
            }
        }
        if forall|i: int| 0 <= i < text.len() ==> is_digit(#[trigger] text[i]) {
            assert forall|i: int| 0 <= i < front.len() implies is_digit(#[trigger] front[i]) by {
                assert(front[i] == text[i]);
            }
            assert(is_digit(text[text.len() - 1]));
        }
    }
}

/// A number in decimal is a row of digits that stands for it, and that does not
/// start with a zero unless the number is zero.
pub proof fn law_decimal_stands_for_the_number(value: nat)
    ensures
        numeral(decimal(value)) == value,
        decimal(value).len() > 0,
        forall|i: int| 0 <= i < decimal(value).len() ==> is_digit(#[trigger] decimal(value)[i]),
        decimal(value)[0] == '0' ==> decimal(value) == seq!['0'],
        digits_value(decimal(value)) == Some(value),
    decreases value,
{
    let text = decimal(value);
    if value < 10 {
        let empty: Seq<char> = Seq::empty();
        assert(empty.push(digit(value)) =~= text);
        lemma_numeral_push(empty, digit(value));
        if text[0] == '0' {
            assert(text =~= seq!['0']);
        }
    } else {
        let front = decimal(value / 10);
        law_decimal_stands_for_the_number(value / 10);
        lemma_numeral_push(front, digit(value % 10));
        assert forall|i: int| 0 <= i < text.len() implies is_digit(#[trigger] text[i]) by {
            if i < front.len() {
                assert(text[i] == front[i]);
                assert(is_digit(front[i]));
            }
        }
        assert(text[0] == front[0]);
        if text[0] == '0' {
            assert(front.skip(1) =~= Seq::empty());
            assert(numeral(front.skip(1)) == 0);
            lemma_pow0(10);
            assert(numeral(front) == 0);
        }
    }
    law_digits_are_read_as_a_numeral(text);
}

/// A number in decimal is read back, within the limit.
pub proof fn law_decimal_is_read_back(value: nat, limit: nat)
    ensures
        unsigned_value(decimal(value), limit) == if value <= limit {
            Some(value)
        } else {
            None
        },
{
    law_decimal_stands_for_the_number(value);
    assert(is_digit(decimal(value)[0]));
}

/// An integer in decimal is read back.
pub proof fn law_signed_decimal_is_read_back(value: int)
    ensures
        signed_value(signed_decimal(value)) == if i64::MIN <= value <= i64::MAX {
            Some(value)
        } else {
            None
        },
{
    if value < 0 {
        law_decimal_stands_for_the_number((-value) as nat);
        let text = signed_decimal(value);
        assert(text.skip(1) =~= decimal((-value) as nat));
        assert(text[0] == '-');
    } else {
        law_decimal_stands_for_the_number(value as nat);
        law_decimal_is_read_back(value as nat, i64::MAX as nat);
        assert(is_digit(decimal(value as nat)[0]));
    }
}

/// Texts one after the other, with a character between them.
pub open spec fn joined(pieces: Seq<Seq<char>>, c: char) -> Seq<char>
    decreases pieces.len(),
{
    if pieces.len() == 0 {
        Seq::empty()
    } else if pieces.len() == 1 {
        pieces[0]
    } else {
        pieces[0] + seq![c] + joined(pieces.skip(1), c)
    }
}

/// A text does not hold a character.
pub open spec fn lacks(text: Seq<char>, c: char) -> bool {
    forall|i: int| 0 <= i < text.len() ==> #[trigger] text[i] != c
}

/// The pieces of a text, joined again, are the text, and none of them holds the
/// character that it was cut at.
pub proof fn law_pieces_make_the_text(text: Seq<char>, c: char)
    ensures
        split(text, c).len() > 0,
        joined(split(text, c), c) == text,
        forall|i: int| 0 <= i < split(text, c).len() ==> lacks(#[trigger] split(text, c)[i], c),
    decreases text.len(),
{
    crate::text::lemma_first_of(text, c);
    let at = first_of(text, c);
    let pieces = split(text, c);
    if at >= text.len() {
        assert(pieces =~= seq![text]);
        assert forall|i: int| 0 <= i < pieces.len() implies lacks(#[trigger] pieces[i], c) by {
            assert(pieces[i] == text);
        }
    } else {
        let rest = split(text.skip(at + 1), c);
        law_pieces_make_the_text(text.skip(at + 1), c);
        assert(pieces == seq![text.take(at)] + rest);
        assert(pieces.skip(1) =~= rest);
        assert(joined(pieces, c) =~= text);
        assert forall|i: int| 0 <= i < pieces.len() implies lacks(#[trigger] pieces[i], c) by {
            if i > 0 {
                assert(pieces[i] == rest[i - 1]);
            } else {
                assert(pieces[0] == text.take(at));
                assert forall|j: int| 0 <= j < at implies #[trigger] text.take(at)[j] != c by {
                    assert(text[j] != c);
                }
            }
        }
    }
}

/// Texts without a character, joined with it, are the pieces of the whole.
pub proof fn law_joined_texts_are_the_pieces(pieces: Seq<Seq<char>>, c: char)
    requires
        pieces.len() > 0,
        forall|i: int| 0 <= i < pieces.len() ==> lacks(#[trigger] pieces[i], c),
    ensures
        split(joined(pieces, c), c) == pieces,
    decreases pieces.len(),
{
    let text = joined(pieces, c);
    let first = pieces[0];
    assert(lacks(first, c));
    if pieces.len() == 1 {
        lemma_is_first_of(text, c, text.len() as int);
        assert(split(text, c) =~= pieces);
    } else {
        let rest = pieces.skip(1);
        assert forall|i: int| 0 <= i < rest.len() implies lacks(#[trigger] rest[i], c) by {
            assert(rest[i] == pieces[i + 1]);
        }
        law_joined_texts_are_the_pieces(rest, c);
        assert forall|i: int| 0 <= i < first.len() implies #[trigger] text[i] != c by {
            assert(text[i] == first[i]);
        }
        lemma_is_first_of(text, c, first.len() as int);
        assert(text.take(first.len() as int) =~= first);
        assert(text.skip(first.len() as int + 1) =~= joined(rest, c));
        assert(split(text, c) =~= pieces);
    }
}

/// Only white space.
pub open spec fn is_blank(text: Seq<char>) -> bool {
    forall|i: int| 0 <= i < text.len() ==> is_space(#[trigger] text[i])
}

proof fn lemma_trim_start(blank: Seq<char>, text: Seq<char>)
    requires
        is_blank(blank),
        text.len() > 0 ==> !is_space(text[0]),
    ensures
        trim_start(blank + text) == text,
    decreases blank.len(),
{
    if blank.len() > 0 {
        assert(is_space(blank[0]));
        assert((blank + text)[0] == blank[0]);
        assert((blank + text).skip(1) =~= blank.skip(1) + text);
        lemma_trim_start(blank.skip(1), text);
    } else {
        assert(blank + text =~= text);
    }
}

proof fn lemma_trim_end(text: Seq<char>, blank: Seq<char>)
    requires
        is_blank(blank),
        text.len() > 0 ==> !is_space(text.last()),
    ensures
        trim_end(text + blank) == text,
    decreases blank.len(),
{
    if blank.len() > 0 {
        assert(is_space(blank[blank.len() - 1]));
        assert((text + blank).last() == blank.last());
        assert((text + blank).drop_last() =~= text + blank.drop_last());
        lemma_trim_end(text, blank.drop_last());
    } else {
        assert(text + blank =~= text);
    }
}

/// Trimming takes off the white space around a text and nothing of the text.
pub proof fn law_trimming_takes_off_white_space(before: Seq<char>, text: Seq<char>, after: Seq<char>)
    requires
        is_blank(before),
        is_blank(after),
        text.len() > 0 ==> !is_space(text[0]) && !is_space(text.last()),
    ensures
        trimmed(before + text + after) == text,
{
    if text.len() > 0 {
        assert((text + after)[0] == text[0]);
        lemma_trim_start(before, text + after);
        assert(before + text + after =~= before + (text + after));
        lemma_trim_end(text, after);
    } else {
        let empty: Seq<char> = Seq::empty();
        assert forall|i: int| 0 <= i < (before + after).len() implies is_space(
            #[trigger] (before + after)[i],
        ) by {
            if i < before.len() {
                assert(is_space(before[i]));
            } else {
                assert(is_space(after[i - before.len()]));
            }
        }
        assert(before + text + after =~= (before + after) + empty);
        lemma_trim_start(before + after, empty);
        assert(text =~= empty);
    }
}

} // verus!
