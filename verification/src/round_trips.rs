//! What is written in the notations of the options is read back.

use crate::arrays::{
    all_sizes, brackets, dims_value, entries_value, entry_value, size_value, sizes, Declared,
    DimsFailure,
};
use crate::frontend::{binding_index, binding_value, reads_as, without_s};
use crate::reading::{
    is_blank, is_digit, joined, lacks, law_decimal_is_read_back, law_decimal_stands_for_the_number,
    law_joined_texts_are_the_pieces, law_signed_decimal_is_read_back,
    law_trimming_takes_off_white_space,
};
use crate::text::{decimal, is_space, lemma_is_first_of, signed_decimal, split, trimmed};
use vstd::prelude::*;

verus! {

/// Only the letter `s`.
pub open spec fn is_all_s(text: Seq<char>) -> bool {
    forall|i: int| 0 <= i < text.len() ==> #[trigger] text[i] == 's'
}

proof fn lemma_without_s(letters: Seq<char>, text: Seq<char>)
    requires
        is_all_s(letters),
        text.len() > 0,
        text[0] != 's',
    ensures
        without_s(letters + text) == text,
    decreases letters.len(),
{
    if letters.len() > 0 {
        assert(letters[0] == 's');
        assert((letters + text).skip(1) =~= letters.skip(1) + text);
        lemma_without_s(letters.skip(1), text);
    } else {
        assert(letters + text =~= text);
    }
}

/// The first and the last character of an integer are no white space, and none
/// is an equals sign.
proof fn lemma_integer_is_tight(value: int)
    ensures
        signed_decimal(value).len() > 0,
        !is_space(signed_decimal(value)[0]),
        !is_space(signed_decimal(value).last()),
{
    let size = if value < 0 {
        (-value) as nat
    } else {
        value as nat
    };
    law_decimal_stands_for_the_number(size);
    let digits = decimal(size);
    assert(is_digit(digits[0]) && is_digit(digits[digits.len() - 1]));
    assert(signed_decimal(value).last() == digits[digits.len() - 1]);
}

/// A symbol's number, behind the letter `s` or not, an equals sign and an
/// integer, with white space around both or not, bind the symbol to the integer.
pub proof fn law_symbol_binding_is_read_back(
    before: Seq<char>,
    letters: Seq<char>,
    index: usize,
    after: Seq<char>,
    lead: Seq<char>,
    value: i64,
    trail: Seq<char>,
)
    requires
        is_blank(before),
        is_blank(after),
        is_blank(lead),
        is_blank(trail),
        is_all_s(letters),
    ensures
        reads_as(
            before + (letters + decimal(index as nat)) + after + seq!['='] + (lead
                + signed_decimal(value as int) + trail),
            (index, value),
        ),
{
    let digits = decimal(index as nat);
    law_decimal_stands_for_the_number(index as nat);
    assert(is_digit(digits[0]) && is_digit(digits[digits.len() - 1]));
    let name = letters + digits;
    assert(name.last() == digits[digits.len() - 1]);
    assert(!is_space(name[0])) by {
        if letters.len() > 0 {
            assert(name[0] == letters[0]);
        } else {
            assert(name[0] == digits[0]);
        }
    }
    let head = before + name + after;
    let tail = lead + signed_decimal(value as int) + trail;
    let text = head + seq!['='] + tail;
    assert forall|i: int| 0 <= i < head.len() implies #[trigger] text[i] != '=' by {
        assert(text[i] == head[i]);
        if i < before.len() {
            assert(is_space(before[i]));
        } else if i < before.len() + letters.len() {
            assert(head[i] == letters[i - before.len()]);
        } else if i < before.len() + name.len() {
            assert(is_digit(digits[i - before.len() - letters.len()]));
        } else {
            assert(is_space(after[i - before.len() - name.len()]));
        }
    }
    assert(text[head.len() as int] == '=');
    lemma_is_first_of(text, '=', head.len() as int);
    assert(text.take(head.len() as int) =~= head);
    assert(text.skip(head.len() as int + 1) =~= tail);
    law_trimming_takes_off_white_space(before, name, after);
    lemma_without_s(letters, digits);
    law_decimal_is_read_back(index as nat, usize::MAX as nat);
    assert(binding_index(text) == Some(index));
    lemma_integer_is_tight(value as int);
    law_trimming_takes_off_white_space(lead, signed_decimal(value as int), trail);
    law_signed_decimal_is_read_back(value as int);
    assert(binding_value(text) == Some(value));
}

/// The sizes of an array in decimal.
pub open spec fn size_texts(size: Seq<usize>) -> Seq<Seq<char>> {
    size.map_values(|n: usize| decimal(n as nat))
}

/// An entry `NAME:D0xD1x...`.
pub open spec fn entry_text(array: Declared) -> Seq<char> {
    array.name + seq![':'] + joined(size_texts(array.size), 'x')
}

/// A name that an entry can have, and sizes of at least one.
pub open spec fn can_be_listed(array: Declared) -> bool {
    &&& array.name.len() > 0
    &&& !is_space(array.name[0])
    &&& !is_space(array.name.last())
    &&& lacks(array.name, ':')
    &&& lacks(array.name, ';')
    &&& array.size.len() > 0
    &&& forall|i: int| 0 <= i < array.size.len() ==> #[trigger] array.size[i] > 0
}

proof fn lemma_decimal_piece(value: usize)
    ensures
        size_value(decimal(value as nat)) == Some(value),
        lacks(decimal(value as nat), 'x'),
        lacks(decimal(value as nat), ';'),
        decimal(value as nat).len() > 0,
        is_digit(decimal(value as nat).last()),
{
    let text = decimal(value as nat);
    law_decimal_stands_for_the_number(value as nat);
    let none: Seq<char> = Seq::empty();
    assert(is_digit(text[0]) && is_digit(text[text.len() - 1]));
    law_trimming_takes_off_white_space(none, text, none);
    assert(none + text + none =~= text);
    law_decimal_is_read_back(value as nat, usize::MAX as nat);
    assert forall|i: int| 0 <= i < text.len() implies #[trigger] text[i] != 'x' && text[i]
        != ';' by {
        assert(is_digit(text[i]));
    }
}

proof fn lemma_joined_sizes(size: Seq<usize>)
    requires
        size.len() > 0,
    ensures
        joined(size_texts(size), 'x').len() > 0,
        is_digit(joined(size_texts(size), 'x').last()),
        lacks(joined(size_texts(size), 'x'), ';'),
    decreases size.len(),
{
    let texts = size_texts(size);
    let text = joined(texts, 'x');
    lemma_decimal_piece(size[0]);
    assert(texts[0] == decimal(size[0] as nat));
    if size.len() > 1 {
        assert(texts.skip(1) =~= size_texts(size.skip(1)));
        lemma_joined_sizes(size.skip(1));
        let rest = joined(texts.skip(1), 'x');
        assert(text == texts[0] + seq!['x'] + rest);
        assert(text.last() == rest.last());
        assert forall|i: int| 0 <= i < text.len() implies #[trigger] text[i] != ';' by {
            if i < texts[0].len() {
                assert(text[i] == texts[0][i]);
            } else if i > texts[0].len() {
                assert(text[i] == rest[i - texts[0].len() - 1]);
            }
        }
    }
}

/// An entry of a list of array sizes gives the array with its name and sizes.
pub proof fn law_entry_is_read_back(array: Declared)
    requires
        can_be_listed(array),
    ensures
        entry_value(entry_text(array)) == Ok::<Declared, DimsFailure>(array),
        trimmed(entry_text(array)) == entry_text(array),
        lacks(entry_text(array), ';'),
        entry_text(array).len() > 0,
{
    let entry = entry_text(array);
    let (name, list) = (array.name, joined(size_texts(array.size), 'x'));
    let texts = size_texts(array.size);
    let none: Seq<char> = Seq::empty();
    lemma_joined_sizes(array.size);
    assert forall|i: int| 0 <= i < name.len() implies #[trigger] entry[i] != ':' by {
        assert(entry[i] == name[i]);
    }
    assert(entry[name.len() as int] == ':');
    lemma_is_first_of(entry, ':', name.len() as int);
    assert(entry.take(name.len() as int) =~= name);
    assert(entry.skip(name.len() as int + 1) =~= list);
    assert forall|i: int| 0 <= i < texts.len() implies lacks(#[trigger] texts[i], 'x') && size_value(
        texts[i],
    ) == Some(array.size[i]) by {
        lemma_decimal_piece(array.size[i]);
    }
    law_joined_texts_are_the_pieces(texts, 'x');
    assert(split(list, 'x') == texts);
    assert(all_sizes(texts));
    assert(sizes(texts) =~= array.size);
    law_trimming_takes_off_white_space(none, name, none);
    assert(none + name + none =~= name);
    assert(entry[0] == name[0]);
    assert(entry.last() == list.last());
    law_trimming_takes_off_white_space(none, entry, none);
    assert(none + entry + none =~= entry);
    assert forall|i: int| 0 <= i < entry.len() implies #[trigger] entry[i] != ';' by {
        if i < name.len() {
            assert(entry[i] == name[i]);
        } else if i > name.len() {
            assert(entry[i] == list[i - name.len() - 1]);
        }
    }
}

/// The entries of a list, with semicolons between them.
pub open spec fn list_text(arrays: Seq<Declared>) -> Seq<char> {
    joined(arrays.map_values(|array: Declared| entry_text(array)), ';')
}

proof fn lemma_entries(arrays: Seq<Declared>)
    requires
        forall|i: int| 0 <= i < arrays.len() ==> can_be_listed(#[trigger] arrays[i]),
    ensures
        entries_value(arrays.map_values(|array: Declared| entry_text(array))) == Ok::<
            Seq<Declared>,
            DimsFailure,
        >(arrays),
    decreases arrays.len(),
{
    let texts = arrays.map_values(|array: Declared| entry_text(array));
    if arrays.len() > 0 {
        let front = arrays.drop_last();
        assert forall|i: int| 0 <= i < front.len() implies can_be_listed(#[trigger] front[i]) by {
            assert(front[i] == arrays[i]);
        }
        lemma_entries(front);
        assert(texts.drop_last() =~= front.map_values(|array: Declared| entry_text(array)));
        assert(can_be_listed(arrays[arrays.len() - 1]));
        law_entry_is_read_back(arrays.last());
        assert(texts.last() == entry_text(arrays.last()));
        assert(front.push(arrays.last()) =~= arrays);
    } else {
        assert(arrays =~= Seq::empty());
    }
}

/// A list of array sizes gives every array of the list, in order.
pub proof fn law_array_sizes_are_read_back(arrays: Seq<Declared>)
    requires
        arrays.len() > 0,
        forall|i: int| 0 <= i < arrays.len() ==> can_be_listed(#[trigger] arrays[i]),
    ensures
        dims_value(list_text(arrays)) == Ok::<Seq<Declared>, DimsFailure>(arrays),
{
    let texts = arrays.map_values(|array: Declared| entry_text(array));
    assert forall|i: int| 0 <= i < texts.len() implies lacks(#[trigger] texts[i], ';') by {
        assert(can_be_listed(arrays[i]));
        law_entry_is_read_back(arrays[i]);
    }
    law_joined_texts_are_the_pieces(texts, ';');
    lemma_entries(arrays);
}

proof fn lemma_brackets_push(size: Seq<usize>, n: usize, at: nat)
    requires
        at < size.len(),
    ensures
        brackets(size.push(n), at) == brackets(size, at) + seq![']', '['] + decimal(n as nat),
    decreases size.len() - at,
{
    let longer = size.push(n);
    assert(longer[at as int] == size[at as int]);
    if at + 1 < size.len() {
        lemma_brackets_push(size, n, at + 1);
        assert(brackets(longer, at) =~= brackets(size, at) + seq![']', '['] + decimal(n as nat));
    } else {
        assert(longer[at as int + 1] == n);
        assert(brackets(longer, at + 2) =~= Seq::empty());
        assert(brackets(longer, at + 1) =~= seq![']', '['] + decimal(n as nat));
        assert(brackets(size, at + 1) =~= Seq::empty());
        assert(brackets(longer, at) =~= brackets(size, at) + seq![']', '['] + decimal(n as nat));
    }
}

/// A declaration holds every size of the array in order: one size stands alone,
/// and one more stands behind the others in brackets of its own.
pub proof fn law_declaration_holds_every_size(size: Seq<usize>, n: usize)
    ensures
        size.len() == 0 ==> brackets(size.push(n), 0) == decimal(n as nat),
        size.len() > 0 ==> brackets(size.push(n), 0) == brackets(size, 0) + seq![']', '[']
            + decimal(n as nat),
{
    if size.len() > 0 {
        lemma_brackets_push(size, n, 0);
    } else {
        let one = size.push(n);
        assert(brackets(one, 1) =~= Seq::empty());
        assert(brackets(one, 0) =~= decimal(n as nat));
    }
}

} // verus!
