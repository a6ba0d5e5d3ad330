//! Text: characters, decimal numbers, and building strings.

use vstd::prelude::*;

verus! {

/// `String::push` appends one character.
pub assume_specification[ String::push ](text: &mut String, c: char)
    ensures
        final(text)@ == old(text)@.push(c),
;

/// `String::push_str` appends a string.
pub assume_specification[ String::push_str ](text: &mut String, tail: &str)
    ensures
        final(text)@ == old(text)@ + tail@,
;

/// The decimal digit of a number below ten.
pub open spec fn digit(value: nat) -> char {
    ((48 + value) as u8) as char
}

/// A number in decimal, without leading zeros.
pub open spec fn decimal(value: nat) -> Seq<char>
    decreases value,
{
    if value < 10 {
        seq![digit(value)]
    } else {
        decimal(value / 10).push(digit(value % 10))
    }
}

/// An integer in decimal, with a minus sign where it is negative.
pub open spec fn signed_decimal(value: int) -> Seq<char> {
    if value < 0 {
        seq!['-'] + decimal((-value) as nat)
    } else {
        decimal(value as nat)
    }
}

/// Appends a number in decimal.
pub fn push_decimal(text: &mut String, value: u64)
    ensures
        final(text)@ == old(text)@ + decimal(value as nat),
    decreases value,
{
    let ghost before = text@;
    if value >= 10 {
        push_decimal(text, value / 10);
    }
    text.push((48 + (value % 10) as u8) as char);
    proof {
        assert(text@ =~= before + decimal(value as nat));
    }
}

/// Appends an integer in decimal.
pub fn push_signed(text: &mut String, value: i64)
    ensures
        final(text)@ == old(text)@ + signed_decimal(value as int),
{
    let ghost before = text@;
    if value < 0 {
        text.push('-');
        let magnitude: u64 = (-(value as i128)) as u64;
        push_decimal(text, magnitude);
        proof {
            assert(text@ =~= before + signed_decimal(value as int));
        }
    } else {
        push_decimal(text, value as u64);
    }
}

/// The characters of a string.
pub fn chars_of(text: &str) -> (chars: Vec<char>)
    ensures
        chars@ == text@,
{
    let mut chars: Vec<char> = Vec::new();
    for c in it: text.chars()
        invariant
            chars@ == it.seq().take(it.index@),
            it.seq() == text@,
    {
        chars.push(c);
    }
    chars
}

/// The string of a range of characters.
pub fn string_of(chars: &Vec<char>, from: usize, to: usize) -> (text: String)
    requires
        from <= to <= chars@.len(),
    ensures
        text@ == chars@.subrange(from as int, to as int),
{
    let mut text: String = String::new();
    let mut at: usize = from;
    while at < to
        invariant
            from <= at <= to <= chars@.len(),
            text@ =~= chars@.subrange(from as int, at as int),
        decreases to - at,
    {
        text.push(chars[at]);
        at += 1;
    }
    text
}

/// The characters with the Unicode property White_Space.
pub open spec fn is_space(c: char) -> bool {
    ||| '\u{9}' <= c <= '\u{d}'
    ||| c == ' '
    ||| c == '\u{85}'
    ||| c == '\u{a0}'
    ||| c == '\u{1680}'
    ||| '\u{2000}' <= c <= '\u{200a}'
    ||| c == '\u{2028}'
    ||| c == '\u{2029}'
    ||| c == '\u{202f}'
    ||| c == '\u{205f}'
    ||| c == '\u{3000}'
}

/// Whether a character has the Unicode property White_Space.
pub fn space(c: char) -> (yes: bool)
    ensures
        yes == is_space(c),
{
    ('\u{9}' <= c && c <= '\u{d}') || c == ' ' || c == '\u{85}' || c == '\u{a0}' || c
        == '\u{1680}' || ('\u{2000}' <= c && c <= '\u{200a}') || c == '\u{2028}' || c
        == '\u{2029}' || c == '\u{202f}' || c == '\u{205f}' || c == '\u{3000}'
}

/// Text without the white space in front.
pub open spec fn trim_start(text: Seq<char>) -> Seq<char>
    decreases text.len(),
{
    if text.len() > 0 && is_space(text[0]) {
        trim_start(text.skip(1))
    } else {
        text
    }
}

/// Text without the white space at the end.
pub open spec fn trim_end(text: Seq<char>) -> Seq<char>
    decreases text.len(),
{
    if text.len() > 0 && is_space(text.last()) {
        trim_end(text.drop_last())
    } else {
        text
    }
}

/// Text without the white space around it.
pub open spec fn trimmed(text: Seq<char>) -> Seq<char> {
    trim_end(trim_start(text))
}

/// A range of characters.
pub fn slice_of(chars: &Vec<char>, from: usize, to: usize) -> (part: Vec<char>)
    requires
        from <= to <= chars@.len(),
    ensures
        part@ == chars@.subrange(from as int, to as int),
{
    let mut part: Vec<char> = Vec::new();
    let mut at: usize = from;
    while at < to
        invariant
            from <= at <= to <= chars@.len(),
            part@ =~= chars@.subrange(from as int, at as int),
        decreases to - at,
    {
        part.push(chars[at]);
        at += 1;
    }
    part
}

/// Text without the white space around it.
pub fn trim(chars: &Vec<char>) -> (part: Vec<char>)
    ensures
        part@ == trimmed(chars@),
{
    let mut from: usize = 0;
    assert(chars@.skip(0) =~= chars@);
    while from < chars.len() && space(chars[from])
        invariant
            from <= chars@.len(),
            trim_start(chars@) == trim_start(chars@.skip(from as int)),
        decreases chars@.len() - from,
    {
        assert(chars@.skip(from as int).skip(1) =~= chars@.skip(from + 1));
        from += 1;
    }
    assert(trim_start(chars@) == chars@.skip(from as int));
    let ghost rest = chars@.skip(from as int);
    let mut to: usize = chars.len();
    assert(chars@.subrange(from as int, to as int) =~= rest);
    while to > from && space(chars[to - 1])
        invariant
            from <= to <= chars@.len(),
            trim_end(rest) == trim_end(chars@.subrange(from as int, to as int)),
        decreases to,
    {
        assert(chars@.subrange(from as int, to as int).drop_last() =~= chars@.subrange(
            from as int,
            to - 1,
        ));
        to -= 1;
    }
    slice_of(chars, from, to)
}

/// The position of the first occurrence of a character, or the length.
pub open spec fn first_of(text: Seq<char>, c: char) -> int
    decreases text.len(),
{
    if text.len() == 0 || text[0] == c {
        0
    } else {
        1 + first_of(text.skip(1), c)
    }
}

/// What `first_of` means.
pub proof fn lemma_first_of(text: Seq<char>, c: char)
    ensures
        0 <= first_of(text, c) <= text.len(),
        first_of(text, c) < text.len() ==> text[first_of(text, c)] == c,
        forall|i: int| 0 <= i < first_of(text, c) ==> #[trigger] text[i] != c,
    decreases text.len(),
{
    if text.len() > 0 && text[0] != c {
        let rest = text.skip(1);
        lemma_first_of(rest, c);
        assert forall|i: int| 0 <= i < first_of(text, c) implies #[trigger] text[i] != c by {
            if i > 0 {
                assert(rest[i - 1] == text[i]);
            }
        }
    }
}

/// A position with the character and none before it is the first.
pub proof fn lemma_is_first_of(text: Seq<char>, c: char, at: int)
    requires
        0 <= at <= text.len(),
        at < text.len() ==> text[at] == c,
        forall|i: int| 0 <= i < at ==> #[trigger] text[i] != c,
    ensures
        first_of(text, c) == at,
{
    lemma_first_of(text, c);
    let first = first_of(text, c);
    if first < at {
        assert(text[first] != c);
    } else if first > at {
        assert(text[at] != c);
    }
}

/// The position of the first occurrence of a character at or after `from`, or
/// the length.
pub fn find(chars: &Vec<char>, from: usize, c: char) -> (at: usize)
    requires
        from <= chars@.len(),
    ensures
        at == from + first_of(chars@.skip(from as int), c),
        from <= at <= chars@.len(),
{
    let mut at: usize = from;
    while at < chars.len() && chars[at] != c
        invariant
            from <= at <= chars@.len(),
            forall|i: int| from <= i < at ==> #[trigger] chars@[i] != c,
        decreases chars@.len() - at,
    {
        at += 1;
    }
    proof {
        let rest = chars@.skip(from as int);
        assert forall|i: int| 0 <= i < at - from implies #[trigger] rest[i] != c by {
            assert(chars@[i + from] != c);
        }
        lemma_is_first_of(rest, c, at - from);
    }
    at
}

/// The pieces of a text between the occurrences of a character.
pub open spec fn split(text: Seq<char>, c: char) -> Seq<Seq<char>>
    decreases text.len(),
    via split_decreases
{
    let at = first_of(text, c);
    if at >= text.len() {
        seq![text]
    } else {
        seq![text.take(at)] + split(text.skip(at + 1), c)
    }
}

#[via_fn]
proof fn split_decreases(text: Seq<char>, c: char) {
    lemma_first_of(text, c);
}

/// The texts of a list.
pub open spec fn texts(list: Seq<Vec<char>>) -> Seq<Seq<char>> {
    list.map_values(|text: Vec<char>| text@)
}

/// The pieces of a text between the occurrences of a character.
pub fn split_at(chars: &Vec<char>, c: char) -> (pieces: Vec<Vec<char>>)
    ensures
        texts(pieces@) == split(chars@, c),
{
    let mut pieces: Vec<Vec<char>> = Vec::new();
    let mut from: usize = 0;
    assert(chars@.skip(0) =~= chars@);
    assert(texts(pieces@) + split(chars@, c) =~= split(chars@, c));
    loop
        invariant
            from <= chars@.len(),
            split(chars@, c) == texts(pieces@) + split(chars@.skip(from as int), c),
        decreases chars@.len() - from,
    {
        let at: usize = find(chars, from, c);
        let ghost rest = chars@.skip(from as int);
        let ghost earlier = texts(pieces@);
        proof {
            lemma_first_of(rest, c);
            assert(chars@.subrange(from as int, at as int) =~= rest.take(at - from));
        }
        pieces.push(slice_of(chars, from, at));
        assert(texts(pieces@) =~= earlier.push(rest.take(at - from)));
        if at >= chars.len() {
            proof {
                assert(rest.take(at - from) =~= rest);
                assert(split(rest, c) =~= seq![rest]);
                assert(texts(pieces@) =~= split(chars@, c));
            }
            return pieces;
        }
        proof {
            assert(rest.skip(at - from + 1) =~= chars@.skip(at + 1));
            assert(split(rest, c) == seq![rest.take(at - from)] + split(chars@.skip(at + 1), c));
            assert(texts(pieces@) + split(chars@.skip(at + 1), c) =~= earlier + split(rest, c));
        }
        from = at + 1;
    }
}

/// The value of a decimal digit.
pub open spec fn digit_value(c: char) -> Option<nat> {
    if '0' <= c <= '9' {
        Some((c as u32 - 48) as nat)
    } else {
        None
    }
}

/// The number that some digits stand for, `None` for anything but digits.
pub open spec fn digits_value(text: Seq<char>) -> Option<nat>
    decreases text.len(),
{
    if text.len() == 0 {
        Some(0)
    } else {
        match (digits_value(text.drop_last()), digit_value(text.last())) {
            (Some(high), Some(low)) => Some(high * 10 + low),
            _ => None,
        }
    }
}

/// A number of at least one digit, with or without a plus sign, up to a limit.
pub open spec fn unsigned_value(text: Seq<char>, limit: nat) -> Option<nat> {
    let digits = if text.len() > 0 && text[0] == '+' {
        text.skip(1)
    } else {
        text
    };
    if digits.len() == 0 {
        None
    } else {
        match digits_value(digits) {
            Some(value) => if value <= limit {
                Some(value)
            } else {
                None
            },
            None => None,
        }
    }
}

/// An integer of at least one digit, with or without a sign, in 64 bits.
pub open spec fn signed_value(text: Seq<char>) -> Option<int> {
    if text.len() > 0 && text[0] == '-' {
        let digits = text.skip(1);
        if digits.len() == 0 {
            None
        } else {
            match digits_value(digits) {
                Some(value) => if -value >= i64::MIN {
                    Some(-value)
                } else {
                    None
                },
                None => None,
            }
        }
    } else {
        match unsigned_value(text, i64::MAX as nat) {
            Some(value) => Some(value as int),
            None => None,
        }
    }
}

proof fn lemma_digits_grow(text: Seq<char>, upto: int)
    requires
        0 <= upto <= text.len(),
    ensures
        digits_value(text) is Some ==> digits_value(text.take(upto)) is Some && digits_value(
            text.take(upto),
        )->0 <= digits_value(text)->0,
    decreases text.len(),
{
    if upto == text.len() {
        assert(text.take(upto) =~= text);
    } else {
        lemma_digits_grow(text.drop_last(), upto);
        assert(text.drop_last().take(upto) =~= text.take(upto));
    }
}

/// Reads digits from a position to the end, as long as the number stays within
/// a limit.
fn parse_digits(chars: &Vec<char>, from: usize, limit: u64) -> (value: Option<u64>)
    requires
        from <= chars@.len(),
    ensures
        value matches Some(value) ==> digits_value(chars@.skip(from as int)) == Some(value as nat)
            && value <= limit,
        value is None ==> (digits_value(chars@.skip(from as int)) matches Some(value) ==> value
            > limit),
{
    let ghost text = chars@.skip(from as int);
    let mut value: u64 = 0;
    let mut at: usize = from;
    assert(text.take(0) =~= Seq::empty());
    while at < chars.len()
        invariant
            from <= at <= chars@.len(),
            text == chars@.skip(from as int),
            value <= limit,
            digits_value(text.take(at - from)) == Some(value as nat),
        decreases chars@.len() - at,
    {
        let c: char = chars[at];
        proof {
            let next = text.take(at - from + 1);
            assert(next.drop_last() =~= text.take(at - from));
            assert(next.last() == c);
            lemma_digits_grow(text, at - from + 1);
        }
        if !('0' <= c && c <= '9') {
            return None;
        }
        let low: u64 = (c as u32 - 48) as u64;
        let wide: u128 = value as u128 * 10 + low as u128;
        if wide > limit as u128 {
            return None;
        }
        value = wide as u64;
        at += 1;
    }
    assert(text.take(at - from) =~= text);
    Some(value)
}

/// Reads a number of at least one digit, with or without a plus sign.
pub fn parse_unsigned(chars: &Vec<char>, limit: u64) -> (value: Option<u64>)
    ensures
        match unsigned_value(chars@, limit as nat) {
            Some(expected) => value == Some(expected as u64),
            None => value is None,
        },
{
    let from: usize = if chars.len() > 0 && chars[0] == '+' {
        1
    } else {
        0
    };
    assert(chars@.skip(0) =~= chars@);
    if from == chars.len() {
        return None;
    }
    parse_digits(chars, from, limit)
}

/// Reads an integer of at least one digit, with or without a sign.
pub fn parse_signed(chars: &Vec<char>) -> (value: Option<i64>)
    ensures
        match signed_value(chars@) {
            Some(expected) => value == Some(expected as i64),
            None => value is None,
        },
{
    if chars.len() > 0 && chars[0] == '-' {
        if chars.len() == 1 {
            return None;
        }
        match parse_digits(chars, 1, 0x8000_0000_0000_0000) {
            Some(value) => Some((-(value as i128)) as i64),
            None => None,
        }
    } else {
        match parse_unsigned(chars, i64::MAX as u64) {
            Some(value) => Some(value as i64),
            None => None,
        }
    }
}

/// Whether two texts are equal.
pub fn same_text(left: &Vec<char>, right: &Vec<char>) -> (same: bool)
    ensures
        same == (left@ == right@),
{
    if left.len() != right.len() {
        return false;
    }
    let mut at: usize = 0;
    while at < left.len()
        invariant
            at <= left@.len() == right@.len(),
            forall|i: int| 0 <= i < at ==> left@[i] == right@[i],
        decreases left@.len() - at,
    {
        if left[at] != right[at] {
            return false;
        }
        at += 1;
    }
    assert(left@ =~= right@);
    true
}

/// The text occurs at a position.
pub open spec fn occurs_at(text: Seq<char>, part: Seq<char>, at: int) -> bool {
    0 <= at && at + part.len() <= text.len() && text.subrange(at, at + part.len()) == part
}

/// The text occurs somewhere.
pub open spec fn occurs_in(text: Seq<char>, part: Seq<char>) -> bool {
    exists|at: int| occurs_at(text, part, at)
}

/// Whether a text occurs at a position.
pub fn starts_at(chars: &Vec<char>, part: &Vec<char>, at: usize) -> (yes: bool)
    ensures
        yes == occurs_at(chars@, part@, at as int),
{
    if at > chars.len() || part.len() > chars.len() - at {
        return false;
    }
    let total: usize = chars.len();
    let mut i: usize = 0;
    while i < part.len()
        invariant
            i <= part@.len(),
            total == chars@.len(),
            at + part@.len() <= chars@.len(),
            forall|j: int| 0 <= j < i ==> chars@[at + j] == part@[j],
        decreases part@.len() - i,
    {
        if chars[at + i] != part[i] {
            assert(chars@.subrange(at as int, at + part@.len())[i as int] != part@[i as int]);
            return false;
        }
        i += 1;
    }
    assert(chars@.subrange(at as int, at + part@.len()) =~= part@);
    true
}

/// Whether a text occurs somewhere.
pub fn contains(chars: &Vec<char>, part: &Vec<char>) -> (yes: bool)
    ensures
        yes == occurs_in(chars@, part@),
{
    let mut at: usize = 0;
    loop
        invariant
            at <= chars@.len(),
            forall|i: int| 0 <= i < at ==> !occurs_at(chars@, part@, i),
        decreases chars@.len() - at,
    {
        if starts_at(chars, part, at) {
            return true;
        }
        if at == chars.len() {
            assert forall|i: int| !occurs_at(chars@, part@, i) by {}
            return false;
        }
        at += 1;
    }
}

} // verus!
