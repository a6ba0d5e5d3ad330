//! Making the output of another compiler readable.
//!
//! The module that Polygeist prints carries an attribute dictionary that newer
//! parsers reject, and attributes of dialects that they do not know. The former
//! goes textually, before parsing.

use crate::text::{chars_of, find, first_of, lemma_first_of, occurs_at, same_text, slice_of, starts_at};
use vstd::prelude::*;

verus! {

/// The position of the first occurrence of a text at or after `at`.
pub open spec fn find_text(text: Seq<char>, part: Seq<char>, at: nat) -> Option<nat>
    decreases text.len() - at,
{
    if at > text.len() {
        None
    } else if occurs_at(text, part, at as int) {
        Some(at)
    } else if at == text.len() {
        None
    } else {
        find_text(text, part, at + 1)
    }
}

/// The position at which the braces that are open before `at` are all closed.
pub open spec fn closing_brace(text: Seq<char>, at: nat, depth: nat) -> Option<nat>
    decreases text.len() - at,
{
    if at >= text.len() {
        None
    } else if text[at as int] == '{' {
        closing_brace(text, at + 1, depth + 1)
    } else if text[at as int] == '}' {
        if depth <= 1 {
            Some(at)
        } else {
            closing_brace(text, at + 1, (depth - 1) as nat)
        }
    } else {
        closing_brace(text, at + 1, depth)
    }
}

/// The text without the attribute dictionary of its module.
pub open spec fn without_module_attributes(text: Seq<char>) -> Seq<char> {
    let needle = "module attributes {"@;
    match find_text(text, needle, 0) {
        None => text,
        Some(start) => match closing_brace(text, (start + needle.len() - 1) as nat, 0) {
            None => text,
            Some(end) => text.take(start as int) + "module"@ + text.skip((end + 1) as int),
        },
    }
}

/// Appends a range of characters.
fn push_range(out: &mut String, chars: &Vec<char>, from: usize, to: usize)
    requires
        from <= to <= chars@.len(),
    ensures
        final(out)@ == old(out)@ + chars@.subrange(from as int, to as int),
{
    let ghost before = out@;
    let mut at: usize = from;
    assert(out@ =~= before + chars@.subrange(from as int, from as int));
    while at < to
        invariant
            from <= at <= to <= chars@.len(),
            out@ == before + chars@.subrange(from as int, at as int),
        decreases to - at,
    {
        out.push(chars[at]);
        assert(out@ =~= before + chars@.subrange(from as int, at + 1));
        at += 1;
    }
}

/// The position of the first occurrence of a text.
fn find_first(chars: &Vec<char>, part: &Vec<char>) -> (position: Option<usize>)
    ensures
        match find_text(chars@, part@, 0) {
            Some(expected) => position == Some(expected as usize) && occurs_at(
                chars@,
                part@,
                expected as int,
            ),
            None => position is None,
        },
{
    let mut at: usize = 0;
    loop
        invariant
            at <= chars@.len(),
            find_text(chars@, part@, 0) == find_text(chars@, part@, at as nat),
        decreases chars@.len() - at,
    {
        if starts_at(chars, part, at) {
            return Some(at);
        }
        if at == chars.len() {
            return None;
        }
        at += 1;
    }
}

/// The position of the brace that closes the one at `open`.
fn find_closing(chars: &Vec<char>, open: usize) -> (position: Option<usize>)
    requires
        open <= chars@.len(),
    ensures
        match closing_brace(chars@, open as nat, 0) {
            Some(expected) => position == Some(expected as usize) && open <= expected
                < chars@.len(),
            None => position is None,
        },
{
    let mut depth: usize = 0;
    let mut at: usize = open;
    while at < chars.len()
        invariant
            open <= at <= chars@.len(),
            depth <= at - open,
            closing_brace(chars@, open as nat, 0) == closing_brace(
                chars@,
                at as nat,
                depth as nat,
            ),
        decreases chars@.len() - at,
    {
        if chars[at] == '{' {
            depth += 1;
        } else if chars[at] == '}' {
            if depth <= 1 {
                return Some(at);
            }
            depth -= 1;
        }
        at += 1;
    }
    None
}

/// Removes the attribute dictionary from the top-level `module`, keeping the
/// brace that opens the module's region.
pub fn strip_module_attributes(mlir: &str) -> (stripped: String)
    ensures
        stripped@ == without_module_attributes(mlir@),
{
    let chars: Vec<char> = chars_of(mlir);
    let needle: Vec<char> = chars_of("module attributes {");
    proof {
        reveal_strlit("module attributes {");
        assert(chars@.subrange(0, chars@.len() as int) =~= chars@);
    }
    let mut out: String = String::new();
    let total: usize = chars.len();
    match find_first(&chars, &needle) {
        Some(start) => {
            let open: usize = start + needle.len() - 1;
            match find_closing(&chars, open) {
                Some(end) => {
                    push_range(&mut out, &chars, 0, start);
                    out.push_str("module");
                    push_range(&mut out, &chars, end + 1, total);
                    proof {
                        assert(chars@.subrange(0, start as int) =~= chars@.take(start as int));
                        assert(chars@.subrange(end + 1, total as int) =~= chars@.skip(end + 1));
                        assert(out@ =~= without_module_attributes(mlir@));
                    }
                    return out;
                },
                None => {},
            }
        },
        None => {},
    }
    push_range(&mut out, &chars, 0, total);
    assert(out@ =~= chars@);
    out
}

/// Whether an attribute goes: one of a dialect, that is with a dot in its name,
/// other than the analyzer's own.
pub open spec fn is_foreign(name: Seq<char>) -> bool {
    let dot = first_of(name, '.');
    dot < name.len() && name.take(dot) != "slap"@
}

/// Whether an attribute goes.
pub fn is_foreign_attribute(name: &str) -> (foreign: bool)
    ensures
        foreign == is_foreign(name@),
{
    let chars: Vec<char> = chars_of(name);
    let dot: usize = find(&chars, 0, '.');
    proof {
        assert(chars@.skip(0) =~= chars@);
        lemma_first_of(chars@, '.');
    }
    if dot >= chars.len() {
        return false;
    }
    let namespace: Vec<char> = slice_of(&chars, 0, dot);
    assert(namespace@ =~= chars@.take(dot as int));
    !same_text(&namespace, &chars_of("slap"))
}

/// At most one stretch of text goes, from the module's keyword to a closing
/// brace; what stands before and behind it is kept as it is.
pub proof fn law_stripping_keeps_the_rest(text: Seq<char>)
    ensures
        without_module_attributes(text) == text || exists|start: int, end: int|
            0 <= start <= end < text.len() && #[trigger] text.take(start) + "module"@
                + #[trigger] text.skip(end + 1) == without_module_attributes(text)
                && occurs_at(text, "module attributes {"@, start) && text[end] == '}',
{
    let needle = "module attributes {"@;
    reveal_strlit("module attributes {");
    if let Some(start) = find_text(text, needle, 0) {
        lemma_find_text(text, needle, 0);
        let open = (start + needle.len() - 1) as nat;
        if let Some(end) = closing_brace(text, open, 0) {
            lemma_closing_brace(text, open, 0);
            assert(text.take(start as int) + "module"@ + text.skip((end + 1) as int)
                == without_module_attributes(text));
            let (s, e) = (start as int, end as int);
            assert(0 <= s <= e < text.len());
        }
    }
}

proof fn lemma_find_text(text: Seq<char>, part: Seq<char>, at: nat)
    ensures
        find_text(text, part, at) matches Some(found) ==> occurs_at(text, part, found as int),
    decreases text.len() - at,
{
    if at < text.len() && !occurs_at(text, part, at as int) {
        lemma_find_text(text, part, at + 1);
    }
}

proof fn lemma_closing_brace(text: Seq<char>, at: nat, depth: nat)
    ensures
        closing_brace(text, at, depth) matches Some(found) ==> at <= found < text.len()
            && text[found as int] == '}',
    decreases text.len() - at,
{
    if at < text.len() {
        lemma_closing_brace(text, at + 1, depth);
        lemma_closing_brace(text, at + 1, depth + 1);
        if depth > 0 {
            lemma_closing_brace(text, at + 1, (depth - 1) as nat);
        }
    }
}

} // verus!
