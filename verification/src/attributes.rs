//! What is cut out of printed text: a module's attributes, and the conditions of
//! a set.

use crate::analysis::{guard_of, up_to};
use crate::extraction::law_text_is_found_where_it_first_occurs;
use crate::polygeist::{closing_brace, find_text, is_foreign, without_module_attributes};
use crate::reading::{lacks, law_trimming_takes_off_white_space};
use crate::text::{is_space, lemma_is_first_of, occurs_at};
use vstd::prelude::*;

verus! {

/// How many braces a text opens and does not close.
pub open spec fn brace_depth(text: Seq<char>) -> int
    decreases text.len(),
{
    if text.len() == 0 {
        0
    } else {
        brace_depth(text.drop_last()) + if text.last() == '{' {
            1int
        } else if text.last() == '}' {
            -1int
        } else {
            0int
        }
    }
}

/// Every brace that a text closes was opened in it, and the other way round.
pub open spec fn is_balanced(text: Seq<char>) -> bool {
    &&& brace_depth(text) == 0
    &&& forall|i: int| 0 <= i <= text.len() ==> #[trigger] brace_depth(text.take(i)) >= 0
}

proof fn lemma_closing(text: Seq<char>, from: nat, inner: Seq<char>, i: nat)
    requires
        is_balanced(inner),
        i <= inner.len(),
        from + inner.len() < text.len(),
        text.subrange(from as int, (from + inner.len()) as int) == inner,
        text[(from + inner.len()) as int] == '}',
    ensures
        closing_brace(text, from + i, (1 + brace_depth(inner.take(i as int))) as nat) == Some(
            from + inner.len(),
        ),
    decreases inner.len() - i,
{
    assert(brace_depth(inner.take(i as int)) >= 0);
    if i < inner.len() {
        assert(text[(from + i) as int] == inner[i as int]);
        assert(inner.take(i as int + 1).drop_last() =~= inner.take(i as int));
        assert(inner.take(i as int + 1).last() == inner[i as int]);
        assert(brace_depth(inner.take(i as int + 1)) >= 0);
        lemma_closing(text, from, inner, i + 1);
    } else {
        assert(inner.take(i as int) =~= inner);
    }
}

/// The attributes of the first module that has some are taken out, from the word
/// behind `module` to the brace that closes them, and everything else is kept.
/// Braces among the attributes are matched.
pub proof fn law_module_attributes_are_taken_out(
    before: Seq<char>,
    inner: Seq<char>,
    after: Seq<char>,
)
    requires
        is_balanced(inner),
        forall|i: int|
            0 <= i < before.len() ==> !#[trigger] occurs_at(
                before + "module attributes {"@ + inner + seq!['}'] + after,
                "module attributes {"@,
                i,
            ),
    ensures
        without_module_attributes(before + "module attributes {"@ + inner + seq!['}'] + after)
            == before + "module"@ + after,
{
    let needle = "module attributes {"@;
    reveal_strlit("module attributes {");
    let text = before + needle + inner + seq!['}'] + after;
    let start = before.len() as int;
    assert(text.subrange(start, start + needle.len()) =~= needle);
    assert(occurs_at(text, needle, start));
    law_text_is_found_where_it_first_occurs(text, needle, 0);
    let found = find_text(text, needle, 0);
    assert(found == Some(before.len()));
    let open = (start + needle.len() - 1) as nat;
    assert(text[open as int] == '{');
    assert(text.subrange((open + 1) as int, (open + 1 + inner.len()) as int) =~= inner);
    assert(text[(open + 1 + inner.len()) as int] == '}');
    assert(inner.take(0) =~= Seq::empty());
    lemma_closing(text, open + 1, inner, 0);
    let end = open + 1 + inner.len();
    assert(closing_brace(text, open, 0) == Some(end));
    assert(text.take(start) =~= before);
    assert(text.skip((end + 1) as int) =~= after);
}

/// A text without attributes of a module stays as it is.
pub proof fn law_other_text_is_kept(text: Seq<char>)
    requires
        forall|i: int| !#[trigger] occurs_at(text, "module attributes {"@, i),
    ensures
        without_module_attributes(text) == text,
{
    law_text_is_found_where_it_first_occurs(text, "module attributes {"@, 0);
}

/// An attribute is foreign where it has a namespace, and that is another one than
/// `slap`.
pub proof fn law_foreign_attributes_have_another_namespace(namespace: Seq<char>, name: Seq<char>)
    requires
        lacks(namespace, '.'),
    ensures
        !is_foreign(namespace),
        is_foreign(namespace + seq!['.'] + name) <==> namespace != "slap"@,
{
    lemma_is_first_of(namespace, '.', namespace.len() as int);
    let text = namespace + seq!['.'] + name;
    assert forall|i: int| 0 <= i < namespace.len() implies #[trigger] text[i] != '.' by {
        assert(text[i] == namespace[i]);
    }
    assert(text[namespace.len() as int] == '.');
    lemma_is_first_of(text, '.', namespace.len() as int);
    assert(text.take(namespace.len() as int) =~= namespace);
}

/// The conditions of a printed set are what stands between its colon and its
/// closing brace.
pub proof fn law_guard_stands_behind_the_colon(
    before: Seq<char>,
    guard: Seq<char>,
    after: Seq<char>,
)
    requires
        guard.len() > 0,
        !is_space(guard[0]),
        !is_space(guard.last()),
        forall|i: int|
            0 <= i < before.len() ==> !#[trigger] occurs_at(
                before + "{  : "@ + guard + " }"@ + after,
                "{  : "@,
                i,
            ),
        forall|i: int| !#[trigger] occurs_at(guard + " }"@ + after, "{  : "@, i),
        forall|i: int|
            0 <= i < guard.len() ==> !#[trigger] occurs_at(guard + " }"@ + after, " }"@, i),
    ensures
        guard_of(before + "{  : "@ + guard + " }"@ + after) == guard,
{
    let (open, close) = ("{  : "@, " }"@);
    reveal_strlit("{  : ");
    reveal_strlit(" }");
    let raw = before + open + guard + close + after;
    let rest = guard + close + after;
    let start = before.len() as int;
    assert(raw.subrange(start, start + open.len()) =~= open);
    assert(occurs_at(raw, open, start));
    law_text_is_found_where_it_first_occurs(raw, open, 0);
    assert(find_text(raw, open, 0) == Some(before.len()));
    assert(raw.skip(start + open.len()) =~= rest);
    law_text_is_found_where_it_first_occurs(rest, open, 0);
    assert(up_to(rest, open) == rest);
    let end = guard.len() as int;
    assert(rest.subrange(end, end + close.len()) =~= close);
    assert(occurs_at(rest, close, end));
    law_text_is_found_where_it_first_occurs(rest, close, 0);
    assert(find_text(rest, close, 0) == Some(guard.len()));
    assert(rest.take(end) =~= guard);
    let none: Seq<char> = Seq::empty();
    law_trimming_takes_off_white_space(none, guard, none);
    assert(none + guard + none =~= guard);
}

} // verus!
