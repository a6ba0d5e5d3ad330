//! Names and texts around polyhedral results.

use crate::polygeist::find_text;
use crate::text::{chars_of, decimal, push_decimal, slice_of, starts_at, string_of, trim, trimmed};
use vstd::prelude::*;

verus! {

/// What stands before the first occurrence of a text, all of it where there is
/// none.
pub open spec fn up_to(text: Seq<char>, part: Seq<char>) -> Seq<char> {
    match find_text(text, part, 0) {
        Some(at) => text.take(at as int),
        None => text,
    }
}

/// The constraint part of a set's textual form, empty for a set without
/// constraints.
pub open spec fn guard_of(raw: Seq<char>) -> Seq<char> {
    match find_text(raw, "{  : "@, 0) {
        None => Seq::empty(),
        Some(at) => trimmed(
            up_to(up_to(raw.skip((at + "{  : "@.len()) as int), "{  : "@), " }"@),
        ),
    }
}

/// The position of the first occurrence of a text.
fn position_of(chars: &Vec<char>, part: &Vec<char>) -> (position: Option<usize>)
    ensures
        match find_text(chars@, part@, 0) {
            Some(expected) => position matches Some(at) && at == expected && expected + part@.len()
                <= chars@.len(),
            None => position is None,
        },
{
    let mut at: usize = 0;
    loop
        invariant
            at <= chars@.len(),
            find_text(chars@, part@, 0) == find_text(chars@, part@, at as nat),
        decreases chars@.len() - at,
    {
        if starts_at(chars, part, at) {
            return Some(at);
        }
        if at == chars.len() {
            return None;
        }
        at += 1;
    }
}

fn take_up_to(chars: &Vec<char>, part: &Vec<char>) -> (head: Vec<char>)
    ensures
        head@ == up_to(chars@, part@),
{
    match position_of(chars, part) {
        Some(at) => {
            assert(chars@.subrange(0, at as int) =~= chars@.take(at as int));
            slice_of(chars, 0, at)
        },
        None => {
            assert(chars@.subrange(0, chars@.len() as int) =~= chars@);
            slice_of(chars, 0, chars.len())
        },
    }
}

/// The constraint part of a set's textual form.
pub fn domain_guard(raw: &str) -> (guard: String)
    ensures
        guard@ == guard_of(raw@),
{
    let chars: Vec<char> = chars_of(raw);
    let open: Vec<char> = chars_of("{  : ");
    let close: Vec<char> = chars_of(" }");
    match position_of(&chars, &open) {
        None => String::new(),
        Some(at) => {
            let total: usize = chars.len();
            let rest: Vec<char> = slice_of(&chars, at + open.len(), total);
            assert(rest@ =~= chars@.skip(at + open@.len()));
            let guard: Vec<char> = trim(&take_up_to(&take_up_to(&rest, &open), &close));
            assert(guard@.subrange(0, guard@.len() as int) =~= guard@);
            string_of(&guard, 0, guard.len())
        },
    }
}

/// A total that holds on a domain only.
pub open spec fn guarded_text(guard: Seq<char>, expr: Seq<char>) -> Seq<char> {
    if guard.len() == 0 {
        expr
    } else {
        "\\left["@ + guard + "\\right] \\Rightarrow "@ + expr
    }
}

/// A total with its guard: without it, the expression would claim to hold
/// everywhere.
pub fn guarded_total(guard: &str, expr: &str) -> (text: String)
    ensures
        text@ == guarded_text(guard@, expr@),
{
    let mut text: String = String::new();
    if !guard.is_empty() {
        text.push_str("\\left[");
        text.push_str(guard);
        text.push_str("\\right] \\Rightarrow ");
    }
    text.push_str(expr);
    assert(text@ =~= guarded_text(guard@, expr@));
    text
}

/// The message for a total that is not one piece.
pub open spec fn pieces_text(pieces: nat) -> Option<Seq<char>> {
    if pieces == 0 {
        Some("no total count found"@)
    } else if pieces == 1 {
        None
    } else {
        Some(
            "total count is piecewise ("@ + decimal(pieces)
                + " pieces); cannot collapse it into a single polynomial"@,
        )
    }
}

/// Checks that a total is one piece, which alone can be taken as one
/// expression.
pub fn total_count_piece(pieces: usize) -> (checked: Result<(), String>)
    ensures
        match pieces_text(pieces as nat) {
            Some(text) => checked matches Err(message) && message@ == text,
            None => checked is Ok,
        },
{
    if pieces == 1 {
        return Ok(());
    }
    let mut message: String = String::new();
    if pieces == 0 {
        message.push_str("no total count found");
    } else {
        message.push_str("total count is piecewise (");
        push_decimal(&mut message, pieces as u64);
        message.push_str(" pieces); cannot collapse it into a single polynomial");
    }
    assert(message@ =~= pieces_text(pieces as nat)->0);
    Err(message)
}

/// The names that the first dimensions without one get: a letter and the number
/// of the dimension.
pub open spec fn filled_names(named: Seq<bool>, letter: char, count: nat) -> Seq<(usize, Seq<char>)>
    decreases count,
{
    if count == 0 {
        Seq::empty()
    } else {
        let before = filled_names(named, letter, (count - 1) as nat);
        if named[count - 1] {
            before
        } else {
            before.push(((count - 1) as usize, seq![letter] + decimal((count - 1) as nat)))
        }
    }
}

/// The names that dimensions without one get.
pub fn missing_names(named: &Vec<bool>, letter: char) -> (names: Vec<(usize, String)>)
    ensures
        names@.map_values(|pair: (usize, String)| (pair.0, pair.1@)) == filled_names(
            named@,
            letter,
            named@.len(),
        ),
{
    let mut names: Vec<(usize, String)> = Vec::new();
    let ghost view = |pair: (usize, String)| (pair.0, pair.1@);
    let mut at: usize = 0;
    assert(names@.map_values(view) =~= Seq::empty());
    while at < named.len()
        invariant
            at <= named@.len(),
            view == (|pair: (usize, String)| (pair.0, pair.1@)),
            names@.map_values(view) == filled_names(named@, letter, at as nat),
        decreases named@.len() - at,
    {
        if !named[at] {
            let mut name: String = String::new();
            name.push(letter);
            push_decimal(&mut name, at as u64);
            assert(name@ =~= seq![letter] + decimal(at as nat));
            let ghost before = names@;
            let ghost text = name@;
            names.push((at, name));
            assert(names@.map_values(view) =~= before.map_values(view).push((at, text)));
        }
        at += 1;
    }
    names
}

/// A parameter of the program, whose name starts with `p`, has no value yet.
pub open spec fn has_free_param(names: Seq<Option<String>>) -> bool {
    exists|i: int|
        0 <= i < names.len() && (#[trigger] names[i] matches Some(name) && name@.len() > 0
            && name@[0] == 'p')
}

/// Whether all parameters have values, as a numerical analysis needs.
pub fn all_instantiated(names: &Vec<Option<String>>) -> (ready: bool)
    ensures
        ready == !has_free_param(names@),
{
    let mut at: usize = 0;
    while at < names.len()
        invariant
            at <= names@.len(),
            forall|i: int|
                0 <= i < at ==> !(#[trigger] names@[i] matches Some(name) && name@.len() > 0
                    && name@[0] == 'p'),
        decreases names@.len() - at,
    {
        match &names[at] {
            Some(name) => {
                let chars: Vec<char> = chars_of(name.as_str());
                if chars.len() > 0 && chars[0] == 'p' {
                    assert(names@[at as int] matches Some(name) && name@.len() > 0 && name@[0]
                        == 'p');
                    return false;
                }
            },
            None => {},
        }
        at += 1;
    }
    true
}

/// A dimension matters to an expression: by its name where it has one, and
/// otherwise as the polyhedral library says.
pub open spec fn is_involved(name: Option<String>, symbols: Seq<Seq<char>>, involves: bool) -> bool {
    match name {
        Some(name) => symbols.contains(name@),
        None => involves,
    }
}

/// The first dimensions that matter.
pub open spec fn involved(
    names: Seq<Option<String>>,
    symbols: Seq<Seq<char>>,
    involves: Seq<bool>,
    count: nat,
) -> Seq<usize>
    decreases count,
{
    if count == 0 {
        Seq::empty()
    } else {
        let before = involved(names, symbols, involves, (count - 1) as nat);
        if is_involved(names[count - 1], symbols, involves[count - 1]) {
            before.push((count - 1) as usize)
        } else {
            before
        }
    }
}

fn listed(symbols: &Vec<String>, name: &String) -> (yes: bool)
    ensures
        yes == symbols@.map_values(|symbol: String| symbol@).contains(name@),
{
    let ghost views = symbols@.map_values(|symbol: String| symbol@);
    let mut at: usize = 0;
    while at < symbols.len()
        invariant
            at <= symbols@.len(),
            views == symbols@.map_values(|symbol: String| symbol@),
            forall|i: int| 0 <= i < at ==> (#[trigger] symbols@[i])@ != name@,
        decreases symbols@.len() - at,
    {
        if symbols[at].eq(name) {
            assert(views[at as int] == name@);
            return true;
        }
        at += 1;
    }
    assert forall|i: int| 0 <= i < views.len() implies views[i] != name@ by {
        assert(symbols@[i]@ != name@);
    }
    false
}

/// The dimensions that matter to an expression with the given symbols.
pub fn involved_input_dims(
    names: &Vec<Option<String>>,
    symbols: &Vec<String>,
    involves: &Vec<bool>,
) -> (dims: Vec<usize>)
    requires
        involves@.len() == names@.len(),
    ensures
        dims@ == involved(
            names@,
            symbols@.map_values(|symbol: String| symbol@),
            involves@,
            names@.len(),
        ),
{
    let ghost views = symbols@.map_values(|symbol: String| symbol@);
    let mut dims: Vec<usize> = Vec::new();
    let mut at: usize = 0;
    while at < names.len()
        invariant
            at <= names@.len() == involves@.len(),
            views == symbols@.map_values(|symbol: String| symbol@),
            dims@ == involved(names@, views, involves@, at as nat),
        decreases names@.len() - at,
    {
        let yes: bool = match &names[at] {
            Some(name) => listed(symbols, name),
            None => involves[at],
        };
        if yes {
            dims.push(at);
        }
        at += 1;
    }
    dims
}

/// Where the dimensions stand when they are taken out one by one, in order.
pub fn positions_as_moved(dims: &Vec<usize>) -> (positions: Vec<usize>)
    requires
        forall|i: int, j: int| 0 <= i < j < dims@.len() ==> dims@[i] < dims@[j],
    ensures
        positions@.len() == dims@.len(),
        forall|i: int| 0 <= i < dims@.len() ==> #[trigger] positions@[i] == dims@[i] - i,
{
    let mut positions: Vec<usize> = Vec::new();
    let mut at: usize = 0;
    while at < dims.len()
        invariant
            at <= dims@.len(),
            at < dims@.len() ==> dims@[at as int] >= at,
            forall|i: int, j: int| 0 <= i < j < dims@.len() ==> dims@[i] < dims@[j],
            positions@.len() == at,
            forall|i: int| 0 <= i < at ==> #[trigger] positions@[i] == dims@[i] - i,
        decreases dims@.len() - at,
    {
        positions.push(dims[at] - at);
        assert(at + 1 < dims@.len() ==> dims@[at as int] < dims@[at + 1]);
        at += 1;
    }
    positions
}

/// The dimensions that matter come in ascending order, each once.
pub proof fn law_involved_dims_ascend(
    names: Seq<Option<String>>,
    symbols: Seq<Seq<char>>,
    involves: Seq<bool>,
    count: nat,
)
    requires
        count <= usize::MAX,
    ensures
        ({
            let dims = involved(names, symbols, involves, count);
            &&& forall|i: int, j: int| 0 <= i < j < dims.len() ==> dims[i] < dims[j]
            &&& forall|i: int| 0 <= i < dims.len() ==> #[trigger] dims[i] < count
        }),
    decreases count,
{
    if count > 0 {
        law_involved_dims_ascend(names, symbols, involves, (count - 1) as nat);
        let before = involved(names, symbols, involves, (count - 1) as nat);
        let dims = involved(names, symbols, involves, count);
        assert forall|i: int| 0 <= i < dims.len() implies #[trigger] dims[i] < count by {
            if i < before.len() {
                assert(dims[i] == before[i]);
            }
        }
        assert forall|i: int, j: int| 0 <= i < j < dims.len() implies dims[i] < dims[j] by {
            if j < before.len() {
                assert(dims[i] == before[i] && dims[j] == before[j]);
            } else {
                assert(dims[i] == before[i]);
            }
        }
    }
}

/// The name of a set dimension of a term: that of the input dimension of the
/// same number, and otherwise that of the output dimension.
pub open spec fn term_name(inputs: Seq<Option<String>>, outputs: Seq<Option<String>>, at: int) -> Seq<
    char,
> {
    if 0 <= at < inputs.len() && inputs[at] is Some {
        inputs[at]->0@
    } else if 0 <= at < outputs.len() && outputs[at] is Some {
        outputs[at]->0@
    } else {
        "unnamed"@
    }
}

/// The name of a set dimension of a term.
pub fn set_dim_name(inputs: &Vec<Option<String>>, outputs: &Vec<Option<String>>, at: usize) -> (name:
    String)
    ensures
        name@ == term_name(inputs@, outputs@, at as int),
{
    if at < inputs.len() {
        match &inputs[at] {
            Some(name) => {
                return name.clone();
            },
            None => {},
        }
    }
    if at < outputs.len() {
        match &outputs[at] {
            Some(name) => {
                return name.clone();
            },
            None => {},
        }
    }
    let mut name: String = String::new();
    name.push_str("unnamed");
    assert(name@ =~= "unnamed"@);
    name
}

/// The first position that holds.
pub open spec fn first_true(flags: Seq<bool>, at: int) -> Option<int>
    decreases flags.len() - at,
{
    if at < 0 || at >= flags.len() {
        None
    } else if flags[at] {
        Some(at)
    } else {
        first_true(flags, at + 1)
    }
}

/// The piece that another one is merged into: the first with an equal value.
pub fn merge_target(equal: &Vec<bool>) -> (target: Option<usize>)
    ensures
        match first_true(equal@, 0) {
            Some(at) => target matches Some(target) && target == at,
            None => target is None,
        },
{
    let mut at: usize = 0;
    while at < equal.len()
        invariant
            at <= equal@.len(),
            first_true(equal@, 0) == first_true(equal@, at as int),
        decreases equal@.len() - at,
    {
        if equal[at] {
            return Some(at);
        }
        at += 1;
    }
    None
}

} // verus!
