//! A symbolic reuse-interval distribution at concrete parameter values.
//!
//! A distribution is a list of reuse-interval expressions, each with pieces: a
//! count expression and a domain over the program parameters and the free
//! iterators of the piece. This module holds the distribution and decides what
//! its parameters and variables are bound to; polyhedral sets and expressions
//! are texts here.

use crate::text::{
    chars_of, find, first_of, lemma_first_of, parse_signed, signed_value, slice_of, string_of,
    trim, trimmed,
};
use vstd::prelude::*;

verus! {

/// A distribution over parameters.
#[derive(Debug)]
pub struct SymbolicDistribution {
    pub params: Vec<String>,
    pub total: SymbolicTotal,
    pub items: Vec<SymbolicItem>,
}

/// The number of accesses, piece by piece.
#[derive(Debug)]
pub struct SymbolicTotal {
    pub pieces: Vec<SymbolicTotalPiece>,
}

/// The number of accesses on a domain.
#[derive(Debug)]
pub struct SymbolicTotalPiece {
    pub expr: String,
    pub domain: String,
}

/// A reuse interval, and how often it occurs.
#[derive(Debug)]
pub struct SymbolicItem {
    pub value: String,
    pub pieces: Vec<SymbolicPiece>,
}

/// How often a reuse interval occurs on a domain.
#[derive(Debug)]
pub struct SymbolicPiece {
    pub count: String,
    pub domain: String,
}

/// A total as a report may hold it: piecewise, or a single piece.
#[derive(Debug)]
pub enum TotalShape {
    Pieces { pieces: Vec<SymbolicTotalPiece> },
    Single(SymbolicTotalPiece),
}

impl TotalShape {
    /// The pieces of either shape.
    pub open spec fn pieces(self) -> Seq<SymbolicTotalPiece> {
        match self {
            TotalShape::Pieces { pieces } => pieces@,
            TotalShape::Single(piece) => seq![piece],
        }
    }

    /// A total of either shape.
    pub fn into_total(self) -> (total: SymbolicTotal)
        ensures
            total.pieces@ == self.pieces(),
    {
        match self {
            TotalShape::Pieces { pieces } => SymbolicTotal { pieces },
            TotalShape::Single(piece) => {
                let mut pieces: Vec<SymbolicTotalPiece> = Vec::new();
                pieces.push(piece);
                SymbolicTotal { pieces }
            },
        }
    }
}

/// What is wrong with a parameter or its binding.
#[derive(Debug)]
pub enum SymbolicError {
    /// No equals sign.
    Form { text: String },
    /// A value that is not an integer.
    Value { name: String, value: String },
    /// A parameter without a value.
    Missing { name: String },
    /// A value that the polyhedral library cannot take.
    TooLarge { name: String },
    /// No piece of the total holds the parameter values.
    Outside { domains: String },
}

impl SymbolicError {
    /// The message of an error.
    pub open spec fn text(&self) -> Seq<char> {
        match *self {
            SymbolicError::Form { text } => "expected NAME=VALUE, got `"@ + text@ + seq!['`'],
            SymbolicError::Value { name, value } => "value of `"@ + name@
                + "` is not an integer: `"@ + value@ + seq!['`'],
            SymbolicError::Missing { name } => "parameter `"@ + name@
                + "` has no value; pass `--symbol "@ + name@ + "=<int>`"@,
            SymbolicError::TooLarge { name } => "parameter `"@ + name@
                + "` does not fit isl's i32"@,
            SymbolicError::Outside { domains } =>
                "the parameter point lies outside the derivation's domain(s): "@ + domains@,
        }
    }

    /// The message of an error.
    pub fn message(&self) -> (message: String)
        ensures
            message@ == self.text(),
    {
        let mut message: String = String::new();
        match self {
            SymbolicError::Form { text } => {
                message.push_str("expected NAME=VALUE, got `");
                message.push_str(text.as_str());
                message.push('`');
            },
            SymbolicError::Value { name, value } => {
                message.push_str("value of `");
                message.push_str(name.as_str());
                message.push_str("` is not an integer: `");
                message.push_str(value.as_str());
                message.push('`');
            },
            SymbolicError::Missing { name } => {
                message.push_str("parameter `");
                message.push_str(name.as_str());
                message.push_str("` has no value; pass `--symbol ");
                message.push_str(name.as_str());
                message.push_str("=<int>`");
            },
            SymbolicError::TooLarge { name } => {
                message.push_str("parameter `");
                message.push_str(name.as_str());
                message.push_str("` does not fit isl's i32");
            },
            SymbolicError::Outside { domains } => {
                message.push_str("the parameter point lies outside the derivation's domain(s): ");
                message.push_str(domains.as_str());
            },
        }
        assert(message@ =~= self.text());
        message
    }
}

/// A parameter and its value.
#[derive(Debug)]
pub struct Binding {
    pub name: String,
    pub value: i64,
}

/// Reads a parameter binding `NAME=VALUE`.
pub fn parse_symbol_binding(text: &str) -> (binding: Result<Binding, SymbolicError>)
    ensures
        ({
            let at = first_of(text@, '=');
            let (name, value) = (text@.take(at), text@.skip(at + 1));
            if at >= text@.len() {
                binding matches Err(SymbolicError::Form { text: found }) && found@ == text@
            } else {
                match signed_value(trimmed(value)) {
                    Some(number) => binding matches Ok(binding) && binding.name@ == trimmed(name)
                        && binding.value == number,
                    None => binding matches Err(SymbolicError::Value { name: n, value: v }) && n@
                        == name && v@ == value,
                }
            }
        }),
{
    let chars: Vec<char> = chars_of(text);
    let at: usize = find(&chars, 0, '=');
    let total: usize = chars.len();
    proof {
        assert(chars@.skip(0) =~= chars@);
        assert(chars@.subrange(0, chars@.len() as int) =~= chars@);
        lemma_first_of(chars@, '=');
    }
    if at >= total {
        return Err(SymbolicError::Form { text: string_of(&chars, 0, total) });
    }
    let name: Vec<char> = slice_of(&chars, 0, at);
    let value: Vec<char> = slice_of(&chars, at + 1, total);
    assert(name@ =~= chars@.take(at as int));
    assert(value@ =~= chars@.skip(at + 1));
    match parse_signed(&trim(&value)) {
        Some(number) => {
            let short: Vec<char> = trim(&name);
            assert(short@.subrange(0, short@.len() as int) =~= short@);
            Ok(Binding { name: string_of(&short, 0, short.len()), value: number })
        },
        None => Err(
            SymbolicError::Value {
                name: string_of(&chars, 0, at),
                value: string_of(&chars, at + 1, total),
            },
        ),
    }
}

/// The value that a list of bindings gives a name: the last one.
pub open spec fn value_of(bindings: Seq<Binding>, name: Seq<char>) -> Option<i64>
    decreases bindings.len(),
{
    if bindings.len() == 0 {
        None
    } else if bindings.last().name@ == name {
        Some(bindings.last().value)
    } else {
        value_of(bindings.drop_last(), name)
    }
}

/// The value that a list of bindings gives a name.
pub fn lookup_value(bindings: &Vec<Binding>, name: &String) -> (value: Option<i64>)
    ensures
        value == value_of(bindings@, name@),
{
    let mut rest: usize = bindings.len();
    assert(bindings@.take(rest as int) =~= bindings@);
    while rest > 0
        invariant
            rest <= bindings@.len(),
            value_of(bindings@, name@) == value_of(bindings@.take(rest as int), name@),
        decreases rest,
    {
        assert(bindings@.take(rest as int).drop_last() =~= bindings@.take(rest - 1));
        rest -= 1;
        if bindings[rest].name.eq(name) {
            return Some(bindings[rest].value);
        }
    }
    None
}

/// The first parameter without a value.
pub open spec fn first_missing(params: Seq<String>, bindings: Seq<Binding>, at: nat) -> Option<
    Seq<char>,
>
    decreases params.len() - at,
{
    if at >= params.len() {
        None
    } else if value_of(bindings, params[at as int]@) is None {
        Some(params[at as int]@)
    } else {
        first_missing(params, bindings, at + 1)
    }
}

/// Checks that every parameter has a value.
pub fn check_bindings(dist: &SymbolicDistribution, bindings: &Vec<Binding>) -> (checked: Result<
    (),
    SymbolicError,
>)
    ensures
        match first_missing(dist.params@, bindings@, 0) {
            Some(name) => checked matches Err(SymbolicError::Missing { name: found }) && found@
                == name,
            None => checked is Ok,
        },
{
    let mut at: usize = 0;
    while at < dist.params.len()
        invariant
            at <= dist.params@.len(),
            first_missing(dist.params@, bindings@, 0) == first_missing(
                dist.params@,
                bindings@,
                at as nat,
            ),
        decreases dist.params@.len() - at,
    {
        if lookup_value(bindings, &dist.params[at]).is_none() {
            return Err(SymbolicError::Missing { name: dist.params[at].clone() });
        }
        at += 1;
    }
    Ok(())
}

/// What a set's parameter is fixed at: nothing where it is unnamed or has no
/// value, and an error where the value needs more than 32 bits.
pub open spec fn fixed_at(name: Option<String>, bindings: Seq<Binding>) -> Result<
    Option<i32>,
    Seq<char>,
> {
    match name {
        None => Ok(None),
        Some(name) => match value_of(bindings, name@) {
            None => Ok(None),
            Some(value) => if i32::MIN <= value <= i32::MAX {
                Ok(Some(value as i32))
            } else {
                Err(name@)
            },
        },
    }
}

/// The values of the parameters from position `at` on, for those of a set that
/// are fixed. The last parameter that does not fit decides.
pub open spec fn fixed_from(names: Seq<Option<String>>, bindings: Seq<Binding>, at: nat) -> Result<
    Seq<(usize, i32)>,
    Seq<char>,
>
    decreases names.len() - at,
{
    if at >= names.len() {
        Ok(Seq::empty())
    } else {
        match fixed_from(names, bindings, at + 1) {
            Err(name) => Err(name),
            Ok(behind) => match fixed_at(names[at as int], bindings) {
                Err(name) => Err(name),
                Ok(None) => Ok(behind),
                Ok(Some(value)) => Ok(behind.push((at as usize, value))),
            },
        }
    }
}

/// Which parameters of a set are fixed, and at which values: from the last
/// parameter to the first.
pub fn fix_params(names: &Vec<Option<String>>, bindings: &Vec<Binding>) -> (fixed: Result<
    Vec<(usize, i32)>,
    SymbolicError,
>)
    ensures
        match fixed_from(names@, bindings@, 0) {
            Ok(expected) => fixed matches Ok(fixed) && fixed@ == expected,
            Err(name) => fixed matches Err(SymbolicError::TooLarge { name: found }) && found@
                == name,
        },
{
    let mut fixed: Vec<(usize, i32)> = Vec::new();
    let mut at: usize = names.len();
    while at > 0
        invariant
            at <= names@.len(),
            fixed_from(names@, bindings@, at as nat) == Ok::<Seq<(usize, i32)>, Seq<char>>(fixed@),
        decreases at,
    {
        at -= 1;
        match &names[at] {
            None => {},
            Some(name) => match lookup_value(bindings, name) {
                None => {},
                Some(value) => {
                    if (i32::MIN as i64) <= value && value <= i32::MAX as i64 {
                        fixed.push((at, value as i32));
                    } else {
                        proof {
                            lemma_fixed_failure(names@, bindings@, at as nat);
                        }
                        return Err(SymbolicError::TooLarge { name: name.clone() });
                    }
                },
            },
        }
    }
    Ok(fixed)
}

proof fn lemma_fixed_failure(names: Seq<Option<String>>, bindings: Seq<Binding>, at: nat)
    requires
        fixed_from(names, bindings, at) is Err,
    ensures
        fixed_from(names, bindings, 0) == fixed_from(names, bindings, at),
    decreases at,
{
    if at > 0 {
        lemma_fixed_failure(names, bindings, (at - 1) as nat);
    }
}

/// Variables of some expressions, each with a place of its own in a list of
/// values.
#[derive(Debug)]
pub struct Slots {
    names: Vec<String>,
}

impl Slots {
    /// The variables, by their places.
    pub closed spec fn names(&self) -> Seq<Seq<char>> {
        self.names@.map_values(|name: String| name@)
    }

    /// No variable has two places.
    pub open spec fn wf(&self) -> bool {
        self.names().no_duplicates()
    }

    pub fn new() -> (slots: Self)
        ensures
            slots.wf(),
            slots.names() == Seq::<Seq<char>>::empty(),
    {
        let slots = Slots { names: Vec::new() };
        assert(slots.names() =~= Seq::empty());
        slots
    }

    /// The number of places.
    pub fn len(&self) -> (len: usize)
        ensures
            len == self.names().len(),
    {
        self.names.len()
    }

    /// The place of a variable, if it has one.
    pub fn by_name(&self, name: &str) -> (slot: Option<usize>)
        ensures
            slot is Some <==> self.names().contains(name@),
            slot matches Some(slot) ==> slot < self.names().len() && self.names()[slot as int]
                == name@,
    {
        let mut wanted: String = String::new();
        wanted.push_str(name);
        assert(wanted@ =~= name@);
        let mut at: usize = 0;
        while at < self.names.len()
            invariant
                at <= self.names@.len(),
                wanted@ == name@,
                forall|i: int| 0 <= i < at ==> (#[trigger] self.names@[i])@ != name@,
            decreases self.names@.len() - at,
        {
            if self.names[at].eq(&wanted) {
                assert(self.names()[at as int] == name@);
                return Some(at);
            }
            at += 1;
        }
        assert forall|i: int| 0 <= i < self.names().len() implies self.names()[i] != name@ by {
            assert(self.names@[i]@ != name@);
        }
        None
    }

    /// The place of a variable, a new one where it has none.
    pub fn slot(&mut self, name: &str) -> (slot: usize)
        requires
            old(self).wf(),
        ensures
            final(self).wf(),
            slot < final(self).names().len(),
            final(self).names()[slot as int] == name@,
            final(self).names() == if old(self).names().contains(name@) {
                old(self).names()
            } else {
                old(self).names().push(name@)
            },
    {
        match self.by_name(name) {
            Some(slot) => slot,
            None => {
                let ghost before = self.names();
                let slot: usize = self.names.len();
                let mut text: String = String::new();
                text.push_str(name);
                assert(text@ =~= name@);
                self.names.push(text);
                assert(self.names() =~= before.push(name@));
                slot
            },
        }
    }
}

/// The dimensions of a set that feed a place, from the first on.
pub open spec fn fed(names: Seq<Option<String>>, slots: Seq<Seq<char>>, count: nat) -> Seq<
    (usize, int),
>
    decreases count,
{
    if count == 0 {
        Seq::empty()
    } else {
        let before = fed(names, slots, (count - 1) as nat);
        match names[count - 1] {
            Some(name) => if slots.contains(name@) {
                before.push(((count - 1) as usize, slots.index_of(name@)))
            } else {
                before
            },
            None => before,
        }
    }
}

/// Which dimension of a set feeds which place; dimensions that no expression
/// mentions feed none.
pub fn bound_dims(names: &Vec<Option<String>>, slots: &Slots) -> (bound: Vec<(usize, usize)>)
    requires
        slots.wf(),
    ensures
        bound@.map_values(|pair: (usize, usize)| (pair.0, pair.1 as int)) == fed(
            names@,
            slots.names(),
            names@.len(),
        ),
{
    let mut bound: Vec<(usize, usize)> = Vec::new();
    let mut at: usize = 0;
    let ghost wide = |pair: (usize, usize)| (pair.0, pair.1 as int);
    assert(bound@.map_values(wide) =~= Seq::empty());
    while at < names.len()
        invariant
            at <= names@.len(),
            slots.wf(),
            wide == (|pair: (usize, usize)| (pair.0, pair.1 as int)),
            bound@.map_values(wide) == fed(names@, slots.names(), at as nat),
        decreases names@.len() - at,
    {
        match &names[at] {
            Some(name) => match slots.by_name(name.as_str()) {
                Some(slot) => {
                    let ghost before = bound@;
                    bound.push((at, slot));
                    proof {
                        let place = slots.names().index_of(name@);
                        assert(slots.names()[place] == name@);
                        assert(bound@.map_values(wide) =~= before.map_values(wide).push(
                            (at, slot as int),
                        ));
                    }
                },
                None => {},
            },
            None => {},
        }
        at += 1;
    }
    bound
}

/// The domains of the pieces, with a bar between them.
pub open spec fn joined_domains(pieces: Seq<SymbolicTotalPiece>, count: nat) -> Seq<char>
    decreases count,
{
    if count == 0 {
        Seq::empty()
    } else if count == 1 {
        pieces[0].domain@
    } else {
        joined_domains(pieces, (count - 1) as nat) + " | "@ + pieces[count - 1].domain@
    }
}

/// The error where no piece of the total holds the parameter values.
pub fn outside_all(total: &SymbolicTotal) -> (error: SymbolicError)
    ensures
        error matches SymbolicError::Outside { domains } && domains@ == joined_domains(
            total.pieces@,
            total.pieces@.len(),
        ),
{
    let mut domains: String = String::new();
    let mut at: usize = 0;
    while at < total.pieces.len()
        invariant
            at <= total.pieces@.len(),
            domains@ == joined_domains(total.pieces@, at as nat),
        decreases total.pieces@.len() - at,
    {
        let ghost before = domains@;
        if at > 0 {
            domains.push_str(" | ");
        }
        domains.push_str(total.pieces[at].domain.as_str());
        assert(domains@ =~= joined_domains(total.pieces@, (at + 1) as nat));
        at += 1;
    }
    SymbolicError::Outside { domains }
}

/// What is needed to find the piece of a total that holds the parameter values.
#[derive(Clone, Copy, Debug, PartialEq, Eq)]
pub enum PieceStep {
    /// Whether the domain of the piece at this position is empty.
    Ask(usize),
    /// Nothing: the piece at this position holds them.
    Take(usize),
}

/// The first piece of a total whose domain is not empty, where `empty` says it
/// of the first domains; or the piece to ask about next, as long as all of those
/// are empty. Outside every piece nothing is claimed, which is an error.
pub fn total_piece(total: &SymbolicTotal, empty: &Vec<bool>) -> (step: Result<
    PieceStep,
    SymbolicError,
>)
    requires
        empty@.len() <= total.pieces@.len(),
    ensures
        match step {
            Ok(PieceStep::Take(at)) => {
                &&& at < empty@.len()
                &&& !empty@[at as int]
                &&& forall|i: int| 0 <= i < at ==> #[trigger] empty@[i]
            },
            Ok(PieceStep::Ask(at)) => {
                &&& at == empty@.len() < total.pieces@.len()
                &&& forall|i: int| 0 <= i < at ==> #[trigger] empty@[i]
            },
            Err(error) => {
                &&& empty@.len() == total.pieces@.len()
                &&& forall|i: int| 0 <= i < empty@.len() ==> #[trigger] empty@[i]
                &&& error matches SymbolicError::Outside { domains } && domains@ == joined_domains(
                    total.pieces@,
                    total.pieces@.len(),
                )
            },
        },
{
    let mut at: usize = 0;
    while at < empty.len()
        invariant
            at <= empty@.len(),
            forall|i: int| 0 <= i < at ==> #[trigger] empty@[i],
        decreases empty@.len() - at,
    {
        if !empty[at] {
            return Ok(PieceStep::Take(at));
        }
        at += 1;
    }
    if at < total.pieces.len() {
        Ok(PieceStep::Ask(at))
    } else {
        Err(outside_all(total))
    }
}

} // verus!
