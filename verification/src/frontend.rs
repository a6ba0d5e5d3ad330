//! What is read off a program before it is sampled.

use crate::text::{
    chars_of, find, first_of, lemma_first_of, parse_signed, parse_unsigned, same_text,
    signed_value, slice_of, string_of, trim, trimmed, unsigned_value,
};
use crate::tree::{Tree, ValID};
use vstd::prelude::*;

verus! {

broadcast use vstd::std_specs::vec::axiom_vec_index_decreases;

/// An operation of a module: its kind, and its symbol attribute as written.
#[derive(Debug)]
pub struct Operation {
    pub kind: String,
    pub symbol: String,
}

/// Why no function could be chosen.
#[derive(Debug)]
pub enum TargetError {
    /// No function has the given name.
    NoSuchFunction { name: String },
    /// The module has no function.
    NoFunction,
}

impl TargetError {
    /// The message of an error.
    pub open spec fn text(&self) -> Seq<char> {
        match *self {
            TargetError::NoSuchFunction { name } => "no function named `"@ + name@
                + "` in the module"@,
            TargetError::NoFunction => "the module contains no `func.func`"@,
        }
    }

    /// The message of an error.
    pub fn message(&self) -> (text: String)
        ensures
            text@ == self.text(),
    {
        let mut text: String = String::new();
        match self {
            TargetError::NoSuchFunction { name } => {
                text.push_str("no function named `");
                text.push_str(name.as_str());
                text.push_str("` in the module");
            },
            TargetError::NoFunction => {
                text.push_str("the module contains no `func.func`");
            },
        }
        assert(text@ =~= self.text());
        text
    }
}

/// Text without the quotes around it.
pub open spec fn unquoted(text: Seq<char>) -> Seq<char> {
    drop_quotes_behind(drop_quotes_before(text))
}

pub open spec fn drop_quotes_before(text: Seq<char>) -> Seq<char>
    decreases text.len(),
{
    if text.len() > 0 && text[0] == '"' {
        drop_quotes_before(text.skip(1))
    } else {
        text
    }
}

pub open spec fn drop_quotes_behind(text: Seq<char>) -> Seq<char>
    decreases text.len(),
{
    if text.len() > 0 && text.last() == '"' {
        drop_quotes_behind(text.drop_last())
    } else {
        text
    }
}

/// Text without the quotes around it.
pub fn unquote(chars: &Vec<char>) -> (part: Vec<char>)
    ensures
        part@ == unquoted(chars@),
{
    let mut from: usize = 0;
    assert(chars@.skip(0) =~= chars@);
    while from < chars.len() && chars[from] == '"'
        invariant
            from <= chars@.len(),
            drop_quotes_before(chars@) == drop_quotes_before(chars@.skip(from as int)),
        decreases chars@.len() - from,
    {
        assert(chars@.skip(from as int).skip(1) =~= chars@.skip(from + 1));
        from += 1;
    }
    let ghost rest = chars@.skip(from as int);
    assert(drop_quotes_before(chars@) == rest);
    let mut to: usize = chars.len();
    assert(chars@.subrange(from as int, to as int) =~= rest);
    while to > from && chars[to - 1] == '"'
        invariant
            from <= to <= chars@.len(),
            drop_quotes_behind(rest) == drop_quotes_behind(
                chars@.subrange(from as int, to as int),
            ),
        decreases to,
    {
        assert(chars@.subrange(from as int, to as int).drop_last() =~= chars@.subrange(
            from as int,
            to - 1,
        ));
        to -= 1;
    }
    slice_of(chars, from, to)
}

/// The operation is the function that is looked for: any function where no name
/// is given, and otherwise the one of that name.
pub open spec fn is_target(operation: Operation, target: Option<Seq<char>>) -> bool {
    operation.kind@ == "func.func"@ && (target matches Some(name) ==> unquoted(
        operation.symbol@,
    ) == name)
}

/// The position of the first operation that is the target, among the operations
/// from `at` on.
pub open spec fn target_from(
    operations: Seq<Operation>,
    target: Option<Seq<char>>,
    at: nat,
) -> Option<nat>
    decreases operations.len() - at,
{
    if at >= operations.len() {
        None
    } else if is_target(operations[at as int], target) {
        Some(at)
    } else {
        target_from(operations, target, at + 1)
    }
}

/// Chooses the function to work on: the first one, or the first of a name.
pub fn extract_target(operations: &Vec<Operation>, target: Option<&str>) -> (position: Result<
    usize,
    TargetError,
>)
    ensures
        ({
            let name = match target {
                Some(name) => Some(name@),
                None => None,
            };
            match target_from(operations@, name, 0) {
                Some(expected) => position matches Ok(position) && position == expected,
                None => position matches Err(error) && match error {
                    TargetError::NoSuchFunction { name: found } => name == Some(found@),
                    TargetError::NoFunction => name is None,
                },
            }
        }),
{
    let ghost name = match target {
        Some(name) => Some(name@),
        None => None,
    };
    let function: Vec<char> = chars_of("func.func");
    let mut at: usize = 0;
    while at < operations.len()
        invariant
            at <= operations@.len(),
            function@ == "func.func"@,
            name == match target {
                Some(name) => Some(name@),
                None => None,
            },
            target_from(operations@, name, 0) == target_from(operations@, name, at as nat),
        decreases operations@.len() - at,
    {
        let operation: &Operation = &operations[at];
        if same_text(&chars_of(operation.kind.as_str()), &function) {
            let found: bool = match target {
                None => true,
                Some(wanted) => {
                    let symbol: Vec<char> = chars_of(operation.symbol.as_str());
                    same_text(&unquote(&symbol), &chars_of(wanted))
                },
            };
            if found {
                return Ok(at);
            }
        }
        at += 1;
    }
    match target {
        Some(wanted) => {
            let mut name: String = String::new();
            name.push_str(wanted);
            assert(name@ =~= wanted@);
            Err(TargetError::NoSuchFunction { name })
        },
        None => Err(TargetError::NoFunction),
    }
}

/// An operation of a function, and whether it carries the attribute that marks
/// the loop that is looked for.
#[derive(Debug)]
pub struct LoopOperation {
    /// The operation's name, such as `affine.for`.
    pub kind: String,
    pub marked: bool,
}

/// The first loop from a position on: any loop, or the first marked one.
pub open spec fn loop_from(operations: Seq<LoopOperation>, marked_only: bool, at: int) -> Option<int>
    decreases operations.len() - at,
{
    if at < 0 || at >= operations.len() {
        None
    } else if operations[at].kind@ == "affine.for"@ && (marked_only ==> operations[at].marked) {
        Some(at)
    } else {
        loop_from(operations, marked_only, at + 1)
    }
}

/// Finds the loop to analyze among the operations of a function: the first one,
/// or the first that is marked where a mark is asked for.
pub fn find_loop(operations: &Vec<LoopOperation>, marked_only: bool) -> (position: Option<usize>)
    ensures
        match loop_from(operations@, marked_only, 0) {
            Some(at) => position matches Some(position) && position == at,
            None => position is None,
        },
{
    let wanted: Vec<char> = chars_of("affine.for");
    let mut at: usize = 0;
    while at < operations.len()
        invariant
            at <= operations@.len(),
            wanted@ == "affine.for"@,
            loop_from(operations@, marked_only, 0) == loop_from(
                operations@,
                marked_only,
                at as int,
            ),
        decreases operations@.len() - at,
    {
        let is_loop: bool = same_text(&chars_of(operations[at].kind.as_str()), &wanted);
        if is_loop && (!marked_only || operations[at].marked) {
            return Some(at);
        }
        at += 1;
    }
    None
}

/// Facts about a loop tree.
#[derive(Clone, Copy, Debug, PartialEq, Eq, Structural)]
pub struct TreeFacts {
    /// One more than the largest symbol number that occurs; every symbol below
    /// needs a value before the tree can be walked.
    pub symbols: usize,
    /// Deepest loop nesting level.
    pub max_depth: usize,
}

impl Default for TreeFacts {
    fn default() -> (facts: Self)
        ensures
            facts == (TreeFacts { symbols: 0, max_depth: 0 }),
    {
        TreeFacts { symbols: 0, max_depth: 0 }
    }
}

/// The larger of two numbers, cut to what a `usize` can hold.
pub open spec fn larger_count(count: usize, other: int) -> usize {
    if other > usize::MAX {
        usize::MAX
    } else if count < other {
        other as usize
    } else {
        count
    }
}

/// The facts after the first operands of a list.
pub open spec fn noted(operands: Seq<ValID>, count: nat, facts: TreeFacts) -> TreeFacts
    decreases count,
{
    if count == 0 {
        facts
    } else {
        let before = noted(operands, (count - 1) as nat, facts);
        match operands[count - 1] {
            ValID::Symbol(index) => TreeFacts {
                symbols: larger_count(before.symbols, index + 1),
                ..before
            },
            _ => before,
        }
    }
}

/// The facts after a tree at a depth.
pub open spec fn facts_after(tree: Tree, depth: nat, facts: TreeFacts) -> TreeFacts
    decreases tree, 0int,
{
    match tree {
        Tree::For { lower_bound_operands, upper_bound_operands, body, .. } => {
            let noted_lower = noted(lower_bound_operands@, lower_bound_operands@.len(), facts);
            let noted_upper = noted(
                upper_bound_operands@,
                upper_bound_operands@.len(),
                noted_lower,
            );
            facts_after(
                *body,
                depth + 1,
                TreeFacts {
                    max_depth: larger_count(noted_upper.max_depth, depth as int),
                    ..noted_upper
                },
            )
        },
        Tree::Block(stmts) => facts_after_from(stmts, 0, depth, facts),
        Tree::If { operands, then_branch, else_branch, .. } => {
            let first = facts_after(
                *then_branch,
                depth,
                noted(operands@, operands@.len(), facts),
            );
            match else_branch {
                Some(otherwise) => facts_after(*otherwise, depth, first),
                None => first,
            }
        },
        Tree::Access { operands, .. } => noted(operands@, operands@.len(), facts),
    }
}

/// The facts after the statements of a block from position `at` on.
pub open spec fn facts_after_from(
    stmts: Vec<Tree>,
    at: nat,
    depth: nat,
    facts: TreeFacts,
) -> TreeFacts
    decreases stmts, stmts@.len() - at,
{
    if at >= stmts@.len() {
        facts
    } else {
        facts_after_from(stmts, at + 1, depth, facts_after(stmts[at as int], depth, facts))
    }
}

fn note(operands: &Vec<ValID>, facts: TreeFacts) -> (after: TreeFacts)
    ensures
        after == noted(operands@, operands@.len(), facts),
{
    let mut after: TreeFacts = facts;
    let mut at: usize = 0;
    while at < operands.len()
        invariant
            at <= operands@.len(),
            after == noted(operands@, at as nat, facts),
        decreases operands@.len() - at,
    {
        match &operands[at] {
            ValID::Symbol(index) => {
                let next: usize = if *index == usize::MAX {
                    usize::MAX
                } else {
                    *index + 1
                };
                if after.symbols < next {
                    after.symbols = next;
                }
            },
            _ => {},
        }
        at += 1;
    }
    after
}

/// A depth cut to what a `usize` can hold.
spec fn cut(depth: nat) -> usize {
    if depth > usize::MAX {
        usize::MAX
    } else {
        depth as usize
    }
}

fn collect(tree: &Tree, depth: usize, facts: TreeFacts, Ghost(level): Ghost<nat>) -> (after: TreeFacts)
    requires
        depth == cut(level),
    ensures
        after == facts_after(*tree, level, facts),
    decreases *tree,
{
    match tree {
        Tree::For { lower_bound_operands, upper_bound_operands, body, .. } => {
            let mut after: TreeFacts = note(
                upper_bound_operands,
                note(lower_bound_operands, facts),
            );
            if after.max_depth < depth {
                after.max_depth = depth;
            }
            let inner: usize = if depth == usize::MAX {
                usize::MAX
            } else {
                depth + 1
            };
            collect(body, inner, after, Ghost(level + 1))
        },
        Tree::Block(stmts) => {
            let mut after: TreeFacts = facts;
            let mut at: usize = 0;
            while at < stmts.len()
                invariant
                    at <= stmts@.len(),
                    depth == cut(level),
                    *tree == Tree::Block(*stmts),
                    facts_after(*tree, level, facts) == facts_after_from(
                        *stmts,
                        at as nat,
                        level,
                        after,
                    ),
                decreases stmts@.len() - at,
            {
                assert(tree->Block_0 == *stmts);
                assert(decreases_to!(*tree => tree->Block_0));
                assert(decreases_to!(*stmts => stmts@[at as int]));
                after = collect(&stmts[at], depth, after, Ghost(level));
                at += 1;
            }
            after
        },
        Tree::If { operands, then_branch, else_branch, .. } => {
            let first: TreeFacts = collect(
                then_branch,
                depth,
                note(operands, facts),
                Ghost(level),
            );
            match else_branch {
                Some(otherwise) => collect(otherwise, depth, first, Ghost(level)),
                None => first,
            }
        },
        Tree::Access { operands, .. } => note(operands, facts),
    }
}

/// Collects the symbol count and nesting depth of a tree.
pub fn facts(tree: &Tree) -> (facts: TreeFacts)
    ensures
        facts == facts_after(*tree, 0, TreeFacts { symbols: 0, max_depth: 0 }),
{
    collect(tree, 0, TreeFacts::default(), Ghost(0))
}

/// What is wrong with a symbol binding.
#[derive(Debug)]
pub enum BindingError {
    /// No equals sign.
    Form { text: String },
    /// An index that is not a number.
    Index { text: String, name: String },
    /// A value that is not an integer.
    Value { text: String, value: String },
}

impl BindingError {
    /// The message of an error.
    pub open spec fn text(&self) -> Seq<char> {
        match *self {
            BindingError::Form { text } => "symbol binding `"@ + text@
                + "` is not of the form `s<index>=<value>`"@,
            BindingError::Index { text, name } => "symbol binding `"@ + text@
                + "` has a non-numeric index `"@ + name@ + seq!['`'],
            BindingError::Value { text, value } => "symbol binding `"@ + text@
                + "` has a non-integer value `"@ + value@ + seq!['`'],
        }
    }

    /// The message of an error.
    pub fn message(&self) -> (message: String)
        ensures
            message@ == self.text(),
    {
        let mut message: String = String::new();
        message.push_str("symbol binding `");
        match self {
            BindingError::Form { text } => {
                message.push_str(text.as_str());
                message.push_str("` is not of the form `s<index>=<value>`");
            },
            BindingError::Index { text, name } => {
                message.push_str(text.as_str());
                message.push_str("` has a non-numeric index `");
                message.push_str(name.as_str());
                message.push('`');
            },
            BindingError::Value { text, value } => {
                message.push_str(text.as_str());
                message.push_str("` has a non-integer value `");
                message.push_str(value.as_str());
                message.push('`');
            },
        }
        assert(message@ =~= self.text());
        message
    }
}

/// Text without the letters `s` in front.
pub open spec fn without_s(text: Seq<char>) -> Seq<char>
    decreases text.len(),
{
    if text.len() > 0 && text[0] == 's' {
        without_s(text.skip(1))
    } else {
        text
    }
}

/// A binding's index: a number, with or without the letter `s`.
pub open spec fn binding_index(text: Seq<char>) -> Option<usize> {
    match unsigned_value(
        without_s(trimmed(text.take(first_of(text, '=')))),
        usize::MAX as nat,
    ) {
        Some(index) => Some(index as usize),
        None => None,
    }
}

/// A binding's value.
pub open spec fn binding_value(text: Seq<char>) -> Option<i64> {
    match signed_value(trimmed(text.skip(first_of(text, '=') + 1))) {
        Some(value) => Some(value as i64),
        None => None,
    }
}

/// The text is a binding of an index to a value.
pub open spec fn reads_as(text: Seq<char>, binding: (usize, i64)) -> bool {
    &&& first_of(text, '=') < text.len()
    &&& binding_index(text) == Some(binding.0)
    &&& binding_value(text) == Some(binding.1)
}

/// The text is a binding.
pub open spec fn is_binding(text: Seq<char>) -> bool {
    first_of(text, '=') < text.len() && binding_index(text) is Some && binding_value(text) is Some
}

/// The text is no binding, and the error says why.
pub open spec fn is_refused(text: Seq<char>, error: BindingError) -> bool {
    let at = first_of(text, '=');
    match error {
        BindingError::Form { text: found } => at >= text.len() && found@ == text,
        BindingError::Index { text: found, name } => at < text.len() && binding_index(text) is None
            && found@ == text && name@ == text.take(at),
        BindingError::Value { text: found, value } => at < text.len() && binding_index(
            text,
        ) is Some && binding_value(text) is None && found@ == text && value@ == text.skip(at + 1),
    }
}

/// Reads a symbol binding, `s0=512` or `0=512`.
pub fn parse_symbol_binding(text: &str) -> (binding: Result<(usize, i64), BindingError>)
    ensures
        match binding {
            Ok(binding) => reads_as(text@, binding),
            Err(error) => is_refused(text@, error),
        },
{
    let chars: Vec<char> = chars_of(text);
    let at: usize = find(&chars, 0, '=');
    let total: usize = chars.len();
    proof {
        assert(chars@.skip(0) =~= chars@);
        assert(chars@.subrange(0, chars@.len() as int) =~= chars@);
        lemma_first_of(chars@, '=');
    }
    if at >= total {
        return Err(BindingError::Form { text: string_of(&chars, 0, total) });
    }
    let name: Vec<char> = slice_of(&chars, 0, at);
    let value: Vec<char> = slice_of(&chars, at + 1, total);
    assert(name@ =~= chars@.take(at as int));
    assert(value@ =~= chars@.skip(at + 1));
    let short: Vec<char> = trim(&name);
    let mut from: usize = 0;
    assert(short@.skip(0) =~= short@);
    while from < short.len() && short[from] == 's'
        invariant
            from <= short@.len(),
            without_s(short@) == without_s(short@.skip(from as int)),
        decreases short@.len() - from,
    {
        assert(short@.skip(from as int).skip(1) =~= short@.skip(from + 1));
        from += 1;
    }
    assert(without_s(short@) == short@.skip(from as int));
    let digits: Vec<char> = slice_of(&short, from, short.len());
    assert(digits@ =~= short@.skip(from as int));
    let index: usize = match parse_unsigned(&digits, usize::MAX as u64) {
        Some(index) => index as usize,
        None => {
            return Err(
                BindingError::Index {
                    text: string_of(&chars, 0, total),
                    name: string_of(&chars, 0, at),
                },
            );
        },
    };
    match parse_signed(&trim(&value)) {
        Some(value) => Ok((index, value)),
        None => Err(
            BindingError::Value {
                text: string_of(&chars, 0, total),
                value: string_of(&chars, at + 1, total),
            },
        ),
    }
}

} // verus!
