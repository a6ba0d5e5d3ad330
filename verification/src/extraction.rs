//! What is taken out of a module and its loops: the function and the loop to
//! work on, the arrays, and the size of the nest.

use crate::analysis::{filled_names, first_true, involved, is_involved};
use crate::arrays::Declared;
use crate::declarations::{allocated, globals, static_sizes, ArrayOperation};
use crate::frontend::{
    drop_quotes_before, drop_quotes_behind, facts_after, facts_after_from, is_target, loop_from,
    noted, target_from, unquoted, LoopOperation, Operation, TreeFacts,
};
use crate::polygeist::find_text;
use crate::text::{decimal, occurs_at};
use crate::tree::{Tree, ValID};
use vstd::prelude::*;

verus! {

broadcast use vstd::std_specs::vec::axiom_vec_index_decreases;

/// The function to work on is the first one, or the first of its name.
pub proof fn law_target_is_the_first_function(
    operations: Seq<Operation>,
    target: Option<Seq<char>>,
    at: nat,
)
    ensures
        match target_from(operations, target, at) {
            Some(found) => {
                &&& at <= found < operations.len()
                &&& operations[found as int].kind@ == "func.func"@
                &&& target matches Some(name) ==> unquoted(operations[found as int].symbol@) == name
                &&& forall|i: int|
                    at <= i < found ==> (#[trigger] operations[i]).kind@ != "func.func"@ || (
                    target matches Some(name) && unquoted(operations[i].symbol@) != name)
            },
            None => forall|i: int|
                at <= i < operations.len() ==> (#[trigger] operations[i]).kind@ != "func.func"@ || (
                target matches Some(name) && unquoted(operations[i].symbol@) != name),
        },
    decreases operations.len() - at,
{
    if at < operations.len() && !is_target(operations[at as int], target) {
        law_target_is_the_first_function(operations, target, at + 1);
    }
}

/// The loop to work on is the first one, or the first with a mark.
pub proof fn law_loop_is_the_first_one(
    operations: Seq<LoopOperation>,
    marked_only: bool,
    at: int,
)
    requires
        at >= 0,
    ensures
        match loop_from(operations, marked_only, at) {
            Some(found) => {
                &&& at <= found < operations.len()
                &&& operations[found].kind@ == "affine.for"@
                &&& marked_only ==> operations[found].marked
                &&& forall|i: int|
                    at <= i < found ==> (#[trigger] operations[i]).kind@ != "affine.for"@ || (
                    marked_only && !operations[i].marked)
            },
            None => forall|i: int|
                at <= i < operations.len() ==> (#[trigger] operations[i]).kind@ != "affine.for"@ || (
                marked_only && !operations[i].marked),
        },
    decreases operations.len() - at,
{
    if at < operations.len() && !(operations[at].kind@ == "affine.for"@ && (marked_only
        ==> operations[at].marked)) {
        law_loop_is_the_first_one(operations, marked_only, at + 1);
    }
}

/// Only quotes.
pub open spec fn is_quotes(text: Seq<char>) -> bool {
    forall|i: int| 0 <= i < text.len() ==> #[trigger] text[i] == '"'
}

proof fn lemma_quotes_before(quotes: Seq<char>, text: Seq<char>)
    requires
        is_quotes(quotes),
        text.len() > 0,
        text[0] != '"',
    ensures
        drop_quotes_before(quotes + text) == text,
    decreases quotes.len(),
{
    if quotes.len() > 0 {
        assert(quotes[0] == '"');
        assert((quotes + text).skip(1) =~= quotes.skip(1) + text);
        lemma_quotes_before(quotes.skip(1), text);
    } else {
        assert(quotes + text =~= text);
    }
}

proof fn lemma_quotes_behind(text: Seq<char>, quotes: Seq<char>)
    requires
        is_quotes(quotes),
        text.len() > 0,
        text.last() != '"',
    ensures
        drop_quotes_behind(text + quotes) == text,
    decreases quotes.len(),
{
    if quotes.len() > 0 {
        assert(quotes[quotes.len() - 1] == '"');
        assert((text + quotes).drop_last() =~= text + quotes.drop_last());
        lemma_quotes_behind(text, quotes.drop_last());
    } else {
        assert(text + quotes =~= text);
    }
}

/// A name in quotes is the name.
pub proof fn law_quotes_are_taken_off(before: Seq<char>, name: Seq<char>, after: Seq<char>)
    requires
        is_quotes(before),
        is_quotes(after),
        name.len() > 0,
        name[0] != '"',
        name.last() != '"',
    ensures
        unquoted(before + name + after) == name,
{
    assert(before + name + after =~= before + (name + after));
    assert((name + after)[0] == name[0]);
    lemma_quotes_before(before, name + after);
    lemma_quotes_behind(name, after);
}

/// An operation of a kind.
pub open spec fn of_kind(kind: Seq<char>) -> spec_fn(ArrayOperation) -> bool {
    |operation: ArrayOperation| operation.kind@ == kind
}

/// The operations of a kind have known sizes.
pub open spec fn all_static(operations: Seq<ArrayOperation>) -> bool {
    forall|i: int, j: int|
        0 <= i < operations.len() && 0 <= j < operations[i].shape@.len()
            ==> #[trigger] operations[i].shape@[j] is Some
}

/// The declarations say what the operations do.
pub open spec fn sizes_agree(list: Seq<Declared>, operations: Seq<ArrayOperation>) -> bool {
    &&& list.len() == operations.len()
    &&& forall|i: int|
        0 <= i < list.len() ==> (#[trigger] list[i]).size.len() == operations[i].shape@.len()
    &&& forall|i: int, j: int|
        0 <= i < list.len() && 0 <= j < operations[i].shape@.len()
            ==> #[trigger] operations[i].shape@[j] == Some(list[i].size[j])
}

proof fn lemma_filter_take(operations: Seq<ArrayOperation>, kind: Seq<char>, count: nat)
    requires
        0 < count <= operations.len(),
    ensures
        operations.take(count as int).filter(of_kind(kind)) == if operations[count - 1].kind@
            == kind {
            operations.take(count - 1).filter(of_kind(kind)).push(operations[count - 1])
        } else {
            operations.take(count - 1).filter(of_kind(kind))
        },
{
    reveal(Seq::filter);
    assert(operations.take(count as int).drop_last() =~= operations.take(count - 1));
}

proof fn lemma_agree_push(
    list: Seq<Declared>,
    picked: Seq<ArrayOperation>,
    array: Declared,
    operation: ArrayOperation,
)
    requires
        sizes_agree(list, picked),
        all_static(picked),
        static_sizes(operation.shape@) == Some(array.size),
    ensures
        sizes_agree(list.push(array), picked.push(operation)),
        all_static(picked.push(operation)),
{
    let (longer, more) = (list.push(array), picked.push(operation));
    assert forall|i: int| 0 <= i < longer.len() implies (#[trigger] longer[i]).size.len()
        == more[i].shape@.len() by {
        if i < list.len() {
            assert(longer[i] == list[i] && more[i] == picked[i]);
        }
    }
    assert forall|i: int, j: int|
        0 <= i < longer.len() && 0 <= j < more[i].shape@.len() implies #[trigger] more[i].shape@[j]
        == Some(longer[i].size[j]) by {
        if i < list.len() {
            assert(longer[i] == list[i] && more[i] == picked[i]);
            assert(picked[i].shape@[j] == Some(list[i].size[j]));
        } else {
            assert(more[i] == operation);
            assert(operation.shape@[j] is Some);
        }
    }
}

proof fn lemma_dynamic_push(picked: Seq<ArrayOperation>, operation: ArrayOperation)
    requires
        !all_static(picked) || static_sizes(operation.shape@) is None,
    ensures
        !all_static(picked.push(operation)),
{
    let more = picked.push(operation);
    if all_static(more) {
        assert forall|i: int, j: int|
            0 <= i < picked.len() && 0 <= j < picked[i].shape@.len() implies #[trigger] picked[
            i].shape@[j] is Some by {
            assert(more[i] == picked[i]);
            assert(more[i].shape@[j] is Some);
        }
        assert forall|j: int| 0 <= j < operation.shape@.len() implies #[trigger] operation.shape@[
            j] is Some by {
            assert(more[picked.len() as int].shape@[j] is Some);
        }
    }
}

/// The arrays of a module are those of its `memref.global` operations, all of
/// them, in order, with their names and sizes; there is no list exactly where
/// one has a size that is not known.
pub proof fn law_every_global_is_declared(operations: Seq<ArrayOperation>, count: nat)
    requires
        count <= operations.len(),
    ensures
        ({
            let picked = operations.take(count as int).filter(of_kind("memref.global"@));
            match globals(operations, count) {
                Some(list) => {
                    &&& all_static(picked)
                    &&& sizes_agree(list, picked)
                    &&& forall|i: int|
                        0 <= i < list.len() ==> (#[trigger] list[i]).name == unquoted(
                            picked[i].symbol@,
                        )
                },
                None => !all_static(picked),
            }
        }),
    decreases count,
{
    let kind = "memref.global"@;
    if count == 0 {
        reveal(Seq::filter);
        assert(operations.take(0).filter(of_kind(kind)) =~= Seq::empty());
    } else {
        law_every_global_is_declared(operations, (count - 1) as nat);
        lemma_filter_take(operations, kind, count);
        let operation = operations[count - 1];
        let before = operations.take(count - 1).filter(of_kind(kind));
        if operation.kind@ == kind {
            match (globals(operations, (count - 1) as nat), static_sizes(operation.shape@)) {
                (Some(list), Some(size)) => {
                    let array = Declared { name: unquoted(operation.symbol@), size };
                    lemma_agree_push(list, before, array, operation);
                    let (longer, more) = (list.push(array), before.push(operation));
                    assert forall|i: int| 0 <= i < longer.len() implies (
                    #[trigger] longer[i]).name == unquoted(more[i].symbol@) by {
                        if i < list.len() {
                            assert(longer[i] == list[i] && more[i] == before[i]);
                        }
                    }
                },
                _ => {
                    lemma_dynamic_push(before, operation);
                },
            }
        }
    }
}

/// The arrays of a function are those of its `memref.alloc` operations, all of
/// them, in order, numbered from zero on, with their sizes; there is no list
/// exactly where one has a size that is not known.
pub proof fn law_every_allocation_is_numbered(operations: Seq<ArrayOperation>, count: nat)
    requires
        count <= operations.len(),
    ensures
        ({
            let picked = operations.take(count as int).filter(of_kind("memref.alloc"@));
            match allocated(operations, count) {
                Some(list) => {
                    &&& all_static(picked)
                    &&& sizes_agree(list, picked)
                    &&& forall|i: int|
                        0 <= i < list.len() ==> (#[trigger] list[i]).name == "ARRAY_"@ + decimal(
                            i as nat,
                        )
                },
                None => !all_static(picked),
            }
        }),
    decreases count,
{
    let kind = "memref.alloc"@;
    if count == 0 {
        reveal(Seq::filter);
        assert(operations.take(0).filter(of_kind(kind)) =~= Seq::empty());
    } else {
        law_every_allocation_is_numbered(operations, (count - 1) as nat);
        lemma_filter_take(operations, kind, count);
        let operation = operations[count - 1];
        let before = operations.take(count - 1).filter(of_kind(kind));
        if operation.kind@ == kind {
            match (allocated(operations, (count - 1) as nat), static_sizes(operation.shape@)) {
                (Some(list), Some(size)) => {
                    let array = Declared { name: "ARRAY_"@ + decimal(list.len()), size };
                    lemma_agree_push(list, before, array, operation);
                    let longer = list.push(array);
                    assert forall|i: int| 0 <= i < longer.len() implies (
                    #[trigger] longer[i]).name == "ARRAY_"@ + decimal(i as nat) by {
                        if i < list.len() {
                            assert(longer[i] == list[i]);
                        }
                    }
                },
                _ => {
                    lemma_dynamic_push(before, operation);
                },
            }
        }
    }
}

/// Every dimension without a name gets one, its letter and its number, and no
/// other does.
pub proof fn law_unnamed_dimensions_get_names(named: Seq<bool>, letter: char, count: nat)
    requires
        count <= named.len() <= usize::MAX,
    ensures
        forall|i: int|
            #![trigger filled_names(named, letter, count)[i]]
            0 <= i < filled_names(named, letter, count).len() ==> {
                let (dim, name) = filled_names(named, letter, count)[i];
                dim < count && !named[dim as int] && name == seq![letter] + decimal(dim as nat)
            },
        forall|dim: int|
            0 <= dim < count && !#[trigger] named[dim] ==> exists|i: int|
                0 <= i < filled_names(named, letter, count).len() && (#[trigger] filled_names(
                    named,
                    letter,
                    count,
                )[i]).0 == dim,
    decreases count,
{
    if count > 0 {
        law_unnamed_dimensions_get_names(named, letter, (count - 1) as nat);
        let before = filled_names(named, letter, (count - 1) as nat);
        let list = filled_names(named, letter, count);
        assert forall|i: int|
            #![trigger list[i]]
            0 <= i < list.len() implies {
            let (dim, name) = list[i];
            dim < count && !named[dim as int] && name == seq![letter] + decimal(dim as nat)
        } by {
            if i < before.len() {
                assert(list[i] == before[i]);
            }
        }
        assert forall|dim: int| 0 <= dim < count && !#[trigger] named[dim] implies exists|i: int|
            0 <= i < list.len() && (#[trigger] list[i]).0 == dim by {
            if dim == count - 1 {
                assert(list[list.len() - 1].0 == dim);
            } else {
                let i = choose|i: int| 0 <= i < before.len() && (#[trigger] before[i]).0 == dim;
                assert(list[i] == before[i]);
            }
        }
    }
}

/// The dimensions that matter are those whose name is a symbol of the
/// expression, or that it involves though they have no name.
pub proof fn law_involved_dims_are_those_that_matter(
    names: Seq<Option<String>>,
    symbols: Seq<Seq<char>>,
    involves: Seq<bool>,
    count: nat,
    dim: usize,
)
    requires
        count <= names.len() <= usize::MAX,
        count <= involves.len(),
    ensures
        involved(names, symbols, involves, count).contains(dim) <==> dim < count && match names[
        dim as int] {
            Some(name) => symbols.contains(name@),
            None => involves[dim as int],
        },
    decreases count,
{
    if count > 0 {
        law_involved_dims_are_those_that_matter(
            names,
            symbols,
            involves,
            (count - 1) as nat,
            dim,
        );
        let before = involved(names, symbols, involves, (count - 1) as nat);
        let list = involved(names, symbols, involves, count);
        if is_involved(names[count - 1], symbols, involves[count - 1]) {
            if before.contains(dim) {
                let i = before.index_of(dim);
                assert(list[i] == dim);
            }
            assert(list[list.len() - 1] == (count - 1) as usize);
            if list.contains(dim) {
                let i = list.index_of(dim);
                if i < before.len() {
                    assert(before[i] == dim);
                }
            }
        }
    } else {
        assert(involved(names, symbols, involves, count) =~= Seq::empty());
    }
}

/// A piece is merged into the first one of equal value.
pub proof fn law_first_true_is_the_first(flags: Seq<bool>, at: int)
    requires
        at >= 0,
    ensures
        match first_true(flags, at) {
            Some(found) => at <= found < flags.len() && flags[found] && forall|i: int|
                at <= i < found ==> !#[trigger] flags[i],
            None => forall|i: int| at <= i < flags.len() ==> !#[trigger] flags[i],
        },
    decreases flags.len() - at,
{
    if at < flags.len() && !flags[at] {
        law_first_true_is_the_first(flags, at + 1);
    }
}

/// The place at which a text is found is the first at which it occurs.
pub proof fn law_text_is_found_where_it_first_occurs(text: Seq<char>, part: Seq<char>, at: nat)
    ensures
        match find_text(text, part, at) {
            Some(found) => at <= found && occurs_at(text, part, found as int) && forall|i: int|
                at <= i < found ==> !#[trigger] occurs_at(text, part, i),
            None => forall|i: int| at <= i ==> !#[trigger] occurs_at(text, part, i),
        },
    decreases text.len() - at,
{
    if at < text.len() && !occurs_at(text, part, at as int) {
        law_text_is_found_where_it_first_occurs(text, part, at + 1);
    }
}

/// A symbol is among the operands.
pub open spec fn lists_symbol(operands: Seq<ValID>, symbol: int) -> bool {
    exists|i: int|
        0 <= i < operands.len() && (#[trigger] operands[i] matches ValID::Symbol(index) && index
            == symbol)
}

/// A tree speaks of a symbol.
pub open spec fn uses_symbol(tree: Tree, symbol: int) -> bool
    decreases tree,
{
    match tree {
        Tree::For { lower_bound_operands, upper_bound_operands, body, .. } => lists_symbol(
            lower_bound_operands@,
            symbol,
        ) || lists_symbol(upper_bound_operands@, symbol) || uses_symbol(*body, symbol),
        Tree::Block(stmts) => exists|i: int|
            0 <= i < stmts@.len() && uses_symbol(#[trigger] stmts[i], symbol),
        Tree::If { operands, then_branch, else_branch, .. } => lists_symbol(operands@, symbol)
            || uses_symbol(*then_branch, symbol) || (else_branch matches Some(otherwise)
            && uses_symbol(*otherwise, symbol)),
        Tree::Access { operands, .. } => lists_symbol(operands@, symbol),
    }
}

/// A tree, inside `depth` loops, has a loop at a level.
pub open spec fn has_loop(tree: Tree, depth: int, level: int) -> bool
    decreases tree,
{
    match tree {
        Tree::For { body, .. } => level == depth || has_loop(*body, depth + 1, level),
        Tree::Block(stmts) => exists|i: int|
            0 <= i < stmts@.len() && has_loop(#[trigger] stmts[i], depth, level),
        Tree::If { then_branch, else_branch, .. } => has_loop(*then_branch, depth, level) || (
        else_branch matches Some(otherwise) && has_loop(*otherwise, depth, level)),
        Tree::Access { .. } => false,
    }
}

proof fn lemma_noted(operands: Seq<ValID>, count: nat, facts: TreeFacts)
    requires
        count <= operands.len(),
    ensures
        noted(operands, count, facts).max_depth == facts.max_depth,
        noted(operands, count, facts).symbols >= facts.symbols,
        forall|i: int|
            0 <= i < count ==> (#[trigger] operands[i] matches ValID::Symbol(index) ==> index
                < usize::MAX ==> index < noted(operands, count, facts).symbols),
        noted(operands, count, facts).symbols > facts.symbols ==> exists|i: int|
            0 <= i < count && (#[trigger] operands[i] matches ValID::Symbol(index) && index + 1
                >= noted(operands, count, facts).symbols),
    decreases count,
{
    if count > 0 {
        lemma_noted(operands, (count - 1) as nat, facts);
        let before = noted(operands, (count - 1) as nat, facts);
        let after = noted(operands, count, facts);
        if after.symbols > facts.symbols {
            if after.symbols > before.symbols {
                assert(operands[count - 1] is Symbol);
            } else {
                let i = choose|i: int|
                    0 <= i < count - 1 && (#[trigger] operands[i] matches ValID::Symbol(index)
                        && index + 1 >= before.symbols);
                assert(operands[i] is Symbol);
            }
        }
    }
}

/// The number of symbols is one more than the largest that the tree speaks of,
/// and the depth is the deepest level at which it has a loop, as far as neither
/// was larger before.
pub proof fn law_facts_are_the_largest(tree: Tree, depth: nat, facts: TreeFacts)
    ensures
        facts_after(tree, depth, facts).symbols >= facts.symbols,
        facts_after(tree, depth, facts).max_depth >= facts.max_depth,
        forall|symbol: int| #[trigger]
            uses_symbol(tree, symbol) && symbol < usize::MAX ==> symbol < facts_after(
                tree,
                depth,
                facts,
            ).symbols,
        forall|level: int| #[trigger]
            has_loop(tree, depth as int, level) && level <= usize::MAX ==> level <= facts_after(
                tree,
                depth,
                facts,
            ).max_depth,
        facts_after(tree, depth, facts).symbols > facts.symbols ==> exists|symbol: int| #[trigger]
            uses_symbol(tree, symbol) && symbol + 1 >= facts_after(tree, depth, facts).symbols,
        facts_after(tree, depth, facts).max_depth > facts.max_depth ==> exists|level: int|
            #[trigger] has_loop(tree, depth as int, level) && level >= facts_after(
                tree,
                depth,
                facts,
            ).max_depth,
    decreases tree, 1int, 0int,
{
    match tree {
        Tree::For { lower_bound_operands, upper_bound_operands, body, .. } => {
            let (low, high) = (lower_bound_operands@, upper_bound_operands@);
            let one = noted(low, low.len(), facts);
            let two = noted(high, high.len(), one);
            lemma_noted(low, low.len(), facts);
            lemma_noted(high, high.len(), one);
            let three = TreeFacts {
                max_depth: crate::frontend::larger_count(two.max_depth, depth as int),
                ..two
            };
            law_facts_are_the_largest(*body, depth + 1, three);
            let after = facts_after(tree, depth, facts);
            assert(after == facts_after(*body, depth + 1, three));
            assert forall|symbol: int| #[trigger]
                uses_symbol(tree, symbol) && symbol < usize::MAX implies symbol < after.symbols by {
                if uses_symbol(*body, symbol) {
                }
            }
            if after.symbols > facts.symbols {
                if after.symbols > three.symbols {
                    let symbol = choose|symbol: int| #[trigger]
                        uses_symbol(*body, symbol) && symbol + 1 >= after.symbols;
                    assert(uses_symbol(tree, symbol));
                } else if two.symbols > one.symbols {
                    let i = choose|i: int|
                        0 <= i < high.len() && (#[trigger] high[i] matches ValID::Symbol(index)
                            && index + 1 >= two.symbols);
                    let symbol = high[i]->Symbol_0 as int;
                    assert(lists_symbol(high, symbol));
                    assert(uses_symbol(tree, symbol));
                } else {
                    let i = choose|i: int|
                        0 <= i < low.len() && (#[trigger] low[i] matches ValID::Symbol(index)
                            && index + 1 >= one.symbols);
                    let symbol = low[i]->Symbol_0 as int;
                    assert(lists_symbol(low, symbol));
                    assert(uses_symbol(tree, symbol));
                }
            }
            assert forall|level: int| #[trigger]
                has_loop(tree, depth as int, level) && level <= usize::MAX implies level
                <= after.max_depth by {
                if level != depth {
                    assert(has_loop(*body, depth as int + 1, level));
                    assert(has_loop(*body, (depth + 1) as int, level));
                }
            }
            if after.max_depth > facts.max_depth {
                if after.max_depth > three.max_depth {
                    let level = choose|level: int| #[trigger]
                        has_loop(*body, (depth + 1) as int, level) && level >= after.max_depth;
                    assert(has_loop(*body, depth as int + 1, level));
                    assert(has_loop(tree, depth as int, level));
                } else {
                    assert(has_loop(tree, depth as int, depth as int));
                }
            }
        },
        Tree::Block(stmts) => {
            lemma_facts_from(stmts, 0, depth, facts);
            let after = facts_after(tree, depth, facts);
            assert forall|symbol: int| #[trigger]
                uses_symbol(tree, symbol) && symbol < usize::MAX implies symbol < after.symbols by {
                let i = choose|i: int|
                    0 <= i < stmts@.len() && uses_symbol(#[trigger] stmts[i], symbol);
                assert(uses_symbol(stmts[i], symbol));
            }
            assert forall|level: int| #[trigger]
                has_loop(tree, depth as int, level) && level <= usize::MAX implies level
                <= after.max_depth by {
                let i = choose|i: int|
                    0 <= i < stmts@.len() && has_loop(#[trigger] stmts[i], depth as int, level);
                assert(has_loop(stmts[i], depth as int, level));
            }
            if after.symbols > facts.symbols {
                let (i, symbol) = choose|i: int, symbol: int|
                    0 <= i < stmts@.len() && #[trigger] uses_symbol(stmts[i], symbol) && symbol + 1
                        >= after.symbols;
                assert(uses_symbol(tree, symbol));
            }
            if after.max_depth > facts.max_depth {
                let (i, level) = choose|i: int, level: int|
                    0 <= i < stmts@.len() && #[trigger] has_loop(stmts[i], depth as int, level)
                        && level >= after.max_depth;
                assert(has_loop(tree, depth as int, level));
            }
        },
        Tree::If { operands, then_branch, else_branch, .. } => {
            let one = noted(operands@, operands@.len(), facts);
            lemma_noted(operands@, operands@.len(), facts);
            law_facts_are_the_largest(*then_branch, depth, one);
            let two = facts_after(*then_branch, depth, one);
            let after = facts_after(tree, depth, facts);
            if let Some(otherwise) = else_branch {
                law_facts_are_the_largest(*otherwise, depth, two);
                if after.symbols > two.symbols {
                    let symbol = choose|symbol: int| #[trigger]
                        uses_symbol(*otherwise, symbol) && symbol + 1 >= after.symbols;
                    assert(uses_symbol(tree, symbol));
                }
                if after.max_depth > two.max_depth {
                    let level = choose|level: int| #[trigger]
                        has_loop(*otherwise, depth as int, level) && level >= after.max_depth;
                    assert(has_loop(tree, depth as int, level));
                }
            }
            assert forall|symbol: int| #[trigger]
                uses_symbol(tree, symbol) && symbol < usize::MAX implies symbol < after.symbols by {
                if uses_symbol(*then_branch, symbol) {
                } else if let Some(otherwise) = else_branch {
                    if uses_symbol(*otherwise, symbol) {
                    }
                }
            }
            assert forall|level: int| #[trigger]
                has_loop(tree, depth as int, level) && level <= usize::MAX implies level
                <= after.max_depth by {
                if has_loop(*then_branch, depth as int, level) {
                } else if let Some(otherwise) = else_branch {
                    if has_loop(*otherwise, depth as int, level) {
                    }
                }
            }
            if after.symbols == two.symbols && two.symbols > facts.symbols {
                if two.symbols > one.symbols {
                    let symbol = choose|symbol: int| #[trigger]
                        uses_symbol(*then_branch, symbol) && symbol + 1 >= two.symbols;
                    assert(uses_symbol(tree, symbol));
                } else {
                    let i = choose|i: int|
                        0 <= i < operands@.len() && (#[trigger] operands@[i] matches ValID::Symbol(
                            index,
                        ) && index + 1 >= one.symbols);
                    let symbol = operands@[i]->Symbol_0 as int;
                    assert(lists_symbol(operands@, symbol));
                    assert(uses_symbol(tree, symbol));
                }
            }
            if after.max_depth == two.max_depth && two.max_depth > facts.max_depth {
                let level = choose|level: int| #[trigger]
                    has_loop(*then_branch, depth as int, level) && level >= two.max_depth;
                assert(has_loop(tree, depth as int, level));
            }
        },
        Tree::Access { operands, .. } => {
            lemma_noted(operands@, operands@.len(), facts);
            let after = facts_after(tree, depth, facts);
            if after.symbols > facts.symbols {
                let i = choose|i: int|
                    0 <= i < operands@.len() && (#[trigger] operands@[i] matches ValID::Symbol(
                        index,
                    ) && index + 1 >= after.symbols);
                let symbol = operands@[i]->Symbol_0 as int;
                assert(lists_symbol(operands@, symbol));
                assert(uses_symbol(tree, symbol));
            }
        },
    }
}

proof fn lemma_facts_from(stmts: Vec<Tree>, at: nat, depth: nat, facts: TreeFacts)
    ensures
        facts_after_from(stmts, at, depth, facts).symbols >= facts.symbols,
        facts_after_from(stmts, at, depth, facts).max_depth >= facts.max_depth,
        forall|i: int, symbol: int|
            at <= i < stmts@.len() && #[trigger] uses_symbol(stmts[i], symbol) && symbol
                < usize::MAX ==> symbol < facts_after_from(stmts, at, depth, facts).symbols,
        forall|i: int, level: int|
            at <= i < stmts@.len() && #[trigger] has_loop(stmts[i], depth as int, level) && level
                <= usize::MAX ==> level <= facts_after_from(stmts, at, depth, facts).max_depth,
        facts_after_from(stmts, at, depth, facts).symbols > facts.symbols ==> exists|
            i: int,
            symbol: int,
        |
            at <= i < stmts@.len() && #[trigger] uses_symbol(stmts[i], symbol) && symbol + 1
                >= facts_after_from(stmts, at, depth, facts).symbols,
        facts_after_from(stmts, at, depth, facts).max_depth > facts.max_depth ==> exists|
            i: int,
            level: int,
        |
            at <= i < stmts@.len() && #[trigger] has_loop(stmts[i], depth as int, level) && level
                >= facts_after_from(stmts, at, depth, facts).max_depth,
    decreases stmts, 0int, stmts@.len() - at,
{
    if at < stmts@.len() {
        let stmt = stmts[at as int];
        let middle = facts_after(stmt, depth, facts);
        let after = facts_after_from(stmts, at, depth, facts);
        law_facts_are_the_largest(stmt, depth, facts);
        lemma_facts_from(stmts, at + 1, depth, middle);
        assert(after == facts_after_from(stmts, at + 1, depth, middle));
        if after.symbols > facts.symbols && after.symbols == middle.symbols {
            let symbol = choose|symbol: int| #[trigger]
                uses_symbol(stmt, symbol) && symbol + 1 >= middle.symbols;
            assert(uses_symbol(stmts[at as int], symbol));
        }
        if after.max_depth > facts.max_depth && after.max_depth == middle.max_depth {
            let level = choose|level: int| #[trigger]
                has_loop(stmt, depth as int, level) && level >= middle.max_depth;
            assert(has_loop(stmts[at as int], depth as int, level));
        }
    }
}

} // verus!
