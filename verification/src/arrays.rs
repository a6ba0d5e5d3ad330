//! The arrays of a simulated program: their declarations, and which of them a
//! tree accesses.

use crate::emit::{array_c_name, array_name};
use crate::text::{
    chars_of, decimal, find, first_of, lemma_first_of, parse_unsigned, push_decimal, slice_of,
    split, split_at, string_of, texts, trim, trimmed, unsigned_value,
};
use crate::tree::Tree;
use vstd::prelude::*;

verus! {

broadcast use vstd::std_specs::vec::axiom_vec_index_decreases;

/// An array of doubles.
#[derive(Debug)]
pub struct GlobalArrayDeclaration {
    pub name: String,
    pub size: Vec<usize>,
}

/// The name and the sizes of an array.
pub ghost struct Declared {
    pub name: Seq<char>,
    pub size: Seq<usize>,
}

impl View for GlobalArrayDeclaration {
    type V = Declared;

    open spec fn view(&self) -> Declared {
        Declared { name: self.name@, size: self.size@ }
    }
}

/// The declarations of a list.
pub open spec fn all_declared(list: Seq<GlobalArrayDeclaration>) -> Seq<Declared> {
    list.map_values(|array: GlobalArrayDeclaration| array@)
}

/// What is wrong with an entry of a list of array sizes.
#[derive(Debug)]
pub enum DimsError {
    /// No colon between the name and the sizes.
    Form { entry: String },
    /// A size that is not a number.
    NonNumeric { entry: String },
    /// A size of zero.
    Empty { entry: String },
}

/// The kind of the error, and the entry.
pub ghost enum DimsFailure {
    Form(Seq<char>),
    NonNumeric(Seq<char>),
    Empty(Seq<char>),
}

impl DimsError {
    pub open spec fn failure(&self) -> DimsFailure {
        match *self {
            DimsError::Form { entry } => DimsFailure::Form(entry@),
            DimsError::NonNumeric { entry } => DimsFailure::NonNumeric(entry@),
            DimsError::Empty { entry } => DimsFailure::Empty(entry@),
        }
    }

    /// The message of an error.
    pub open spec fn text(&self) -> Seq<char> {
        match *self {
            DimsError::Form { entry } => "simulation.dims entry `"@ + entry@
                + "` is not of the form NAME:D0xD1x..."@,
            DimsError::NonNumeric { entry } => "simulation.dims entry `"@ + entry@
                + "` has a non-numeric dimension"@,
            DimsError::Empty { entry } => "simulation.dims entry `"@ + entry@
                + "` has an empty dimension"@,
        }
    }

    /// The message of an error.
    pub fn message(&self) -> (text: String)
        ensures
            text@ == self.text(),
    {
        let mut text: String = String::new();
        text.push_str("simulation.dims entry `");
        match self {
            DimsError::Form { entry } => {
                text.push_str(entry.as_str());
                text.push_str("` is not of the form NAME:D0xD1x...");
            },
            DimsError::NonNumeric { entry } => {
                text.push_str(entry.as_str());
                text.push_str("` has a non-numeric dimension");
            },
            DimsError::Empty { entry } => {
                text.push_str(entry.as_str());
                text.push_str("` has an empty dimension");
            },
        }
        assert(text@ =~= self.text());
        text
    }
}

/// A size: a number with white space around it.
pub open spec fn size_value(piece: Seq<char>) -> Option<usize> {
    match unsigned_value(trimmed(piece), usize::MAX as nat) {
        Some(value) => Some(value as usize),
        None => None,
    }
}

/// Every piece is a size.
pub open spec fn all_sizes(pieces: Seq<Seq<char>>) -> bool {
    forall|i: int| 0 <= i < pieces.len() ==> (#[trigger] size_value(pieces[i])) is Some
}

/// The sizes of the pieces.
pub open spec fn sizes(pieces: Seq<Seq<char>>) -> Seq<usize> {
    pieces.map_values(|piece: Seq<char>| size_value(piece)->0)
}

/// One entry `NAME:D0xD1x...`.
pub open spec fn entry_value(entry: Seq<char>) -> Result<Declared, DimsFailure> {
    let colon = first_of(entry, ':');
    let pieces = split(entry.skip(colon + 1), 'x');
    if colon >= entry.len() {
        Err(DimsFailure::Form(entry))
    } else if !all_sizes(pieces) {
        Err(DimsFailure::NonNumeric(entry))
    } else if sizes(pieces).contains(0) {
        Err(DimsFailure::Empty(entry))
    } else {
        Ok(Declared { name: trimmed(entry.take(colon)), size: sizes(pieces) })
    }
}

/// The entries among the first pieces of a list; empty pieces do not count. The
/// first entry that is wrong decides.
pub open spec fn entries_value(pieces: Seq<Seq<char>>) -> Result<Seq<Declared>, DimsFailure>
    decreases pieces.len(),
{
    if pieces.len() == 0 {
        Ok(Seq::empty())
    } else {
        match entries_value(pieces.drop_last()) {
            Err(failure) => Err(failure),
            Ok(before) => {
                let entry = trimmed(pieces.last());
                if entry.len() == 0 {
                    Ok(before)
                } else {
                    match entry_value(entry) {
                        Err(failure) => Err(failure),
                        Ok(array) => Ok(before.push(array)),
                    }
                }
            },
        }
    }
}

/// A list of array sizes such as `ARRAY_0:200x220;ARRAY_1:200x240`.
pub open spec fn dims_value(raw: Seq<char>) -> Result<Seq<Declared>, DimsFailure> {
    entries_value(split(raw, ';'))
}

proof fn lemma_entries_failure(pieces: Seq<Seq<char>>, at: int)
    requires
        0 <= at <= pieces.len(),
        entries_value(pieces.take(at)) is Err,
    ensures
        entries_value(pieces) == entries_value(pieces.take(at)),
    decreases pieces.len() - at,
{
    if at == pieces.len() {
        assert(pieces.take(at) =~= pieces);
    } else {
        assert(pieces.take(at + 1).drop_last() =~= pieces.take(at));
        lemma_entries_failure(pieces, at + 1);
    }
}

fn parse_entry(entry: &Vec<char>) -> (array: Result<GlobalArrayDeclaration, DimsError>)
    ensures
        match entry_value(entry@) {
            Ok(expected) => array matches Ok(array) && array@ == expected,
            Err(expected) => array matches Err(error) && error.failure() == expected,
        },
{
    let colon: usize = find(entry, 0, ':');
    proof {
        assert(entry@.skip(0) =~= entry@);
        assert(entry@.subrange(0, entry@.len() as int) =~= entry@);
        lemma_first_of(entry@, ':');
    }
    if colon >= entry.len() {
        return Err(DimsError::Form { entry: string_of(entry, 0, entry.len()) });
    }
    let name: Vec<char> = slice_of(entry, 0, colon);
    let dims: Vec<char> = slice_of(entry, colon + 1, entry.len());
    assert(name@ =~= entry@.take(colon as int));
    assert(dims@ =~= entry@.skip(colon + 1));
    let pieces: Vec<Vec<char>> = split_at(&dims, 'x');
    let ghost parts = texts(pieces@);
    let mut size: Vec<usize> = Vec::new();
    let mut at: usize = 0;
    while at < pieces.len()
        invariant
            at <= pieces@.len(),
            parts == texts(pieces@),
            size@.len() == at,
            forall|i: int| 0 <= i < at ==> (#[trigger] size_value(parts[i])) == Some(size@[i]),
            parts == split(entry@.skip(colon + 1), 'x'),
            colon == first_of(entry@, ':'),
            colon < entry@.len(),
            entry@.subrange(0, entry@.len() as int) == entry@,
        decreases pieces@.len() - at,
    {
        let piece: Vec<char> = trim(&pieces[at]);
        assert(parts[at as int] == pieces@[at as int]@);
        match parse_unsigned(&piece, usize::MAX as u64) {
            Some(value) => {
                size.push(value as usize);
            },
            None => {
                assert(size_value(parts[at as int]) is None);
                return Err(DimsError::NonNumeric { entry: string_of(entry, 0, entry.len()) });
            },
        }
        at += 1;
    }
    assert(size@ =~= sizes(parts)) by {
        assert forall|i: int| 0 <= i < parts.len() implies size@[i] == sizes(parts)[i] by {
            assert(size_value(parts[i]) == Some(size@[i]));
        }
    }
    let mut check: usize = 0;
    while check < size.len()
        invariant
            check <= size@.len(),
            forall|i: int| 0 <= i < check ==> size@[i] != 0,
            size@ == sizes(parts),
            all_sizes(parts),
            parts == split(entry@.skip(colon + 1), 'x'),
            colon == first_of(entry@, ':'),
            colon < entry@.len(),
            entry@.subrange(0, entry@.len() as int) == entry@,
        decreases size@.len() - check,
    {
        if size[check] == 0 {
            assert(sizes(parts)[check as int] == 0);
            return Err(DimsError::Empty { entry: string_of(entry, 0, entry.len()) });
        }
        check += 1;
    }
    let short: Vec<char> = trim(&name);
    assert(short@.subrange(0, short@.len() as int) =~= short@);
    Ok(GlobalArrayDeclaration { name: string_of(&short, 0, short.len()), size })
}

/// Reads a list of array sizes such as `ARRAY_0:200x220;ARRAY_1:200x240`.
pub fn parse_simulation_dims(raw: &str) -> (arrays: Result<Vec<GlobalArrayDeclaration>, DimsError>)
    ensures
        match dims_value(raw@) {
            Ok(expected) => arrays matches Ok(arrays) && all_declared(arrays@) == expected,
            Err(expected) => arrays matches Err(error) && error.failure() == expected,
        },
{
    let chars: Vec<char> = chars_of(raw);
    let pieces: Vec<Vec<char>> = split_at(&chars, ';');
    let ghost parts = texts(pieces@);
    let mut out: Vec<GlobalArrayDeclaration> = Vec::new();
    let mut at: usize = 0;
    assert(parts.take(0) =~= Seq::empty());
    assert(all_declared(out@) =~= Seq::empty());
    while at < pieces.len()
        invariant
            at <= pieces@.len(),
            parts == texts(pieces@),
            dims_value(raw@) == entries_value(parts),
            entries_value(parts.take(at as int)) == Ok::<Seq<Declared>, DimsFailure>(
                all_declared(out@),
            ),
        decreases pieces@.len() - at,
    {
        let entry: Vec<char> = trim(&pieces[at]);
        proof {
            assert(parts[at as int] == pieces@[at as int]@);
            assert(parts.take(at + 1).drop_last() =~= parts.take(at as int));
        }
        if entry.len() > 0 {
            match parse_entry(&entry) {
                Ok(array) => {
                    let ghost before = all_declared(out@);
                    let ghost view = array@;
                    out.push(array);
                    assert(all_declared(out@) =~= before.push(view));
                },
                Err(error) => {
                    proof {
                        lemma_entries_failure(parts, at + 1);
                    }
                    return Err(error);
                },
            }
        }
        at += 1;
    }
    assert(parts.take(at as int) =~= parts);
    Ok(out)
}

/// The sizes from position `at` on, between brackets.
pub open spec fn brackets(size: Seq<usize>, at: nat) -> Seq<char>
    decreases size.len() - at,
{
    if at >= size.len() {
        Seq::empty()
    } else {
        let separator: Seq<char> = if at > 0 {
            seq![']', '[']
        } else {
            Seq::empty()
        };
        separator + decimal(size[at as int] as nat) + brackets(size, at + 1)
    }
}

/// The C declaration of an array.
pub open spec fn declaration_text(array: Declared, volatile: bool) -> Seq<char> {
    (if volatile {
        "volatile double "@
    } else {
        "double "@
    }) + array.name + seq!['['] + brackets(array.size, 0) + "];\n"@
}

/// Writes the C declaration of an array.
pub fn push_declaration(text: &mut String, array: &GlobalArrayDeclaration, volatile: bool)
    ensures
        final(text)@ == old(text)@ + declaration_text(array@, volatile),
{
    let ghost before = text@;
    if volatile {
        text.push_str("volatile double ");
    } else {
        text.push_str("double ");
    }
    text.push_str(array.name.as_str());
    text.push('[');
    let ghost start = text@;
    let mut at: usize = 0;
    let ghost mut seen: Seq<char> = Seq::empty();
    assert(text@ =~= start + seen);
    assert(seen + brackets(array.size@, 0) =~= brackets(array.size@, 0));
    while at < array.size.len()
        invariant
            at <= array.size@.len(),
            text@ == start + seen,
            brackets(array.size@, 0) == seen + brackets(array.size@, at as nat),
        decreases array.size@.len() - at,
    {
        let ghost rest = brackets(array.size@, (at + 1) as nat);
        let ghost separator: Seq<char> = if at > 0 {
            seq![']', '[']
        } else {
            Seq::empty()
        };
        if at > 0 {
            text.push(']');
            text.push('[');
        }
        push_decimal(text, array.size[at] as u64);
        proof {
            let more = separator + decimal(array.size@[at as int] as nat);
            assert(text@ =~= start + (seen + more));
            assert(seen + (more + rest) =~= (seen + more) + rest);
            seen = seen + more;
        }
        at += 1;
    }
    assert(seen + Seq::empty() =~= seen);
    text.push_str("];\n");
    assert(text@ =~= before + declaration_text(array@, volatile));
}

/// The arrays that a tree accesses, after those already known, each once.
pub open spec fn accessed(tree: Tree, known: Seq<Seq<char>>) -> Seq<Seq<char>>
    decreases tree, 0int,
{
    match tree {
        Tree::For { body, .. } => accessed(*body, known),
        Tree::Block(stmts) => accessed_from(stmts, 0, known),
        Tree::If { then_branch, else_branch, .. } => {
            let first = accessed(*then_branch, known);
            match else_branch {
                Some(otherwise) => accessed(*otherwise, first),
                None => first,
            }
        },
        Tree::Access { memref, .. } => match array_name(memref) {
            Some(name) => if known.contains(name) {
                known
            } else {
                known.push(name)
            },
            None => known,
        },
    }
}

pub open spec fn accessed_from(stmts: Vec<Tree>, at: nat, known: Seq<Seq<char>>) -> Seq<Seq<char>>
    decreases stmts, stmts@.len() - at,
{
    if at >= stmts@.len() {
        known
    } else {
        accessed_from(stmts, at + 1, accessed(stmts[at as int], known))
    }
}

/// The texts of a list of strings.
pub open spec fn names(list: Seq<String>) -> Seq<Seq<char>> {
    list.map_values(|name: String| name@)
}

/// Whether a name is in a list.
fn is_listed(list: &Vec<String>, name: &String) -> (yes: bool)
    ensures
        yes == names(list@).contains(name@),
{
    let mut at: usize = 0;
    while at < list.len()
        invariant
            at <= list@.len(),
            forall|i: int| 0 <= i < at ==> (#[trigger] list@[i])@ != name@,
        decreases list@.len() - at,
    {
        if list[at].eq(name) {
            assert(names(list@)[at as int] == name@);
            return true;
        }
        at += 1;
    }
    assert forall|i: int| 0 <= i < names(list@).len() implies names(list@)[i] != name@ by {
        assert(list@[i]@ != name@);
    }
    false
}

/// Adds the arrays that a tree accesses to a list, each once.
pub fn collect_accessed_arrays(tree: &Tree, out: &mut Vec<String>)
    ensures
        names(final(out)@) == accessed(*tree, names(old(out)@)),
    decreases *tree,
{
    match tree {
        Tree::For { body, .. } => collect_accessed_arrays(body, out),
        Tree::Block(stmts) => {
            let mut at: usize = 0;
            while at < stmts.len()
                invariant
                    at <= stmts@.len(),
                    *tree == Tree::Block(*stmts),
                    accessed(*tree, names(old(out)@)) == accessed_from(
                        *stmts,
                        at as nat,
                        names(out@),
                    ),
                decreases stmts@.len() - at,
            {
                assert(tree->Block_0 == *stmts);
                assert(decreases_to!(*tree => tree->Block_0));
                assert(decreases_to!(*stmts => stmts@[at as int]));
                collect_accessed_arrays(&stmts[at], out);
                at += 1;
            }
        },
        Tree::If { then_branch, else_branch, .. } => {
            collect_accessed_arrays(then_branch, out);
            match else_branch {
                Some(otherwise) => collect_accessed_arrays(otherwise, out),
                None => {},
            }
        },
        Tree::Access { memref, .. } => {
            match array_c_name(memref) {
                Some(name) => {
                    if !is_listed(out, &name) {
                        let ghost before = names(out@);
                        let ghost text = name@;
                        out.push(name);
                        assert(names(out@) =~= before.push(text));
                    }
                },
                None => {},
            }
        },
    }
}

/// A tree accesses an array of the given name.
pub open spec fn accesses_array(tree: Tree, name: Seq<char>) -> bool
    decreases tree,
{
    match tree {
        Tree::For { body, .. } => accesses_array(*body, name),
        Tree::Block(stmts) => exists|i: int|
            0 <= i < stmts@.len() && accesses_array(#[trigger] stmts[i], name),
        Tree::If { then_branch, else_branch, .. } => accesses_array(*then_branch, name) || (
        else_branch matches Some(otherwise) && accesses_array(*otherwise, name)),
        Tree::Access { memref, .. } => array_name(memref) == Some(name),
    }
}

/// The list of accessed arrays holds each array that was known or that the tree
/// accesses, and no array twice.
pub proof fn law_accessed_arrays_are_listed_once(tree: Tree, known: Seq<Seq<char>>, name: Seq<char>)
    requires
        known.no_duplicates(),
    ensures
        accessed(tree, known).no_duplicates(),
        accessed(tree, known).contains(name) <==> known.contains(name) || accesses_array(
            tree,
            name,
        ),
    decreases tree, 0int,
{
    match tree {
        Tree::For { body, .. } => {
            law_accessed_arrays_are_listed_once(*body, known, name);
        },
        Tree::Block(stmts) => {
            lemma_block_arrays(stmts, 0, known, name);
        },
        Tree::If { then_branch, else_branch, .. } => {
            law_accessed_arrays_are_listed_once(*then_branch, known, name);
            if let Some(otherwise) = else_branch {
                law_accessed_arrays_are_listed_once(
                    *otherwise,
                    accessed(*then_branch, known),
                    name,
                );
            }
        },
        Tree::Access { memref, .. } => {
            if let Some(found) = array_name(memref) {
                if !known.contains(found) {
                    let longer = known.push(found);
                    assert(longer[known.len() as int] == found);
                    assert forall|i: int| 0 <= i < known.len() implies #[trigger] longer[i]
                        == known[i] by {
                    }
                    if known.contains(name) {
                        let i = known.index_of(name);
                        assert(longer[i] == name);
                    }
                }
            }
        },
    }
}

proof fn lemma_block_arrays(stmts: Vec<Tree>, at: nat, known: Seq<Seq<char>>, name: Seq<char>)
    requires
        known.no_duplicates(),
    ensures
        accessed_from(stmts, at, known).no_duplicates(),
        accessed_from(stmts, at, known).contains(name) <==> known.contains(name) || exists|i: int|
            at <= i < stmts@.len() && accesses_array(#[trigger] stmts[i], name),
    decreases stmts, stmts@.len() - at,
{
    if at < stmts@.len() {
        let longer = accessed(stmts[at as int], known);
        law_accessed_arrays_are_listed_once(stmts[at as int], known, name);
        lemma_block_arrays(stmts, at + 1, longer, name);
        if accesses_array(stmts[at as int], name) {
            assert(exists|i: int| at <= i < stmts@.len() && accesses_array(#[trigger] stmts[i], name));
        }
        if exists|i: int| at <= i < stmts@.len() && accesses_array(#[trigger] stmts[i], name) {
            let i = choose|i: int|
                at <= i < stmts@.len() && accesses_array(#[trigger] stmts[i], name);
            if i > at {
                assert(at + 1 <= i);
            }
        }
    }
}

} // verus!
