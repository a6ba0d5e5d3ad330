//! The program that makes the accesses of a nest under a cache simulator.
//!
//! It holds a prologue from the module, the arrays, the permutation of blocks
//! where one is asked for, and the nest.

use crate::arrays::{
    accessed, all_declared, collect_accessed_arrays, declaration_text, names, push_declaration,
    Declared, GlobalArrayDeclaration,
};
use crate::block_hash::{emit_hash_preamble, is_power_of_two, preamble, HashError};
use crate::emit::{program_text, CProgramEmitter, EmitError};
use crate::frontend::{unquote, unquoted};
use crate::text::{chars_of, string_of};
use crate::tree::Tree;
use vstd::prelude::*;

verus! {

/// What `unescaper::unescape` makes of a text, if it accepts it.
pub uninterp spec fn unescaped(text: Seq<char>) -> Option<Seq<char>>;

/// A text without escape sequences.
pub open spec fn is_plain(text: Seq<char>) -> bool {
    !text.contains('\\')
}

/// `unescaper::unescape`: the text with its escape sequences replaced, or
/// nothing where there is a bad one. A text without a backslash has none and
/// stays as it is.
#[verifier::external_body]
fn unescape(text: &str) -> (plain: Option<String>)
    ensures
        unescaped(text@) == (match plain {
            Some(found) => Some(found@),
            None => None,
        }),
        is_plain(text@) ==> plain is Some && plain->0@ == text@,
{
    unescaper::unescape(text).ok()
}

/// Why there is no program.
#[derive(Debug)]
pub enum ProgramError {
    /// A prologue with a bad escape sequence.
    Prologue,
    /// Blocks that cannot be permuted.
    Hash { error: HashError },
    /// A tree that has no form in C.
    Emit { error: EmitError },
}

impl ProgramError {
    /// The message of an error.
    pub open spec fn text(&self) -> Seq<char> {
        match *self {
            ProgramError::Prologue => "the simulation prologue has a bad escape sequence"@,
            ProgramError::Hash { error } => error.text(),
            ProgramError::Emit { error } => error.text(),
        }
    }

    /// The message of an error.
    pub fn message(&self) -> (text: String)
        ensures
            text@ == self.text(),
    {
        match self {
            ProgramError::Prologue => {
                let mut text: String = String::new();
                text.push_str("the simulation prologue has a bad escape sequence");
                assert(text@ =~= self.text());
                text
            },
            ProgramError::Hash { error } => error.message(),
            ProgramError::Emit { error } => error.message(),
        }
    }
}

/// The prologue as it stands in the program.
pub open spec fn prologue_text(plain: Seq<char>) -> Seq<char> {
    "// Simulation Prologue:\n"@ + plain + "\n\n"@
}

/// The prologue of a program, from its text without escape sequences.
pub fn frame_prologue(plain: &str) -> (text: String)
    ensures
        text@ == prologue_text(plain@),
{
    let mut text: String = String::new();
    text.push_str("// Simulation Prologue:\n");
    text.push_str(plain);
    text.push_str("\n\n");
    assert(text@ =~= prologue_text(plain@));
    text
}

/// The prologue of a program, from the attribute of the module as it is
/// printed: in quotes and with escape sequences.
pub fn read_prologue(attribute: &str) -> (text: Result<String, ProgramError>)
    ensures
        match unescaped(unquoted(attribute@)) {
            Some(plain) => text matches Ok(text) && text@ == prologue_text(plain),
            None => text matches Err(ProgramError::Prologue),
        },
        is_plain(unquoted(attribute@)) ==> (text matches Ok(text) && text@ == prologue_text(
            unquoted(attribute@),
        )),
{
    let chars: Vec<char> = unquote(&chars_of(attribute));
    let quoted: String = string_of(&chars, 0, chars.len());
    assert(quoted@ =~= unquoted(attribute@));
    match unescape(quoted.as_str()) {
        Some(plain) => Ok(frame_prologue(plain.as_str())),
        None => Err(ProgramError::Prologue),
    }
}

/// The declarations of the first arrays.
pub open spec fn declarations(arrays: Seq<Declared>, volatile: bool, count: nat) -> Seq<char>
    decreases count,
{
    if count == 0 {
        Seq::empty()
    } else {
        declarations(arrays, volatile, (count - 1) as nat) + declaration_text(
            arrays[count - 1],
            volatile,
        )
    }
}

fn push_declarations(text: &mut String, arrays: &Vec<GlobalArrayDeclaration>, volatile: bool)
    ensures
        final(text)@ == old(text)@ + declarations(
            all_declared(arrays@),
            volatile,
            arrays@.len(),
        ),
{
    let ghost before = text@;
    let ghost views = all_declared(arrays@);
    let mut at: usize = 0;
    assert(text@ =~= before + declarations(views, volatile, 0));
    while at < arrays.len()
        invariant
            at <= arrays@.len(),
            views == all_declared(arrays@),
            text@ == before + declarations(views, volatile, at as nat),
        decreases arrays@.len() - at,
    {
        push_declaration(text, &arrays[at], volatile);
        assert(views[at as int] == arrays@[at as int]@);
        assert(text@ =~= before + declarations(views, volatile, (at + 1) as nat));
        at += 1;
    }
}

/// What stands before the nest, apart from the permutation of blocks: the
/// prologue, the arrays of the module, and the arrays whose sizes an attribute
/// gives.
pub open spec fn head_text(prologue: Seq<char>, arrays: Seq<Declared>, dims: Seq<Declared>) -> Seq<
    char,
> {
    prologue + declarations(arrays, false, arrays.len()) + declarations(dims, true, dims.len())
}

/// The outcome of writing the nest behind what stands before it.
pub open spec fn is_program(
    program: Result<String, ProgramError>,
    head: Seq<char>,
    tree: Tree,
    hashed: bool,
    entry: Seq<char>,
    exit: Seq<char>,
) -> bool {
    match program_text(tree, hashed, entry, exit) {
        Ok(text) => program matches Ok(program) && program@ == head + text,
        Err(error) => program matches Err(ProgramError::Emit { error: found }) && found == error,
    }
}

/// Writes the program of a nest. `prologue` stands first, `arrays` are those
/// of the module and `dims` those whose sizes an attribute gives. With a block
/// size in `hash` the blocks are permuted. `entry` and `exit` are as in
/// [`CProgramEmitter::emit`].
pub fn write_program(
    prologue: &str,
    arrays: Vec<GlobalArrayDeclaration>,
    dims: Vec<GlobalArrayDeclaration>,
    tree: &Tree,
    hash: Option<usize>,
    entry: &str,
    exit: &str,
) -> (program: Result<String, ProgramError>)
    requires
        hash matches Some(block_size) ==> block_size > 0 && is_power_of_two(block_size as int),
    ensures
        ({
            let head = head_text(prologue@, all_declared(arrays@), all_declared(dims@));
            match hash {
                None => is_program(program, head, *tree, false, entry@, exit@),
                Some(block_size) => match preamble(
                    all_declared(arrays@) + all_declared(dims@),
                    accessed(*tree, Seq::empty()),
                    block_size as int,
                ) {
                    Ok(text) => is_program(program, head + text, *tree, true, entry@, exit@),
                    Err(Some(name)) => program matches Err(
                        ProgramError::Hash { error: HashError::Undeclared { name: found } },
                    ) && found@ == name,
                    Err(None) => program matches Err(
                        ProgramError::Hash { error: HashError::Overflow },
                    ),
                },
            }
        }),
{
    let mut text: String = String::new();
    let ghost head = head_text(prologue@, all_declared(arrays@), all_declared(dims@));
    text.push_str(prologue);
    push_declarations(&mut text, &arrays, false);
    push_declarations(&mut text, &dims, true);
    assert(text@ =~= head);
    match hash {
        Some(block_size) => {
            let mut all: Vec<GlobalArrayDeclaration> = arrays;
            let mut more: Vec<GlobalArrayDeclaration> = dims;
            all.append(&mut more);
            assert(all_declared(all@) =~= all_declared(arrays@) + all_declared(dims@));
            let mut list: Vec<String> = Vec::new();
            assert(names(list@) =~= Seq::empty());
            collect_accessed_arrays(tree, &mut list);
            match emit_hash_preamble(&mut text, &all, &list, block_size) {
                Ok(()) => {},
                Err(error) => {
                    return Err(ProgramError::Hash { error });
                },
            }
        },
        None => {},
    }
    match CProgramEmitter::new(hash.is_some()).emit(tree, entry, exit) {
        Ok(nest) => {
            text.push_str(nest.as_str());
            assert(Seq::<char>::empty() + nest@ =~= nest@);
            Ok(text)
        },
        Err(error) => Err(ProgramError::Emit { error }),
    }
}

} // verus!
