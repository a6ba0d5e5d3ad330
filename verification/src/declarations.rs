//! The arrays that a module declares or allocates.

use crate::arrays::{all_declared, Declared, GlobalArrayDeclaration};
use crate::frontend::{unquote, unquoted};
use crate::text::{chars_of, decimal, push_decimal, same_text, string_of};
use vstd::prelude::*;

verus! {

/// An operation of a module or a function, with what it says of an array.
#[derive(Debug)]
pub struct ArrayOperation {
    /// The operation's name, such as `memref.global`.
    pub kind: String,
    /// The symbol that it defines, as printed.
    pub symbol: String,
    /// The sizes of the array type, where they are known.
    pub shape: Vec<Option<usize>>,
}

/// Why the arrays cannot be declared.
#[derive(Clone, Copy, Debug, PartialEq, Eq, Structural)]
pub enum ArrayError {
    /// An array with a size that is known at run time only.
    Dynamic,
}

impl ArrayError {
    /// The message of an error.
    pub fn message(self) -> (text: &'static str)
        ensures
            text@ == "dynamic dimension size is not supported"@,
    {
        "dynamic dimension size is not supported"
    }
}

/// The sizes of an array, if all are known.
pub open spec fn static_sizes(shape: Seq<Option<usize>>) -> Option<Seq<usize>> {
    if forall|i: int| 0 <= i < shape.len() ==> #[trigger] shape[i] is Some {
        Some(shape.map_values(|size: Option<usize>| size->0))
    } else {
        None
    }
}

/// The arrays that the first `count` operations of a module declare.
pub open spec fn globals(operations: Seq<ArrayOperation>, count: nat) -> Option<Seq<Declared>>
    decreases count,
{
    if count == 0 {
        Some(Seq::empty())
    } else {
        let operation = operations[count - 1];
        match globals(operations, (count - 1) as nat) {
            None => None,
            Some(before) => if operation.kind@ == "memref.global"@ {
                match static_sizes(operation.shape@) {
                    None => None,
                    Some(size) => Some(
                        before.push(Declared { name: unquoted(operation.symbol@), size }),
                    ),
                }
            } else {
                Some(before)
            },
        }
    }
}

/// The arrays that the first `count` operations of a function allocate,
/// numbered in their order.
pub open spec fn allocated(operations: Seq<ArrayOperation>, count: nat) -> Option<Seq<Declared>>
    decreases count,
{
    if count == 0 {
        Some(Seq::empty())
    } else {
        let operation = operations[count - 1];
        match allocated(operations, (count - 1) as nat) {
            None => None,
            Some(before) => if operation.kind@ == "memref.alloc"@ {
                match static_sizes(operation.shape@) {
                    None => None,
                    Some(size) => Some(
                        before.push(Declared { name: "ARRAY_"@ + decimal(before.len()), size }),
                    ),
                }
            } else {
                Some(before)
            },
        }
    }
}

proof fn lemma_globals_fail(operations: Seq<ArrayOperation>, at: nat, count: nat)
    requires
        at <= count,
        globals(operations, at) is None,
    ensures
        globals(operations, count) is None,
    decreases count,
{
    if at < count {
        lemma_globals_fail(operations, at, (count - 1) as nat);
    }
}

proof fn lemma_allocated_fail(operations: Seq<ArrayOperation>, at: nat, count: nat)
    requires
        at <= count,
        allocated(operations, at) is None,
    ensures
        allocated(operations, count) is None,
    decreases count,
{
    if at < count {
        lemma_allocated_fail(operations, at, (count - 1) as nat);
    }
}

fn sizes_of(shape: &Vec<Option<usize>>) -> (sizes: Option<Vec<usize>>)
    ensures
        match static_sizes(shape@) {
            Some(expected) => sizes matches Some(sizes) && sizes@ == expected,
            None => sizes is None,
        },
{
    let mut sizes: Vec<usize> = Vec::new();
    let mut at: usize = 0;
    while at < shape.len()
        invariant
            at <= shape@.len(),
            sizes@.len() == at,
            forall|i: int|
                0 <= i < at ==> #[trigger] shape@[i] is Some && sizes@[i] == shape@[i]->0,
        decreases shape@.len() - at,
    {
        match shape[at] {
            Some(size) => {
                sizes.push(size);
            },
            None => {
                assert(!(shape@[at as int] is Some));
                return None;
            },
        }
        at += 1;
    }
    assert(sizes@ =~= shape@.map_values(|size: Option<usize>| size->0));
    Some(sizes)
}

fn is_kind(operation: &ArrayOperation, kind: &str) -> (yes: bool)
    ensures
        yes == (operation.kind@ == kind@),
{
    same_text(&chars_of(operation.kind.as_str()), &chars_of(kind))
}

/// The arrays that the operations of a module declare.
pub fn extract_global_arrays(operations: &Vec<ArrayOperation>) -> (arrays: Result<
    Vec<GlobalArrayDeclaration>,
    ArrayError,
>)
    ensures
        match globals(operations@, operations@.len()) {
            Some(expected) => arrays matches Ok(arrays) && all_declared(arrays@) == expected,
            None => arrays matches Err(ArrayError::Dynamic),
        },
{
    let mut arrays: Vec<GlobalArrayDeclaration> = Vec::new();
    let mut at: usize = 0;
    assert(all_declared(arrays@) =~= Seq::empty());
    while at < operations.len()
        invariant
            at <= operations@.len(),
            globals(operations@, at as nat) == Some(all_declared(arrays@)),
        decreases operations@.len() - at,
    {
        let operation: &ArrayOperation = &operations[at];
        if is_kind(operation, "memref.global") {
            match sizes_of(&operation.shape) {
                Some(size) => {
                    let chars: Vec<char> = unquote(&chars_of(operation.symbol.as_str()));
                    let name: String = string_of(&chars, 0, chars.len());
                    assert(name@ =~= unquoted(operation.symbol@));
                    let ghost before = all_declared(arrays@);
                    let ghost last = Declared { name: name@, size: size@ };
                    arrays.push(GlobalArrayDeclaration { name, size });
                    assert(all_declared(arrays@) =~= before.push(last));
                },
                None => {
                    proof {
                        lemma_globals_fail(operations@, (at + 1) as nat, operations@.len());
                    }
                    return Err(ArrayError::Dynamic);
                },
            }
        }
        at += 1;
    }
    Ok(arrays)
}

/// The arrays that the operations of a function allocate.
pub fn collect_allocs(operations: &Vec<ArrayOperation>) -> (arrays: Result<
    Vec<GlobalArrayDeclaration>,
    ArrayError,
>)
    ensures
        match allocated(operations@, operations@.len()) {
            Some(expected) => arrays matches Ok(arrays) && all_declared(arrays@) == expected,
            None => arrays matches Err(ArrayError::Dynamic),
        },
{
    let mut arrays: Vec<GlobalArrayDeclaration> = Vec::new();
    let mut at: usize = 0;
    assert(all_declared(arrays@) =~= Seq::empty());
    while at < operations.len()
        invariant
            at <= operations@.len(),
            allocated(operations@, at as nat) == Some(all_declared(arrays@)),
        decreases operations@.len() - at,
    {
        let operation: &ArrayOperation = &operations[at];
        if is_kind(operation, "memref.alloc") {
            match sizes_of(&operation.shape) {
                Some(size) => {
                    let mut name: String = String::new();
                    name.push_str("ARRAY_");
                    push_decimal(&mut name, arrays.len() as u64);
                    assert(name@ =~= "ARRAY_"@ + decimal(arrays@.len()));
                    let ghost before = all_declared(arrays@);
                    let ghost last = Declared { name: name@, size: size@ };
                    arrays.push(GlobalArrayDeclaration { name, size });
                    assert(all_declared(arrays@) =~= before.push(last));
                },
                None => {
                    proof {
                        lemma_allocated_fail(operations@, (at + 1) as nat, operations@.len());
                    }
                    return Err(ArrayError::Dynamic);
                },
            }
        }
        at += 1;
    }
    Ok(arrays)
}

} // verus!
