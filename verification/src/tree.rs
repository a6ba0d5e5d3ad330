//! The affine loop tree: loops, conditionals and array accesses whose bounds,
//! conditions and subscripts are affine expressions.

use crate::text::{decimal, push_decimal};
use vstd::prelude::*;

verus! {

/// A value that an affine expression or an access refers to.
#[derive(Debug, PartialEq, Eq)]
pub enum ValID {
    /// A program parameter.
    Symbol(usize),
    /// The induction variable of the loop at a nesting depth.
    IVar(usize),
    /// A local array.
    Memref(usize),
    /// A global array: `handle` tells globals apart, as the address of the
    /// interned name does, and `name` is what it is called.
    Global { handle: usize, name: String },
}

/// An affine expression.
#[derive(Debug)]
pub enum AffineExpr {
    Constant(i64),
    Dim(usize),
    Symbol(usize),
    Add(Box<AffineExpr>, Box<AffineExpr>),
    Mul(Box<AffineExpr>, Box<AffineExpr>),
    Mod(Box<AffineExpr>, Box<AffineExpr>),
    FloorDiv(Box<AffineExpr>, Box<AffineExpr>),
    CeilDiv(Box<AffineExpr>, Box<AffineExpr>),
}

/// A list of affine expressions over a list of operands: first the dimensions,
/// `num_dims` of them, and then the symbols.
#[derive(Debug)]
pub struct AffineMap {
    pub num_dims: usize,
    pub results: Vec<AffineExpr>,
}

/// One condition of an integer set: `expr == 0` or `expr >= 0`.
#[derive(Debug)]
pub struct Constraint {
    pub expr: AffineExpr,
    pub equality: bool,
}

/// A conjunction of affine conditions.
#[derive(Debug)]
pub struct IntegerSet {
    pub num_dims: usize,
    pub constraints: Vec<Constraint>,
}

/// A node of the loop tree.
#[derive(Debug)]
pub enum Tree {
    For {
        lower_bound: AffineMap,
        upper_bound: AffineMap,
        lower_bound_operands: Vec<ValID>,
        upper_bound_operands: Vec<ValID>,
        step: i64,
        ivar: ValID,
        body: Box<Tree>,
    },
    Block(Vec<Tree>),
    If {
        condition: IntegerSet,
        operands: Vec<ValID>,
        then_branch: Box<Tree>,
        else_branch: Option<Box<Tree>>,
    },
    Access {
        /// Tells access sites apart.
        site: usize,
        memref: ValID,
        map: AffineMap,
        operands: Vec<ValID>,
        is_write: bool,
    },
}

impl ValID {
    /// How the value is written in messages.
    pub open spec fn text(&self) -> Seq<char> {
        match *self {
            ValID::Symbol(index) => seq!['s'] + decimal(index as nat),
            ValID::IVar(index) => seq!['i'] + decimal(index as nat),
            ValID::Memref(index) => seq!['m'] + decimal(index as nat),
            ValID::Global { handle, name } => name@,
        }
    }

    /// Appends how the value is written in messages.
    pub fn push_to(&self, text: &mut String)
        ensures
            final(text)@ == old(text)@ + self.text(),
    {
        let ghost before = text@;
        match self {
            ValID::Symbol(index) => {
                text.push('s');
                push_decimal(text, *index as u64);
            },
            ValID::IVar(index) => {
                text.push('i');
                push_decimal(text, *index as u64);
            },
            ValID::Memref(index) => {
                text.push('m');
                push_decimal(text, *index as u64);
            },
            ValID::Global { handle: _, name } => {
                text.push_str(name.as_str());
            },
        }
        proof {
            assert(text@ =~= before + self.text());
        }
    }
}

impl Clone for ValID {
    fn clone(&self) -> (copy: Self)
        ensures
            copy == *self,
    {
        match self {
            ValID::Symbol(index) => ValID::Symbol(*index),
            ValID::IVar(index) => ValID::IVar(*index),
            ValID::Memref(index) => ValID::Memref(*index),
            ValID::Global { handle, name } => ValID::Global { handle: *handle, name: name.clone() },
        }
    }
}

} // verus!
