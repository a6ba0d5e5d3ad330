//! Loop trees as C programs.
//!
//! The program consists of the loops, branches and accesses of the tree and
//! nothing else, so that a cache simulator sees no other memory traffic. The
//! addresses are those of the tree as far as C arithmetic gives its affine
//! expressions: `/` and `%` truncate toward zero, which differs from rounding
//! down where the dividend is negative. A bound with several results is written
//! with `][` between them, as subscripts are, and is then not a C expression.

use crate::quasi_affine::{ceil_quotient, expr_int, operand_int};
use crate::text::{decimal, push_decimal, push_signed, signed_decimal};
use crate::tree::{AffineExpr, AffineMap, Constraint, IntegerSet, Tree, ValID};
use vstd::prelude::*;

verus! {

broadcast use vstd::std_specs::vec::axiom_vec_index_decreases;

/// What cannot be written as a C program.
#[derive(Debug)]
pub enum EmitError {
    /// A loop driven by something else than an induction variable.
    NotAnIvar { ivar: ValID },
    /// An access to something else than an array.
    NotAnArray { array: ValID },
    /// An array where an integer belongs.
    MemrefOperand,
    /// A position past the end of the operand list.
    BadPosition,
    /// More nesting than can be counted.
    TooDeep,
}

impl EmitError {
    /// The message of an error.
    pub open spec fn text(&self) -> Seq<char> {
        match *self {
            EmitError::NotAnIvar { ivar } => "expected ivar in for loop, found: "@ + ivar.text(),
            EmitError::NotAnArray { array } => "expected memref/global in access, found: "@
                + array.text(),
            EmitError::MemrefOperand => "global/memref cannot be used as operand"@,
            EmitError::BadPosition => "invalid operand index"@,
            EmitError::TooDeep => "the loop nest is too deep"@,
        }
    }

    /// The message of an error.
    pub fn message(&self) -> (text: String)
        ensures
            text@ == self.text(),
    {
        let mut text: String = String::new();
        match self {
            EmitError::NotAnIvar { ivar } => {
                text.push_str("expected ivar in for loop, found: ");
                ivar.push_to(&mut text);
            },
            EmitError::NotAnArray { array } => {
                text.push_str("expected memref/global in access, found: ");
                array.push_to(&mut text);
            },
            EmitError::MemrefOperand => {
                text.push_str("global/memref cannot be used as operand");
            },
            EmitError::BadPosition => {
                text.push_str("invalid operand index");
            },
            EmitError::TooDeep => {
                text.push_str("the loop nest is too deep");
            },
        }
        assert(text@ =~= self.text());
        text
    }
}

/// Written text, or why there is none.
pub type Written = Result<Seq<char>, EmitError>;

/// One text behind another, or the first error.
#[verifier::opaque]
pub open spec fn join(left: Written, right: Written) -> Written {
    match left {
        Err(error) => Err(error),
        Ok(l) => match right {
            Err(error) => Err(error),
            Ok(r) => Ok(l + r),
        },
    }
}

/// A binary operation in parentheses.
pub open spec fn binary_text(left: Written, operator: Seq<char>, right: Written) -> Written {
    join(join(join(Ok("("@), left), Ok(operator)), join(right, Ok(")"@)))
}

/// `l % r > 0`, which is one where a quotient cut toward zero is below the
/// quotient rounded up.
pub open spec fn excess_text(left: Written, right: Written) -> Written {
    join(join(Ok("("@), binary_text(left, " %"@, right)), Ok(" > 0)"@))
}

/// The quotient rounded up, as `l / r + (l % r > 0)`.
pub open spec fn ceiling_text(left: Written, right: Written) -> Written {
    binary_text(binary_text(left, " /"@, right), " +"@, excess_text(left, right))
}

/// The number of an operand.
pub open spec fn operand_id(operand: ValID) -> Option<usize> {
    match operand {
        ValID::IVar(id) => Some(id),
        ValID::Symbol(id) => Some(id),
        _ => None,
    }
}

/// Every operand has a number.
pub open spec fn all_integers(operands: Seq<ValID>) -> bool {
    forall|i: int| 0 <= i < operands.len() ==> (#[trigger] operand_id(operands[i])) is Some
}

/// An operand as a C variable.
pub open spec fn variable_text(operands: Seq<ValID>, position: int, prefix: Seq<char>) -> Written {
    if position < operands.len() {
        Ok(prefix + seq!['_'] + decimal(operand_id(operands[position])->0 as nat))
    } else {
        Err(EmitError::BadPosition)
    }
}

/// A number, in parentheses where it is negative.
pub open spec fn constant_text(value: int) -> Seq<char> {
    if value < 0 {
        seq!['('] + signed_decimal(value) + seq![')']
    } else {
        signed_decimal(value)
    }
}

/// An affine expression in C, over operands of which the first `num_dims` are
/// dimensions and the others symbols.
pub open spec fn expr_text(expr: AffineExpr, operands: Seq<ValID>, num_dims: int) -> Written
    decreases expr,
{
    match expr {
        AffineExpr::Constant(value) => Ok(constant_text(value as int)),
        AffineExpr::Dim(position) => variable_text(operands, position as int, "ivar"@),
        AffineExpr::Symbol(position) => variable_text(operands, num_dims + position, "SYM"@),
        AffineExpr::Add(l, r) => binary_text(
            expr_text(*l, operands, num_dims),
            " +"@,
            expr_text(*r, operands, num_dims),
        ),
        AffineExpr::Mul(l, r) => binary_text(
            expr_text(*l, operands, num_dims),
            " *"@,
            expr_text(*r, operands, num_dims),
        ),
        AffineExpr::Mod(l, r) => binary_text(
            expr_text(*l, operands, num_dims),
            " %"@,
            expr_text(*r, operands, num_dims),
        ),
        AffineExpr::FloorDiv(l, r) => binary_text(
            expr_text(*l, operands, num_dims),
            " /"@,
            expr_text(*r, operands, num_dims),
        ),
        AffineExpr::CeilDiv(l, r) => {
            let (left, right) = (
                expr_text(*l, operands, num_dims),
                expr_text(*r, operands, num_dims),
            );
            ceiling_text(left, right)
        },
    }
}

/// One result of a map, behind brackets unless it is the first.
pub open spec fn result_text(map: AffineMap, operands: Seq<ValID>, at: nat) -> Written {
    join(
        Ok(
            if at > 0 {
                "]["@
            } else {
                ""@
            },
        ),
        expr_text(map.results@[at as int], operands, map.num_dims as int),
    )
}

/// The results of a map from position `at` on, as subscripts.
pub open spec fn results_text(map: AffineMap, operands: Seq<ValID>, at: nat) -> Written
    decreases map.results@.len() - at,
{
    if at >= map.results@.len() {
        Ok(Seq::empty())
    } else {
        join(result_text(map, operands, at), results_text(map, operands, at + 1))
    }
}

/// A map as subscripts.
pub open spec fn map_text(map: AffineMap, operands: Seq<ValID>) -> Written {
    if all_integers(operands) {
        results_text(map, operands, 0)
    } else {
        Err(EmitError::MemrefOperand)
    }
}

/// One condition of a set, behind an `&&` unless it is the first.
pub open spec fn condition_text(
    constraint: Constraint,
    operands: Seq<ValID>,
    num_dims: int,
    first: bool,
) -> Written {
    join(
        join(
            Ok(
                if first {
                    "(("@
                } else {
                    " && (("@
                },
            ),
            expr_text(constraint.expr, operands, num_dims),
        ),
        Ok(
            if constraint.equality {
                ") == 0)"@
            } else {
                ") >= 0)"@
            },
        ),
    )
}

/// The conditions of a set from position `at` on.
pub open spec fn conditions_text(set: IntegerSet, operands: Seq<ValID>, at: nat) -> Written
    decreases set.constraints@.len() - at,
{
    if at >= set.constraints@.len() {
        Ok(Seq::empty())
    } else {
        join(
            condition_text(set.constraints@[at as int], operands, set.num_dims as int, at == 0),
            conditions_text(set, operands, at + 1),
        )
    }
}

/// A set as a condition.
pub open spec fn set_text(set: IntegerSet, operands: Seq<ValID>) -> Written {
    if set.constraints@.len() > 0 && !all_integers(operands) {
        Err(EmitError::MemrefOperand)
    } else {
        join(join(Ok("("@), conditions_text(set, operands, 0)), Ok(")"@))
    }
}

/// The C name of an array.
pub open spec fn array_name(array: ValID) -> Option<Seq<char>> {
    match array {
        ValID::Memref(id) => Some("ARRAY_"@ + decimal(id as nat)),
        ValID::Global { name, .. } => Some(name@),
        _ => None,
    }
}

/// What stands before the subscripts of an access.
pub open spec fn access_head(name: Seq<char>, hashed: bool) -> Seq<char> {
    if hashed {
        "{ __access(__OFF_"@ + name + " + (unsigned long)((const volatile char *)&"@ + name
            + "["@
    } else {
        "{ "@ + name + "["@
    }
}

/// What stands behind the subscripts of an access.
pub open spec fn access_tail(name: Seq<char>, hashed: bool) -> Seq<char> {
    if hashed {
        "] - (const volatile char *)&"@ + name
            + ")); __asm__ __volatile__ (\"\" ::: \"memory\"); }"@
    } else {
        "] = 0; __asm__ __volatile__ (\"\" ::: \"memory\"); }"@
    }
}

/// An access in C.
pub open spec fn access_text(
    array: ValID,
    map: AffineMap,
    operands: Seq<ValID>,
    hashed: bool,
) -> Written {
    match array_name(array) {
        None => Err(EmitError::NotAnArray { array }),
        Some(name) => join(
            join(Ok(access_head(name, hashed)), map_text(map, operands)),
            Ok(access_tail(name, hashed)),
        ),
    }
}

/// Tabs.
pub open spec fn tabs(indent: nat) -> Seq<char> {
    Seq::new(indent, |i: int| '\t')
}

/// A line that closes a block.
pub open spec fn closing(indent: nat) -> Seq<char> {
    tabs(indent) + "}\n"@
}

/// What stands before the bounds of a loop.
pub open spec fn for_start(index: usize, indent: nat) -> Seq<char> {
    tabs(indent) + "for (int ivar_"@ + decimal(index as nat) + " = "@
}

/// What stands between the bounds of a loop.
pub open spec fn for_test(index: usize) -> Seq<char> {
    "; ivar_"@ + decimal(index as nat) + " < "@
}

/// What stands behind the bounds of a loop.
pub open spec fn for_step(index: usize, step: i64) -> Seq<char> {
    "; ivar_"@ + decimal(index as nat) + " += "@ + signed_decimal(step as int) + ") {\n"@
}

/// The line that opens a loop.
pub open spec fn for_head(
    lower_bound: AffineMap,
    lower_bound_operands: Seq<ValID>,
    upper_bound: AffineMap,
    upper_bound_operands: Seq<ValID>,
    step: i64,
    index: usize,
    indent: nat,
) -> Written {
    join(
        join(
            join(
                Ok(for_start(index, indent)),
                map_text(lower_bound, lower_bound_operands),
            ),
            Ok(for_test(index)),
        ),
        join(map_text(upper_bound, upper_bound_operands), Ok(for_step(index, step))),
    )
}

/// The line that opens a branch.
pub open spec fn if_head(condition: IntegerSet, operands: Seq<ValID>, indent: nat) -> Written {
    join(join(Ok(tabs(indent) + "if "@), set_text(condition, operands)), Ok(" {\n"@))
}

/// A tree in C.
pub open spec fn tree_text(tree: Tree, indent: nat, hashed: bool) -> Written
    decreases tree, 0int,
{
    match tree {
        Tree::For {
            lower_bound,
            upper_bound,
            lower_bound_operands,
            upper_bound_operands,
            step,
            ivar,
            body,
        } => match ivar {
            ValID::IVar(index) => if indent >= usize::MAX {
                Err(EmitError::TooDeep)
            } else {
                join(
                    for_head(
                        lower_bound,
                        lower_bound_operands@,
                        upper_bound,
                        upper_bound_operands@,
                        step,
                        index,
                        indent,
                    ),
                    body_text(*body, indent, hashed),
                )
            },
            _ => Err(EmitError::NotAnIvar { ivar }),
        },
        Tree::Block(stmts) => if indent >= usize::MAX {
            Err(EmitError::TooDeep)
        } else {
            join(
                join(Ok(tabs(indent) + "{\n"@), stmts_text(stmts, 0, indent + 1, hashed)),
                Ok(closing(indent)),
            )
        },
        Tree::Access { memref, map, operands, .. } => join(
            Ok(tabs(indent)),
            access_text(memref, map, operands@, hashed),
        ),
        Tree::If { condition, operands, then_branch, else_branch } => if indent >= usize::MAX {
            Err(EmitError::TooDeep)
        } else {
            let first = then_text(condition, operands@, *then_branch, indent, hashed);
            match else_branch {
                None => first,
                Some(otherwise) => join(first, else_text(*otherwise, indent, hashed)),
            }
        },
    }
}

/// A part of a tree, one level deeper, and the line that closes it.
pub open spec fn body_text(body: Tree, indent: nat, hashed: bool) -> Written
    decreases body, 1int,
{
    join(tree_text(body, indent + 1, hashed), Ok(closing(indent)))
}

/// A branch that is taken where its condition holds.
pub open spec fn then_text(
    condition: IntegerSet,
    operands: Seq<ValID>,
    branch: Tree,
    indent: nat,
    hashed: bool,
) -> Written
    decreases branch, 2int,
{
    join(if_head(condition, operands, indent), body_text(branch, indent, hashed))
}

/// A branch that is taken otherwise.
pub open spec fn else_text(branch: Tree, indent: nat, hashed: bool) -> Written
    decreases branch, 2int,
{
    join(Ok(tabs(indent) + "else {\n"@), body_text(branch, indent, hashed))
}

/// The statements of a block from position `at` on, each on its own line.
pub open spec fn stmts_text(stmts: Vec<Tree>, at: nat, indent: nat, hashed: bool) -> Written
    decreases stmts, stmts@.len() - at,
{
    if at >= stmts@.len() {
        Ok(Seq::empty())
    } else {
        join(
            join(tree_text(stmts[at as int], indent, hashed), Ok(seq!['\n'])),
            stmts_text(stmts, at + 1, indent, hashed),
        )
    }
}

/// A whole program: the line that opens its entry point, the tree, the
/// instructions that end it, and the closing line.
pub open spec fn program_text(tree: Tree, hashed: bool, entry: Seq<char>, exit: Seq<char>) -> Written {
    join(
        join(Ok(entry + seq!['\n']), tree_text(tree, 1, hashed)),
        Ok(tabs(1) + exit + seq!['}', '\n']),
    )
}

/// Writes a program.
pub struct CProgramEmitter {
    text: String,
    indent: usize,
    hashed: bool,
}

/// The text after some more was written to it, or the error.
spec fn appended(
    before: CProgramEmitter,
    after: CProgramEmitter,
    done: Result<(), EmitError>,
    written: Written,
) -> bool {
    &&& after.indent == before.indent || done is Err
    &&& after.hashed == before.hashed
    &&& match written {
        Ok(text) => done is Ok && after.text@ == before.text@ + text,
        Err(error) => done == Err::<(), EmitError>(error),
    }
}

impl CProgramEmitter {
    /// What has been written so far.
    pub closed spec fn written(&self) -> Seq<char> {
        self.text@
    }

    /// The number of tabs before a line.
    pub closed spec fn indentation(&self) -> nat {
        self.indent as nat
    }

    /// Whether accesses go through the permutation of blocks.
    pub closed spec fn is_hashed(&self) -> bool {
        self.hashed
    }

    pub fn new(hashed: bool) -> (emitter: Self)
        ensures
            emitter.written() == Seq::<char>::empty(),
            emitter.indentation() == 1,
            emitter.is_hashed() == hashed,
    {
        CProgramEmitter { text: String::new(), indent: 1, hashed }
    }

    /// Writes the tabs before a line.
    pub fn emit_indent(&mut self)
        ensures
            final(self).written() == old(self).written() + tabs(old(self).indentation()),
            final(self).indentation() == old(self).indentation(),
            final(self).is_hashed() == old(self).is_hashed(),
    {
        let ghost before = self.text@;
        let mut done: usize = 0;
        while done < self.indent
            invariant
                done <= self.indent,
                self.indent == old(self).indent,
                self.hashed == old(self).hashed,
                self.text@ =~= before + tabs(done as nat),
            decreases self.indent - done,
        {
            self.text.push('\t');
            done += 1;
        }
    }

    /// Writes a text.
    fn put(&mut self, text: &str)
        ensures
            appended(*old(self), *final(self), Ok(()), Ok(text@)),
    {
        self.text.push_str(text);
    }

    fn emit_affine_expr(
        &mut self,
        expr: &AffineExpr,
        operands: &Vec<ValID>,
        num_dims: usize,
    ) -> (done: Result<(), EmitError>)
        requires
            all_integers(operands@),
        ensures
            appended(*old(self), *final(self), done, expr_text(*expr, operands@, num_dims as int)),
        decreases *expr, 3int,
    {
        match expr {
            AffineExpr::Constant(value) => {
                self.emit_constant(*value);
                Ok(())
            },
            AffineExpr::Dim(position) => self.emit_variable(operands, *position, "ivar"),
            AffineExpr::Symbol(position) => match num_dims.checked_add(*position) {
                Some(place) => self.emit_variable(operands, place, "SYM"),
                None => {
                    assert(operands@.len() == operands.len());
                    Err(EmitError::BadPosition)
                },
            },
            AffineExpr::Add(l, r) => self.emit_binary(Ghost(*expr), l, " +", r, operands, num_dims),
            AffineExpr::Mul(l, r) => self.emit_binary(Ghost(*expr), l, " *", r, operands, num_dims),
            AffineExpr::Mod(l, r) => self.emit_binary(Ghost(*expr), l, " %", r, operands, num_dims),
            AffineExpr::FloorDiv(l, r) => {
                self.emit_binary(Ghost(*expr), l, " /", r, operands, num_dims)
            },
            AffineExpr::CeilDiv(l, r) => self.emit_ceil_div(Ghost(*expr), l, r, operands, num_dims),
        }
    }

    fn emit_constant(&mut self, value: i64)
        ensures
            appended(*old(self), *final(self), Ok(()), Ok(constant_text(value as int))),
    {
        if value < 0 {
            self.text.push('(');
        }
        push_signed(&mut self.text, value);
        if value < 0 {
            self.text.push(')');
        }
        assert(self.text@ =~= old(self).text@ + constant_text(value as int));
    }

    fn emit_variable(&mut self, operands: &Vec<ValID>, position: usize, prefix: &str) -> (done:
        Result<(), EmitError>)
        requires
            all_integers(operands@),
        ensures
            appended(
                *old(self),
                *final(self),
                done,
                variable_text(operands@, position as int, prefix@),
            ),
    {
        let ghost before = self.text@;
        if position >= operands.len() {
            return Err(EmitError::BadPosition);
        }
        assert(operand_id(operands@[position as int]) is Some);
        let target: usize = match &operands[position] {
            ValID::IVar(id) => *id,
            ValID::Symbol(id) => *id,
            _ => 0,
        };
        self.text.push_str(prefix);
        self.text.push('_');
        push_decimal(&mut self.text, target as u64);
        assert(self.text@ =~= before + (prefix@ + seq!['_'] + decimal(target as nat)));
        Ok(())
    }

    /// Writes a binary operation on two parts of the expression `parent`.
    fn emit_binary(
        &mut self,
        Ghost(parent): Ghost<AffineExpr>,
        left: &AffineExpr,
        operator: &str,
        right: &AffineExpr,
        operands: &Vec<ValID>,
        num_dims: usize,
    ) -> (done: Result<(), EmitError>)
        requires
            all_integers(operands@),
            decreases_to!(parent => *left),
            decreases_to!(parent => *right),
        ensures
            appended(
                *old(self),
                *final(self),
                done,
                binary_text(
                    expr_text(*left, operands@, num_dims as int),
                    operator@,
                    expr_text(*right, operands@, num_dims as int),
                ),
            ),
        decreases parent, 0int,
    {
        let ghost (l, r) = (
            expr_text(*left, operands@, num_dims as int),
            expr_text(*right, operands@, num_dims as int),
        );
        let ghost e0 = *self;
        self.put("(");
        let ghost e1 = *self;
        let first: Result<(), EmitError> = self.emit_affine_expr(left, operands, num_dims);
        let ghost e2 = *self;
        proof {
            lemma_then(e0, e1, e2, first, Ok("("@), l);
        }
        if first.is_err() {
            proof {
                lemma_stopped(e0, e2, first, join(Ok("("@), l), Ok(operator@));
                lemma_stopped(
                    e0,
                    e2,
                    first,
                    join(join(Ok("("@), l), Ok(operator@)),
                    join(r, Ok(")"@)),
                );
            }
            return first;
        }
        self.put(operator);
        let ghost e3 = *self;
        proof {
            lemma_then(e0, e2, e3, Ok(()), join(Ok("("@), l), Ok(operator@));
        }
        let ghost head = join(join(Ok("("@), l), Ok(operator@));
        let second: Result<(), EmitError> = self.emit_affine_expr(right, operands, num_dims);
        let ghost e4 = *self;
        if second.is_err() {
            proof {
                lemma_stopped(e3, e4, second, r, Ok(")"@));
                lemma_then(e0, e3, e4, second, head, join(r, Ok(")"@)));
            }
            return second;
        }
        self.put(")");
        proof {
            lemma_then(e3, e4, *self, Ok(()), r, Ok(")"@));
            lemma_then(e0, e3, *self, Ok(()), head, join(r, Ok(")"@)));
        }
        Ok(())
    }

    /// Writes `l % r > 0` of two parts of the expression `parent`.
    fn emit_excess(
        &mut self,
        Ghost(parent): Ghost<AffineExpr>,
        left: &AffineExpr,
        right: &AffineExpr,
        operands: &Vec<ValID>,
        num_dims: usize,
    ) -> (done: Result<(), EmitError>)
        requires
            all_integers(operands@),
            decreases_to!(parent => *left),
            decreases_to!(parent => *right),
        ensures
            appended(
                *old(self),
                *final(self),
                done,
                excess_text(
                    expr_text(*left, operands@, num_dims as int),
                    expr_text(*right, operands@, num_dims as int),
                ),
            ),
        decreases parent, 1int,
    {
        let ghost (l, r) = (
            expr_text(*left, operands@, num_dims as int),
            expr_text(*right, operands@, num_dims as int),
        );
        let ghost rest = binary_text(l, " %"@, r);
        let ghost e0 = *self;
        self.put("(");
        let ghost e1 = *self;
        let done: Result<(), EmitError> = self.emit_binary(
            Ghost(parent),
            left,
            " %",
            right,
            operands,
            num_dims,
        );
        let ghost e2 = *self;
        proof {
            lemma_then(e0, e1, e2, done, Ok("("@), rest);
        }
        if done.is_err() {
            proof {
                lemma_stopped(e0, e2, done, join(Ok("("@), rest), Ok(" > 0)"@));
            }
            return done;
        }
        self.put(" > 0)");
        proof {
            lemma_then(e0, e2, *self, Ok(()), join(Ok("("@), rest), Ok(" > 0)"@));
        }
        Ok(())
    }

    /// Writes a quotient rounded up, of two parts of the expression `parent`.
    fn emit_ceil_div(
        &mut self,
        Ghost(parent): Ghost<AffineExpr>,
        left: &AffineExpr,
        right: &AffineExpr,
        operands: &Vec<ValID>,
        num_dims: usize,
    ) -> (done: Result<(), EmitError>)
        requires
            all_integers(operands@),
            decreases_to!(parent => *left),
            decreases_to!(parent => *right),
        ensures
            appended(
                *old(self),
                *final(self),
                done,
                ceiling_text(
                    expr_text(*left, operands@, num_dims as int),
                    expr_text(*right, operands@, num_dims as int),
                ),
            ),
        decreases parent, 2int,
    {
        let ghost (l, r) = (
            expr_text(*left, operands@, num_dims as int),
            expr_text(*right, operands@, num_dims as int),
        );
        let ghost (quotient, excess) = (binary_text(l, " /"@, r), excess_text(l, r));
        let ghost e0 = *self;
        self.put("(");
        let ghost e1 = *self;
        let first: Result<(), EmitError> = self.emit_binary(
            Ghost(parent),
            left,
            " /",
            right,
            operands,
            num_dims,
        );
        let ghost e2 = *self;
        let ghost open = join(Ok("("@), quotient);
        proof {
            lemma_then(e0, e1, e2, first, Ok("("@), quotient);
        }
        if first.is_err() {
            proof {
                lemma_stopped(e0, e2, first, open, Ok(" +"@));
                lemma_stopped(e0, e2, first, join(open, Ok(" +"@)), join(excess, Ok(")"@)));
            }
            return first;
        }
        self.put(" +");
        let ghost e3 = *self;
        let ghost head = join(open, Ok(" +"@));
        proof {
            lemma_then(e0, e2, e3, Ok(()), open, Ok(" +"@));
        }
        let second: Result<(), EmitError> = self.emit_excess(
            Ghost(parent),
            left,
            right,
            operands,
            num_dims,
        );
        let ghost e4 = *self;
        if second.is_err() {
            proof {
                lemma_stopped(e3, e4, second, excess, Ok(")"@));
                lemma_then(e0, e3, e4, second, head, join(excess, Ok(")"@)));
            }
            return second;
        }
        self.put(")");
        proof {
            lemma_then(e3, e4, *self, Ok(()), excess, Ok(")"@));
            lemma_then(e0, e3, *self, Ok(()), head, join(excess, Ok(")"@)));
        }
        Ok(())
    }

    fn emit_affine_map(&mut self, map: &AffineMap, operands: &Vec<ValID>) -> (done: Result<
        (),
        EmitError,
    >)
        ensures
            appended(*old(self), *final(self), done, map_text(*map, operands@)),
    {
        if !are_integers(operands) {
            return Err(EmitError::MemrefOperand);
        }
        let ghost e0 = *self;
        let ghost mut seen: Written = Ok(Seq::empty());
        let mut at: usize = 0;
        proof {
            assert(self.text@ + Seq::empty() =~= self.text@);
            lemma_join_empty(results_text(*map, operands@, 0));
        }
        while at < map.results.len()
            invariant
                at <= map.results@.len(),
                e0 == *old(self),
                all_integers(operands@),
                appended(e0, *self, Ok(()), seen),
                map_text(*map, operands@) == join(seen, results_text(*map, operands@, at as nat)),
            decreases map.results@.len() - at,
        {
            let ghost rest = results_text(*map, operands@, (at + 1) as nat);
            let ghost piece = result_text(*map, operands@, at as nat);
            let ghost e1 = *self;
            let done: Result<(), EmitError> = self.emit_result(map, operands, at);
            proof {
                lemma_then(e0, e1, *self, done, seen, piece);
                lemma_join_assoc(seen, piece, rest);
            }
            if done.is_err() {
                proof {
                    lemma_stopped(e0, *self, done, join(seen, piece), rest);
                }
                return done;
            }
            proof {
                seen = join(seen, piece);
            }
            at += 1;
        }
        proof {
            lemma_join_nothing(seen);
        }
        Ok(())
    }

    /// Writes one result of a map, behind brackets unless it is the first.
    fn emit_result(&mut self, map: &AffineMap, operands: &Vec<ValID>, at: usize) -> (done: Result<
        (),
        EmitError,
    >)
        requires
            all_integers(operands@),
            at < map.results@.len(),
        ensures
            appended(*old(self), *final(self), done, result_text(*map, operands@, at as nat)),
    {
        if at > 0 {
            self.put("][");
        } else {
            self.put("");
        }
        let ghost e1 = *self;
        let done: Result<(), EmitError> = self.emit_affine_expr(
            &map.results[at],
            operands,
            map.num_dims,
        );
        proof {
            lemma_then(
                *old(self),
                e1,
                *self,
                done,
                Ok(
                    if at > 0 {
                        "]["@
                    } else {
                        ""@
                    },
                ),
                expr_text(map.results@[at as int], operands@, map.num_dims as int),
            );
        }
        done
    }

    /// Writes one condition of a set, behind an `&&` unless it is the first.
    fn emit_condition(
        &mut self,
        constraint: &Constraint,
        operands: &Vec<ValID>,
        num_dims: usize,
        first: bool,
    ) -> (done: Result<(), EmitError>)
        requires
            all_integers(operands@),
        ensures
            appended(
                *old(self),
                *final(self),
                done,
                condition_text(*constraint, operands@, num_dims as int, first),
            ),
    {
        let ghost e0 = *self;
        let ghost head: Seq<char> = if first {
            "(("@
        } else {
            " && (("@
        };
        let ghost tail: Seq<char> = if constraint.equality {
            ") == 0)"@
        } else {
            ") >= 0)"@
        };
        if first {
            self.put("((");
        } else {
            self.put(" && ((");
        }
        let ghost e1 = *self;
        let ghost piece = expr_text(constraint.expr, operands@, num_dims as int);
        let done: Result<(), EmitError> = self.emit_affine_expr(
            &constraint.expr,
            operands,
            num_dims,
        );
        let ghost e2 = *self;
        proof {
            lemma_then(e0, e1, e2, done, Ok(head), piece);
        }
        if done.is_err() {
            proof {
                lemma_stopped(e0, e2, done, join(Ok(head), piece), Ok(tail));
            }
            return done;
        }
        if constraint.equality {
            self.put(") == 0)");
        } else {
            self.put(") >= 0)");
        }
        proof {
            lemma_then(e0, e2, *self, Ok(()), join(Ok(head), piece), Ok(tail));
        }
        Ok(())
    }

    fn emit_integer_set(&mut self, set: &IntegerSet, operands: &Vec<ValID>) -> (done: Result<
        (),
        EmitError,
    >)
        ensures
            appended(*old(self), *final(self), done, set_text(*set, operands@)),
    {
        if set.constraints.len() > 0 && !are_integers(operands) {
            return Err(EmitError::MemrefOperand);
        }
        let ghost e0 = *self;
        let ghost whole = conditions_text(*set, operands@, 0);
        self.put("(");
        let ghost e1 = *self;
        let ghost mut seen: Written = Ok(Seq::empty());
        let mut at: usize = 0;
        proof {
            assert(self.text@ + Seq::empty() =~= self.text@);
            lemma_join_empty(whole);
        }
        while at < set.constraints.len()
            invariant
                at <= set.constraints@.len(),
                set.constraints@.len() > 0 ==> all_integers(operands@),
                e0 == *old(self),
                appended(e0, e1, Ok(()), Ok("("@)),
                appended(e1, *self, Ok(()), seen),
                whole == join(seen, conditions_text(*set, operands@, at as nat)),
                set_text(*set, operands@) == join(join(Ok("("@), whole), Ok(")"@)),
            decreases set.constraints@.len() - at,
        {
            let ghost rest = conditions_text(*set, operands@, (at + 1) as nat);
            let ghost piece = condition_text(
                set.constraints@[at as int],
                operands@,
                set.num_dims as int,
                at == 0,
            );
            let ghost e2 = *self;
            let done: Result<(), EmitError> = self.emit_condition(
                &set.constraints[at],
                operands,
                set.num_dims,
                at == 0,
            );
            proof {
                lemma_then(e1, e2, *self, done, seen, piece);
                lemma_join_assoc(seen, piece, rest);
            }
            if done.is_err() {
                proof {
                    lemma_stopped(e1, *self, done, join(seen, piece), rest);
                    lemma_then(e0, e1, *self, done, Ok("("@), whole);
                    lemma_stopped(e0, *self, done, join(Ok("("@), whole), Ok(")"@));
                }
                return done;
            }
            proof {
                seen = join(seen, piece);
            }
            at += 1;
        }
        let ghost e3 = *self;
        self.put(")");
        proof {
            lemma_join_nothing(seen);
            lemma_then(e0, e1, e3, Ok(()), Ok("("@), whole);
            lemma_then(e0, e3, *self, Ok(()), join(Ok("("@), whole), Ok(")"@));
        }
        Ok(())
    }

    fn emit_access(&mut self, array: &ValID, operands: &Vec<ValID>, map: &AffineMap) -> (done: Result<
        (),
        EmitError,
    >)
        ensures
            appended(
                *old(self),
                *final(self),
                done,
                access_text(*array, *map, operands@, old(self).hashed),
            ),
    {
        let name: String = match array_c_name(array) {
            Some(name) => name,
            None => {
                return Err(EmitError::NotAnArray { array: array.clone() });
            },
        };
        let ghost e0 = *self;
        let ghost (head, tail) = (access_head(name@, self.hashed), access_tail(name@, self.hashed));
        self.emit_access_head(&name);
        let ghost e1 = *self;
        let done: Result<(), EmitError> = self.emit_affine_map(map, operands);
        let ghost e2 = *self;
        let ghost subscripts = map_text(*map, operands@);
        proof {
            lemma_then(e0, e1, e2, done, Ok(head), subscripts);
        }
        if done.is_err() {
            proof {
                lemma_stopped(e0, e2, done, join(Ok(head), subscripts), Ok(tail));
            }
            return done;
        }
        self.emit_access_tail(&name);
        proof {
            lemma_then(e0, e2, *self, Ok(()), join(Ok(head), subscripts), Ok(tail));
        }
        Ok(())
    }

    fn emit_access_head(&mut self, name: &String)
        ensures
            appended(*old(self), *final(self), Ok(()), Ok(access_head(name@, old(self).hashed))),
    {
        if self.hashed {
            // The array itself is only used to compute an address; the store
            // goes through the permutation of blocks.
            self.text.push_str("{ __access(__OFF_");
            self.text.push_str(name.as_str());
            self.text.push_str(" + (unsigned long)((const volatile char *)&");
        } else {
            self.text.push_str("{ ");
        }
        self.text.push_str(name.as_str());
        self.text.push_str("[");
        assert(self.text@ =~= old(self).text@ + access_head(name@, self.hashed));
    }

    fn emit_access_tail(&mut self, name: &String)
        ensures
            appended(*old(self), *final(self), Ok(()), Ok(access_tail(name@, old(self).hashed))),
    {
        if self.hashed {
            self.text.push_str("] - (const volatile char *)&");
            self.text.push_str(name.as_str());
            self.text.push_str(")); __asm__ __volatile__ (\"\" ::: \"memory\"); }");
        } else {
            self.text.push_str("] = 0; __asm__ __volatile__ (\"\" ::: \"memory\"); }");
        }
        assert(self.text@ =~= old(self).text@ + access_tail(name@, self.hashed));
    }

    /// Writes the line that closes a block.
    fn emit_closing(&mut self)
        ensures
            appended(*old(self), *final(self), Ok(()), Ok(closing(old(self).indent as nat))),
    {
        self.emit_indent();
        self.text.push_str("}\n");
        assert(self.text@ =~= old(self).text@ + closing(self.indent as nat));
    }

    /// Writes what stands before the bounds of a loop.
    fn emit_for_start(&mut self, index: usize)
        ensures
            appended(
                *old(self),
                *final(self),
                Ok(()),
                Ok(for_start(index, old(self).indent as nat)),
            ),
    {
        self.emit_indent();
        self.text.push_str("for (int ivar_");
        push_decimal(&mut self.text, index as u64);
        self.text.push_str(" = ");
        assert(self.text@ =~= old(self).text@ + for_start(index, self.indent as nat));
    }

    /// Writes what stands between the bounds of a loop.
    fn emit_for_test(&mut self, index: usize)
        ensures
            appended(*old(self), *final(self), Ok(()), Ok(for_test(index))),
    {
        self.text.push_str("; ivar_");
        push_decimal(&mut self.text, index as u64);
        self.text.push_str(" < ");
        assert(self.text@ =~= old(self).text@ + for_test(index));
    }

    /// Writes what stands behind the bounds of a loop.
    fn emit_for_step(&mut self, index: usize, step: i64)
        ensures
            appended(*old(self), *final(self), Ok(()), Ok(for_step(index, step))),
    {
        self.text.push_str("; ivar_");
        push_decimal(&mut self.text, index as u64);
        self.text.push_str(" += ");
        push_signed(&mut self.text, step);
        self.text.push_str(") {\n");
        assert(self.text@ =~= old(self).text@ + for_step(index, step));
    }

    fn emit_for_head(
        &mut self,
        lower_bound: &AffineMap,
        lower_bound_operands: &Vec<ValID>,
        upper_bound: &AffineMap,
        upper_bound_operands: &Vec<ValID>,
        step: i64,
        index: usize,
    ) -> (done: Result<(), EmitError>)
        ensures
            appended(
                *old(self),
                *final(self),
                done,
                for_head(
                    *lower_bound,
                    lower_bound_operands@,
                    *upper_bound,
                    upper_bound_operands@,
                    step,
                    index,
                    old(self).indent as nat,
                ),
            ),
    {
        let ghost e0 = *self;
        let ghost (lower, upper) = (
            map_text(*lower_bound, lower_bound_operands@),
            map_text(*upper_bound, upper_bound_operands@),
        );
        let ghost start: Written = Ok(for_start(index, self.indent as nat));
        let ghost test: Written = Ok(for_test(index));
        let ghost end: Written = Ok(for_step(index, step));
        self.emit_for_start(index);
        let ghost e1 = *self;
        let first: Result<(), EmitError> = self.emit_affine_map(lower_bound, lower_bound_operands);
        let ghost e2 = *self;
        proof {
            lemma_then(e0, e1, e2, first, start, lower);
        }
        if first.is_err() {
            proof {
                lemma_stopped(e0, e2, first, join(start, lower), test);
                lemma_stopped(e0, e2, first, join(join(start, lower), test), join(upper, end));
            }
            return first;
        }
        self.emit_for_test(index);
        let ghost e3 = *self;
        let ghost head = join(join(start, lower), test);
        proof {
            lemma_then(e0, e2, e3, Ok(()), join(start, lower), test);
        }
        let second: Result<(), EmitError> = self.emit_affine_map(upper_bound, upper_bound_operands);
        let ghost e4 = *self;
        if second.is_err() {
            proof {
                lemma_stopped(e3, e4, second, upper, end);
                lemma_then(e0, e3, e4, second, head, join(upper, end));
            }
            return second;
        }
        self.emit_for_step(index, step);
        proof {
            lemma_then(e3, e4, *self, Ok(()), upper, end);
            lemma_then(e0, e3, *self, Ok(()), head, join(upper, end));
        }
        Ok(())
    }

    fn emit_if_head(&mut self, condition: &IntegerSet, operands: &Vec<ValID>) -> (done: Result<
        (),
        EmitError,
    >)
        ensures
            appended(
                *old(self),
                *final(self),
                done,
                if_head(*condition, operands@, old(self).indent as nat),
            ),
    {
        let ghost e0 = *self;
        let ghost start: Written = Ok(tabs(self.indent as nat) + "if "@);
        let ghost set = set_text(*condition, operands@);
        self.emit_indent();
        self.text.push_str("if ");
        let ghost e1 = *self;
        assert(self.text@ =~= e0.text@ + (tabs(self.indent as nat) + "if "@));
        let done: Result<(), EmitError> = self.emit_integer_set(condition, operands);
        let ghost e2 = *self;
        proof {
            lemma_then(e0, e1, e2, done, start, set);
        }
        if done.is_err() {
            proof {
                lemma_stopped(e0, e2, done, join(start, set), Ok(" {\n"@));
            }
            return done;
        }
        self.put(" {\n");
        proof {
            lemma_then(e0, e2, *self, Ok(()), join(start, set), Ok(" {\n"@));
        }
        Ok(())
    }

    fn emit_tree(&mut self, tree: &Tree) -> (done: Result<(), EmitError>)
        ensures
            appended(
                *old(self),
                *final(self),
                done,
                tree_text(*tree, old(self).indent as nat, old(self).hashed),
            ),
        decreases *tree, 2int,
    {
        match tree {
            Tree::For {
                lower_bound,
                upper_bound,
                lower_bound_operands,
                upper_bound_operands,
                step,
                ivar,
                body,
            } => {
                let index: usize = match ivar {
                    ValID::IVar(index) => *index,
                    other => {
                        return Err(EmitError::NotAnIvar { ivar: other.clone() });
                    },
                };
                if self.indent == usize::MAX {
                    return Err(EmitError::TooDeep);
                }
                let ghost e0 = *self;
                let ghost head = for_head(
                    *lower_bound,
                    lower_bound_operands@,
                    *upper_bound,
                    upper_bound_operands@,
                    *step,
                    index,
                    self.indent as nat,
                );
                let ghost inner = body_text(**body, self.indent as nat, self.hashed);
                let opened: Result<(), EmitError> = self.emit_for_head(
                    lower_bound,
                    lower_bound_operands,
                    upper_bound,
                    upper_bound_operands,
                    *step,
                    index,
                );
                let ghost e1 = *self;
                if opened.is_err() {
                    proof {
                        lemma_stopped(e0, e1, opened, head, inner);
                    }
                    return opened;
                }
                let done: Result<(), EmitError> = self.emit_body(Ghost(*tree), body);
                proof {
                    lemma_then(e0, e1, *self, done, head, inner);
                }
                done
            },
            Tree::Block(stmts) => self.emit_block(Ghost(*tree), stmts),
            Tree::Access { memref, map, operands, .. } => {
                let ghost e0 = *self;
                self.emit_indent();
                let ghost e1 = *self;
                let done: Result<(), EmitError> = self.emit_access(memref, operands, map);
                proof {
                    lemma_then(
                        e0,
                        e1,
                        *self,
                        done,
                        Ok(tabs(e0.indent as nat)),
                        access_text(*memref, *map, operands@, e0.hashed),
                    );
                }
                done
            },
            Tree::If { condition, operands, then_branch, else_branch } => {
                if self.indent == usize::MAX {
                    return Err(EmitError::TooDeep);
                }
                let ghost e0 = *self;
                let ghost first = then_text(
                    *condition,
                    operands@,
                    **then_branch,
                    self.indent as nat,
                    self.hashed,
                );
                let taken: Result<(), EmitError> = self.emit_then(
                    Ghost(*tree),
                    condition,
                    operands,
                    then_branch,
                );
                let ghost e1 = *self;
                match else_branch {
                    Some(otherwise) => {
                        let ghost second = else_text(**otherwise, e0.indent as nat, e0.hashed);
                        if taken.is_err() {
                            proof {
                                lemma_stopped(e0, e1, taken, first, second);
                            }
                            return taken;
                        }
                        let done: Result<(), EmitError> = self.emit_else(Ghost(*tree), otherwise);
                        proof {
                            lemma_then(e0, e1, *self, done, first, second);
                        }
                        done
                    },
                    None => taken,
                }
            },
        }
    }

    /// Writes a part of the tree `parent`, one level deeper, and the line that
    /// closes it.
    fn emit_body(&mut self, Ghost(parent): Ghost<Tree>, body: &Tree) -> (done: Result<(), EmitError>)
        requires
            decreases_to!(parent => *body),
            old(self).indent < usize::MAX,
        ensures
            appended(
                *old(self),
                *final(self),
                done,
                body_text(*body, old(self).indent as nat, old(self).hashed),
            ),
        decreases parent, 0int,
    {
        let ghost e0 = *self;
        let ghost inner = tree_text(*body, (self.indent + 1) as nat, self.hashed);
        let ghost end: Written = Ok(closing(self.indent as nat));
        self.indent += 1;
        let done: Result<(), EmitError> = self.emit_tree(body);
        if done.is_err() {
            proof {
                lemma_stopped(e0, *self, done, inner, end);
            }
            return done;
        }
        self.indent -= 1;
        let ghost e1 = *self;
        self.emit_closing();
        proof {
            lemma_then(e0, e1, *self, Ok(()), inner, end);
        }
        Ok(())
    }

    fn emit_block(&mut self, Ghost(parent): Ghost<Tree>, stmts: &Vec<Tree>) -> (done: Result<
        (),
        EmitError,
    >)
        requires
            parent == Tree::Block(*stmts),
        ensures
            appended(
                *old(self),
                *final(self),
                done,
                tree_text(parent, old(self).indent as nat, old(self).hashed),
            ),
        decreases parent, 0int,
    {
        if self.indent == usize::MAX {
            return Err(EmitError::TooDeep);
        }
        let ghost e0 = *self;
        let ghost opening: Written = Ok(tabs(self.indent as nat) + "{\n"@);
        let ghost inner = stmts_text(*stmts, 0, (self.indent + 1) as nat, self.hashed);
        let ghost end: Written = Ok(closing(self.indent as nat));
        self.emit_indent();
        self.text.push_str("{\n");
        assert(self.text@ =~= e0.text@ + (tabs(self.indent as nat) + "{\n"@));
        let ghost e1 = *self;
        self.indent += 1;
        let ghost e2 = *self;
        assert(parent->Block_0 == *stmts);
        assert(decreases_to!(parent => parent->Block_0));
        let done: Result<(), EmitError> = self.emit_stmts(Ghost(parent), stmts);
        if done.is_err() {
            proof {
                lemma_then(e0, e1, *self, done, opening, inner);
                lemma_stopped(e0, *self, done, join(opening, inner), end);
            }
            return done;
        }
        self.indent -= 1;
        let ghost e3 = *self;
        self.emit_closing();
        proof {
            lemma_then(e0, e1, e3, Ok(()), opening, inner);
            lemma_then(e0, e3, *self, Ok(()), join(opening, inner), end);
        }
        Ok(())
    }

    fn emit_then(
        &mut self,
        Ghost(parent): Ghost<Tree>,
        condition: &IntegerSet,
        operands: &Vec<ValID>,
        branch: &Tree,
    ) -> (done: Result<(), EmitError>)
        requires
            decreases_to!(parent => *branch),
            old(self).indent < usize::MAX,
        ensures
            appended(
                *old(self),
                *final(self),
                done,
                then_text(
                    *condition,
                    operands@,
                    *branch,
                    old(self).indent as nat,
                    old(self).hashed,
                ),
            ),
        decreases parent, 1int,
    {
        let ghost e0 = *self;
        let ghost head = if_head(*condition, operands@, self.indent as nat);
        let ghost inner = body_text(*branch, self.indent as nat, self.hashed);
        let opened: Result<(), EmitError> = self.emit_if_head(condition, operands);
        let ghost e1 = *self;
        if opened.is_err() {
            proof {
                lemma_stopped(e0, e1, opened, head, inner);
            }
            return opened;
        }
        let done: Result<(), EmitError> = self.emit_body(Ghost(parent), branch);
        proof {
            lemma_then(e0, e1, *self, done, head, inner);
        }
        done
    }

    fn emit_else(&mut self, Ghost(parent): Ghost<Tree>, branch: &Tree) -> (done: Result<
        (),
        EmitError,
    >)
        requires
            decreases_to!(parent => *branch),
            old(self).indent < usize::MAX,
        ensures
            appended(
                *old(self),
                *final(self),
                done,
                else_text(*branch, old(self).indent as nat, old(self).hashed),
            ),
        decreases parent, 1int,
    {
        let ghost e0 = *self;
        self.emit_indent();
        self.text.push_str("else {\n");
        assert(self.text@ =~= e0.text@ + (tabs(self.indent as nat) + "else {\n"@));
        let ghost e1 = *self;
        let done: Result<(), EmitError> = self.emit_body(Ghost(parent), branch);
        proof {
            lemma_then(
                e0,
                e1,
                *self,
                done,
                Ok(tabs(e0.indent as nat) + "else {\n"@),
                body_text(*branch, e0.indent as nat, e0.hashed),
            );
        }
        done
    }

    /// Writes the statements of the block `parent`, each on its own line.
    fn emit_stmts(&mut self, Ghost(parent): Ghost<Tree>, stmts: &Vec<Tree>) -> (done: Result<
        (),
        EmitError,
    >)
        requires
            decreases_to!(parent => *stmts),
        ensures
            appended(
                *old(self),
                *final(self),
                done,
                stmts_text(*stmts, 0, old(self).indent as nat, old(self).hashed),
            ),
        decreases *stmts,
    {
        let ghost e0 = *self;
        let ghost (indent, hashed) = (self.indent as nat, self.hashed);
        let ghost mut seen: Written = Ok(Seq::empty());
        let mut at: usize = 0;
        proof {
            assert(self.text@ + Seq::empty() =~= self.text@);
            lemma_join_empty(stmts_text(*stmts, 0, indent, hashed));
        }
        while at < stmts.len()
            invariant
                at <= stmts@.len(),
                e0 == *old(self),
                indent == e0.indent,
                hashed == e0.hashed,
                appended(e0, *self, Ok(()), seen),
                stmts_text(*stmts, 0, indent, hashed) == join(
                    seen,
                    stmts_text(*stmts, at as nat, indent, hashed),
                ),
            decreases stmts@.len() - at,
        {
            let ghost rest = stmts_text(*stmts, (at + 1) as nat, indent, hashed);
            let ghost own = tree_text(stmts[at as int], indent, hashed);
            let ghost piece = join(own, Ok(seq!['\n']));
            let ghost e1 = *self;
            assert(decreases_to!(*stmts => stmts@[at as int]));
            let done: Result<(), EmitError> = self.emit_tree(&stmts[at]);
            let ghost e2 = *self;
            proof {
                lemma_join_assoc(seen, piece, rest);
            }
            if done.is_err() {
                proof {
                    lemma_stopped(e1, e2, done, own, Ok(seq!['\n']));
                    lemma_then(e0, e1, e2, done, seen, piece);
                    lemma_stopped(e0, e2, done, join(seen, piece), rest);
                }
                return done;
            }
            self.text.push('\n');
            proof {
                assert(self.text@ =~= e2.text@ + seq!['\n']);
                lemma_then(e1, e2, *self, Ok(()), own, Ok(seq!['\n']));
                lemma_then(e0, e1, *self, Ok(()), seen, piece);
                seen = join(seen, piece);
            }
            at += 1;
        }
        proof {
            lemma_join_nothing(seen);
        }
        Ok(())
    }

    /// Writes a whole program. `entry` is the line that opens its entry point
    /// and `exit` holds the instructions that end it, both of which depend on
    /// the platform.
    pub fn emit(self, tree: &Tree, entry: &str, exit: &str) -> (program: Result<String, EmitError>)
        requires
            self.indentation() == 1,
        ensures
            match program_text(*tree, self.is_hashed(), entry@, exit@) {
                Ok(text) => program matches Ok(program) && program@ == self.written() + text,
                Err(error) => program matches Err(found) && found == error,
            },
    {
        let mut emitter: CProgramEmitter = self;
        let ghost opening: Written = Ok(entry@ + seq!['\n']);
        let ghost inner = tree_text(*tree, 1, self.hashed);
        let ghost end: Written = Ok(tabs(1) + exit@ + seq!['}', '\n']);
        emitter.text.push_str(entry);
        emitter.text.push('\n');
        assert(emitter.text@ =~= self.text@ + (entry@ + seq!['\n']));
        let ghost e1 = emitter;
        let done: Result<(), EmitError> = emitter.emit_tree(tree);
        let ghost e2 = emitter;
        proof {
            lemma_then(self, e1, e2, done, opening, inner);
        }
        match done {
            Ok(()) => {},
            Err(error) => {
                proof {
                    lemma_stopped(self, e2, done, join(opening, inner), end);
                }
                return Err(error);
            },
        }
        emitter.emit_indent();
        emitter.text.push_str(exit);
        emitter.text.push('}');
        emitter.text.push('\n');
        proof {
            assert(emitter.text@ =~= e2.text@ + (tabs(1) + exit@ + seq!['}', '\n']));
            lemma_then(self, e2, emitter, Ok(()), join(opening, inner), end);
        }
        Ok(emitter.text)
    }
}

/// Text written behind text.
proof fn lemma_then(
    before: CProgramEmitter,
    middle: CProgramEmitter,
    after: CProgramEmitter,
    done: Result<(), EmitError>,
    first: Written,
    second: Written,
)
    requires
        appended(before, middle, Ok(()), first),
        middle.hashed == after.hashed,
        done is Ok ==> before.indent == after.indent,
        match second {
            Ok(text) => done is Ok && after.text@ == middle.text@ + text,
            Err(error) => done == Err::<(), EmitError>(error),
        },
    ensures
        appended(before, after, done, join(first, second)),
{
    reveal(join);
    if let Ok(text) = second {
        let start = first->Ok_0;
        assert((before.text@ + start) + text =~= before.text@ + (start + text));
    }
}

/// What fails stays failed.
proof fn lemma_stopped(
    before: CProgramEmitter,
    after: CProgramEmitter,
    done: Result<(), EmitError>,
    first: Written,
    second: Written,
)
    requires
        done is Err,
        before.hashed == after.hashed,
        first matches Err(error) && done == Err::<(), EmitError>(error),
    ensures
        appended(before, after, done, join(first, second)),
        join(first, second) matches Err(error) && done == Err::<(), EmitError>(error),
{
    reveal(join);
}

proof fn lemma_join_empty(rest: Written)
    ensures
        join(Ok(Seq::empty()), rest) == rest,
{
    reveal(join);
    if let Ok(text) = rest {
        assert(Seq::empty() + text =~= text);
    }
}

proof fn lemma_join_nothing(first: Written)
    ensures
        join(first, Ok(Seq::empty())) == first,
{
    reveal(join);
    if let Ok(text) = first {
        assert(text + Seq::empty() =~= text);
    }
}

proof fn lemma_join_assoc(a: Written, b: Written, c: Written)
    ensures
        join(a, join(b, c)) == join(join(a, b), c),
{
    reveal(join);
    if let (Ok(x), Ok(y)) = (a, b) {
        if let Ok(z) = c {
            assert(x + (y + z) =~= (x + y) + z);
        }
    }
}

/// Whether every operand has a number.
fn are_integers(operands: &Vec<ValID>) -> (yes: bool)
    ensures
        yes == all_integers(operands@),
{
    let mut at: usize = 0;
    while at < operands.len()
        invariant
            at <= operands@.len(),
            forall|i: int| 0 <= i < at ==> (#[trigger] operand_id(operands@[i])) is Some,
        decreases operands@.len() - at,
    {
        match &operands[at] {
            ValID::IVar(_) => {},
            ValID::Symbol(_) => {},
            _ => {
                assert(operand_id(operands@[at as int]) is None);
                return false;
            },
        }
        at += 1;
    }
    true
}

/// The C name of an array.
pub fn array_c_name(array: &ValID) -> (name: Option<String>)
    ensures
        name is Some <==> array_name(*array) is Some,
        name matches Some(name) ==> array_name(*array) == Some(name@),
{
    match array {
        ValID::Memref(id) => {
            let mut name: String = String::new();
            name.push_str("ARRAY_");
            push_decimal(&mut name, *id as u64);
            assert(name@ =~= "ARRAY_"@ + decimal(*id as nat));
            Some(name)
        },
        ValID::Global { handle: _, name } => Some(name.clone()),
        _ => None,
    }
}

/// A quotient in C: cut toward zero.
pub open spec fn c_quotient(l: int, r: int) -> int {
    if l >= 0 {
        l / r
    } else {
        -((-l) / r)
    }
}

/// What a quotient in C leaves.
pub open spec fn c_remainder(l: int, r: int) -> int {
    l - c_quotient(l, r) * r
}

/// The value of a written expression in C, for given values of the loop
/// variables and the symbols, as long as nothing overflows.
pub open spec fn c_value(
    expr: AffineExpr,
    operands: Seq<ValID>,
    num_dims: int,
    ivars: Seq<int>,
    params: Seq<int>,
) -> int
    decreases expr,
{
    match expr {
        AffineExpr::Constant(value) => value as int,
        AffineExpr::Dim(position) => operand_int(operands[position as int], ivars, params),
        AffineExpr::Symbol(position) => operand_int(operands[num_dims + position], ivars, params),
        AffineExpr::Add(l, r) => c_value(*l, operands, num_dims, ivars, params) + c_value(
            *r,
            operands,
            num_dims,
            ivars,
            params,
        ),
        AffineExpr::Mul(l, r) => c_value(*l, operands, num_dims, ivars, params) * c_value(
            *r,
            operands,
            num_dims,
            ivars,
            params,
        ),
        AffineExpr::Mod(l, r) => c_remainder(
            c_value(*l, operands, num_dims, ivars, params),
            c_value(*r, operands, num_dims, ivars, params),
        ),
        AffineExpr::FloorDiv(l, r) => c_quotient(
            c_value(*l, operands, num_dims, ivars, params),
            c_value(*r, operands, num_dims, ivars, params),
        ),
        AffineExpr::CeilDiv(l, r) => {
            let left = c_value(*l, operands, num_dims, ivars, params);
            let right = c_value(*r, operands, num_dims, ivars, params);
            c_quotient(left, right) + if c_remainder(left, right) > 0 {
                1int
            } else {
                0int
            }
        },
    }
}

/// Divisors are positive, and what is rounded down is not negative.
pub open spec fn divides_forward(
    expr: AffineExpr,
    operands: Seq<ValID>,
    num_dims: int,
    ivars: Seq<int>,
    params: Seq<int>,
) -> bool
    decreases expr,
{
    match expr {
        AffineExpr::Constant(_) => true,
        AffineExpr::Dim(_) => true,
        AffineExpr::Symbol(_) => true,
        AffineExpr::Add(l, r) => divides_forward(*l, operands, num_dims, ivars, params)
            && divides_forward(*r, operands, num_dims, ivars, params),
        AffineExpr::Mul(l, r) => divides_forward(*l, operands, num_dims, ivars, params)
            && divides_forward(*r, operands, num_dims, ivars, params),
        AffineExpr::Mod(l, r) => {
            &&& divides_forward(*l, operands, num_dims, ivars, params)
            &&& divides_forward(*r, operands, num_dims, ivars, params)
            &&& expr_int(*l, operands, num_dims, ivars, params) >= 0
            &&& expr_int(*r, operands, num_dims, ivars, params) > 0
        },
        AffineExpr::FloorDiv(l, r) => {
            &&& divides_forward(*l, operands, num_dims, ivars, params)
            &&& divides_forward(*r, operands, num_dims, ivars, params)
            &&& expr_int(*l, operands, num_dims, ivars, params) >= 0
            &&& expr_int(*r, operands, num_dims, ivars, params) > 0
        },
        AffineExpr::CeilDiv(l, r) => {
            &&& divides_forward(*l, operands, num_dims, ivars, params)
            &&& divides_forward(*r, operands, num_dims, ivars, params)
            &&& expr_int(*r, operands, num_dims, ivars, params) > 0
        },
    }
}

/// What is written for a quotient rounded up has its value in C, for every
/// dividend and every positive divisor.
pub proof fn law_written_ceiling_is_the_ceiling(l: int, r: int)
    requires
        r > 0,
    ensures
        c_quotient(l, r) + (if c_remainder(l, r) > 0 {
            1int
        } else {
            0int
        }) == ceil_quotient(l, r),
        l >= 0 ==> c_quotient(l, r) == l / r && c_remainder(l, r) == l % r,
{
    vstd::arithmetic::div_mod::lemma_fundamental_div_mod(l, r);
    vstd::arithmetic::div_mod::lemma_fundamental_div_mod(-l, r);
    let (q, p, m, n) = (l / r, (-l) / r, l % r, (-l) % r);
    assert(q * r == r * q) by (nonlinear_arith);
    assert((-p) * r == -(r * p)) by (nonlinear_arith);
    assert(r * (q + p) + m + n == 0) by (nonlinear_arith)
        requires
            l == r * q + m,
            -l == r * p + n,
    ;
    assert(q + p == if m > 0 {
        -1int
    } else {
        0int
    }) by (nonlinear_arith)
        requires
            r * (q + p) + m + n == 0,
            0 <= m < r,
            0 <= n < r,
    ;
}

/// A written expression has the value of the affine expression in C, where its
/// divisors are positive and nothing negative is rounded down.
pub proof fn law_written_expression_has_its_value(
    expr: AffineExpr,
    operands: Seq<ValID>,
    num_dims: int,
    ivars: Seq<int>,
    params: Seq<int>,
)
    requires
        divides_forward(expr, operands, num_dims, ivars, params),
    ensures
        c_value(expr, operands, num_dims, ivars, params) == expr_int(
            expr,
            operands,
            num_dims,
            ivars,
            params,
        ),
    decreases expr,
{
    match expr {
        AffineExpr::Constant(_) => {},
        AffineExpr::Dim(_) => {},
        AffineExpr::Symbol(_) => {},
        AffineExpr::Add(l, r) => {
            law_written_expression_has_its_value(*l, operands, num_dims, ivars, params);
            law_written_expression_has_its_value(*r, operands, num_dims, ivars, params);
        },
        AffineExpr::Mul(l, r) => {
            law_written_expression_has_its_value(*l, operands, num_dims, ivars, params);
            law_written_expression_has_its_value(*r, operands, num_dims, ivars, params);
        },
        AffineExpr::Mod(l, r) => {
            law_written_expression_has_its_value(*l, operands, num_dims, ivars, params);
            law_written_expression_has_its_value(*r, operands, num_dims, ivars, params);
            law_written_ceiling_is_the_ceiling(
                expr_int(*l, operands, num_dims, ivars, params),
                expr_int(*r, operands, num_dims, ivars, params),
            );
        },
        AffineExpr::FloorDiv(l, r) => {
            law_written_expression_has_its_value(*l, operands, num_dims, ivars, params);
            law_written_expression_has_its_value(*r, operands, num_dims, ivars, params);
            law_written_ceiling_is_the_ceiling(
                expr_int(*l, operands, num_dims, ivars, params),
                expr_int(*r, operands, num_dims, ivars, params),
            );
        },
        AffineExpr::CeilDiv(l, r) => {
            law_written_expression_has_its_value(*l, operands, num_dims, ivars, params);
            law_written_expression_has_its_value(*r, operands, num_dims, ivars, params);
            law_written_ceiling_is_the_ceiling(
                expr_int(*l, operands, num_dims, ivars, params),
                expr_int(*r, operands, num_dims, ivars, params),
            );
        },
    }
}

} // verus!
