//! What a written program says, read from its text.
//!
//! The C subset has loops, branches, blocks and accesses, over expressions in
//! parentheses. A text is read as a syntax tree, whose run gives the accesses in
//! order.

use crate::emit::{
    access_head, access_tail, access_text, array_name, binary_text, body_text, closing,
    condition_text, conditions_text, else_text, excess_text, expr_text, for_head, for_start,
    for_step, for_test, if_head, join, map_text, operand_id, result_text, results_text, set_text,
    stmts_text, tabs, then_text, tree_text, Written,
};
use crate::meaning::{operands_below, positions_within, sound, sound_map};
use crate::quasi_affine::{dims_below, well_kinded};
use crate::reading::{is_blank, is_digit, law_decimal_stands_for_the_number, numeral};
use crate::text::{decimal, signed_decimal};
use crate::tree::{AffineExpr, AffineMap, IntegerSet, Tree, ValID};
use vstd::prelude::*;

verus! {

broadcast use vstd::std_specs::vec::axiom_vec_index_decreases;

/// A binary operation.
pub ghost enum COperator {
    Plus,
    Times,
    Modulo,
    Over,
}

/// An expression.
pub ghost enum CExpr {
    Number(int),
    /// `ivar_n`
    Variable(nat),
    /// `SYM_n`
    Symbol(nat),
    Binary(COperator, Box<CExpr>, Box<CExpr>),
    /// One where the expression is above zero, and zero otherwise.
    Positive(Box<CExpr>),
}

/// A condition: an expression is zero, or not below zero.
pub ghost struct CCondition {
    pub expr: CExpr,
    pub equality: bool,
}

/// A statement.
pub ghost enum CStmt {
    For { index: nat, lower: CExpr, upper: CExpr, step: int, body: Box<CStmt> },
    Block(Seq<CStmt>),
    If { conditions: Seq<CCondition>, positive: Box<CStmt>, negative: Option<Box<CStmt>> },
    Access { name: Seq<char>, subscripts: Seq<CExpr> },
}

/// The text is a number in decimal, and not in octal.
pub open spec fn reads_number(text: Seq<char>, value: nat) -> bool {
    &&& text.len() > 0
    &&& forall|i: int| 0 <= i < text.len() ==> is_digit(#[trigger] text[i])
    &&& numeral(text) == value
    &&& text[0] == '0' ==> text.len() == 1
}

/// The text is an integer, with a minus sign where it is negative.
pub open spec fn reads_integer(text: Seq<char>, value: int) -> bool {
    if value >= 0 {
        reads_number(text, value as nat)
    } else {
        exists|digits: Seq<char>| #[trigger]
            reads_number(digits, (-value) as nat) && text == seq!['-'] + digits
    }
}

/// The text is a name and a number.
pub open spec fn reads_name(text: Seq<char>, prefix: Seq<char>, value: nat) -> bool {
    exists|digits: Seq<char>| #[trigger] reads_number(digits, value) && text == prefix + digits
}

/// How an operation is written.
pub open spec fn operator_text(operator: COperator) -> Seq<char> {
    match operator {
        COperator::Plus => " +"@,
        COperator::Times => " *"@,
        COperator::Modulo => " %"@,
        COperator::Over => " /"@,
    }
}

/// The text of an operation.
pub open spec fn operation_text(
    left: Seq<char>,
    operator: COperator,
    right: Seq<char>,
) -> Seq<char> {
    "("@ + left + operator_text(operator) + right + ")"@
}

/// The text of a comparison with zero.
pub open spec fn positive_text(inner: Seq<char>) -> Seq<char> {
    "("@ + inner + " > 0)"@
}

/// The text is an expression.
pub open spec fn reads_expr(text: Seq<char>, expr: CExpr) -> bool
    decreases expr,
{
    match expr {
        CExpr::Number(value) => if value >= 0 {
            reads_number(text, value as nat)
        } else {
            exists|inner: Seq<char>| #[trigger]
                reads_integer(inner, value) && text == "("@ + inner + ")"@
        },
        CExpr::Variable(index) => reads_name(text, "ivar_"@, index),
        CExpr::Symbol(index) => reads_name(text, "SYM_"@, index),
        CExpr::Binary(operator, l, r) => exists|left: Seq<char>, right: Seq<char>|
            text == #[trigger] operation_text(left, operator, right) && reads_expr(left, *l)
                && reads_expr(right, *r),
        CExpr::Positive(e) => exists|inner: Seq<char>|
            text == #[trigger] positive_text(inner) && reads_expr(inner, *e),
    }
}

/// The text is a list of subscripts, from position `at` on.
pub open spec fn reads_subscripts(text: Seq<char>, list: Seq<CExpr>, at: nat) -> bool
    decreases list.len() - at,
{
    if at >= list.len() {
        false
    } else if at + 1 == list.len() {
        reads_expr(text, list[at as int])
    } else {
        exists|first: Seq<char>, rest: Seq<char>|
            reads_expr(first, list[at as int]) && reads_subscripts(rest, list, at + 1) && text
                == #[trigger] (first + "]["@ + rest)
    }
}

/// The text is a condition.
pub open spec fn reads_condition(text: Seq<char>, condition: CCondition) -> bool {
    exists|inner: Seq<char>| #[trigger]
        reads_expr(inner, condition.expr) && text == "(("@ + inner + if condition.equality {
            ") == 0)"@
        } else {
            ") >= 0)"@
        }
}

/// The text is a conjunction of conditions, from position `at` on.
pub open spec fn reads_conditions(text: Seq<char>, list: Seq<CCondition>, at: nat) -> bool
    decreases list.len() - at,
{
    if at >= list.len() {
        false
    } else if at + 1 == list.len() {
        reads_condition(text, list[at as int])
    } else {
        exists|first: Seq<char>, rest: Seq<char>|
            reads_condition(first, list[at as int]) && reads_conditions(rest, list, at + 1) && text
                == #[trigger] (first + " && "@ + rest)
    }
}

/// The expression speaks of a variable.
pub open spec fn mentions(expr: CExpr, index: nat) -> bool
    decreases expr,
{
    match expr {
        CExpr::Number(_) => false,
        CExpr::Variable(other) => other == index,
        CExpr::Symbol(_) => false,
        CExpr::Binary(_, l, r) => mentions(*l, index) || mentions(*r, index),
        CExpr::Positive(e) => mentions(*e, index),
    }
}

/// The parts of the text of a loop.
pub ghost struct ForText {
    pub start: Seq<char>,
    pub declared: Seq<char>,
    pub lower: Seq<char>,
    pub tested: Seq<char>,
    pub upper: Seq<char>,
    pub advanced: Seq<char>,
    pub step: Seq<char>,
    pub body: Seq<char>,
    pub end: Seq<char>,
}

/// The text of a loop.
pub open spec fn for_text(parts: ForText) -> Seq<char> {
    parts.start + "for (int "@ + parts.declared + " = "@ + parts.lower + "; "@ + parts.tested
        + " < "@ + parts.upper + "; "@ + parts.advanced + " += "@ + parts.step + ") {\n"@
        + parts.body + parts.end + "}\n"@
}

/// The parts of the text of a branch.
pub ghost struct IfText {
    pub start: Seq<char>,
    pub conditions: Seq<char>,
    pub body: Seq<char>,
    pub end: Seq<char>,
}

/// The text of a branch.
pub open spec fn if_text(parts: IfText) -> Seq<char> {
    parts.start + "if ("@ + parts.conditions + ") {\n"@ + parts.body + parts.end + "}\n"@
}

/// The text behind a branch that is taken otherwise.
pub open spec fn otherwise_text(start: Seq<char>, body: Seq<char>, end: Seq<char>) -> Seq<char> {
    start + "else {\n"@ + body + end + "}\n"@
}

/// The text of an access. With permuted blocks, the address is handed on as the
/// offset of the array plus the distance of the element from its start.
pub open spec fn touch_text(name: Seq<char>, subscripts: Seq<char>, hashed: bool) -> Seq<char> {
    if hashed {
        "{ __access(__OFF_"@ + name + " + (unsigned long)((const volatile char *)&"@ + name + "["@
            + subscripts + "] - (const volatile char *)&"@ + name
            + ")); __asm__ __volatile__ (\"\" ::: \"memory\"); }"@
    } else {
        "{ "@ + name + "["@ + subscripts + "] = 0; __asm__ __volatile__ (\"\" ::: \"memory\"); }"@
    }
}

/// The text of an access, with something before it.
pub open spec fn touch_line(
    start: Seq<char>,
    name: Seq<char>,
    subscripts: Seq<char>,
    hashed: bool,
) -> Seq<char> {
    start + touch_text(name, subscripts, hashed)
}

/// The text is an access, with white space before it.
pub open spec fn reads_access(
    text: Seq<char>,
    name: Seq<char>,
    subscripts: Seq<CExpr>,
    hashed: bool,
) -> bool {
    exists|start: Seq<char>, inner: Seq<char>|
        {
            &&& text == #[trigger] touch_line(start, name, inner, hashed)
            &&& is_blank(start)
            &&& reads_subscripts(inner, subscripts, 0)
        }
}

/// The text is a statement, with white space before it. The bounds of a loop do
/// not speak of its own variable.
pub open spec fn reads_stmt(text: Seq<char>, stmt: CStmt, hashed: bool) -> bool
    decreases stmt, 0int,
{
    match stmt {
        CStmt::For { index, lower, upper, step, body } => {
            &&& !mentions(lower, index)
            &&& !mentions(upper, index)
            &&& exists|parts: ForText|
                {
                    &&& text == #[trigger] for_text(parts)
                    &&& is_blank(parts.start)
                    &&& reads_name(parts.declared, "ivar_"@, index)
                    &&& reads_expr(parts.lower, lower)
                    &&& reads_name(parts.tested, "ivar_"@, index)
                    &&& reads_expr(parts.upper, upper)
                    &&& reads_name(parts.advanced, "ivar_"@, index)
                    &&& reads_integer(parts.step, step)
                    &&& reads_stmt(parts.body, *body, hashed)
                    &&& is_blank(parts.end)
                }
        },
        CStmt::Block(stmts) => exists|start: Seq<char>, inner: Seq<char>, end: Seq<char>|
            {
                &&& text == #[trigger] (start + "{\n"@ + inner + end + "}\n"@)
                &&& is_blank(start)
                &&& reads_stmts(inner, stmts, 0, hashed)
                &&& is_blank(end)
            },
        CStmt::If { conditions, positive, negative } => exists|parts: IfText, rest: Seq<char>|
            {
                &&& text == #[trigger] (if_text(parts) + rest)
                &&& is_blank(parts.start)
                &&& reads_conditions(parts.conditions, conditions, 0)
                &&& reads_stmt(parts.body, *positive, hashed)
                &&& is_blank(parts.end)
                &&& match negative {
                    None => rest.len() == 0,
                    Some(negative) => exists|
                        start: Seq<char>,
                        body: Seq<char>,
                        end: Seq<char>,
                    |
                        {
                            &&& rest == #[trigger] otherwise_text(start, body, end)
                            &&& is_blank(start)
                            &&& reads_stmt(body, *negative, hashed)
                            &&& is_blank(end)
                        },
                }
            },
        CStmt::Access { name, subscripts } => reads_access(text, name, subscripts, hashed),
    }
}

/// The text is a row of statements from position `at` on, with white space behind
/// each.
pub open spec fn reads_stmts(text: Seq<char>, stmts: Seq<CStmt>, at: nat, hashed: bool) -> bool
    decreases stmts, stmts.len() - at,
{
    if at >= stmts.len() {
        is_blank(text)
    } else {
        exists|first: Seq<char>, gap: Seq<char>, rest: Seq<char>|
            {
                &&& text == #[trigger] (first + gap + rest)
                &&& reads_stmt(first, stmts[at as int], hashed)
                &&& is_blank(gap)
                &&& reads_stmts(rest, stmts, at + 1, hashed)
            }
    }
}

/// An affine expression in C.
pub open spec fn expr_in_c(expr: AffineExpr, operands: Seq<ValID>, num_dims: int) -> CExpr
    decreases expr,
{
    match expr {
        AffineExpr::Constant(value) => CExpr::Number(value as int),
        AffineExpr::Dim(position) => CExpr::Variable(
            operand_id(operands[position as int])->0 as nat,
        ),
        AffineExpr::Symbol(position) => CExpr::Symbol(
            operand_id(operands[num_dims + position])->0 as nat,
        ),
        AffineExpr::Add(l, r) => CExpr::Binary(
            COperator::Plus,
            Box::new(expr_in_c(*l, operands, num_dims)),
            Box::new(expr_in_c(*r, operands, num_dims)),
        ),
        AffineExpr::Mul(l, r) => CExpr::Binary(
            COperator::Times,
            Box::new(expr_in_c(*l, operands, num_dims)),
            Box::new(expr_in_c(*r, operands, num_dims)),
        ),
        AffineExpr::Mod(l, r) => CExpr::Binary(
            COperator::Modulo,
            Box::new(expr_in_c(*l, operands, num_dims)),
            Box::new(expr_in_c(*r, operands, num_dims)),
        ),
        AffineExpr::FloorDiv(l, r) => CExpr::Binary(
            COperator::Over,
            Box::new(expr_in_c(*l, operands, num_dims)),
            Box::new(expr_in_c(*r, operands, num_dims)),
        ),
        AffineExpr::CeilDiv(l, r) => {
            let (left, right) = (
                expr_in_c(*l, operands, num_dims),
                expr_in_c(*r, operands, num_dims),
            );
            CExpr::Binary(
                COperator::Plus,
                Box::new(CExpr::Binary(COperator::Over, Box::new(left), Box::new(right))),
                Box::new(
                    CExpr::Positive(
                        Box::new(
                            CExpr::Binary(COperator::Modulo, Box::new(left), Box::new(right)),
                        ),
                    ),
                ),
            )
        },
    }
}

/// Subscripts in C.
pub open spec fn subscripts_in_c(map: AffineMap, operands: Seq<ValID>) -> Seq<CExpr> {
    Seq::new(
        map.results@.len(),
        |i: int| expr_in_c(map.results@[i], operands, map.num_dims as int),
    )
}

/// Conditions in C.
pub open spec fn conditions_in_c(set: IntegerSet, operands: Seq<ValID>) -> Seq<CCondition> {
    Seq::new(
        set.constraints@.len(),
        |i: int|
            CCondition {
                expr: expr_in_c(set.constraints@[i].expr, operands, set.num_dims as int),
                equality: set.constraints@[i].equality,
            },
    )
}

/// A tree in C.
pub open spec fn tree_in_c(tree: Tree) -> CStmt
    decreases tree, 0int,
{
    match tree {
        Tree::For {
            lower_bound,
            upper_bound,
            lower_bound_operands,
            upper_bound_operands,
            step,
            ivar,
            body,
        } => CStmt::For {
            index: ivar->IVar_0 as nat,
            lower: subscripts_in_c(lower_bound, lower_bound_operands@)[0],
            upper: subscripts_in_c(upper_bound, upper_bound_operands@)[0],
            step: step as int,
            body: Box::new(tree_in_c(*body)),
        },
        Tree::Block(stmts) => CStmt::Block(stmts_in_c(stmts, stmts@.len())),
        Tree::If { condition, operands, then_branch, else_branch } => CStmt::If {
            conditions: conditions_in_c(condition, operands@),
            positive: Box::new(tree_in_c(*then_branch)),
            negative: match else_branch {
                None => None,
                Some(otherwise) => Some(Box::new(tree_in_c(*otherwise))),
            },
        },
        Tree::Access { memref, map, operands, .. } => CStmt::Access {
            name: array_name(memref)->0,
            subscripts: subscripts_in_c(map, operands@),
        },
    }
}

/// The first statements of a block in C.
pub open spec fn stmts_in_c(stmts: Vec<Tree>, count: nat) -> Seq<CStmt>
    decreases stmts, count,
{
    if count == 0 || count > stmts@.len() {
        Seq::empty()
    } else {
        stmts_in_c(stmts, (count - 1) as nat).push(tree_in_c(stmts[count - 1]))
    }
}

/// A tree that C has words for: loops numbered by nesting level, with one
/// expression per bound, at least one subscript per access and at least one
/// condition per branch.
pub open spec fn has_c_form(tree: Tree, level: int) -> bool
    decreases tree,
{
    match tree {
        Tree::For { lower_bound, upper_bound, ivar, body, .. } => {
            &&& ivar matches ValID::IVar(index) && index == level
            &&& lower_bound.results@.len() == 1
            &&& upper_bound.results@.len() == 1
            &&& has_c_form(*body, level + 1)
        },
        Tree::Block(stmts) => forall|i: int|
            0 <= i < stmts@.len() ==> has_c_form(#[trigger] stmts[i], level),
        Tree::If { condition, then_branch, else_branch, .. } => {
            &&& condition.constraints@.len() > 0
            &&& has_c_form(*then_branch, level)
            &&& else_branch matches Some(otherwise) ==> has_c_form(*otherwise, level)
        },
        Tree::Access { memref, map, .. } => array_name(memref) is Some && map.results@.len() > 0,
    }
}

/// Both texts of a joined one.
proof fn lemma_joined(left: Written, right: Written)
    ensures
        join(left, right) is Ok <==> left is Ok && right is Ok,
        left is Ok && right is Ok ==> join(left, right)->Ok_0 == left->Ok_0 + right->Ok_0,
{
    reveal(join);
}

proof fn lemma_decimal_reads(value: nat)
    ensures
        reads_number(decimal(value), value),
{
    law_decimal_stands_for_the_number(value);
}

proof fn lemma_signed_reads(value: int)
    ensures
        reads_integer(signed_decimal(value), value),
{
    if value >= 0 {
        lemma_decimal_reads(value as nat);
    } else {
        lemma_decimal_reads((-value) as nat);
    }
}

proof fn lemma_binary_reads(
    left: Written,
    operator: COperator,
    right: Written,
    l: CExpr,
    r: CExpr,
)
    requires
        left is Ok && right is Ok,
        reads_expr(left->Ok_0, l),
        reads_expr(right->Ok_0, r),
    ensures
        reads_expr(
            binary_text(left, operator_text(operator), right)->Ok_0,
            CExpr::Binary(operator, Box::new(l), Box::new(r)),
        ),
{
    let (open, close): (Written, Written) = (Ok("("@), Ok(")"@));
    let middle: Written = Ok(operator_text(operator));
    lemma_joined(open, left);
    lemma_joined(join(open, left), middle);
    lemma_joined(right, close);
    lemma_joined(join(join(open, left), middle), join(right, close));
    let (x, y) = (left->Ok_0, right->Ok_0);
    assert(binary_text(left, operator_text(operator), right)->Ok_0 =~= operation_text(
        x,
        operator,
        y,
    ));
}

proof fn lemma_binary_parts(left: Written, operator: Seq<char>, right: Written)
    requires
        binary_text(left, operator, right) is Ok,
    ensures
        left is Ok && right is Ok,
{
    let (open, close): (Written, Written) = (Ok("("@), Ok(")"@));
    let middle: Written = Ok(operator);
    lemma_joined(open, left);
    lemma_joined(join(open, left), middle);
    lemma_joined(right, close);
    lemma_joined(join(join(open, left), middle), join(right, close));
}

/// A written expression is read as the affine expression.
proof fn lemma_expr_reads(expr: AffineExpr, operands: Seq<ValID>, num_dims: int)
    requires
        expr_text(expr, operands, num_dims) is Ok,
        num_dims >= 0,
    ensures
        reads_expr(
            expr_text(expr, operands, num_dims)->Ok_0,
            expr_in_c(expr, operands, num_dims),
        ),
    decreases expr,
{
    let text = expr_text(expr, operands, num_dims)->Ok_0;
    match expr {
        AffineExpr::Constant(value) => {
            lemma_signed_reads(value as int);
            if value < 0 {
                reveal_strlit("(");
                reveal_strlit(")");
                assert(text =~= "("@ + signed_decimal(value as int) + ")"@);
            }
        },
        AffineExpr::Dim(position) => {
            let id = operand_id(operands[position as int])->0 as nat;
            lemma_decimal_reads(id);
            reveal_strlit("ivar");
            reveal_strlit("ivar_");
            assert(text =~= "ivar_"@ + decimal(id));
        },
        AffineExpr::Symbol(position) => {
            let id = operand_id(operands[num_dims + position])->0 as nat;
            lemma_decimal_reads(id);
            reveal_strlit("SYM");
            reveal_strlit("SYM_");
            assert(text =~= "SYM_"@ + decimal(id));
        },
        AffineExpr::Add(l, r) => {
            let (left, right) = (
                expr_text(*l, operands, num_dims),
                expr_text(*r, operands, num_dims),
            );
            lemma_binary_parts(left, " +"@, right);
            lemma_expr_reads(*l, operands, num_dims);
            lemma_expr_reads(*r, operands, num_dims);
            lemma_binary_reads(
                left,
                COperator::Plus,
                right,
                expr_in_c(*l, operands, num_dims),
                expr_in_c(*r, operands, num_dims),
            );
        },
        AffineExpr::Mul(l, r) => {
            let (left, right) = (
                expr_text(*l, operands, num_dims),
                expr_text(*r, operands, num_dims),
            );
            lemma_binary_parts(left, " *"@, right);
            lemma_expr_reads(*l, operands, num_dims);
            lemma_expr_reads(*r, operands, num_dims);
            lemma_binary_reads(
                left,
                COperator::Times,
                right,
                expr_in_c(*l, operands, num_dims),
                expr_in_c(*r, operands, num_dims),
            );
        },
        AffineExpr::Mod(l, r) => {
            let (left, right) = (
                expr_text(*l, operands, num_dims),
                expr_text(*r, operands, num_dims),
            );
            lemma_binary_parts(left, " %"@, right);
            lemma_expr_reads(*l, operands, num_dims);
            lemma_expr_reads(*r, operands, num_dims);
            lemma_binary_reads(
                left,
                COperator::Modulo,
                right,
                expr_in_c(*l, operands, num_dims),
                expr_in_c(*r, operands, num_dims),
            );
        },
        AffineExpr::FloorDiv(l, r) => {
            let (left, right) = (
                expr_text(*l, operands, num_dims),
                expr_text(*r, operands, num_dims),
            );
            lemma_binary_parts(left, " /"@, right);
            lemma_expr_reads(*l, operands, num_dims);
            lemma_expr_reads(*r, operands, num_dims);
            lemma_binary_reads(
                left,
                COperator::Over,
                right,
                expr_in_c(*l, operands, num_dims),
                expr_in_c(*r, operands, num_dims),
            );
        },
        AffineExpr::CeilDiv(l, r) => {
            let (left, right) = (
                expr_text(*l, operands, num_dims),
                expr_text(*r, operands, num_dims),
            );
            let (x, y) = (
                expr_in_c(*l, operands, num_dims),
                expr_in_c(*r, operands, num_dims),
            );
            let (quotient, rest) = (binary_text(left, " /"@, right), binary_text(left, " %"@, right));
            let (open, close): (Written, Written) = (Ok("("@), Ok(" > 0)"@));
            let plus: Written = Ok(" +"@);
            lemma_joined(open, quotient);
            lemma_joined(join(open, quotient), plus);
            lemma_joined(excess_text(left, right), Ok(")"@));
            lemma_joined(
                join(join(open, quotient), plus),
                join(excess_text(left, right), Ok(")"@)),
            );
            lemma_joined(open, rest);
            lemma_joined(join(open, rest), close);
            assert(quotient is Ok && rest is Ok);
            lemma_binary_parts(left, " /"@, right);
            lemma_expr_reads(*l, operands, num_dims);
            lemma_expr_reads(*r, operands, num_dims);
            lemma_binary_reads(left, COperator::Over, right, x, y);
            lemma_binary_reads(left, COperator::Modulo, right, x, y);
            let remainder = CExpr::Binary(COperator::Modulo, Box::new(x), Box::new(y));
            assert(reads_expr(rest->Ok_0, remainder));
            assert(excess_text(left, right)->Ok_0 =~= positive_text(rest->Ok_0));
            assert(reads_expr(
                excess_text(left, right)->Ok_0,
                CExpr::Positive(Box::new(remainder)),
            ));
            lemma_binary_reads(
                quotient,
                COperator::Plus,
                excess_text(left, right),
                CExpr::Binary(COperator::Over, Box::new(x), Box::new(y)),
                CExpr::Positive(Box::new(remainder)),
            );
        },
    }
}

/// What stands before the results of a map from position `at` on.
spec fn between(at: nat, separator: Seq<char>) -> Seq<char> {
    if at > 0 {
        separator
    } else {
        Seq::empty()
    }
}

/// Written subscripts are read as the results of the map.
proof fn lemma_subscripts_read(map: AffineMap, operands: Seq<ValID>, at: nat) -> (text: Seq<char>)
    requires
        results_text(map, operands, at) is Ok,
        at < map.results@.len(),
    ensures
        results_text(map, operands, at)->Ok_0 == between(at, "]["@) + text,
        reads_subscripts(text, subscripts_in_c(map, operands), at),
    decreases map.results@.len() - at,
{
    let list = subscripts_in_c(map, operands);
    let expr = map.results@[at as int];
    let first = expr_text(expr, operands, map.num_dims as int);
    let rest = results_text(map, operands, at + 1);
    let head: Written = Ok(
        if at > 0 {
            "]["@
        } else {
            ""@
        },
    );
    reveal_strlit("");
    lemma_joined(head, first);
    lemma_joined(result_text(map, operands, at), rest);
    lemma_expr_reads(expr, operands, map.num_dims as int);
    let start = first->Ok_0;
    assert(reads_expr(start, list[at as int]));
    assert(head->Ok_0 =~= between(at, "]["@));
    if at + 1 == map.results@.len() {
        assert(results_text(map, operands, at)->Ok_0 =~= between(at, "]["@) + start);
        start
    } else {
        let tail = lemma_subscripts_read(map, operands, at + 1);
        let text = start + "]["@ + tail;
        assert(results_text(map, operands, at)->Ok_0 =~= between(at, "]["@) + text);
        text
    }
}

proof fn lemma_map_reads(map: AffineMap, operands: Seq<ValID>)
    requires
        map_text(map, operands) is Ok,
        map.results@.len() > 0,
    ensures
        reads_subscripts(map_text(map, operands)->Ok_0, subscripts_in_c(map, operands), 0),
{
    let text = lemma_subscripts_read(map, operands, 0);
    assert(map_text(map, operands)->Ok_0 =~= text);
}

/// Written conditions are read as those of the set.
proof fn lemma_conditions_read(set: IntegerSet, operands: Seq<ValID>, at: nat) -> (text: Seq<char>)
    requires
        conditions_text(set, operands, at) is Ok,
        at < set.constraints@.len(),
    ensures
        conditions_text(set, operands, at)->Ok_0 == between(at, " && "@) + text,
        reads_conditions(text, conditions_in_c(set, operands), at),
    decreases set.constraints@.len() - at,
{
    let list = conditions_in_c(set, operands);
    let constraint = set.constraints@[at as int];
    let inner = expr_text(constraint.expr, operands, set.num_dims as int);
    let rest = conditions_text(set, operands, at + 1);
    let head: Written = Ok(
        if at == 0 {
            "(("@
        } else {
            " && (("@
        },
    );
    let tail: Written = Ok(
        if constraint.equality {
            ") == 0)"@
        } else {
            ") >= 0)"@
        },
    );
    reveal_strlit("((");
    reveal_strlit(" && ((");
    reveal_strlit(" && ");
    lemma_joined(head, inner);
    lemma_joined(join(head, inner), tail);
    lemma_joined(condition_text(constraint, operands, set.num_dims as int, at == 0), rest);
    lemma_expr_reads(constraint.expr, operands, set.num_dims as int);
    assert(head->Ok_0 =~= between(at, " && "@) + "(("@);
    let start = "(("@ + inner->Ok_0 + tail->Ok_0;
    assert(reads_condition(start, list[at as int]));
    if at + 1 == set.constraints@.len() {
        assert(conditions_text(set, operands, at)->Ok_0 =~= between(at, " && "@) + start);
        start
    } else {
        let others = lemma_conditions_read(set, operands, at + 1);
        let text = start + " && "@ + others;
        assert(conditions_text(set, operands, at)->Ok_0 =~= between(at, " && "@) + text);
        text
    }
}

proof fn lemma_tabs_are_blank(indent: nat)
    ensures
        is_blank(tabs(indent)),
{
}

/// The expressions of a loop's bounds do not speak of its variable.
proof fn lemma_not_mentioned(expr: AffineExpr, operands: Seq<ValID>, num_dims: int, level: nat)
    requires
        well_kinded(operands, num_dims),
        operands_below(operands, level as int),
        dims_below(expr, num_dims),
        positions_within(expr, num_dims, operands.len() as int),
        num_dims >= 0,
    ensures
        !mentions(expr_in_c(expr, operands, num_dims), level),
    decreases expr,
{
    match expr {
        AffineExpr::Constant(_) => {},
        AffineExpr::Symbol(_) => {},
        AffineExpr::Dim(position) => {
            assert(operands[position as int] is IVar);
        },
        AffineExpr::Add(l, r) => {
            lemma_not_mentioned(*l, operands, num_dims, level);
            lemma_not_mentioned(*r, operands, num_dims, level);
        },
        AffineExpr::Mul(l, r) => {
            lemma_not_mentioned(*l, operands, num_dims, level);
            lemma_not_mentioned(*r, operands, num_dims, level);
        },
        AffineExpr::Mod(l, r) => {
            lemma_not_mentioned(*l, operands, num_dims, level);
            lemma_not_mentioned(*r, operands, num_dims, level);
        },
        AffineExpr::FloorDiv(l, r) => {
            lemma_not_mentioned(*l, operands, num_dims, level);
            lemma_not_mentioned(*r, operands, num_dims, level);
        },
        AffineExpr::CeilDiv(l, r) => {
            lemma_not_mentioned(*l, operands, num_dims, level);
            lemma_not_mentioned(*r, operands, num_dims, level);
            reveal_with_fuel(mentions, 4);
        },
    }
}

/// A bound with one expression.
proof fn lemma_bound_reads(map: AffineMap, operands: Seq<ValID>, level: nat)
    requires
        map_text(map, operands) is Ok,
        map.results@.len() == 1,
        sound_map(map, operands, level as int),
    ensures
        reads_expr(map_text(map, operands)->Ok_0, subscripts_in_c(map, operands)[0]),
        !mentions(subscripts_in_c(map, operands)[0], level),
{
    lemma_map_reads(map, operands);
    lemma_not_mentioned(map.results@[0], operands, map.num_dims as int, level);
}

/// A variable as it is written in a loop.
proof fn lemma_variable_reads(index: nat) -> (text: Seq<char>)
    ensures
        text == "ivar_"@ + decimal(index),
        reads_name(text, "ivar_"@, index),
{
    lemma_decimal_reads(index);
    "ivar_"@ + decimal(index)
}

/// A written loop is read as the loop.
proof fn lemma_for_reads(tree: Tree, indent: nat, hashed: bool, level: nat)
    requires
        tree is For,
        tree_text(tree, indent, hashed) is Ok,
        has_c_form(tree, level as int),
        sound(tree, level as int),
        tree_text(*tree->body, indent + 1, hashed) is Ok ==> reads_stmt(
            tree_text(*tree->body, indent + 1, hashed)->Ok_0,
            tree_in_c(*tree->body),
            hashed,
        ),
    ensures
        reads_stmt(tree_text(tree, indent, hashed)->Ok_0, tree_in_c(tree), hashed),
{
    if let Tree::For {
        lower_bound,
        upper_bound,
        lower_bound_operands,
        upper_bound_operands,
        step,
        ivar,
        body,
    } = tree {
        let index = ivar->IVar_0;
        let (low, high) = (
            map_text(lower_bound, lower_bound_operands@),
            map_text(upper_bound, upper_bound_operands@),
        );
        let head = for_head(
            lower_bound,
            lower_bound_operands@,
            upper_bound,
            upper_bound_operands@,
            step,
            index,
            indent,
        );
        let (start, test, end): (Written, Written, Written) = (
            Ok(for_start(index, indent)),
            Ok(for_test(index)),
            Ok(for_step(index, step)),
        );
        let inner = tree_text(*body, indent + 1, hashed);
        let close: Written = Ok(closing(indent));
        lemma_joined(start, low);
        lemma_joined(join(start, low), test);
        lemma_joined(high, end);
        lemma_joined(join(join(start, low), test), join(high, end));
        lemma_joined(inner, close);
        lemma_joined(head, body_text(*body, indent, hashed));
        lemma_bound_reads(lower_bound, lower_bound_operands@, level);
        lemma_bound_reads(upper_bound, upper_bound_operands@, level);
        let name = lemma_variable_reads(index as nat);
        lemma_signed_reads(step as int);
        lemma_tabs_are_blank(indent);
        let parts = ForText {
            start: tabs(indent),
            declared: name,
            lower: low->Ok_0,
            tested: name,
            upper: high->Ok_0,
            advanced: name,
            step: signed_decimal(step as int),
            body: inner->Ok_0,
            end: tabs(indent),
        };
        let text = tree_text(tree, indent, hashed)->Ok_0;
        lemma_for_strings(parts, index as nat);
        assert(text == head->Ok_0 + (inner->Ok_0 + closing(indent)));
        assert(text =~= for_text(parts)) by {
            assert(head->Ok_0 =~= for_start(index, indent) + low->Ok_0 + for_test(index)
                + high->Ok_0 + for_step(index, step));
        }
    }
}

proof fn lemma_for_strings(parts: ForText, index: nat)
    requires
        parts.declared == "ivar_"@ + decimal(index),
        parts.tested == parts.declared,
        parts.advanced == parts.declared,
    ensures
        for_text(parts) == (parts.start + "for (int ivar_"@ + decimal(index) + " = "@)
            + parts.lower + ("; ivar_"@ + decimal(index) + " < "@) + parts.upper + ("; ivar_"@
            + decimal(index) + " += "@ + parts.step + ") {\n"@) + (parts.body + (parts.end
            + "}\n"@)),
{
    assert("for (int ivar_"@ =~= "for (int "@ + "ivar_"@) by {
        reveal_strlit("for (int ivar_");
        reveal_strlit("for (int ");
        reveal_strlit("ivar_");
    }
    assert("; ivar_"@ =~= "; "@ + "ivar_"@) by {
        reveal_strlit("; ivar_");
        reveal_strlit("; ");
        reveal_strlit("ivar_");
    }
    assert(for_text(parts) =~= (parts.start + "for (int ivar_"@ + decimal(index) + " = "@)
        + parts.lower + ("; ivar_"@ + decimal(index) + " < "@) + parts.upper + ("; ivar_"@
        + decimal(index) + " += "@ + parts.step + ") {\n"@) + (parts.body + (parts.end
        + "}\n"@)));
}

proof fn lemma_touch_reads(
    start: Seq<char>,
    name: Seq<char>,
    inner: Seq<char>,
    list: Seq<CExpr>,
    hashed: bool,
)
    requires
        is_blank(start),
        reads_subscripts(inner, list, 0),
    ensures
        reads_stmt(
            touch_line(start, name, inner, hashed),
            CStmt::Access { name, subscripts: list },
            hashed,
        ),
{
    let text = touch_line(start, name, inner, hashed);
    assert(reads_access(text, name, list, hashed));
}

/// A written access is read as the access.
proof fn lemma_access_reads(tree: Tree, indent: nat, hashed: bool)
    requires
        tree is Access,
        tree_text(tree, indent, hashed) is Ok,
        tree->map.results@.len() > 0,
    ensures
        reads_stmt(tree_text(tree, indent, hashed)->Ok_0, tree_in_c(tree), hashed),
{
    if let Tree::Access { site, memref, map, operands, is_write } = tree {
        let subscripts = map_text(map, operands@);
        let start: Written = Ok(tabs(indent));
        lemma_joined(start, access_text(memref, map, operands@, hashed));
        let name = array_name(memref)->0;
        let (head, tail): (Written, Written) = (
            Ok(access_head(name, hashed)),
            Ok(access_tail(name, hashed)),
        );
        lemma_joined(head, subscripts);
        lemma_joined(join(head, subscripts), tail);
        lemma_map_reads(map, operands@);
        lemma_tabs_are_blank(indent);
        let inner = subscripts->Ok_0;
        assert(access_head(name, hashed) + inner + access_tail(name, hashed) =~= touch_text(
            name,
            inner,
            hashed,
        ));
        let (blank, text) = (tabs(indent), tree_text(tree, indent, hashed)->Ok_0);
        let list = subscripts_in_c(map, operands@);
        assert(text =~= touch_line(blank, name, inner, hashed));
        assert(is_blank(blank) && reads_subscripts(inner, list, 0));
        lemma_touch_reads(blank, name, inner, list, hashed);
    }
}

/// A written branch is read as the branch.
proof fn lemma_if_reads(tree: Tree, indent: nat, hashed: bool)
    requires
        tree is If,
        tree_text(tree, indent, hashed) is Ok,
        tree->condition.constraints@.len() > 0,
        tree_text(*tree->then_branch, indent + 1, hashed) is Ok ==> reads_stmt(
            tree_text(*tree->then_branch, indent + 1, hashed)->Ok_0,
            tree_in_c(*tree->then_branch),
            hashed,
        ),
        tree->else_branch matches Some(otherwise) ==> (tree_text(
            *otherwise,
            indent + 1,
            hashed,
        ) is Ok ==> reads_stmt(
            tree_text(*otherwise, indent + 1, hashed)->Ok_0,
            tree_in_c(*otherwise),
            hashed,
        )),
    ensures
        reads_stmt(tree_text(tree, indent, hashed)->Ok_0, tree_in_c(tree), hashed),
{
    if let Tree::If { condition, operands, then_branch, else_branch } = tree {
        let first = then_text(condition, operands@, *then_branch, indent, hashed);
        if let Some(otherwise) = else_branch {
            lemma_joined(first, else_text(*otherwise, indent, hashed));
        }
        assert(first is Ok);
        let body = tree_text(*then_branch, indent + 1, hashed);
        let close: Written = Ok(closing(indent));
        let list = conditions_text(condition, operands@, 0);
        let (open, shut): (Written, Written) = (Ok("("@), Ok(")"@));
        let (start, end): (Written, Written) = (Ok(tabs(indent) + "if "@), Ok(" {\n"@));
        let set = set_text(condition, operands@);
        lemma_joined(if_head(condition, operands@, indent), body_text(*then_branch, indent, hashed));
        lemma_joined(body, close);
        lemma_joined(start, set);
        lemma_joined(join(start, set), end);
        lemma_joined(open, list);
        lemma_joined(join(open, list), shut);
        let conditions = lemma_conditions_read(condition, operands@, 0);
        assert(list->Ok_0 =~= conditions);
        lemma_tabs_are_blank(indent);
        let parts = IfText {
            start: tabs(indent),
            conditions,
            body: body->Ok_0,
            end: tabs(indent),
        };
        assert("if "@ + "("@ =~= "if ("@) by {
            reveal_strlit("if ");
            reveal_strlit("(");
            reveal_strlit("if (");
        }
        assert(")"@ + " {\n"@ =~= ") {\n"@) by {
            reveal_strlit(")");
            reveal_strlit(" {\n");
            reveal_strlit(") {\n");
        }
        assert(first->Ok_0 =~= tabs(indent) + ("if "@ + "("@) + conditions + (")"@ + " {\n"@)
            + body->Ok_0 + tabs(indent) + "}\n"@);
        assert(first->Ok_0 =~= if_text(parts));
        let none: Seq<char> = Seq::empty();
        match else_branch {
            None => {
                assert(first->Ok_0 =~= if_text(parts) + none);
            },
            Some(otherwise) => {
                let other = tree_text(*otherwise, indent + 1, hashed);
                let lead: Written = Ok(tabs(indent) + "else {\n"@);
                lemma_joined(lead, body_text(*otherwise, indent, hashed));
                lemma_joined(other, close);
                let rest = otherwise_text(tabs(indent), other->Ok_0, tabs(indent));
                assert(else_text(*otherwise, indent, hashed)->Ok_0 =~= rest);
                assert(tree_text(tree, indent, hashed)->Ok_0 == if_text(parts) + rest);
            },
        }
    }
}

pub proof fn lemma_stmts_in_c(stmts: Vec<Tree>, count: nat)
    requires
        count <= stmts@.len(),
    ensures
        stmts_in_c(stmts, count).len() == count,
        forall|i: int|
            0 <= i < count ==> #[trigger] stmts_in_c(stmts, count)[i] == tree_in_c(stmts[i]),
    decreases count,
{
    if count > 0 {
        lemma_stmts_in_c(stmts, (count - 1) as nat);
    }
}

/// What is written for a tree is read as the tree.
pub proof fn lemma_tree_reads(tree: Tree, indent: nat, hashed: bool, level: nat)
    requires
        tree_text(tree, indent, hashed) is Ok,
        has_c_form(tree, level as int),
        sound(tree, level as int),
    ensures
        reads_stmt(tree_text(tree, indent, hashed)->Ok_0, tree_in_c(tree), hashed),
    decreases tree, 1int, 0int,
{
    match tree {
        Tree::For { body, .. } => {
            if tree_text(*body, indent + 1, hashed) is Ok {
                lemma_tree_reads(*body, indent + 1, hashed, level + 1);
            }
            lemma_for_reads(tree, indent, hashed, level);
        },
        Tree::Block(stmts) => {
            let start: Written = Ok(tabs(indent) + "{\n"@);
            let inner = stmts_text(stmts, 0, indent + 1, hashed);
            let close: Written = Ok(closing(indent));
            lemma_joined(start, inner);
            lemma_joined(join(start, inner), close);
            lemma_stmts_in_c(stmts, stmts@.len());
            lemma_stmts_read(stmts, 0, indent + 1, hashed, level);
            lemma_tabs_are_blank(indent);
            assert(tree_text(tree, indent, hashed)->Ok_0 =~= tabs(indent) + "{\n"@ + inner->Ok_0
                + tabs(indent) + "}\n"@);
        },
        Tree::If { then_branch, else_branch, .. } => {
            if tree_text(*then_branch, indent + 1, hashed) is Ok {
                lemma_tree_reads(*then_branch, indent + 1, hashed, level);
            }
            if let Some(otherwise) = else_branch {
                if tree_text(*otherwise, indent + 1, hashed) is Ok {
                    lemma_tree_reads(*otherwise, indent + 1, hashed, level);
                }
            }
            lemma_if_reads(tree, indent, hashed);
        },
        Tree::Access { .. } => {
            lemma_access_reads(tree, indent, hashed);
        },
    }
}

proof fn lemma_stmts_read(stmts: Vec<Tree>, at: nat, indent: nat, hashed: bool, level: nat)
    requires
        stmts_text(stmts, at, indent, hashed) is Ok,
        forall|i: int| 0 <= i < stmts@.len() ==> has_c_form(#[trigger] stmts[i], level as int),
        forall|i: int| 0 <= i < stmts@.len() ==> sound(#[trigger] stmts[i], level as int),
    ensures
        reads_stmts(
            stmts_text(stmts, at, indent, hashed)->Ok_0,
            stmts_in_c(stmts, stmts@.len()),
            at,
            hashed,
        ),
    decreases stmts, 0int, stmts@.len() - at,
{
    let list = stmts_in_c(stmts, stmts@.len());
    lemma_stmts_in_c(stmts, stmts@.len());
    if at < stmts@.len() {
        let stmt = stmts[at as int];
        let first = tree_text(stmt, indent, hashed);
        let rest = stmts_text(stmts, at + 1, indent, hashed);
        let gap = seq!['\n'];
        lemma_joined(first, Ok(gap));
        lemma_joined(join(first, Ok(gap)), rest);
        assert(has_c_form(stmt, level as int) && sound(stmt, level as int));
        lemma_tree_reads(stmt, indent, hashed, level);
        lemma_stmts_read(stmts, at + 1, indent, hashed, level);
        assert(list[at as int] == tree_in_c(stmt));
        assert(is_blank(gap));
        assert(stmts_text(stmts, at, indent, hashed)->Ok_0 == first->Ok_0 + gap + rest->Ok_0);
    }
}

} // verus!
