//! Quasi-affine expressions over the parameters and the time dimensions.
//!
//! The loop at nesting level `n` runs over its own time dimension, counted from
//! zero in steps of one. Its induction variable is then
//! `lower bound + step * dimension`, and that is what a use of the variable is
//! lowered to.

use crate::tree::{AffineExpr, AffineMap, ValID};
use vstd::prelude::*;

verus! {

/// A quasi-affine expression.
#[derive(Debug)]
pub enum Aff {
    Const(i128),
    Param(usize),
    Dim(usize),
    Add(Box<Aff>, Box<Aff>),
    Sub(Box<Aff>, Box<Aff>),
    Mul(Box<Aff>, Box<Aff>),
    /// The quotient, rounded down.
    FloorDiv(Box<Aff>, Box<Aff>),
    /// The quotient, rounded up.
    CeilDiv(Box<Aff>, Box<Aff>),
    /// The remainder, from zero up to the modulus.
    Mod(Box<Aff>, Box<Aff>),
}

/// What cannot be lowered.
#[derive(Clone, Copy, Debug, PartialEq, Eq, Structural)]
pub enum PlanError {
    /// A bound without a result.
    NoResult,
    /// A modulus inside an expression.
    Mod,
    /// A quotient rounded up inside an expression.
    CeilDiv,
    /// A position past the end of the operand list.
    BadPosition,
    /// An operand that is neither a symbol nor an induction variable.
    BadOperand,
    /// An induction variable of a loop that is not around its use.
    BadIvar,
    /// An access to something that is not a local array.
    BadMemref,
    /// More nesting or subscripts than can be counted.
    TooLarge,
}

impl PlanError {
    /// The message of an error.
    pub open spec fn text(self) -> Seq<char> {
        match self {
            PlanError::NoResult =>
                "invalid affine expression: at least one result expression"@,
            PlanError::Mod => "invalid affine expression: mod is not supported"@,
            PlanError::CeilDiv => "invalid affine expression: ceildiv is not supported"@,
            PlanError::BadPosition => "invalid affine expression: invalid position"@,
            PlanError::BadOperand => "invalid affine expression"@,
            PlanError::BadIvar => "invalid affine expression: variable out of scope"@,
            PlanError::BadMemref => "invalid access map: invalid memref"@,
            PlanError::TooLarge => "the loop nest is too deep"@,
        }
    }

    /// The message of an error.
    pub fn message(self) -> (text: &'static str)
        ensures
            text@ == self.text(),
    {
        match self {
            PlanError::NoResult => "invalid affine expression: at least one result expression",
            PlanError::Mod => "invalid affine expression: mod is not supported",
            PlanError::CeilDiv => "invalid affine expression: ceildiv is not supported",
            PlanError::BadPosition => "invalid affine expression: invalid position",
            PlanError::BadOperand => "invalid affine expression",
            PlanError::BadIvar => "invalid affine expression: variable out of scope",
            PlanError::BadMemref => "invalid access map: invalid memref",
            PlanError::TooLarge => "the loop nest is too deep",
        }
    }
}

/// `floor(a / b)`.
pub open spec fn floor_div(a: int, b: int) -> int {
    if b > 0 {
        a / b
    } else {
        (-a) / (-b)
    }
}

/// `ceil(a / b)`.
pub open spec fn ceil_quotient(a: int, b: int) -> int {
    -floor_div(-a, b)
}

impl Aff {
    /// The value at a point.
    pub open spec fn value(self, params: Seq<int>, dims: Seq<int>) -> int
        decreases self,
    {
        match self {
            Aff::Const(value) => value as int,
            Aff::Param(index) => params[index as int],
            Aff::Dim(index) => dims[index as int],
            Aff::Add(l, r) => l.value(params, dims) + r.value(params, dims),
            Aff::Sub(l, r) => l.value(params, dims) - r.value(params, dims),
            Aff::Mul(l, r) => l.value(params, dims) * r.value(params, dims),
            Aff::FloorDiv(l, r) => floor_div(l.value(params, dims), r.value(params, dims)),
            Aff::CeilDiv(l, r) => ceil_quotient(l.value(params, dims), r.value(params, dims)),
            Aff::Mod(l, r) => l.value(params, dims) % r.value(params, dims),
        }
    }

    /// An equal expression.
    pub fn copy(&self) -> (copy: Aff)
        ensures
            copy == *self,
        decreases *self,
    {
        match self {
            Aff::Const(value) => Aff::Const(*value),
            Aff::Param(index) => Aff::Param(*index),
            Aff::Dim(index) => Aff::Dim(*index),
            Aff::Add(l, r) => Aff::Add(Box::new(l.copy()), Box::new(r.copy())),
            Aff::Sub(l, r) => Aff::Sub(Box::new(l.copy()), Box::new(r.copy())),
            Aff::Mul(l, r) => Aff::Mul(Box::new(l.copy()), Box::new(r.copy())),
            Aff::FloorDiv(l, r) => Aff::FloorDiv(Box::new(l.copy()), Box::new(r.copy())),
            Aff::CeilDiv(l, r) => Aff::CeilDiv(Box::new(l.copy()), Box::new(r.copy())),
            Aff::Mod(l, r) => Aff::Mod(Box::new(l.copy()), Box::new(r.copy())),
        }
    }
}

/// A loop around the place that is being lowered.
pub struct ConvertedIVar<'a> {
    pub lower_bound: &'a AffineMap,
    pub step_size: i64,
    /// The time dimension of the loop.
    pub index: usize,
    pub operands: &'a Vec<ValID>,
}

/// Lowers an expression; only the loops at levels below `limit` are in scope.
pub open spec fn lowered(
    expr: AffineExpr,
    operands: Seq<ValID>,
    symbol_shift: int,
    loops: Seq<ConvertedIVar>,
    limit: nat,
) -> Result<Aff, PlanError>
    decreases limit, 1int, expr,
{
    match expr {
        AffineExpr::Constant(value) => Ok(Aff::Const(value as i128)),
        AffineExpr::Dim(position) => lowered_operand(
            operands,
            position as int,
            false,
            loops,
            limit,
        ),
        AffineExpr::Symbol(position) => lowered_operand(
            operands,
            symbol_shift + position,
            true,
            loops,
            limit,
        ),
        AffineExpr::Add(l, r) => match lowered(*l, operands, symbol_shift, loops, limit) {
            Err(error) => Err(error),
            Ok(l) => match lowered(*r, operands, symbol_shift, loops, limit) {
                Err(error) => Err(error),
                Ok(r) => Ok(Aff::Add(Box::new(l), Box::new(r))),
            },
        },
        AffineExpr::Mul(l, r) => match lowered(*l, operands, symbol_shift, loops, limit) {
            Err(error) => Err(error),
            Ok(l) => match lowered(*r, operands, symbol_shift, loops, limit) {
                Err(error) => Err(error),
                Ok(r) => Ok(Aff::Mul(Box::new(l), Box::new(r))),
            },
        },
        AffineExpr::FloorDiv(l, r) => match lowered(*l, operands, symbol_shift, loops, limit) {
            Err(error) => Err(error),
            Ok(l) => match lowered(*r, operands, symbol_shift, loops, limit) {
                Err(error) => Err(error),
                Ok(r) => Ok(Aff::FloorDiv(Box::new(l), Box::new(r))),
            },
        },
        AffineExpr::Mod(_, _) => Err(PlanError::Mod),
        AffineExpr::CeilDiv(_, _) => Err(PlanError::CeilDiv),
    }
}

/// A variable of the dimension kind that the use asks for.
pub open spec fn variable(symbolic: bool, index: usize) -> Aff {
    if symbolic {
        Aff::Param(index)
    } else {
        Aff::Dim(index)
    }
}

/// Lowers the operand at a position.
pub open spec fn lowered_operand(
    operands: Seq<ValID>,
    position: int,
    symbolic: bool,
    loops: Seq<ConvertedIVar>,
    limit: nat,
) -> Result<Aff, PlanError>
    decreases limit, 0int,
{
    if position >= operands.len() {
        Err(PlanError::BadPosition)
    } else {
        match operands[position] {
            ValID::Symbol(index) => Ok(variable(symbolic, index)),
            ValID::IVar(n) => if n >= limit || n >= loops.len() {
                Err(PlanError::BadIvar)
            } else {
                match lowered_lower_bound(loops[n as int], loops, n as nat) {
                    Err(error) => Err(error),
                    Ok(lower) => Ok(
                        Aff::Add(
                            Box::new(
                                Aff::Mul(
                                    Box::new(variable(symbolic, loops[n as int].index)),
                                    Box::new(Aff::Const(loops[n as int].step_size as i128)),
                                ),
                            ),
                            Box::new(lower),
                        ),
                    ),
                }
            },
            _ => Err(PlanError::BadOperand),
        }
    }
}

/// Lowers the lower bound of a loop, with the loops around it in scope.
pub open spec fn lowered_lower_bound(
    ivar: ConvertedIVar,
    loops: Seq<ConvertedIVar>,
    limit: nat,
) -> Result<Aff, PlanError>
    decreases limit, 2int,
{
    if ivar.lower_bound.results@.len() == 0 {
        Err(PlanError::NoResult)
    } else {
        lowered(
            ivar.lower_bound.results@[0],
            ivar.operands@,
            ivar.lower_bound.num_dims as int,
            loops,
            limit,
        )
    }
}

/// Lowers an affine expression.
fn lower_expr(
    expr: &AffineExpr,
    operands: &Vec<ValID>,
    symbol_shift: usize,
    loops: &Vec<ConvertedIVar>,
    limit: usize,
) -> (aff: Result<Aff, PlanError>)
    ensures
        aff == lowered(*expr, operands@, symbol_shift as int, loops@, limit as nat),
    decreases limit, 1int, *expr,
{
    match expr {
        AffineExpr::Constant(value) => Ok(Aff::Const(*value as i128)),
        AffineExpr::Dim(position) => lower_operand(operands, *position, false, loops, limit),
        AffineExpr::Symbol(position) => match position.checked_add(symbol_shift) {
            Some(position) => lower_operand(operands, position, true, loops, limit),
            None => {
                assert(lowered_operand(
                    operands@,
                    symbol_shift + *position,
                    true,
                    loops@,
                    limit as nat,
                ) == Err::<Aff, PlanError>(PlanError::BadPosition)) by {
                    assert(operands.len() <= usize::MAX);
                }
                Err(PlanError::BadPosition)
            },
        },
        AffineExpr::Add(l, r) => {
            let l: Aff = match lower_expr(l, operands, symbol_shift, loops, limit) {
                Ok(l) => l,
                Err(error) => {
                    return Err(error);
                },
            };
            match lower_expr(r, operands, symbol_shift, loops, limit) {
                Ok(r) => Ok(Aff::Add(Box::new(l), Box::new(r))),
                Err(error) => Err(error),
            }
        },
        AffineExpr::Mul(l, r) => {
            let l: Aff = match lower_expr(l, operands, symbol_shift, loops, limit) {
                Ok(l) => l,
                Err(error) => {
                    return Err(error);
                },
            };
            match lower_expr(r, operands, symbol_shift, loops, limit) {
                Ok(r) => Ok(Aff::Mul(Box::new(l), Box::new(r))),
                Err(error) => Err(error),
            }
        },
        AffineExpr::FloorDiv(l, r) => {
            let l: Aff = match lower_expr(l, operands, symbol_shift, loops, limit) {
                Ok(l) => l,
                Err(error) => {
                    return Err(error);
                },
            };
            match lower_expr(r, operands, symbol_shift, loops, limit) {
                Ok(r) => Ok(Aff::FloorDiv(Box::new(l), Box::new(r))),
                Err(error) => Err(error),
            }
        },
        AffineExpr::Mod(_, _) => Err(PlanError::Mod),
        AffineExpr::CeilDiv(_, _) => Err(PlanError::CeilDiv),
    }
}

/// Lowers the operand at a position.
fn lower_operand(
    operands: &Vec<ValID>,
    position: usize,
    symbolic: bool,
    loops: &Vec<ConvertedIVar>,
    limit: usize,
) -> (aff: Result<Aff, PlanError>)
    ensures
        aff == lowered_operand(operands@, position as int, symbolic, loops@, limit as nat),
    decreases limit, 0int,
{
    if position >= operands.len() {
        return Err(PlanError::BadPosition);
    }
    match &operands[position] {
        ValID::Symbol(index) => Ok(
            if symbolic {
                Aff::Param(*index)
            } else {
                Aff::Dim(*index)
            },
        ),
        ValID::IVar(n) => {
            if *n >= limit || *n >= loops.len() {
                return Err(PlanError::BadIvar);
            }
            let ivar: &ConvertedIVar = &loops[*n];
            let var: Aff = if symbolic {
                Aff::Param(ivar.index)
            } else {
                Aff::Dim(ivar.index)
            };
            match convert_lower_bound(ivar, loops, *n) {
                Err(error) => Err(error),
                Ok(lower) => Ok(
                    Aff::Add(
                        Box::new(
                            Aff::Mul(
                                Box::new(var),
                                Box::new(Aff::Const(ivar.step_size as i128)),
                            ),
                        ),
                        Box::new(lower),
                    ),
                ),
            }
        },
        _ => Err(PlanError::BadOperand),
    }
}

/// Lowers the lower bound of a loop, with the loops around it in scope.
pub fn convert_lower_bound(ivar: &ConvertedIVar, loops: &Vec<ConvertedIVar>, limit: usize) -> (aff:
    Result<Aff, PlanError>)
    ensures
        aff == lowered_lower_bound(*ivar, loops@, limit as nat),
    decreases limit, 2int,
{
    if ivar.lower_bound.results.len() == 0 {
        return Err(PlanError::NoResult);
    }
    lower_expr(
        &ivar.lower_bound.results[0],
        ivar.operands,
        ivar.lower_bound.num_dims,
        loops,
        limit,
    )
}

/// Lowers the expressions of a map or set, inside some loops.
pub struct ExprConverter<'a, 'b> {
    loops: &'b Vec<ConvertedIVar<'a>>,
    symbol_shift: usize,
    operands: &'a Vec<ValID>,
}

impl<'a, 'b> ExprConverter<'a, 'b> {
    /// The operands of the map or set.
    pub closed spec fn operands(&self) -> Seq<ValID> {
        self.operands@
    }

    /// The number of dimensions among the operands.
    pub closed spec fn symbol_shift(&self) -> int {
        self.symbol_shift as int
    }

    /// The loops around the map or set.
    pub closed spec fn loops(&self) -> Seq<ConvertedIVar<'a>> {
        self.loops@
    }

    /// A converter for the expressions of a map.
    pub fn new(map: &AffineMap, operands: &'a Vec<ValID>, loops: &'b Vec<ConvertedIVar<'a>>) -> (converter:
        Self)
        ensures
            converter.operands() == operands@,
            converter.symbol_shift() == map.num_dims,
            converter.loops() == loops@,
    {
        ExprConverter { loops, symbol_shift: map.num_dims, operands }
    }

    /// A converter for expressions with a given number of dimensions.
    pub fn new_with_dims(
        symbol_shift: usize,
        operands: &'a Vec<ValID>,
        loops: &'b Vec<ConvertedIVar<'a>>,
    ) -> (converter: Self)
        ensures
            converter.operands() == operands@,
            converter.symbol_shift() == symbol_shift,
            converter.loops() == loops@,
    {
        ExprConverter { loops, symbol_shift, operands }
    }

    /// Lowers an expression.
    pub fn convert_polynomial(&self, expr: &AffineExpr) -> (aff: Result<Aff, PlanError>)
        ensures
            aff == lowered(
                *expr,
                self.operands(),
                self.symbol_shift(),
                self.loops(),
                self.loops().len(),
            ),
    {
        lower_expr(expr, self.operands, self.symbol_shift, self.loops, self.loops.len())
    }

    /// Lowers the operand of a dimension, or of a symbol, at a position.
    pub fn position_to_var(&self, position: usize, symbolic: bool) -> (aff: Result<Aff, PlanError>)
        ensures
            aff == lowered_operand(
                self.operands(),
                if symbolic {
                    self.symbol_shift() + position
                } else {
                    position as int
                },
                symbolic,
                self.loops(),
                self.loops().len(),
            ),
    {
        let place: usize = if symbolic {
            match position.checked_add(self.symbol_shift) {
                Some(place) => place,
                None => {
                    assert(self.operands@.len() == self.operands.len());
                    return Err(PlanError::BadPosition);
                },
            }
        } else {
            position
        };
        lower_operand(self.operands, place, symbolic, self.loops, self.loops.len())
    }
}

/// The value of an expression for given values of the loops around it and of
/// the parameters, over the integers.
pub open spec fn expr_int(
    expr: AffineExpr,
    operands: Seq<ValID>,
    symbol_shift: int,
    ivars: Seq<int>,
    params: Seq<int>,
) -> int
    decreases expr,
{
    match expr {
        AffineExpr::Constant(value) => value as int,
        AffineExpr::Dim(position) => operand_int(operands[position as int], ivars, params),
        AffineExpr::Symbol(position) => operand_int(
            operands[symbol_shift + position],
            ivars,
            params,
        ),
        AffineExpr::Add(l, r) => expr_int(*l, operands, symbol_shift, ivars, params) + expr_int(
            *r,
            operands,
            symbol_shift,
            ivars,
            params,
        ),
        AffineExpr::Mul(l, r) => expr_int(*l, operands, symbol_shift, ivars, params) * expr_int(
            *r,
            operands,
            symbol_shift,
            ivars,
            params,
        ),
        AffineExpr::Mod(l, r) => expr_int(*l, operands, symbol_shift, ivars, params) % expr_int(
            *r,
            operands,
            symbol_shift,
            ivars,
            params,
        ),
        AffineExpr::FloorDiv(l, r) => floor_div(
            expr_int(*l, operands, symbol_shift, ivars, params),
            expr_int(*r, operands, symbol_shift, ivars, params),
        ),
        AffineExpr::CeilDiv(l, r) => ceil_quotient(
            expr_int(*l, operands, symbol_shift, ivars, params),
            expr_int(*r, operands, symbol_shift, ivars, params),
        ),
    }
}

/// The value of an operand.
pub open spec fn operand_int(operand: ValID, ivars: Seq<int>, params: Seq<int>) -> int {
    match operand {
        ValID::IVar(n) => ivars[n as int],
        ValID::Symbol(n) => params[n as int],
        _ => 0,
    }
}

/// The value of a loop's lower bound.
pub open spec fn lower_int(ivar: ConvertedIVar, ivars: Seq<int>, params: Seq<int>) -> int {
    expr_int(
        ivar.lower_bound.results@[0],
        ivar.operands@,
        ivar.lower_bound.num_dims as int,
        ivars,
        params,
    )
}

/// Dimensions stand for induction variables and symbols for parameters.
pub open spec fn well_kinded(operands: Seq<ValID>, num_dims: int) -> bool {
    forall|i: int|
        0 <= i < operands.len() ==> if i < num_dims {
            (#[trigger] operands[i]) is IVar
        } else {
            operands[i] is Symbol
        }
}

/// Every dimension of the expression is one of the first `num_dims` operands.
pub open spec fn dims_below(expr: AffineExpr, num_dims: int) -> bool
    decreases expr,
{
    match expr {
        AffineExpr::Constant(_) => true,
        AffineExpr::Symbol(_) => true,
        AffineExpr::Dim(position) => position < num_dims,
        AffineExpr::Add(l, r) => dims_below(*l, num_dims) && dims_below(*r, num_dims),
        AffineExpr::Mul(l, r) => dims_below(*l, num_dims) && dims_below(*r, num_dims),
        AffineExpr::Mod(l, r) => dims_below(*l, num_dims) && dims_below(*r, num_dims),
        AffineExpr::FloorDiv(l, r) => dims_below(*l, num_dims) && dims_below(*r, num_dims),
        AffineExpr::CeilDiv(l, r) => dims_below(*l, num_dims) && dims_below(*r, num_dims),
    }
}

/// The map uses its operands by their kind.
pub open spec fn kinded_map(map: AffineMap, operands: Seq<ValID>) -> bool {
    &&& well_kinded(operands, map.num_dims as int)
    &&& forall|i: int|
        0 <= i < map.results@.len() ==> dims_below(
            #[trigger] map.results@[i],
            map.num_dims as int,
        )
}

/// The values of the loops at a point: each is its lower bound plus its step
/// times its time dimension.
pub open spec fn at_point(
    loops: Seq<ConvertedIVar>,
    ivars: Seq<int>,
    params: Seq<int>,
    dims: Seq<int>,
) -> bool {
    &&& ivars.len() == loops.len()
    &&& forall|n: int|
        0 <= n < loops.len() ==> #[trigger] ivars[n] == lower_int(loops[n], ivars, params)
            + loops[n].step_size * dims[loops[n].index as int]
    &&& forall|n: int|
        0 <= n < loops.len() ==> kinded_map(*(#[trigger] loops[n]).lower_bound, loops[n].operands@)
}

/// A lowered expression has the value of the expression.
pub proof fn law_lowering_keeps_the_value(
    expr: AffineExpr,
    operands: Seq<ValID>,
    symbol_shift: int,
    loops: Seq<ConvertedIVar>,
    limit: nat,
    ivars: Seq<int>,
    params: Seq<int>,
    dims: Seq<int>,
)
    requires
        symbol_shift >= 0,
        well_kinded(operands, symbol_shift),
        dims_below(expr, symbol_shift),
        at_point(loops, ivars, params, dims),
        lowered(expr, operands, symbol_shift, loops, limit) is Ok,
    ensures
        lowered(expr, operands, symbol_shift, loops, limit)->Ok_0.value(params, dims) == expr_int(
            expr,
            operands,
            symbol_shift,
            ivars,
            params,
        ),
    decreases limit, 1int, expr,
{
    match expr {
        AffineExpr::Constant(value) => {},
        AffineExpr::Dim(position) => {
            lemma_operand_lowering(operands, position as int, false, loops, limit, ivars, params, dims);
        },
        AffineExpr::Symbol(position) => {
            lemma_operand_lowering(
                operands,
                symbol_shift + position,
                true,
                loops,
                limit,
                ivars,
                params,
                dims,
            );
        },
        AffineExpr::Add(l, r) => {
            law_lowering_keeps_the_value(*l, operands, symbol_shift, loops, limit, ivars, params, dims);
            law_lowering_keeps_the_value(*r, operands, symbol_shift, loops, limit, ivars, params, dims);
        },
        AffineExpr::Mul(l, r) => {
            law_lowering_keeps_the_value(*l, operands, symbol_shift, loops, limit, ivars, params, dims);
            law_lowering_keeps_the_value(*r, operands, symbol_shift, loops, limit, ivars, params, dims);
        },
        AffineExpr::FloorDiv(l, r) => {
            law_lowering_keeps_the_value(*l, operands, symbol_shift, loops, limit, ivars, params, dims);
            law_lowering_keeps_the_value(*r, operands, symbol_shift, loops, limit, ivars, params, dims);
        },
        AffineExpr::Mod(l, r) => {},
        AffineExpr::CeilDiv(l, r) => {},
    }
}

proof fn lemma_operand_lowering(
    operands: Seq<ValID>,
    position: int,
    symbolic: bool,
    loops: Seq<ConvertedIVar>,
    limit: nat,
    ivars: Seq<int>,
    params: Seq<int>,
    dims: Seq<int>,
)
    requires
        0 <= position,
        position < operands.len() ==> (if symbolic {
            operands[position] is Symbol
        } else {
            operands[position] is IVar
        }),
        at_point(loops, ivars, params, dims),
        lowered_operand(operands, position, symbolic, loops, limit) is Ok,
    ensures
        lowered_operand(operands, position, symbolic, loops, limit)->Ok_0.value(params, dims)
            == operand_int(operands[position], ivars, params),
    decreases limit, 0int,
{
    if let ValID::IVar(n) = operands[position] {
        let ivar = loops[n as int];
        assert(kinded_map(*ivar.lower_bound, ivar.operands@));
        law_lowering_keeps_the_value(
            ivar.lower_bound.results@[0],
            ivar.operands@,
            ivar.lower_bound.num_dims as int,
            loops,
            n as nat,
            ivars,
            params,
            dims,
        );
        let lower = lowered_lower_bound(ivar, loops, n as nat)->Ok_0;
        let scaled = Aff::Mul(
            Box::new(variable(symbolic, ivar.index)),
            Box::new(Aff::Const(ivar.step_size as i128)),
        );
        assert(scaled.value(params, dims) == dims[ivar.index as int] * ivar.step_size) by {
            reveal_with_fuel(Aff::value, 3);
        }
        assert(dims[ivar.index as int] * ivar.step_size == ivar.step_size * dims[ivar.index as int])
            by (nonlinear_arith);
        assert(ivars[n as int] == lower_int(ivar, ivars, params) + ivar.step_size
            * dims[ivar.index as int]);
    }
}

} // verus!
