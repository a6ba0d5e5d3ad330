//! Concrete evaluation of affine maps and integer sets.
//!
//! The operand list of a map or set is `[dims.., symbols..]`, so a symbol at
//! position `s` resolves to `operands[num_dims + s]`, while a dimension at
//! position `p` resolves to `operands[p]`.
//!
//! Divisors have to be positive; quotients and remainders are floored.

use crate::error::Error;
use crate::tree::{AffineExpr, AffineMap, Constraint, IntegerSet, ValID};
use vstd::prelude::*;

verus! {

/// Concrete values for the induction variables and symbols in scope.
///
/// Induction variables are numbered by nesting depth, so sibling loops at one
/// depth share a place and shadowing needs no further bookkeeping.
#[derive(Debug, Default)]
pub struct Env {
    ivars: Vec<i64>,
    symbols: Vec<i64>,
}

/// The values that an environment holds.
pub ghost struct Values {
    pub ivars: Seq<i64>,
    pub symbols: Seq<i64>,
}

impl View for Env {
    type V = Values;

    closed spec fn view(&self) -> Values {
        Values { ivars: self.ivars@, symbols: self.symbols@ }
    }
}

impl Values {
    /// The value of an induction variable, if it has been set.
    pub open spec fn ivar(self, index: int) -> Result<i64, Error> {
        if 0 <= index < self.ivars.len() {
            Ok(self.ivars[index])
        } else {
            Err(Error::UnsetIvar { index: index as usize })
        }
    }

    /// The value of a symbol, if it has one.
    pub open spec fn symbol(self, index: int) -> Result<i64, Error> {
        if 0 <= index < self.symbols.len() {
            Ok(self.symbols[index])
        } else {
            Err(Error::UnboundSymbol { index: index as usize, declared: self.symbols.len() as usize })
        }
    }

    /// The values after an induction variable was set: those below it that were
    /// never set read as zero.
    pub open spec fn with_ivar(self, index: int, value: i64) -> Values {
        let len = if self.ivars.len() <= index {
            (index + 1) as nat
        } else {
            self.ivars.len()
        };
        Values {
            ivars: Seq::new(
                len,
                |i: int|
                    if i == index {
                        value
                    } else if i < self.ivars.len() {
                        self.ivars[i]
                    } else {
                        0
                    },
            ),
            symbols: self.symbols,
        }
    }
}

impl Env {
    pub fn new(symbols: Vec<i64>) -> (env: Self)
        ensures
            env@ == (Values { ivars: Seq::empty(), symbols: symbols@ }),
    {
        Env { ivars: Vec::new(), symbols }
    }

    /// Sets an induction variable.
    pub fn set_ivar(&mut self, index: usize, value: i64)
        requires
            index < usize::MAX,
        ensures
            final(self)@ == old(self)@.with_ivar(index as int, value),
    {
        let ghost before = self@;
        if self.ivars.len() <= index {
            self.ivars.resize(index + 1, 0);
        }
        self.ivars[index] = value;
        assert(self@.ivars =~= before.with_ivar(index as int, value).ivars);
    }

    /// The value of an induction variable.
    pub fn ivar(&self, index: usize) -> (value: Result<i64, Error>)
        ensures
            value == self@.ivar(index as int),
    {
        if index < self.ivars.len() {
            Ok(self.ivars[index])
        } else {
            Err(Error::UnsetIvar { index })
        }
    }

    /// The value of a symbol.
    pub fn symbol(&self, index: usize) -> (value: Result<i64, Error>)
        ensures
            value == self@.symbol(index as int),
    {
        if index < self.symbols.len() {
            Ok(self.symbols[index])
        } else {
            Err(Error::UnboundSymbol { index, declared: self.symbols.len() })
        }
    }

    pub fn symbol_count(&self) -> (count: usize)
        ensures
            count == self@.symbols.len(),
    {
        self.symbols.len()
    }
}

/// The value of the operand at a position.
pub open spec fn operand_at(operands: Seq<ValID>, position: int, env: Values) -> Result<
    i64,
    Error,
> {
    if position >= operands.len() {
        Err(Error::MissingOperand { position: position as usize, present: operands.len() as usize })
    } else {
        match operands[position] {
            ValID::IVar(index) => env.ivar(index as int),
            ValID::Symbol(index) => env.symbol(index as int),
            _ => Err(Error::MemrefOperand { operand: operands[position] }),
        }
    }
}

/// Resolves one operand to its concrete value.
pub fn operand_value(operands: &[ValID], position: usize, env: &Env) -> (value: Result<i64, Error>)
    ensures
        value == operand_at(operands@, position as int, env@),
{
    if position >= operands.len() {
        return Err(Error::MissingOperand { position, present: operands.len() });
    }
    match &operands[position] {
        ValID::IVar(index) => env.ivar(*index),
        ValID::Symbol(index) => env.symbol(*index),
        other => Err(Error::MemrefOperand { operand: other.clone() }),
    }
}

/// A number as a 64-bit value.
pub open spec fn fit(value: int) -> Result<i64, Error> {
    if i64::MIN <= value <= i64::MAX {
        Ok(value as i64)
    } else {
        Err(Error::Overflow)
    }
}

/// The value of an affine expression. Of two failing operands the left one
/// counts.
pub open spec fn expr_value(
    expr: AffineExpr,
    operands: Seq<ValID>,
    num_dims: int,
    env: Values,
) -> Result<i64, Error>
    decreases expr,
{
    match expr {
        AffineExpr::Constant(value) => Ok(value),
        AffineExpr::Dim(position) => operand_at(operands, position as int, env),
        AffineExpr::Symbol(position) => if num_dims + position > usize::MAX {
            Err(Error::Overflow)
        } else {
            operand_at(operands, num_dims + position, env)
        },
        AffineExpr::Add(lhs, rhs) => match both(
            expr_value(*lhs, operands, num_dims, env),
            expr_value(*rhs, operands, num_dims, env),
        ) {
            Ok((l, r)) => fit(l + r),
            Err(error) => Err(error),
        },
        AffineExpr::Mul(lhs, rhs) => match both(
            expr_value(*lhs, operands, num_dims, env),
            expr_value(*rhs, operands, num_dims, env),
        ) {
            Ok((l, r)) => fit(l * r),
            Err(error) => Err(error),
        },
        AffineExpr::Mod(lhs, rhs) => match both(
            expr_value(*lhs, operands, num_dims, env),
            expr_value(*rhs, operands, num_dims, env),
        ) {
            Ok((l, r)) => if r > 0 {
                fit(l as int % r as int)
            } else {
                Err(Error::BadDivisor { divisor: r })
            },
            Err(error) => Err(error),
        },
        AffineExpr::FloorDiv(lhs, rhs) => match both(
            expr_value(*lhs, operands, num_dims, env),
            expr_value(*rhs, operands, num_dims, env),
        ) {
            Ok((l, r)) => if r > 0 {
                fit(l as int / r as int)
            } else {
                Err(Error::BadDivisor { divisor: r })
            },
            Err(error) => Err(error),
        },
        AffineExpr::CeilDiv(lhs, rhs) => match both(
            expr_value(*lhs, operands, num_dims, env),
            expr_value(*rhs, operands, num_dims, env),
        ) {
            Ok((l, r)) => if r > 0 {
                fit(-((-l) / r as int))
            } else {
                Err(Error::BadDivisor { divisor: r })
            },
            Err(error) => Err(error),
        },
    }
}

/// Both values, or the first error.
pub open spec fn both(lhs: Result<i64, Error>, rhs: Result<i64, Error>) -> Result<
    (i64, i64),
    Error,
> {
    match lhs {
        Err(error) => Err(error),
        Ok(l) => match rhs {
            Err(error) => Err(error),
            Ok(r) => Ok((l, r)),
        },
    }
}

/// Rounding up is the negated floor of the negated quotient, or the floor plus
/// one where there is a remainder.
proof fn lemma_ceil(l: int, r: int)
    requires
        r > 0,
    ensures
        -((-l) / r) == l / r + if l % r != 0 {
            1int
        } else {
            0int
        },
        0 <= l % r < r,
        l < 0 ==> l <= l / r <= -1,
        l >= 0 ==> 0 <= l / r <= l,
        r == 1 ==> l % r == 0,
        r > 1 && l >= 2 ==> l / r < l,
{
    crate::address::lemma_quotient_fits(l, r);
    vstd::arithmetic::div_mod::lemma_fundamental_div_mod(l, r);
    vstd::arithmetic::div_mod::lemma_fundamental_div_mod(-l, r);
    vstd::arithmetic::div_mod::lemma_mod_bound(l, r);
    vstd::arithmetic::div_mod::lemma_mod_bound(-l, r);
    let (q, p, m, n) = (l / r, (-l) / r, l % r, (-l) % r);
    assert(r * (q + p) + m + n == 0) by (nonlinear_arith)
        requires
            l == r * q + m,
            -l == r * p + n,
    ;
    assert(q + p == 0 || q + p == -1) by (nonlinear_arith)
        requires
            r * (q + p) + m + n == 0,
            0 <= m < r,
            0 <= n < r,
    ;
    assert(q + p == 0 ==> m == 0) by (nonlinear_arith)
        requires
            r * (q + p) + m + n == 0,
            0 <= m < r,
            0 <= n < r,
    ;
    assert(q + p == -1 ==> m != 0) by (nonlinear_arith)
        requires
            r * (q + p) + m + n == 0,
            0 <= m < r,
            0 <= n < r,
    ;
    if r > 1 && l >= 2 {
        assert(q < l) by (nonlinear_arith)
            requires
                l == r * q + m,
                0 <= m,
                r > 1,
                l >= 2,
        ;
    }
}

/// Evaluates one affine expression. `num_dims` is the dimension count of the
/// enclosing map or set.
pub fn eval_expr(expr: &AffineExpr, operands: &[ValID], num_dims: usize, env: &Env) -> (value:
    Result<i64, Error>)
    ensures
        value == expr_value(*expr, operands@, num_dims as int, env@),
    decreases *expr, 1int,
{
    match expr {
        AffineExpr::Constant(value) => Ok(*value),
        AffineExpr::Dim(position) => operand_value(operands, *position, env),
        AffineExpr::Symbol(position) => match num_dims.checked_add(*position) {
            Some(shifted) => operand_value(operands, shifted, env),
            None => Err(Error::Overflow),
        },
        AffineExpr::Add(lhs, rhs) => match eval_both(Ghost(*expr), lhs, rhs, operands, num_dims, env) {
            Ok((l, r)) => in_range(l.checked_add(r)),
            Err(error) => Err(error),
        },
        AffineExpr::Mul(lhs, rhs) => match eval_both(Ghost(*expr), lhs, rhs, operands, num_dims, env) {
            Ok((l, r)) => in_range(l.checked_mul(r)),
            Err(error) => Err(error),
        },
        AffineExpr::Mod(lhs, rhs) => match eval_both(Ghost(*expr), lhs, rhs, operands, num_dims, env) {
            Ok((l, r)) => {
                if r > 0 {
                    proof {
                        lemma_ceil(l as int, r as int);
                    }
                    in_range(l.checked_rem_euclid(r))
                } else {
                    Err(Error::BadDivisor { divisor: r })
                }
            },
            Err(error) => Err(error),
        },
        AffineExpr::FloorDiv(lhs, rhs) => match eval_both(Ghost(*expr), lhs, rhs, operands, num_dims, env) {
            Ok((l, r)) => {
                if r > 0 {
                    in_range(l.checked_div_euclid(r))
                } else {
                    Err(Error::BadDivisor { divisor: r })
                }
            },
            Err(error) => Err(error),
        },
        AffineExpr::CeilDiv(lhs, rhs) => match eval_both(Ghost(*expr), lhs, rhs, operands, num_dims, env) {
            Ok((l, r)) => {
                if r > 0 {
                    proof {
                        lemma_ceil(l as int, r as int);
                    }
                    match (l.checked_div_euclid(r), l.checked_rem_euclid(r)) {
                        (Some(quotient), Some(remainder)) => Ok(
                            if remainder != 0 {
                                quotient + 1
                            } else {
                                quotient
                            },
                        ),
                        _ => Err(Error::Overflow),
                    }
                } else {
                    Err(Error::BadDivisor { divisor: r })
                }
            },
            Err(error) => Err(error),
        },
    }
}

fn in_range(value: Option<i64>) -> (result: Result<i64, Error>)
    ensures
        value matches Some(value) ==> result == Ok::<i64, Error>(value),
        value is None ==> result == Err::<i64, Error>(Error::Overflow),
{
    match value {
        Some(value) => Ok(value),
        None => Err(Error::Overflow),
    }
}

/// Evaluates the two operands of the expression `parent`.
fn eval_both(
    Ghost(parent): Ghost<AffineExpr>,
    lhs: &AffineExpr,
    rhs: &AffineExpr,
    operands: &[ValID],
    num_dims: usize,
    env: &Env,
) -> (value: Result<(i64, i64), Error>)
    requires
        decreases_to!(parent => *lhs),
        decreases_to!(parent => *rhs),
    ensures
        value == both(
            expr_value(*lhs, operands@, num_dims as int, env@),
            expr_value(*rhs, operands@, num_dims as int, env@),
        ),
    decreases parent, 0int,
{
    match eval_expr(lhs, operands, num_dims, env) {
        Err(error) => Err(error),
        Ok(l) => match eval_expr(rhs, operands, num_dims, env) {
            Err(error) => Err(error),
            Ok(r) => Ok((l, r)),
        },
    }
}

/// The values of the first `count` results of a map, or the first error.
pub open spec fn map_prefix(
    map: AffineMap,
    operands: Seq<ValID>,
    env: Values,
    count: nat,
) -> Result<Seq<i64>, Error>
    decreases count,
{
    if count == 0 {
        Ok(Seq::empty())
    } else {
        match map_prefix(map, operands, env, (count - 1) as nat) {
            Err(error) => Err(error),
            Ok(values) => match expr_value(
                map.results@[count - 1],
                operands,
                map.num_dims as int,
                env,
            ) {
                Err(error) => Err(error),
                Ok(value) => Ok(values.push(value)),
            },
        }
    }
}

/// The values of all results of a map, or the first error.
pub open spec fn map_values(map: AffineMap, operands: Seq<ValID>, env: Values) -> Result<
    Seq<i64>,
    Error,
> {
    map_prefix(map, operands, env, map.results@.len())
}

/// An error of some result is the error of the map.
proof fn lemma_map_error(map: AffineMap, operands: Seq<ValID>, env: Values, at: nat, count: nat)
    requires
        at <= count,
        map_prefix(map, operands, env, at) is Err,
    ensures
        map_prefix(map, operands, env, count) == map_prefix(map, operands, env, at),
    decreases count,
{
    if at < count {
        lemma_map_error(map, operands, env, at, (count - 1) as nat);
    }
}

/// Evaluates every result of an affine map into `out`. On an error, `out` holds
/// the results before the one that failed.
pub fn eval_map(map: &AffineMap, operands: &[ValID], env: &Env, out: &mut Vec<i64>) -> (done: Result<
    (),
    Error,
>)
    ensures
        match map_values(*map, operands@, env@) {
            Ok(values) => done is Ok && final(out)@ == values,
            Err(error) => done == Err::<(), Error>(error),
        },
        map_prefix(*map, operands@, env@, final(out)@.len()) == Ok::<Seq<i64>, Error>(final(out)@),
{
    out.clear();
    let mut index: usize = 0;
    while index < map.results.len()
        invariant
            index <= map.results@.len(),
            out@.len() == index,
            map_prefix(*map, operands@, env@, index as nat) == Ok::<Seq<i64>, Error>(out@),
        decreases map.results@.len() - index,
    {
        match eval_expr(&map.results[index], operands, map.num_dims, env) {
            Ok(value) => {
                out.push(value);
            },
            Err(error) => {
                proof {
                    lemma_map_error(
                        *map,
                        operands@,
                        env@,
                        (index + 1) as nat,
                        map.results@.len(),
                    );
                }
                return Err(error);
            },
        }
        index += 1;
    }
    Ok(())
}

/// A largest element.
pub open spec fn is_max(values: Seq<i64>, value: i64) -> bool {
    values.contains(value) && forall|i: int| 0 <= i < values.len() ==> values[i] <= value
}

/// A smallest element.
pub open spec fn is_min(values: Seq<i64>, value: i64) -> bool {
    values.contains(value) && forall|i: int| 0 <= i < values.len() ==> value <= values[i]
}

/// The lower bound of a loop: the maximum over the results of the map.
pub open spec fn lower_value(map: AffineMap, operands: Seq<ValID>, env: Values) -> Result<
    i64,
    Error,
> {
    match map_values(map, operands, env) {
        Err(error) => Err(error),
        Ok(values) => if values.len() == 0 {
            Err(Error::EmptyLowerBound)
        } else {
            Ok(choose|value: i64| is_max(values, value))
        },
    }
}

/// The upper bound of a loop: the minimum over the results of the map.
pub open spec fn upper_value(map: AffineMap, operands: Seq<ValID>, env: Values) -> Result<
    i64,
    Error,
> {
    match map_values(map, operands, env) {
        Err(error) => Err(error),
        Ok(values) => if values.len() == 0 {
            Err(Error::EmptyUpperBound)
        } else {
            Ok(choose|value: i64| is_min(values, value))
        },
    }
}

/// Evaluates the lower bound of a loop: the maximum over the map's results.
pub fn eval_lower_bound(map: &AffineMap, operands: &[ValID], env: &Env) -> (bound: Result<
    i64,
    Error,
>)
    ensures
        bound == lower_value(*map, operands@, env@),
{
    let mut results: Vec<i64> = Vec::new();
    match eval_map(map, operands, env, &mut results) {
        Err(error) => {
            return Err(error);
        },
        Ok(()) => {},
    }
    if results.len() == 0 {
        return Err(Error::EmptyLowerBound);
    }
    let mut best: i64 = results[0];
    let mut index: usize = 1;
    assert(results@.take(1)[0] == best);
    while index < results.len()
        invariant
            1 <= index <= results@.len(),
            is_max(results@.take(index as int), best),
        decreases results@.len() - index,
    {
        let ghost before = results@.take(index as int);
        let ghost earlier = best;
        if results[index] > best {
            best = results[index];
        }
        index += 1;
        proof {
            let now = results@.take(index as int);
            assert(now =~= before.push(results@[index - 1]));
            let i = choose|i: int| 0 <= i < before.len() && before[i] == earlier;
            assert(now[i] == earlier);
            assert(now[index - 1] == results@[index - 1]);
        }
    }
    proof {
        assert(results@.take(index as int) =~= results@);
        let value = choose|value: i64| is_max(results@, value);
        assert(is_max(results@, best));
        assert(is_max(results@, value));
        let i = choose|i: int| 0 <= i < results@.len() && results@[i] == value;
        let j = choose|j: int| 0 <= j < results@.len() && results@[j] == best;
    }
    Ok(best)
}

/// Evaluates the upper bound of a loop: the minimum over the map's results.
pub fn eval_upper_bound(map: &AffineMap, operands: &[ValID], env: &Env) -> (bound: Result<
    i64,
    Error,
>)
    ensures
        bound == upper_value(*map, operands@, env@),
{
    let mut results: Vec<i64> = Vec::new();
    match eval_map(map, operands, env, &mut results) {
        Err(error) => {
            return Err(error);
        },
        Ok(()) => {},
    }
    if results.len() == 0 {
        return Err(Error::EmptyUpperBound);
    }
    let mut best: i64 = results[0];
    let mut index: usize = 1;
    assert(results@.take(1)[0] == best);
    while index < results.len()
        invariant
            1 <= index <= results@.len(),
            is_min(results@.take(index as int), best),
        decreases results@.len() - index,
    {
        let ghost before = results@.take(index as int);
        let ghost earlier = best;
        if results[index] < best {
            best = results[index];
        }
        index += 1;
        proof {
            let now = results@.take(index as int);
            assert(now =~= before.push(results@[index - 1]));
            let i = choose|i: int| 0 <= i < before.len() && before[i] == earlier;
            assert(now[i] == earlier);
            assert(now[index - 1] == results@[index - 1]);
        }
    }
    proof {
        assert(results@.take(index as int) =~= results@);
        let value = choose|value: i64| is_min(results@, value);
        assert(is_min(results@, best));
        assert(is_min(results@, value));
        let i = choose|i: int| 0 <= i < results@.len() && results@[i] == value;
        let j = choose|j: int| 0 <= j < results@.len() && results@[j] == best;
    }
    Ok(best)
}

/// Whether a constraint holds of the value of its expression.
pub open spec fn satisfied(constraint: Constraint, value: i64) -> bool {
    if constraint.equality {
        value == 0
    } else {
        value >= 0
    }
}

/// Whether the constraints from position `at` on hold. The first that fails to
/// hold, or to evaluate, decides.
pub open spec fn set_from(set: IntegerSet, operands: Seq<ValID>, env: Values, at: int) -> Result<
    bool,
    Error,
>
    decreases set.constraints@.len() - at,
{
    if at >= set.constraints@.len() {
        Ok(true)
    } else {
        match expr_value(set.constraints@[at].expr, operands, set.num_dims as int, env) {
            Err(error) => Err(error),
            Ok(value) => if satisfied(set.constraints@[at], value) {
                set_from(set, operands, env, at + 1)
            } else {
                Ok(false)
            },
        }
    }
}

/// Whether the operands lie in an integer set.
pub open spec fn set_value(set: IntegerSet, operands: Seq<ValID>, env: Values) -> Result<
    bool,
    Error,
> {
    set_from(set, operands, env, 0)
}

/// Tests membership in an integer set: a conjunction of conditions `expr == 0`
/// and `expr >= 0`.
pub fn eval_integer_set(set: &IntegerSet, operands: &[ValID], env: &Env) -> (member: Result<
    bool,
    Error,
>)
    ensures
        member == set_value(*set, operands@, env@),
{
    let mut index: usize = 0;
    while index < set.constraints.len()
        invariant
            index <= set.constraints@.len(),
            set_value(*set, operands@, env@) == set_from(*set, operands@, env@, index as int),
        decreases set.constraints@.len() - index,
    {
        let constraint: &Constraint = &set.constraints[index];
        match eval_expr(&constraint.expr, operands, set.num_dims, env) {
            Err(error) => {
                return Err(error);
            },
            Ok(value) => {
                let holds: bool = if constraint.equality {
                    value == 0
                } else {
                    value >= 0
                };
                if !holds {
                    return Ok(false);
                }
            },
        }
        index += 1;
    }
    Ok(true)
}

} // verus!
