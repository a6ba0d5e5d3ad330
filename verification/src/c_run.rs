//! What a written program does: its accesses are those of the walk over the tree,
//! in the same order.

use crate::address::MemrefKey;
use crate::affine_eval::{lower_value, map_values, upper_value, Values};
use crate::c_reading::{
    conditions_in_c, expr_in_c, has_c_form, lemma_stmts_in_c, lemma_tree_reads, reads_stmt,
    stmts_in_c, subscripts_in_c, tree_in_c, CCondition, CExpr, COperator, CStmt,
};
use crate::emit::{
    array_name, c_quotient, c_remainder, divides_forward, join, law_written_ceiling_is_the_ceiling,
    program_text, tabs, tree_text,
};
use crate::fxmap::lookup;
use crate::meaning::{
    operands_below, positions_within, set_holds, sound, sound_map, sound_set, subscripts,
};
use crate::order::{
    as_params, below, in_scope, lemma_agrees_with_itself, lemma_bound_ints, lemma_condition_int,
    lemma_map_ints, lemma_operands_scoped, lemma_scope_entered, lemma_scope_kept, outermost,
};
use crate::quasi_affine::{dims_below, expr_int, well_kinded};
use crate::references::key_of_memref;
use crate::scope::{lemma_walk_keeps, scoped, scoped_from};
use crate::tree::{AffineExpr, AffineMap, IntegerSet, Tree, ValID};
use crate::walk::{data_of, walk, walk_block, walk_for, Emitted, Setting};
use vstd::prelude::*;

verus! {

broadcast use vstd::std_specs::vec::axiom_vec_index_decreases;

/// An array element that a program touches.
pub ghost struct Touch {
    pub name: Seq<char>,
    pub indices: Seq<int>,
}

/// The value of an expression, as long as nothing overflows. `variables` and
/// `symbols` are the values of `ivar_n` and `SYM_n`.
pub open spec fn c_eval(expr: CExpr, variables: Map<nat, int>, symbols: Seq<int>) -> int
    decreases expr,
{
    match expr {
        CExpr::Number(value) => value,
        CExpr::Variable(index) => variables[index],
        CExpr::Symbol(index) => symbols[index as int],
        CExpr::Binary(operator, l, r) => {
            let (left, right) = (
                c_eval(*l, variables, symbols),
                c_eval(*r, variables, symbols),
            );
            match operator {
                COperator::Plus => left + right,
                COperator::Times => left * right,
                COperator::Modulo => c_remainder(left, right),
                COperator::Over => c_quotient(left, right),
            }
        },
        CExpr::Positive(e) => if c_eval(*e, variables, symbols) > 0 {
            1
        } else {
            0
        },
    }
}

/// Every condition holds.
pub open spec fn c_holds(
    conditions: Seq<CCondition>,
    variables: Map<nat, int>,
    symbols: Seq<int>,
) -> bool {
    forall|i: int|
        0 <= i < conditions.len() ==> {
            let value = c_eval((#[trigger] conditions[i]).expr, variables, symbols);
            if conditions[i].equality {
                value == 0
            } else {
                value >= 0
            }
        }
}

/// What a statement touches, in order. A loop goes up from its lower bound, by
/// its step, as long as its variable is below the upper bound.
pub open spec fn c_run(stmt: CStmt, variables: Map<nat, int>, symbols: Seq<int>) -> Seq<Touch>
    decreases stmt, 0int, 0int,
{
    match stmt {
        CStmt::For { index, lower, upper, step, body } => c_iterate(
            *body,
            index,
            c_eval(lower, variables, symbols),
            c_eval(upper, variables, symbols),
            step,
            variables,
            symbols,
        ),
        CStmt::Block(stmts) => c_run_from(stmts, 0, variables, symbols),
        CStmt::If { conditions, positive, negative } => if c_holds(conditions, variables, symbols) {
            c_run(*positive, variables, symbols)
        } else {
            match negative {
                Some(negative) => c_run(*negative, variables, symbols),
                None => Seq::empty(),
            }
        },
        CStmt::Access { name, subscripts } => seq![
            Touch {
                name,
                indices: subscripts.map_values(|e: CExpr| c_eval(e, variables, symbols)),
            },
        ],
    }
}

/// What the statements from position `at` on touch.
pub open spec fn c_run_from(
    stmts: Seq<CStmt>,
    at: nat,
    variables: Map<nat, int>,
    symbols: Seq<int>,
) -> Seq<Touch>
    decreases stmts, 1int, stmts.len() - at,
{
    if at >= stmts.len() {
        Seq::empty()
    } else {
        c_run(stmts[at as int], variables, symbols) + c_run_from(
            stmts,
            at + 1,
            variables,
            symbols,
        )
    }
}

/// What a loop touches from the value `current` of its variable on.
pub open spec fn c_iterate(
    body: CStmt,
    index: nat,
    current: int,
    upper: int,
    step: int,
    variables: Map<nat, int>,
    symbols: Seq<int>,
) -> Seq<Touch>
    decreases
            body,
            1int,
            if current < upper {
                upper - current
            } else {
                0
            },
{
    if current >= upper || step <= 0 {
        Seq::empty()
    } else {
        c_run(body, variables.insert(index, current), symbols) + c_iterate(
            body,
            index,
            current + step,
            upper,
            step,
            variables,
            symbols,
        )
    }
}

/// The integers as machine integers.
pub open spec fn narrow(indices: Seq<int>) -> Seq<i64> {
    indices.map_values(|index: int| index as i64)
}

/// The element that a program touches is the one that an access of a walk is to.
pub open spec fn same_access(touch: Touch, access: Emitted, setting: Setting) -> bool {
    &&& forall|i: int|
        0 <= i < touch.indices.len() ==> i64::MIN <= #[trigger] touch.indices[i] <= i64::MAX
    &&& exists|array: ValID|
        {
            &&& array_name(array) == Some(touch.name)
            &&& lookup(setting.table.memrefs, #[trigger] key_of_memref(array)) matches Some(key)
                && access.data == data_of(
                MemrefKey(key),
                narrow(touch.indices),
                setting.block_size,
            )
        }
}

/// The same accesses in the same order.
pub open spec fn same_accesses(
    touches: Seq<Touch>,
    accesses: Seq<Emitted>,
    setting: Setting,
) -> bool {
    &&& touches.len() == accesses.len()
    &&& forall|i: int|
        0 <= i < touches.len() ==> same_access(#[trigger] touches[i], accesses[i], setting)
}

/// The results of a map divide by positive numbers only, and round down nothing
/// negative.
pub open spec fn map_goes_forward(
    map: AffineMap,
    operands: Seq<ValID>,
    ivars: Seq<int>,
    params: Seq<int>,
) -> bool {
    forall|i: int|
        0 <= i < map.results@.len() ==> divides_forward(
            #[trigger] map.results@[i],
            operands,
            map.num_dims as int,
            ivars,
            params,
        )
}

/// The conditions of a set divide by positive numbers only, and round down
/// nothing negative.
pub open spec fn set_goes_forward(
    set: IntegerSet,
    operands: Seq<ValID>,
    ivars: Seq<int>,
    params: Seq<int>,
) -> bool {
    forall|i: int|
        0 <= i < set.constraints@.len() ==> divides_forward(
            (#[trigger] set.constraints@[i]).expr,
            operands,
            set.num_dims as int,
            ivars,
            params,
        )
}

/// A tree divides by positive numbers only, and rounds down nothing negative,
/// in its bounds, conditions and subscripts, with every value that its loops
/// reach.
pub open spec fn goes_forward(tree: Tree, ivars: Seq<int>, params: Seq<int>) -> bool
    decreases tree,
{
    match tree {
        Tree::For {
            lower_bound,
            upper_bound,
            lower_bound_operands,
            upper_bound_operands,
            body,
            ..
        } => {
            let lower = subscripts(lower_bound, lower_bound_operands@, ivars, params)[0];
            let upper = subscripts(upper_bound, upper_bound_operands@, ivars, params)[0];
            &&& map_goes_forward(lower_bound, lower_bound_operands@, ivars, params)
            &&& map_goes_forward(upper_bound, upper_bound_operands@, ivars, params)
            &&& forall|value: int|
                lower <= value < upper ==> goes_forward(*body, #[trigger] ivars.push(value), params)
        },
        Tree::Block(stmts) => forall|i: int|
            0 <= i < stmts@.len() ==> goes_forward(#[trigger] stmts[i], ivars, params),
        Tree::If { condition, operands, then_branch, else_branch } => {
            &&& set_goes_forward(condition, operands@, ivars, params)
            &&& if set_holds(condition, operands@, ivars, params) {
                goes_forward(*then_branch, ivars, params)
            } else {
                else_branch matches Some(otherwise) ==> goes_forward(*otherwise, ivars, params)
            }
        },
        Tree::Access { map, operands, .. } => map_goes_forward(map, operands@, ivars, params),
    }
}

/// The variables have the values of the loops around.
spec fn holds_values(variables: Map<nat, int>, ivars: Seq<int>) -> bool {
    forall|i: int| 0 <= i < ivars.len() ==> variables[i as nat] == #[trigger] ivars[i]
}

/// An expression in C has the value of the affine expression.
proof fn lemma_eval(
    expr: AffineExpr,
    operands: Seq<ValID>,
    num_dims: int,
    ivars: Seq<int>,
    params: Seq<int>,
    variables: Map<nat, int>,
)
    requires
        num_dims >= 0,
        well_kinded(operands, num_dims),
        operands_below(operands, ivars.len() as int),
        dims_below(expr, num_dims),
        positions_within(expr, num_dims, operands.len() as int),
        divides_forward(expr, operands, num_dims, ivars, params),
        holds_values(variables, ivars),
    ensures
        c_eval(expr_in_c(expr, operands, num_dims), variables, params) == expr_int(
            expr,
            operands,
            num_dims,
            ivars,
            params,
        ),
    decreases expr,
{
    match expr {
        AffineExpr::Constant(_) => {},
        AffineExpr::Symbol(position) => {
            assert(operands[num_dims + position] is Symbol);
        },
        AffineExpr::Dim(position) => {
            assert(operands[position as int] is IVar);
            let index = operands[position as int]->IVar_0;
            assert(variables[index as nat] == ivars[index as int]);
        },
        AffineExpr::Add(l, r) => {
            lemma_eval(*l, operands, num_dims, ivars, params, variables);
            lemma_eval(*r, operands, num_dims, ivars, params, variables);
        },
        AffineExpr::Mul(l, r) => {
            lemma_eval(*l, operands, num_dims, ivars, params, variables);
            lemma_eval(*r, operands, num_dims, ivars, params, variables);
        },
        AffineExpr::Mod(l, r) => {
            lemma_eval(*l, operands, num_dims, ivars, params, variables);
            lemma_eval(*r, operands, num_dims, ivars, params, variables);
            law_written_ceiling_is_the_ceiling(
                expr_int(*l, operands, num_dims, ivars, params),
                expr_int(*r, operands, num_dims, ivars, params),
            );
        },
        AffineExpr::FloorDiv(l, r) => {
            lemma_eval(*l, operands, num_dims, ivars, params, variables);
            lemma_eval(*r, operands, num_dims, ivars, params, variables);
            law_written_ceiling_is_the_ceiling(
                expr_int(*l, operands, num_dims, ivars, params),
                expr_int(*r, operands, num_dims, ivars, params),
            );
        },
        AffineExpr::CeilDiv(l, r) => {
            lemma_eval(*l, operands, num_dims, ivars, params, variables);
            lemma_eval(*r, operands, num_dims, ivars, params, variables);
            reveal_with_fuel(c_eval, 4);
            law_written_ceiling_is_the_ceiling(
                expr_int(*l, operands, num_dims, ivars, params),
                expr_int(*r, operands, num_dims, ivars, params),
            );
        },
    }
}

/// Subscripts in C have the values of the map.
proof fn lemma_subscripts_eval(
    map: AffineMap,
    operands: Seq<ValID>,
    ivars: Seq<int>,
    params: Seq<int>,
    variables: Map<nat, int>,
)
    requires
        sound_map(map, operands, ivars.len() as int),
        map_goes_forward(map, operands, ivars, params),
        holds_values(variables, ivars),
    ensures
        subscripts_in_c(map, operands).map_values(|e: CExpr| c_eval(e, variables, params))
            == subscripts(map, operands, ivars, params),
{
    let list = subscripts_in_c(map, operands).map_values(
        |e: CExpr| c_eval(e, variables, params),
    );
    let values = subscripts(map, operands, ivars, params);
    assert forall|i: int| 0 <= i < map.results@.len() implies #[trigger] list[i] == values[i] by {
        let expr = map.results@[i];
        lemma_eval(expr, operands, map.num_dims as int, ivars, params, variables);
    }
    assert(list =~= values);
}

/// Conditions in C hold where those of the set do.
proof fn lemma_conditions_eval(
    set: IntegerSet,
    operands: Seq<ValID>,
    ivars: Seq<int>,
    params: Seq<int>,
    variables: Map<nat, int>,
)
    requires
        sound_set(set, operands, ivars.len() as int),
        set_goes_forward(set, operands, ivars, params),
        holds_values(variables, ivars),
    ensures
        c_holds(conditions_in_c(set, operands), variables, params) == set_holds(
            set,
            operands,
            ivars,
            params,
        ),
{
    let list = conditions_in_c(set, operands);
    assert forall|i: int| 0 <= i < list.len() implies c_eval(
        (#[trigger] list[i]).expr,
        variables,
        params,
    ) == expr_int(set.constraints@[i].expr, operands, set.num_dims as int, ivars, params) by {
        let expr = set.constraints@[i].expr;
        lemma_eval(expr, operands, set.num_dims as int, ivars, params, variables);
    }
    if c_holds(list, variables, params) {
        assert forall|i: int| 0 <= i < set.constraints@.len() implies {
            let value = expr_int(
                (#[trigger] set.constraints@[i]).expr,
                operands,
                set.num_dims as int,
                ivars,
                params,
            );
            if set.constraints@[i].equality {
                value == 0
            } else {
                value >= 0
            }
        } by {
            assert(list[i].equality == set.constraints@[i].equality);
        }
    }
}

/// Loops numbered by nesting level are properly scoped.
proof fn lemma_c_form_is_scoped(tree: Tree, level: int)
    requires
        has_c_form(tree, level),
        sound(tree, level),
        level >= 0,
    ensures
        scoped(tree, below(level)),
    decreases tree, 0int,
{
    match tree {
        Tree::For { lower_bound_operands, upper_bound_operands, body, .. } => {
            lemma_operands_scoped(lower_bound_operands@, level);
            lemma_operands_scoped(upper_bound_operands@, level);
            lemma_c_form_is_scoped(*body, level + 1);
            assert(below(level).insert(level) =~= below(level + 1));
        },
        Tree::Block(stmts) => {
            lemma_c_forms_are_scoped(stmts, 0, level);
        },
        Tree::If { operands, then_branch, else_branch, .. } => {
            lemma_operands_scoped(operands@, level);
            lemma_c_form_is_scoped(*then_branch, level);
            if let Some(otherwise) = else_branch {
                lemma_c_form_is_scoped(*otherwise, level);
            }
        },
        Tree::Access { operands, .. } => {
            lemma_operands_scoped(operands@, level);
        },
    }
}

proof fn lemma_c_forms_are_scoped(stmts: Vec<Tree>, at: nat, level: int)
    requires
        level >= 0,
        forall|i: int| 0 <= i < stmts@.len() ==> has_c_form(#[trigger] stmts[i], level),
        forall|i: int| 0 <= i < stmts@.len() ==> sound(#[trigger] stmts[i], level),
    ensures
        scoped_from(stmts, at, below(level)),
    decreases stmts, stmts@.len() - at,
{
    if at < stmts@.len() {
        assert(has_c_form(stmts[at as int], level) && sound(stmts[at as int], level));
        lemma_c_form_is_scoped(stmts[at as int], level);
        lemma_c_forms_are_scoped(stmts, at + 1, level);
    }
}

proof fn lemma_same_concat(
    first: Seq<Touch>,
    second: Seq<Touch>,
    one: Seq<Emitted>,
    two: Seq<Emitted>,
    setting: Setting,
)
    requires
        same_accesses(first, one, setting),
        same_accesses(second, two, setting),
    ensures
        same_accesses(first + second, one + two, setting),
{
    let (touches, accesses) = (first + second, one + two);
    assert forall|i: int| 0 <= i < touches.len() implies same_access(
        #[trigger] touches[i],
        accesses[i],
        setting,
    ) by {
        if i < first.len() {
            assert(touches[i] == first[i] && accesses[i] == one[i]);
        } else {
            assert(touches[i] == second[i - first.len()] && accesses[i] == two[i - first.len()]);
        }
    }
}

/// A tree in C touches what the walk accesses.
proof fn lemma_run(
    tree: Tree,
    env: Values,
    setting: Setting,
    ivars: Seq<int>,
    params: Seq<int>,
    variables: Map<nat, int>,
)
    requires
        has_c_form(tree, ivars.len() as int),
        sound(tree, ivars.len() as int),
        in_scope(env, ivars, params),
        setting.partition is None,
        goes_forward(tree, ivars, params),
        holds_values(variables, ivars),
        walk(tree, env, setting).stop is Ok,
    ensures
        same_accesses(
            c_run(tree_in_c(tree), variables, params),
            walk(tree, env, setting).emitted,
            setting,
        ),
    decreases tree, 1int, 0int,
{
    match tree {
        Tree::For {
            lower_bound,
            upper_bound,
            lower_bound_operands,
            upper_bound_operands,
            step,
            ivar,
            body,
        } => {
            lemma_bound_ints(lower_bound, lower_bound_operands@, env, ivars, params);
            lemma_bound_ints(upper_bound, upper_bound_operands@, env, ivars, params);
            let lower = lower_value(lower_bound, lower_bound_operands@, env)->Ok_0;
            let upper = upper_value(upper_bound, upper_bound_operands@, env)->Ok_0;
            lemma_subscripts_eval(lower_bound, lower_bound_operands@, ivars, params, variables);
            lemma_subscripts_eval(upper_bound, upper_bound_operands@, ivars, params, variables);
            let (low, high) = (
                subscripts_in_c(lower_bound, lower_bound_operands@),
                subscripts_in_c(upper_bound, upper_bound_operands@),
            );
            let eval = |e: CExpr| c_eval(e, variables, params);
            assert(low.map_values(eval)[0] == c_eval(low[0], variables, params));
            assert(high.map_values(eval)[0] == c_eval(high[0], variables, params));
            lemma_iterate(
                *body,
                lower as int,
                lower as int,
                upper as int,
                step as int,
                env,
                setting,
                ivars,
                params,
                variables,
            );
        },
        Tree::Block(stmts) => {
            lemma_stmts_in_c(stmts, stmts@.len());
            lemma_run_from(stmts, 0, env, setting, ivars, params, variables);
        },
        Tree::If { condition, operands, then_branch, else_branch } => {
            lemma_condition_int(condition, operands@, env, ivars, params);
            lemma_conditions_eval(condition, operands@, ivars, params, variables);
            if set_holds(condition, operands@, ivars, params) {
                lemma_run(*then_branch, env, setting, ivars, params, variables);
            } else if let Some(otherwise) = else_branch {
                lemma_run(*otherwise, env, setting, ivars, params, variables);
            }
        },
        Tree::Access { site, memref, map, operands, is_write } => {
            lemma_map_ints(map, operands@, map.results@.len(), env, ivars, params);
            lemma_subscripts_eval(map, operands@, ivars, params, variables);
            let indices = map_values(map, operands@, env)->Ok_0;
            let touches = c_run(tree_in_c(tree), variables, params);
            let touch = touches[0];
            assert(touch.indices == subscripts(map, operands@, ivars, params));
            assert(narrow(touch.indices) =~= indices) by {
                assert forall|i: int| 0 <= i < indices.len() implies #[trigger] narrow(
                    touch.indices,
                )[i] == indices[i] by {
                    assert(indices[i] == touch.indices[i]);
                }
            }
            assert forall|i: int| 0 <= i < touch.indices.len() implies i64::MIN
                <= #[trigger] touch.indices[i] <= i64::MAX by {
                assert(indices[i] == touch.indices[i]);
            }
            let key = lookup(setting.table.memrefs, key_of_memref(memref))->0;
            assert(walk(tree, env, setting).emitted[0].data == data_of(
                MemrefKey(key),
                narrow(touch.indices),
                setting.block_size,
            ));
            assert(same_access(touch, walk(tree, env, setting).emitted[0], setting));
        },
    }
}

proof fn lemma_iterate(
    body: Tree,
    lower: int,
    current: int,
    upper: int,
    step: int,
    env: Values,
    setting: Setting,
    ivars: Seq<int>,
    params: Seq<int>,
    variables: Map<nat, int>,
)
    requires
        has_c_form(body, ivars.len() as int + 1),
        sound(body, ivars.len() as int + 1),
        in_scope(env, ivars, params),
        setting.partition is None,
        i64::MIN <= lower <= current,
        upper <= i64::MAX,
        forall|value: int|
            lower <= value < upper ==> goes_forward(body, #[trigger] ivars.push(value), params),
        holds_values(variables, ivars),
        walk_for(body, ivars.len() as int, current, upper, step, env, setting).stop is Ok,
    ensures
        same_accesses(
            c_iterate(
                tree_in_c(body),
                ivars.len(),
                current,
                upper,
                step,
                variables,
                params,
            ),
            walk_for(body, ivars.len() as int, current, upper, step, env, setting).emitted,
            setting,
        ),
    decreases
            body,
            2int,
            if current < upper {
                upper - current
            } else {
                0
            },
{
    let level = ivars.len() as int;
    if current < upper && step > 0 {
        let value = current as i64;
        let (inner, longer) = (env.with_ivar(level, value), ivars.push(current));
        let inside = variables.insert(ivars.len(), current);
        lemma_scope_entered(env, ivars, params, value);
        assert(holds_values(inside, longer)) by {
            assert forall|i: int| 0 <= i < longer.len() implies inside[i as nat]
                == #[trigger] longer[i] by {
                if i < ivars.len() {
                    assert(variables[i as nat] == ivars[i]);
                }
            }
        }
        assert(goes_forward(body, ivars.push(current), params));
        lemma_run(body, inner, setting, longer, params, inside);
        let first = walk(body, inner, setting);
        let after = first.stop->Ok_0;
        lemma_c_form_is_scoped(body, level + 1);
        lemma_agrees_with_itself(inner, longer, params);
        lemma_walk_keeps(body, inner, setting, below(level + 1));
        lemma_scope_kept(inner, after, longer, params);
        assert(in_scope(after, ivars, params)) by {
            assert forall|i: int| 0 <= i < ivars.len() implies #[trigger] after.ivars[i]
                == ivars[i] by {
                assert(longer[i] == ivars[i]);
            }
        }
        lemma_iterate(
            body,
            lower,
            current + step,
            upper,
            step,
            after,
            setting,
            ivars,
            params,
            variables,
        );
        lemma_same_concat(
            c_run(tree_in_c(body), inside, params),
            c_iterate(
                tree_in_c(body),
                ivars.len(),
                current + step,
                upper,
                step,
                variables,
                params,
            ),
            first.emitted,
            walk_for(body, level, current + step, upper, step, after, setting).emitted,
            setting,
        );
    }
}

proof fn lemma_run_from(
    stmts: Vec<Tree>,
    at: nat,
    env: Values,
    setting: Setting,
    ivars: Seq<int>,
    params: Seq<int>,
    variables: Map<nat, int>,
)
    requires
        forall|i: int|
            0 <= i < stmts@.len() ==> has_c_form(#[trigger] stmts[i], ivars.len() as int),
        forall|i: int| 0 <= i < stmts@.len() ==> sound(#[trigger] stmts[i], ivars.len() as int),
        forall|i: int|
            0 <= i < stmts@.len() ==> goes_forward(#[trigger] stmts[i], ivars, params),
        in_scope(env, ivars, params),
        setting.partition is None,
        holds_values(variables, ivars),
        walk_block(stmts, at as int, env, setting).stop is Ok,
    ensures
        same_accesses(
            c_run_from(stmts_in_c(stmts, stmts@.len()), at, variables, params),
            walk_block(stmts, at as int, env, setting).emitted,
            setting,
        ),
    decreases stmts, 0int, stmts@.len() - at,
{
    let level = ivars.len() as int;
    let list = stmts_in_c(stmts, stmts@.len());
    lemma_stmts_in_c(stmts, stmts@.len());
    if at < stmts@.len() {
        let stmt = stmts[at as int];
        assert(has_c_form(stmt, level) && sound(stmt, level) && goes_forward(stmt, ivars, params));
        lemma_run(stmt, env, setting, ivars, params, variables);
        let first = walk(stmt, env, setting);
        let after = first.stop->Ok_0;
        lemma_c_form_is_scoped(stmt, level);
        lemma_agrees_with_itself(env, ivars, params);
        lemma_walk_keeps(stmt, env, setting, below(level));
        lemma_scope_kept(env, after, ivars, params);
        lemma_run_from(stmts, at + 1, after, setting, ivars, params, variables);
        assert(list[at as int] == tree_in_c(stmt));
        lemma_same_concat(
            c_run(tree_in_c(stmt), variables, params),
            c_run_from(list, at + 1, variables, params),
            first.emitted,
            walk_block(stmts, at as int + 1, after, setting).emitted,
            setting,
        );
    }
}

/// What is written for a tree can be read as a program, and running it makes the
/// accesses of the walk over the tree, in the same order: the same element of the
/// same array for each. `symbols` are the values of the parameters.
pub proof fn law_written_tree_makes_the_accesses(
    tree: Tree,
    indent: nat,
    hashed: bool,
    symbols: Seq<i64>,
    setting: Setting,
) -> (program: CStmt)
    requires
        has_c_form(tree, 0),
        sound(tree, 0),
        setting.partition is None,
        goes_forward(tree, Seq::empty(), as_params(symbols)),
        tree_text(tree, indent, hashed) is Ok,
        walk(tree, outermost(symbols), setting).stop is Ok,
    ensures
        reads_stmt(tree_text(tree, indent, hashed)->Ok_0, program, hashed),
        same_accesses(
            c_run(program, Map::empty(), as_params(symbols)),
            walk(tree, outermost(symbols), setting).emitted,
            setting,
        ),
{
    lemma_tree_reads(tree, indent, hashed, 0);
    lemma_run(
        tree,
        outermost(symbols),
        setting,
        Seq::empty(),
        as_params(symbols),
        Map::empty(),
    );
    tree_in_c(tree)
}

/// The text of a whole program is the line that opens it, the text of one
/// statement, and the lines that end it; running that statement makes the
/// accesses of the walk over the tree, in the same order.
pub proof fn law_written_program_makes_the_accesses(
    tree: Tree,
    hashed: bool,
    entry: Seq<char>,
    exit: Seq<char>,
    symbols: Seq<i64>,
    setting: Setting,
) -> (read: (Seq<char>, CStmt))
    requires
        has_c_form(tree, 0),
        sound(tree, 0),
        setting.partition is None,
        goes_forward(tree, Seq::empty(), as_params(symbols)),
        program_text(tree, hashed, entry, exit) is Ok,
        walk(tree, outermost(symbols), setting).stop is Ok,
    ensures
        program_text(tree, hashed, entry, exit)->Ok_0 == entry + seq!['\n'] + read.0 + seq!['\t']
            + exit + seq!['}', '\n'],
        reads_stmt(read.0, read.1, hashed),
        same_accesses(
            c_run(read.1, Map::empty(), as_params(symbols)),
            walk(tree, outermost(symbols), setting).emitted,
            setting,
        ),
{
    reveal(join);
    let body = tree_text(tree, 1, hashed);
    let program = law_written_tree_makes_the_accesses(tree, 1, hashed, symbols, setting);
    assert(tabs(1) =~= seq!['\t']);
    assert(program_text(tree, hashed, entry, exit)->Ok_0 =~= entry + seq!['\n'] + body->Ok_0
        + seq!['\t'] + exit + seq!['}', '\n']);
    (body->Ok_0, program)
}

} // verus!
