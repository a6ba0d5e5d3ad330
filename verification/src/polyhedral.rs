//! The polyhedral model of a loop tree: its timestamps and its accesses.
//!
//! A timestamp has one dimension per loop, the iteration counted from zero, and
//! one per block, the position of the statement; timestamps of statements that
//! are nested less deeply are padded with zeros. Lexicographic order of
//! timestamps is program order.
//!
//! This module decides which sets and relations have to be built from which
//! pieces, as a [`Plan`]. A polyhedral library then carries the plan out.

use crate::quasi_affine::{
    convert_lower_bound, lowered, lowered_lower_bound, Aff, ConvertedIVar, ExprConverter, PlanError,
};
use crate::text::{decimal, push_decimal};
use crate::tree::{AffineMap, Constraint, IntegerSet, Tree, ValID};
use vstd::prelude::*;

verus! {

broadcast use vstd::std_specs::vec::axiom_vec_index_decreases;

/// A condition on a point: `aff == 0` or `aff >= 0`.
#[derive(Debug)]
pub struct Row {
    pub aff: Aff,
    pub equality: bool,
}

/// How a set of timestamps, or a relation from timestamps, is put together.
#[derive(Debug)]
pub enum Plan {
    /// Every point of `dims` dimensions, related to the values of `range`.
    Leaf { dims: usize, range: Vec<Aff> },
    /// No point. `range_dims` is the number of values a point would have.
    Empty { dims: usize, range_dims: usize },
    /// The points of the body, with `0 <= dim < trip` where there is a trip
    /// count.
    Loop { dim: usize, name: String, trip: Option<Aff>, body: Box<Plan> },
    /// The union of the parts, each padded with zeros to `dims` dimensions, the
    /// k-th with `dim == k`. The names of the padding are those of the part at
    /// `longest`.
    Block { dim: usize, name: String, longest: usize, dims: usize, parts: Vec<Plan> },
    /// The points of `then_part` where all conditions hold, and those of
    /// `else_part` where not, both padded with zeros to `dims` dimensions.
    Branch { dims: usize, condition: Vec<Row>, then_part: Box<Plan>, else_part: Box<Plan> },
}

/// What a plan is for.
#[derive(Clone, Copy, Debug, PartialEq, Eq, Structural)]
pub enum Purpose {
    /// The set of timestamps.
    Timestamps,
    /// The relation from timestamps to data.
    Accesses { block_size: usize, max_array_dim: usize, num_sets: usize },
}

impl Purpose {
    /// The number of values that a point is related to.
    pub open spec fn range_dims(self) -> int {
        match self {
            Purpose::Timestamps => 0,
            Purpose::Accesses { max_array_dim, num_sets, .. } => max_array_dim + 1 + if num_sets
                > 1 {
                1int
            } else {
                0int
            },
        }
    }

    /// The counts fit.
    pub open spec fn valid(self) -> bool {
        self.range_dims() <= usize::MAX
    }
}

/// An else branch counts only where it holds a statement.
pub open spec fn counts_as_else(tree: Tree) -> bool {
    !(tree matches Tree::Block(stmts) && stmts@.len() == 0)
}

/// The loop that is entered at a depth.
pub open spec fn entered<'a>(
    lower_bound: &'a AffineMap,
    operands: &'a Vec<ValID>,
    step: i64,
    depth: usize,
) -> ConvertedIVar<'a> {
    ConvertedIVar { lower_bound, step_size: step, index: depth, operands }
}

/// The upper bound of a loop, lowered.
pub open spec fn lowered_upper_bound(
    upper_bound: AffineMap,
    operands: Seq<ValID>,
    loops: Seq<ConvertedIVar>,
    limit: nat,
) -> Result<Aff, PlanError> {
    if upper_bound.results@.len() == 0 {
        Err(PlanError::NoResult)
    } else {
        lowered(upper_bound.results@[0], operands, upper_bound.num_dims as int, loops, limit)
    }
}

/// The lowered subscript of an access.
pub open spec fn lowered_subscript(
    map: AffineMap,
    operands: Seq<ValID>,
    loops: Seq<ConvertedIVar>,
    at: int,
) -> Result<Aff, PlanError> {
    lowered(map.results@[at], operands, map.num_dims as int, loops, loops.len())
}

/// The first error among the subscripts from position `at` on.
pub open spec fn subscript_failure(
    map: AffineMap,
    operands: Seq<ValID>,
    loops: Seq<ConvertedIVar>,
    at: nat,
) -> Option<PlanError>
    decreases map.results@.len() - at,
{
    if at >= map.results@.len() {
        None
    } else {
        match lowered_subscript(map, operands, loops, at as int) {
            Err(error) => Some(error),
            Ok(_) => subscript_failure(map, operands, loops, at + 1),
        }
    }
}

/// The lowered condition at a position.
pub open spec fn lowered_condition(
    set: IntegerSet,
    operands: Seq<ValID>,
    loops: Seq<ConvertedIVar>,
    at: int,
) -> Result<Aff, PlanError> {
    lowered(set.constraints@[at].expr, operands, set.num_dims as int, loops, loops.len())
}

/// The first error among the conditions from position `at` on.
pub open spec fn condition_failure(
    set: IntegerSet,
    operands: Seq<ValID>,
    loops: Seq<ConvertedIVar>,
    at: nat,
) -> Option<PlanError>
    decreases set.constraints@.len() - at,
{
    if at >= set.constraints@.len() {
        None
    } else {
        match lowered_condition(set, operands, loops, at as int) {
            Err(error) => Some(error),
            Ok(_) => condition_failure(set, operands, loops, at + 1),
        }
    }
}

/// The error of the tree, if it has no plan.
pub open spec fn failure(
    tree: Tree,
    depth: usize,
    loops: Seq<ConvertedIVar>,
    purpose: Purpose,
) -> Option<PlanError>
    decreases tree, 0int,
{
    match tree {
        Tree::For {
            lower_bound,
            upper_bound,
            lower_bound_operands,
            upper_bound_operands,
            step,
            body,
            ..
        } => {
            let ivar = entered(&lower_bound, &lower_bound_operands, step, depth);
            if depth == usize::MAX {
                Some(PlanError::TooLarge)
            } else {
                match failure(*body, (depth + 1) as usize, loops.push(ivar), purpose) {
                    Some(error) => Some(error),
                    None => match purpose {
                        Purpose::Accesses { .. } => None,
                        Purpose::Timestamps => match lowered_lower_bound(
                            ivar,
                            loops,
                            loops.len(),
                        ) {
                            Err(error) => Some(error),
                            Ok(_) => match lowered_upper_bound(
                                upper_bound,
                                upper_bound_operands@,
                                loops,
                                loops.len(),
                            ) {
                                Err(error) => Some(error),
                                Ok(_) => None,
                            },
                        },
                    },
                }
            }
        },
        Tree::Block(stmts) => if stmts@.len() == 0 {
            None
        } else if depth == usize::MAX {
            Some(PlanError::TooLarge)
        } else {
            failure_from(stmts, 0, depth, loops, purpose)
        },
        Tree::Access { memref, map, operands, .. } => match purpose {
            Purpose::Timestamps => None,
            Purpose::Accesses { .. } => if !(memref is Memref) {
                Some(PlanError::BadMemref)
            } else {
                subscript_failure(map, operands@, loops, 0)
            },
        },
        Tree::If { condition, operands, then_branch, else_branch } => match failure(
            *then_branch,
            depth,
            loops,
            purpose,
        ) {
            Some(error) => Some(error),
            None => match else_branch {
                Some(otherwise) if counts_as_else(*otherwise) => match failure(
                    *otherwise,
                    depth,
                    loops,
                    purpose,
                ) {
                    Some(error) => Some(error),
                    None => condition_failure(condition, operands@, loops, 0),
                },
                _ => condition_failure(condition, operands@, loops, 0),
            },
        },
    }
}

/// The first error among the statements from position `at` on.
pub open spec fn failure_from(
    stmts: Vec<Tree>,
    at: nat,
    depth: usize,
    loops: Seq<ConvertedIVar>,
    purpose: Purpose,
) -> Option<PlanError>
    decreases stmts, stmts@.len() - at,
{
    if at >= stmts@.len() {
        None
    } else {
        match failure(stmts[at as int], (depth + 1) as usize, loops, purpose) {
            Some(error) => Some(error),
            None => failure_from(stmts, at + 1, depth, loops, purpose),
        }
    }
}

impl Plan {
    /// The number of dimensions of the points.
    pub open spec fn dims(self) -> usize
        decreases self,
    {
        match self {
            Plan::Leaf { dims, .. } => dims,
            Plan::Empty { dims, .. } => dims,
            Plan::Loop { body, .. } => body.dims(),
            Plan::Block { dims, .. } => dims,
            Plan::Branch { dims, .. } => dims,
        }
    }

    /// The number of dimensions of the points.
    pub fn dim_count(&self) -> (dims: usize)
        ensures
            dims == self.dims(),
        decreases *self,
    {
        match self {
            Plan::Leaf { dims, .. } => *dims,
            Plan::Empty { dims, .. } => *dims,
            Plan::Loop { body, .. } => body.dim_count(),
            Plan::Block { dims, .. } => *dims,
            Plan::Branch { dims, .. } => *dims,
        }
    }

    /// What the plan relates a point to, if the point is in its set.
    pub open spec fn image(self, params: Seq<int>, point: Seq<int>) -> Option<Seq<int>>
        decreases self,
    {
        match self {
            Plan::Leaf { range, .. } => Some(
                range@.map_values(|aff: Aff| aff.value(params, point)),
            ),
            Plan::Empty { .. } => None,
            Plan::Loop { dim, trip, body, .. } => if trip matches Some(trip) && !(0
                <= point[dim as int] < trip.value(params, point)) {
                None
            } else {
                body.image(params, point)
            },
            Plan::Block { dim, dims, parts, .. } => {
                let at = point[dim as int];
                if 0 <= at < parts@.len() && zero_from(point, parts[at].dims() as int, dims as int) {
                    parts[at].image(params, point)
                } else {
                    None
                }
            },
            Plan::Branch { dims, condition, then_part, else_part } => {
                let part = if all_hold(condition@, params, point) {
                    then_part
                } else {
                    else_part
                };
                if zero_from(point, part.dims() as int, dims as int) {
                    part.image(params, point)
                } else {
                    None
                }
            },
        }
    }
}

/// The coordinates from one position up to another are zero.
pub open spec fn zero_from(point: Seq<int>, from: int, to: int) -> bool {
    forall|i: int| from <= i < to ==> #[trigger] point[i] == 0
}

/// A condition holds at a point.
pub open spec fn row_holds(row: Row, params: Seq<int>, point: Seq<int>) -> bool {
    if row.equality {
        row.aff.value(params, point) == 0
    } else {
        row.aff.value(params, point) >= 0
    }
}

/// All conditions hold at a point.
pub open spec fn all_hold(rows: Seq<Row>, params: Seq<int>, point: Seq<int>) -> bool {
    forall|i: int| 0 <= i < rows.len() ==> row_holds(#[trigger] rows[i], params, point)
}

/// The values that an access is related to: the array, zeros up to the largest
/// number of subscripts, and the subscripts. The last subscript is divided by
/// the block size, and its remainder by the number of sets stands before it.
pub open spec fn access_range(
    memref: usize,
    map: AffineMap,
    operands: Seq<ValID>,
    loops: Seq<ConvertedIVar>,
    block_size: usize,
    max_array_dim: usize,
    num_sets: usize,
) -> Seq<Aff> {
    let rank = map.results@.len() as int;
    let head = seq![Aff::Const(memref as i128)] + Seq::new(
        (max_array_dim - rank) as nat,
        |i: int| Aff::Const(0),
    );
    if rank == 0 {
        head
    } else {
        let outer = Seq::new(
            (rank - 1) as nat,
            |i: int| lowered_subscript(map, operands, loops, i)->Ok_0,
        );
        let last = blocked_aff(lowered_subscript(map, operands, loops, rank - 1)->Ok_0, block_size);
        let tail = if num_sets > 1 {
            seq![
                Aff::Mod(Box::new(last), Box::new(Aff::Const(num_sets as i128))),
                last,
            ]
        } else {
            seq![last]
        };
        head + outer + tail
    }
}

/// The block that a subscript falls into.
pub open spec fn blocked_aff(aff: Aff, block_size: usize) -> Aff {
    if block_size > 1 {
        Aff::FloorDiv(Box::new(aff), Box::new(Aff::Const(block_size as i128)))
    } else {
        aff
    }
}

/// The plan is the one of the tree, node by node.
pub open spec fn plans(
    plan: Plan,
    tree: Tree,
    depth: usize,
    loops: Seq<ConvertedIVar>,
    purpose: Purpose,
) -> bool
    decreases tree,
{
    match tree {
        Tree::For {
            lower_bound,
            upper_bound,
            lower_bound_operands,
            upper_bound_operands,
            step,
            body,
            ..
        } => {
            let ivar = entered(&lower_bound, &lower_bound_operands, step, depth);
            &&& plan matches Plan::Loop { dim, name, trip, body: inner }
            &&& dim == depth
            &&& name@ == seq!['i'] + decimal(loops.len() + 1)
            &&& trip == match purpose {
                Purpose::Accesses { .. } => None::<Aff>,
                Purpose::Timestamps => Some(
                    trip_aff(
                        lowered_lower_bound(ivar, loops, loops.len())->Ok_0,
                        lowered_upper_bound(
                            upper_bound,
                            upper_bound_operands@,
                            loops,
                            loops.len(),
                        )->Ok_0,
                        step,
                    ),
                ),
            }
            &&& plans(*inner, *body, (depth + 1) as usize, loops.push(ivar), purpose)
        },
        Tree::Block(stmts) => if stmts@.len() == 0 {
            plan == (Plan::Empty { dims: depth, range_dims: purpose.range_dims() as usize })
        } else {
            &&& plan matches Plan::Block { dim, name, longest, dims, parts }
            &&& dim == depth
            &&& name@ == seq!['t'] + decimal((depth - loops.len()) as nat)
            &&& parts@.len() == stmts@.len()
            &&& longest < parts@.len() && parts[longest as int].dims() == dims
            &&& forall|i: int|
                0 <= i < stmts@.len() ==> plans(
                    #[trigger] parts[i],
                    stmts[i],
                    (depth + 1) as usize,
                    loops,
                    purpose,
                ) && parts[i].dims() <= dims && (i > longest ==> parts[i].dims() < dims)
        },
        Tree::Access { memref, map, operands, .. } => {
            &&& plan matches Plan::Leaf { dims, range }
            &&& dims == depth
            &&& match purpose {
                Purpose::Timestamps => range@ == Seq::<Aff>::empty(),
                Purpose::Accesses { block_size, max_array_dim, num_sets } => range@ == access_range(
                    memref->Memref_0,
                    map,
                    operands@,
                    loops,
                    block_size,
                    max_array_dim,
                    num_sets,
                ),
            }
        },
        Tree::If { condition, operands, then_branch, else_branch } => {
            &&& plan matches Plan::Branch { dims, condition: rows, then_part, else_part }
            &&& plans(*then_part, *then_branch, depth, loops, purpose)
            &&& match else_branch {
                Some(otherwise) if counts_as_else(*otherwise) => plans(
                    *else_part,
                    *otherwise,
                    depth,
                    loops,
                    purpose,
                ),
                _ => *else_part == (Plan::Empty {
                    dims: then_part.dims(),
                    range_dims: purpose.range_dims() as usize,
                }),
            }
            &&& dims == if then_part.dims() > else_part.dims() {
                then_part.dims()
            } else {
                else_part.dims()
            }
            &&& rows@ == Seq::new(
                condition.constraints@.len(),
                |i: int|
                    Row {
                        aff: lowered_condition(condition, operands@, loops, i)->Ok_0,
                        equality: condition.constraints@[i].equality,
                    },
            )
        },
    }
}

/// `ceil((upper - lower) / step)`.
pub open spec fn trip_aff(lower: Aff, upper: Aff, step: i64) -> Aff {
    Aff::CeilDiv(
        Box::new(Aff::Sub(Box::new(upper), Box::new(lower))),
        Box::new(Aff::Const(step as i128)),
    )
}

/// The largest number of subscripts of an access.
pub open spec fn max_rank_of(tree: Tree) -> nat
    decreases tree, 0int,
{
    match tree {
        Tree::For { body, .. } => max_rank_of(*body),
        Tree::Block(stmts) => max_rank_from(stmts, 0),
        Tree::If { then_branch, else_branch, .. } => {
            let first = max_rank_of(*then_branch);
            match else_branch {
                Some(otherwise) => larger(first, max_rank_of(*otherwise)),
                None => first,
            }
        },
        Tree::Access { map, .. } => map.results@.len(),
    }
}

pub open spec fn larger(a: nat, b: nat) -> nat {
    if a < b {
        b
    } else {
        a
    }
}

/// The largest number of subscripts in the statements from position `at` on.
pub open spec fn max_rank_from(stmts: Vec<Tree>, at: nat) -> nat
    decreases stmts, stmts@.len() - at,
{
    if at >= stmts@.len() {
        0
    } else {
        larger(max_rank_of(stmts[at as int]), max_rank_from(stmts, at + 1))
    }
}

/// The largest number of subscripts of an access.
pub fn get_max_array_dim(tree: &Tree) -> (rank: usize)
    ensures
        rank == max_rank_of(*tree),
    decreases *tree,
{
    match tree {
        Tree::For { body, .. } => get_max_array_dim(body),
        Tree::Block(stmts) => {
            let mut at: usize = stmts.len();
            let mut rank: usize = 0;
            while at > 0
                invariant
                    at <= stmts@.len(),
                    *tree == Tree::Block(*stmts),
                    rank == max_rank_from(*stmts, at as nat),
                decreases at,
            {
                at -= 1;
                assert(tree->Block_0 == *stmts);
                assert(decreases_to!(*tree => tree->Block_0));
                assert(decreases_to!(*stmts => stmts@[at as int]));
                let other: usize = get_max_array_dim(&stmts[at]);
                if !(other < rank) {
                    rank = other;
                }
            }
            rank
        },
        Tree::If { then_branch, else_branch, .. } => {
            let first: usize = get_max_array_dim(then_branch);
            match else_branch {
                Some(otherwise) => {
                    let second: usize = get_max_array_dim(otherwise);
                    if first < second {
                        second
                    } else {
                        first
                    }
                },
                None => first,
            }
        },
        Tree::Access { map, .. } => map.results.len(),
    }
}

/// The largest number of subscripts fits the purpose.
pub open spec fn fits(tree: Tree, purpose: Purpose) -> bool {
    purpose matches Purpose::Accesses { max_array_dim, .. } ==> max_rank_of(tree) <= max_array_dim
}

proof fn lemma_fits_stmt(stmts: Vec<Tree>, from: nat, at: int)
    requires
        from <= at < stmts@.len(),
    ensures
        max_rank_of(stmts[at]) <= max_rank_from(stmts, from),
    decreases at - from,
{
    if from < at {
        lemma_fits_stmt(stmts, from + 1, at);
    }
}

/// Lowers the subscripts of an access into the values it is related to.
fn access_values<'a>(
    memref: usize,
    map: &AffineMap,
    operands: &'a Vec<ValID>,
    loops: &Vec<ConvertedIVar<'a>>,
    block_size: usize,
    max_array_dim: usize,
    num_sets: usize,
) -> (range: Result<Vec<Aff>, PlanError>)
    requires
        map.results@.len() <= max_array_dim,
    ensures
        match subscript_failure(*map, operands@, loops@, 0) {
            Some(error) => range matches Err(found) && found == error,
            None => range matches Ok(range) && range@ == access_range(
                memref,
                *map,
                operands@,
                loops@,
                block_size,
                max_array_dim,
                num_sets,
            ),
        },
{
    let rank: usize = map.results.len();
    let converter: ExprConverter = ExprConverter::new(map, operands, loops);
    let mut range: Vec<Aff> = Vec::new();
    range.push(Aff::Const(memref as i128));
    let mut pad: usize = 0;
    let ghost head = seq![Aff::Const(memref as i128)] + Seq::new(
        (max_array_dim - rank) as nat,
        |i: int| Aff::Const(0),
    );
    while pad < max_array_dim - rank
        invariant
            rank <= max_array_dim,
            pad <= max_array_dim - rank,
            range@ =~= seq![Aff::Const(memref as i128)] + Seq::new(pad as nat, |i: int| Aff::Const(0)),
        decreases max_array_dim - rank - pad,
    {
        range.push(Aff::Const(0));
        pad += 1;
    }
    assert(range@ =~= head);
    let mut at: usize = 0;
    while at < rank
        invariant
            at <= rank == map.results@.len(),
            converter.operands() == operands@,
            converter.symbol_shift() == map.num_dims,
            converter.loops() == loops@,
            subscript_failure(*map, operands@, loops@, 0) == subscript_failure(
                *map,
                operands@,
                loops@,
                at as nat,
            ),
            head.len() == 1 + max_array_dim - rank,
            at < rank ==> range@ =~= head + Seq::new(
                at as nat,
                |i: int| lowered_subscript(*map, operands@, loops@, i)->Ok_0,
            ),
            at == rank ==> range@ =~= access_range(
                memref,
                *map,
                operands@,
                loops@,
                block_size,
                max_array_dim,
                num_sets,
            ),
            head == seq![Aff::Const(memref as i128)] + Seq::new(
                (max_array_dim - rank) as nat,
                |i: int| Aff::Const(0),
            ),
        decreases rank - at,
    {
        let mut aff: Aff = match converter.convert_polynomial(&map.results[at]) {
            Ok(aff) => aff,
            Err(error) => {
                return Err(error);
            },
        };
        assert(lowered_subscript(*map, operands@, loops@, at as int) == Ok::<Aff, PlanError>(aff));
        if at == rank - 1 {
            if block_size > 1 {
                aff = Aff::FloorDiv(Box::new(aff), Box::new(Aff::Const(block_size as i128)));
            }
            if num_sets > 1 {
                range.push(
                    Aff::Mod(Box::new(aff.copy()), Box::new(Aff::Const(num_sets as i128))),
                );
            }
        }
        range.push(aff);
        at += 1;
    }
    Ok(range)
}

/// Lowers the conditions of a branch.
fn condition_rows<'a>(
    set: &IntegerSet,
    operands: &'a Vec<ValID>,
    loops: &Vec<ConvertedIVar<'a>>,
) -> (rows:
    Result<Vec<Row>, PlanError>)
    ensures
        match condition_failure(*set, operands@, loops@, 0) {
            Some(error) => rows matches Err(found) && found == error,
            None => rows matches Ok(rows) && rows@ == Seq::new(
                set.constraints@.len(),
                |i: int|
                    Row {
                        aff: lowered_condition(*set, operands@, loops@, i)->Ok_0,
                        equality: set.constraints@[i].equality,
                    },
            ),
        },
{
    let converter: ExprConverter = ExprConverter::new_with_dims(set.num_dims, operands, loops);
    let mut rows: Vec<Row> = Vec::new();
    let mut at: usize = 0;
    while at < set.constraints.len()
        invariant
            at <= set.constraints@.len(),
            converter.operands() == operands@,
            converter.symbol_shift() == set.num_dims,
            converter.loops() == loops@,
            condition_failure(*set, operands@, loops@, 0) == condition_failure(
                *set,
                operands@,
                loops@,
                at as nat,
            ),
            rows@ =~= Seq::new(
                at as nat,
                |i: int|
                    Row {
                        aff: lowered_condition(*set, operands@, loops@, i)->Ok_0,
                        equality: set.constraints@[i].equality,
                    },
            ),
        decreases set.constraints@.len() - at,
    {
        let constraint: &Constraint = &set.constraints[at];
        match converter.convert_polynomial(&constraint.expr) {
            Ok(aff) => {
                rows.push(Row { aff, equality: constraint.equality });
            },
            Err(error) => {
                return Err(error);
            },
        }
        at += 1;
    }
    Ok(rows)
}

/// The trip count of a loop.
fn trip_count_of<'a>(
    ivar: &ConvertedIVar,
    upper_bound: &AffineMap,
    upper_operands: &'a Vec<ValID>,
    loops: &Vec<ConvertedIVar<'a>>,
) -> (trip: Result<Aff, PlanError>)
    ensures
        match lowered_lower_bound(*ivar, loops@, loops@.len()) {
            Err(error) => trip == Err::<Aff, PlanError>(error),
            Ok(lower) => match lowered_upper_bound(
                *upper_bound,
                upper_operands@,
                loops@,
                loops@.len(),
            ) {
                Err(error) => trip == Err::<Aff, PlanError>(error),
                Ok(upper) => trip == Ok::<Aff, PlanError>(trip_aff(lower, upper, ivar.step_size)),
            },
        },
{
    let lower: Aff = match convert_lower_bound(ivar, loops, loops.len()) {
        Ok(lower) => lower,
        Err(error) => {
            return Err(error);
        },
    };
    if upper_bound.results.len() == 0 {
        return Err(PlanError::NoResult);
    }
    let converter: ExprConverter = ExprConverter::new(upper_bound, upper_operands, loops);
    let upper: Aff = match converter.convert_polynomial(&upper_bound.results[0]) {
        Ok(upper) => upper,
        Err(error) => {
            return Err(error);
        },
    };
    Ok(
        Aff::CeilDiv(
            Box::new(Aff::Sub(Box::new(upper), Box::new(lower))),
            Box::new(Aff::Const(ivar.step_size as i128)),
        ),
    )
}

/// A letter and a number.
fn dim_name(letter: char, number: usize) -> (name: String)
    ensures
        name@ == seq![letter] + decimal(number as nat),
{
    let mut name: String = String::new();
    name.push(letter);
    push_decimal(&mut name, number as u64);
    assert(name@ =~= seq![letter] + decimal(number as nat));
    name
}

/// The loop that is entered at a depth.
fn enter<'a>(
    lower_bound: &'a AffineMap,
    operands: &'a Vec<ValID>,
    step: i64,
    depth: usize,
) -> (ivar: ConvertedIVar<'a>)
    ensures
        ivar == entered(lower_bound, operands, step, depth),
{
    ConvertedIVar { lower_bound, step_size: step, index: depth, operands }
}

/// Builds the plan of a tree at a depth, inside the given loops.
fn build<'a>(
    tree: &'a Tree,
    depth: usize,
    loops: &mut Vec<ConvertedIVar<'a>>,
    purpose: Purpose,
) -> (plan: Result<Plan, PlanError>)
    requires
        purpose.valid(),
        fits(*tree, purpose),
        old(loops)@.len() <= depth,
    ensures
        final(loops)@ == old(loops)@,
        match failure(*tree, depth, old(loops)@, purpose) {
            Some(error) => plan matches Err(found) && found == error,
            None => plan matches Ok(plan) && plans(plan, *tree, depth, old(loops)@, purpose),
        },
    decreases *tree,
{
    match tree {
        Tree::For {
            lower_bound,
            upper_bound,
            lower_bound_operands,
            upper_bound_operands,
            step,
            body,
            ivar: _,
        } => {
            if depth == usize::MAX {
                return Err(PlanError::TooLarge);
            }
            let ghost outer = loops@;
            loops.push(enter(lower_bound, lower_bound_operands, *step, depth));
            let inner: Result<Plan, PlanError> = build(body, depth + 1, loops, purpose);
            let _ = loops.pop();
            assert(loops@ =~= outer);
            let inner: Plan = match inner {
                Ok(inner) => inner,
                Err(error) => {
                    return Err(error);
                },
            };
            let trip: Option<Aff> = match purpose {
                Purpose::Accesses { .. } => None,
                Purpose::Timestamps => {
                    let ivar: ConvertedIVar = enter(lower_bound, lower_bound_operands, *step, depth);
                    match trip_count_of(&ivar, upper_bound, upper_bound_operands, loops) {
                        Ok(trip) => Some(trip),
                        Err(error) => {
                            return Err(error);
                        },
                    }
                },
            };
            let name: String = dim_name('i', loops.len() + 1);
            Ok(Plan::Loop { dim: depth, name, trip, body: Box::new(inner) })
        },
        Tree::Block(stmts) => {
            if stmts.len() == 0 {
                return Ok(Plan::Empty { dims: depth, range_dims: range_dims(purpose) });
            }
            if depth == usize::MAX {
                return Err(PlanError::TooLarge);
            }
            build_block(tree, stmts, depth, loops, purpose)
        },
        Tree::Access { memref, map, operands, .. } => match purpose {
            Purpose::Timestamps => Ok(Plan::Leaf { dims: depth, range: Vec::new() }),
            Purpose::Accesses { block_size, max_array_dim, num_sets } => {
                let id: usize = match memref {
                    ValID::Memref(id) => *id,
                    _ => {
                        return Err(PlanError::BadMemref);
                    },
                };
                match access_values(
                    id,
                    map,
                    operands,
                    loops,
                    block_size,
                    max_array_dim,
                    num_sets,
                ) {
                    Ok(range) => Ok(Plan::Leaf { dims: depth, range }),
                    Err(error) => Err(error),
                }
            },
        },
        Tree::If { condition, operands, then_branch, else_branch } => {
            let then_part: Plan = match build(then_branch, depth, loops, purpose) {
                Ok(part) => part,
                Err(error) => {
                    return Err(error);
                },
            };
            let otherwise: Option<&'a Tree> = match else_branch {
                Some(otherwise) => if is_empty_block(otherwise) {
                    None
                } else {
                    Some(otherwise)
                },
                None => None,
            };
            let else_part: Plan = match otherwise {
                Some(otherwise) => match build(otherwise, depth, loops, purpose) {
                    Ok(part) => part,
                    Err(error) => {
                        return Err(error);
                    },
                },
                None => Plan::Empty {
                    dims: then_part.dim_count(),
                    range_dims: range_dims(purpose),
                },
            };
            let condition: Vec<Row> = match condition_rows(condition, operands, loops) {
                Ok(rows) => rows,
                Err(error) => {
                    return Err(error);
                },
            };
            let dims: usize = if then_part.dim_count() > else_part.dim_count() {
                then_part.dim_count()
            } else {
                else_part.dim_count()
            };
            Ok(
                Plan::Branch {
                    dims,
                    condition,
                    then_part: Box::new(then_part),
                    else_part: Box::new(else_part),
                },
            )
        },
    }
}

fn is_empty_block(tree: &Tree) -> (empty: bool)
    ensures
        empty == !counts_as_else(*tree),
{
    match tree {
        Tree::Block(stmts) => stmts.len() == 0,
        _ => false,
    }
}

fn range_dims(purpose: Purpose) -> (dims: usize)
    requires
        purpose.valid(),
    ensures
        dims == purpose.range_dims(),
{
    match purpose {
        Purpose::Timestamps => 0,
        Purpose::Accesses { max_array_dim, num_sets, .. } => if num_sets > 1 {
            max_array_dim + 2
        } else {
            max_array_dim + 1
        },
    }
}

/// Builds the plan of a block with statements.
fn build_block<'a>(
    tree: &'a Tree,
    stmts: &'a Vec<Tree>,
    depth: usize,
    loops: &mut Vec<ConvertedIVar<'a>>,
    purpose: Purpose,
) -> (plan: Result<Plan, PlanError>)
    requires
        *tree == Tree::Block(*stmts),
        stmts@.len() > 0,
        depth < usize::MAX,
        purpose.valid(),
        fits(*tree, purpose),
        old(loops)@.len() <= depth,
        decreases_to!(*tree => *stmts),
    ensures
        final(loops)@ == old(loops)@,
        match failure(*tree, depth, old(loops)@, purpose) {
            Some(error) => plan matches Err(found) && found == error,
            None => plan matches Ok(plan) && plans(plan, *tree, depth, old(loops)@, purpose),
        },
    decreases *stmts,
{
    let ghost outer = loops@;
    let mut parts: Vec<Plan> = Vec::new();
    let mut longest: usize = 0;
    let mut dims: usize = 0;
    let mut at: usize = 0;
    while at < stmts.len()
        invariant
            at <= stmts@.len(),
            *tree == Tree::Block(*stmts),
            stmts@.len() > 0,
            depth < usize::MAX,
            purpose.valid(),
            fits(*tree, purpose),
            loops@ == outer,
            outer == old(loops)@,
            outer.len() <= depth,
            failure(*tree, depth, outer, purpose) == failure_from(
                *stmts,
                at as nat,
                depth,
                outer,
                purpose,
            ),
            parts@.len() == at,
            at > 0 ==> longest < at && parts@[longest as int].dims() == dims,
            forall|i: int|
                0 <= i < at ==> plans(
                    #[trigger] parts@[i],
                    stmts[i],
                    (depth + 1) as usize,
                    outer,
                    purpose,
                ) && parts@[i].dims() <= dims && (i > longest ==> parts@[i].dims() < dims),
        decreases stmts@.len() - at,
    {
        proof {
            lemma_fits_stmt(*stmts, 0, at as int);
        }
        assert(decreases_to!(*stmts => stmts@[at as int]));
        let part: Plan = match build(&stmts[at], depth + 1, loops, purpose) {
            Ok(part) => part,
            Err(error) => {
                return Err(error);
            },
        };
        let length: usize = part.dim_count();
        if at == 0 || length >= dims {
            longest = at;
            dims = length;
        }
        let ghost earlier = parts@;
        parts.push(part);
        assert(forall|i: int| 0 <= i < at ==> #[trigger] parts@[i] == earlier[i]);
        at += 1;
    }
    let name: String = dim_name('t', depth - loops.len());
    Ok(Plan::Block { dim: depth, name, longest, dims, parts })
}

/// The timestamps of a tree.
pub fn get_timestamp_space(tree: &Tree) -> (plan: Result<Plan, PlanError>)
    ensures
        match failure(*tree, 0, Seq::empty(), Purpose::Timestamps) {
            Some(error) => plan matches Err(found) && found == error,
            None => plan matches Ok(plan) && plans(
                plan,
                *tree,
                0,
                Seq::empty(),
                Purpose::Timestamps,
            ),
        },
{
    let mut loops: Vec<ConvertedIVar> = Vec::new();
    build(tree, 0, &mut loops, Purpose::Timestamps)
}

/// The relation from the timestamps of a tree to the data they access.
pub fn get_access_map(tree: &Tree, block_size: usize, num_sets: usize) -> (plan: Result<
    Plan,
    PlanError,
>)
    requires
        num_sets > 0,
    ensures
        max_rank_of(*tree) + 2 <= usize::MAX ==> ({
            let purpose = Purpose::Accesses {
                block_size,
                max_array_dim: max_rank_of(*tree) as usize,
                num_sets,
            };
            match failure(*tree, 0, Seq::empty(), purpose) {
                Some(error) => plan matches Err(found) && found == error,
                None => plan matches Ok(plan) && plans(plan, *tree, 0, Seq::empty(), purpose),
            }
        }),
        max_rank_of(*tree) + 2 > usize::MAX ==> (plan matches Err(PlanError::TooLarge)),
{
    let max_array_dim: usize = get_max_array_dim(tree);
    if max_array_dim > usize::MAX - 2 {
        return Err(PlanError::TooLarge);
    }
    let mut loops: Vec<ConvertedIVar> = Vec::new();
    build(tree, 0, &mut loops, Purpose::Accesses { block_size, max_array_dim, num_sets })
}

} // verus!
