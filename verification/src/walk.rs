//! What a walk over a loop tree yields.
//!
//! A walk visits the statements in program order and the iterations of each
//! loop in ascending order. With a [`Partition`], the loops at its depth are
//! walked over one thread's iterations only.

use crate::address::{has_coords, packed, DataId, MemrefKey, MAX_ARRAY_DIMS};
use crate::affine_eval::{lower_value, map_values, set_value, upper_value, Values};
use crate::error::Error;
use crate::fxmap::lookup;
use crate::references::{key_of_memref, Table};
use crate::schedule::{owner, Partition};
use crate::tree::{AffineMap, Tree, ValID};
use vstd::prelude::*;

verus! {

broadcast use vstd::std_specs::vec::axiom_vec_index_decreases;

/// One memory access produced by a walk.
#[derive(Clone, Copy, Debug, PartialEq, Eq)]
pub struct Emitted {
    /// Static access site, numbered in tree order.
    pub reference: u32,
    pub data: DataId,
    pub is_write: bool,
}

/// What a walk depends on besides the tree and the values in scope.
pub ghost struct Setting {
    pub table: Table,
    pub block_size: int,
    pub partition: Option<Partition>,
}

/// The outcome of a walk.
pub ghost struct Walk {
    /// The accesses, in order.
    pub emitted: Seq<Emitted>,
    /// The values in scope at the end, or the error that ended the walk.
    pub stop: Result<Values, Error>,
    /// The number of times that a loop or block was advanced.
    pub steps: nat,
}

/// The datum of an access.
pub open spec fn data_of(memref: MemrefKey, indices: Seq<i64>, block_size: int) -> DataId {
    choose|data: DataId| data.memref == memref && has_coords(data, packed(indices, block_size))
}

/// What an access emits.
pub open spec fn access_value(
    site: usize,
    memref: ValID,
    map: AffineMap,
    operands: Seq<ValID>,
    is_write: bool,
    env: Values,
    setting: Setting,
) -> Result<Emitted, Error> {
    match map_values(map, operands, env) {
        Err(error) => Err(error),
        Ok(indices) => match lookup(setting.table.memrefs, key_of_memref(memref)) {
            None => Err(Error::UnknownMemref { memref }),
            Some(key) => if indices.len() > MAX_ARRAY_DIMS {
                Err(Error::RankTooLarge { rank: indices.len() as usize })
            } else {
                match lookup(setting.table.sites, site) {
                    None => Err(Error::UnknownSite),
                    Some(reference) => Ok(
                        Emitted {
                            reference,
                            data: data_of(MemrefKey(key), indices, setting.block_size),
                            is_write,
                        },
                    ),
                }
            },
        },
    }
}

/// Number of iterations of a loop.
pub open spec fn trip_count(lower: int, upper: int, step: int) -> int {
    let trip = (upper - lower + step - 1) / step;
    if trip < 0 {
        0
    } else {
        trip
    }
}

impl Walk {
    /// A walk that ends at once.
    pub open spec fn done(env: Values) -> Walk {
        Walk { emitted: Seq::empty(), stop: Ok(env), steps: 0 }
    }

    /// A walk that fails at once.
    pub open spec fn failed(error: Error) -> Walk {
        Walk { emitted: Seq::empty(), stop: Err(error), steps: 0 }
    }

    /// This walk and then another one.
    pub open spec fn followed_by(self, next: Walk) -> Walk {
        Walk {
            emitted: self.emitted + next.emitted,
            stop: next.stop,
            steps: self.steps + next.steps,
        }
    }

    /// This walk after one more advance of a loop or block.
    pub open spec fn advanced(self) -> Walk {
        Walk { steps: self.steps + 1, ..self }
    }
}

/// The walk over a tree.
pub open spec fn walk(tree: Tree, env: Values, setting: Setting) -> Walk
    decreases tree, 0int, 0int,
{
    match tree {
        Tree::Block(stmts) => if stmts@.len() == 0 {
            Walk::done(env)
        } else {
            walk_block(stmts, 0, env, setting)
        },
        Tree::For {
            lower_bound,
            upper_bound,
            lower_bound_operands,
            upper_bound_operands,
            step,
            ivar,
            body,
        } => match ivar {
            ValID::IVar(index) => if step <= 0 {
                Walk::failed(Error::BadStep { step })
            } else {
                match lower_value(lower_bound, lower_bound_operands@, env) {
                    Err(error) => Walk::failed(error),
                    Ok(lower) => match upper_value(upper_bound, upper_bound_operands@, env) {
                        Err(error) => Walk::failed(error),
                        Ok(upper) => if index == usize::MAX {
                            Walk::failed(Error::Overflow)
                        } else {
                            match setting.partition {
                                Some(partition) if partition.depth == index => {
                                    let trip = trip_count(lower as int, upper as int, step as int);
                                    let threads = partition.threads as int;
                                    if trip > i64::MAX {
                                        Walk::failed(Error::Overflow)
                                    } else {
                                        let chunk = partition.chunk.resolved(trip, threads);
                                        walk_owned(
                                            *body,
                                            index as int,
                                            lower as int,
                                            step as int,
                                            trip,
                                            chunk,
                                            threads,
                                            partition.tid as int % threads,
                                            partition.tid * chunk,
                                            env,
                                            setting,
                                        )
                                    }
                                },
                                _ => walk_for(
                                    *body,
                                    index as int,
                                    lower as int,
                                    upper as int,
                                    step as int,
                                    env,
                                    setting,
                                ),
                            }
                        },
                    },
                }
            },
            _ => Walk::failed(Error::NotAnIvar { ivar }),
        },
        Tree::If { condition, operands, then_branch, else_branch } => match set_value(
            condition,
            operands@,
            env,
        ) {
            Err(error) => Walk::failed(error),
            Ok(true) => walk(*then_branch, env, setting),
            Ok(false) => match else_branch {
                Some(otherwise) => walk(*otherwise, env, setting),
                None => Walk::done(env),
            },
        },
        Tree::Access { site, memref, map, operands, is_write } => match access_value(
            site,
            memref,
            map,
            operands@,
            is_write,
            env,
            setting,
        ) {
            Err(error) => Walk::failed(error),
            Ok(access) => Walk { emitted: seq![access], stop: Ok(env), steps: 0 },
        },
    }
}

/// The walk over the statements of a block from position `at` on.
pub open spec fn walk_block(stmts: Vec<Tree>, at: int, env: Values, setting: Setting) -> Walk
    decreases stmts, 1int, stmts@.len() - at,
{
    if at < 0 || at >= stmts@.len() {
        Walk::done(env).advanced()
    } else {
        let first = walk(stmts[at], env, setting).advanced();
        match first.stop {
            Err(_) => first,
            Ok(env) => first.followed_by(walk_block(stmts, at + 1, env, setting)),
        }
    }
}

/// The walk over the iterations of a loop from the value `current` on.
pub open spec fn walk_for(
    body: Tree,
    ivar: int,
    current: int,
    upper: int,
    step: int,
    env: Values,
    setting: Setting,
) -> Walk
    decreases
            body,
            1int,
            if current < upper {
                upper - current
            } else {
                0
            },
{
    if current >= upper || step <= 0 {
        Walk::done(env).advanced()
    } else {
        let first = walk(body, env.with_ivar(ivar, current as i64), setting).advanced();
        match first.stop {
            Err(_) => first,
            Ok(env) => first.followed_by(
                walk_for(body, ivar, current + step, upper, step, env, setting),
            ),
        }
    }
}

/// The walk over the iterations of a loop that one thread owns, from iteration
/// `from` on.
pub open spec fn walk_owned(
    body: Tree,
    ivar: int,
    lower: int,
    step: int,
    trip: int,
    chunk: int,
    threads: int,
    tid: int,
    from: int,
    env: Values,
    setting: Setting,
) -> Walk
    decreases body, 1int, trip - from,
{
    if from >= trip {
        Walk::done(env).advanced()
    } else if owner(from, chunk, threads) != tid {
        walk_owned(body, ivar, lower, step, trip, chunk, threads, tid, from + 1, env, setting)
    } else {
        let first = walk(
            body,
            env.with_ivar(ivar, (lower + from * step) as i64),
            setting,
        ).advanced();
        match first.stop {
            Err(_) => first,
            Ok(env) => first.followed_by(
                walk_owned(
                    body,
                    ivar,
                    lower,
                    step,
                    trip,
                    chunk,
                    threads,
                    tid,
                    from + 1,
                    env,
                    setting,
                ),
            ),
        }
    }
}

/// Iterations of other threads do not matter to a walk.
pub proof fn lemma_skip_foreign(
    body: Tree,
    ivar: int,
    lower: int,
    step: int,
    trip: int,
    chunk: int,
    threads: int,
    tid: int,
    from: int,
    to: int,
    env: Values,
    setting: Setting,
)
    requires
        from <= to,
        forall|other: int|
            from <= other < to && other < trip ==> #[trigger] owner(other, chunk, threads) != tid,
    ensures
        walk_owned(body, ivar, lower, step, trip, chunk, threads, tid, from, env, setting)
            == walk_owned(body, ivar, lower, step, trip, chunk, threads, tid, to, env, setting),
    decreases to - from,
{
    if from < to && from < trip {
        assert(owner(from, chunk, threads) != tid);
        lemma_skip_foreign(
            body,
            ivar,
            lower,
            step,
            trip,
            chunk,
            threads,
            tid,
            from + 1,
            to,
            env,
            setting,
        );
    }
}

/// The datum of an access is well defined.
pub proof fn lemma_data_of(data: DataId, memref: MemrefKey, indices: Seq<i64>, block_size: int)
    requires
        data.memref == memref,
        has_coords(data, packed(indices, block_size)),
    ensures
        data == data_of(memref, indices, block_size),
{
    let chosen = data_of(memref, indices, block_size);
    assert(data.coords@ =~= chosen.coords@);
    vstd::array::axiom_array_ext_equal(data.coords, chosen.coords);
}

} // verus!
