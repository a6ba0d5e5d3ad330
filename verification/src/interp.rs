//! A resumable interpreter over the loop tree.
//!
//! It yields one access at a time. Laziness matters: a cubic kernel makes
//! hundreds of millions of accesses, and one stream per thread runs at once, so
//! nothing may be materialized. Rather than recursing, the cursor keeps an
//! explicit stack of frames, which is what makes it suspendable between
//! accesses.

use crate::address::{DataId, MemrefKey};
use crate::affine_eval::{
    eval_integer_set, eval_lower_bound, eval_map, eval_upper_bound, Env, Values,
};
use crate::error::Error;
use crate::schedule::{ceil_div, next_owned_index, owner, position};
use crate::tree::{Tree, ValID};
use crate::walk::{
    lemma_data_of, lemma_skip_foreign, trip_count, walk, walk_block, walk_for, walk_owned, Setting,
    Walk,
};
pub use crate::references::ReferenceTable;
pub use crate::schedule::{ChunkSize, Partition};
pub use crate::walk::Emitted;
use vstd::prelude::*;

verus! {

/// A construct whose walk is under way.
enum Frame<'a> {
    Block { stmts: &'a Vec<Tree>, next: usize },
    For { body: &'a Tree, ivar: usize, current: i64, upper: i64, step: i64 },
    /// The parallel loop, walked over only the iterations this thread owns.
    OwnedFor {
        body: &'a Tree,
        ivar: usize,
        lower: i64,
        step: i64,
        trip: i64,
        chunk: i64,
        threads: i64,
        chunk_index: i64,
        offset: i64,
    },
}

impl<'a> Frame<'a> {
    spec fn wf(self) -> bool {
        match self {
            Frame::Block { stmts, next } => next <= stmts@.len(),
            Frame::For { ivar, step, .. } => ivar < usize::MAX && step > 0,
            Frame::OwnedFor { ivar, lower, step, trip, chunk, threads, chunk_index, offset, .. } => {
                &&& ivar < usize::MAX
                &&& step > 0
                &&& trip >= 0
                &&& lower + (trip - 1) * step <= i64::MAX
                &&& chunk > 0
                &&& threads > 0
                &&& chunk_index >= 0
                &&& 0 <= offset <= chunk
            },
        }
    }

    /// What is left of the construct's walk.
    spec fn rest(self, env: Values, setting: Setting) -> Walk {
        match self {
            Frame::Block { stmts, next } => walk_block(*stmts, next as int, env, setting),
            Frame::For { body, ivar, current, upper, step } => walk_for(
                *body,
                ivar as int,
                current as int,
                upper as int,
                step as int,
                env,
                setting,
            ),
            Frame::OwnedFor {
                body,
                ivar,
                lower,
                step,
                trip,
                chunk,
                threads,
                chunk_index,
                offset,
            } => walk_owned(
                *body,
                ivar as int,
                lower as int,
                step as int,
                trip as int,
                chunk as int,
                threads as int,
                chunk_index as int % threads as int,
                position(chunk as int, chunk_index as int, offset as int),
                env,
                setting,
            ),
        }
    }
}

/// What is left of the walks of all frames, the innermost last.
spec fn rest_of(stack: Seq<Frame>, env: Values, setting: Setting) -> Walk
    decreases stack.len(), 0int,
{
    if stack.len() == 0 {
        Walk::done(env)
    } else {
        resume(stack.last().rest(env, setting), stack.drop_last(), setting)
    }
}

/// A walk, and then what is left of the frames around it.
spec fn resume(first: Walk, stack: Seq<Frame>, setting: Setting) -> Walk
    decreases stack.len(), 1int,
{
    match first.stop {
        Err(_) => first,
        Ok(env) => first.followed_by(rest_of(stack, env, setting)),
    }
}

/// A suspendable walk over one thread's share of the loop nest.
pub struct Cursor<'a, 'r> {
    stack: Vec<Frame<'a>>,
    env: Env,
    scratch: Vec<i64>,
    table: &'r ReferenceTable,
    block_size: usize,
    partition: Option<Partition>,
    root: Option<&'a Tree>,
}

impl<'a, 'r> Cursor<'a, 'r> {
    /// What the walk depends on besides the tree and the symbols.
    pub closed spec fn setting(&self) -> Setting {
        Setting {
            table: self.table@,
            block_size: self.block_size as int,
            partition: self.partition,
        }
    }

    /// What is left of the walk.
    pub closed spec fn rest(&self) -> Walk {
        match self.root {
            Some(root) => resume(
                walk(*root, self.env@, self.setting()),
                self.stack@,
                self.setting(),
            ),
            None => rest_of(self.stack@, self.env@, self.setting()),
        }
    }

    pub closed spec fn wf(&self) -> bool {
        &&& self.block_size > 0
        &&& self.partition matches Some(partition) ==> partition.valid()
        &&& forall|i: int| 0 <= i < self.stack@.len() ==> (#[trigger] self.stack@[i]).wf()
        &&& self.root is Some ==> self.stack@.len() == 0
    }

    /// Creates a cursor over the whole nest (`partition == None`) or over one
    /// thread's iterations of the parallel loop.
    pub fn new(
        tree: &'a Tree,
        table: &'r ReferenceTable,
        symbols: Vec<i64>,
        block_size: usize,
        partition: Option<Partition>,
    ) -> (cursor: Self)
        requires
            block_size > 0,
            partition matches Some(partition) ==> partition.valid(),
        ensures
            cursor.wf(),
            cursor.setting() == (Setting {
                table: table@,
                block_size: block_size as int,
                partition,
            }),
            cursor.rest() == walk(
                *tree,
                Values { ivars: Seq::empty(), symbols: symbols@ },
                cursor.setting(),
            ),
    {
        let cursor = Cursor {
            stack: Vec::new(),
            env: Env::new(symbols),
            scratch: Vec::new(),
            table,
            block_size,
            partition,
            root: Some(tree),
        };
        proof {
            let first = walk(*tree, cursor.env@, cursor.setting());
            assert(first.emitted + Seq::empty() =~= first.emitted);
        }
        cursor
    }

    /// Yields the next access, or `None` once this thread's stream is drained.
    pub fn next_access(&mut self) -> (next: Result<Option<Emitted>, Error>)
        requires
            old(self).wf(),
        ensures
            final(self).wf(),
            final(self).setting() == old(self).setting(),
            ({
                let rest = old(self).rest();
                if rest.emitted.len() > 0 {
                    &&& next == Ok::<Option<Emitted>, Error>(Some(rest.emitted[0]))
                    &&& final(self).rest().emitted == rest.emitted.skip(1)
                    &&& final(self).rest().stop == rest.stop
                } else {
                    match rest.stop {
                        Err(error) => next == Err::<Option<Emitted>, Error>(error),
                        Ok(env) => {
                            &&& next == Ok::<Option<Emitted>, Error>(None)
                            &&& final(self).rest().emitted == rest.emitted
                            &&& final(self).rest().stop == rest.stop
                        },
                    }
                }
            }),
    {
        match self.root.take() {
            Some(root) => match self.enter(root) {
                Err(error) => {
                    return Err(error);
                },
                Ok(Some(access)) => {
                    proof {
                        let tail = rest_of(self.stack@, self.env@, self.setting()).emitted;
                        assert((seq![access] + tail).skip(1) =~= tail);
                    }
                    return Ok(Some(access));
                },
                Ok(None) => {},
            },
            None => {},
        }
        let ghost setting = self.setting();
        loop
            invariant
                self.wf(),
                self.root is None,
                setting == self.setting(),
                setting == old(self).setting(),
                rest_of(self.stack@, self.env@, setting).emitted == old(self).rest().emitted,
                rest_of(self.stack@, self.env@, setting).stop == old(self).rest().stop,
            decreases rest_of(self.stack@, self.env@, setting).steps,
        {
            let ghost stack = self.stack@;
            let ghost env = self.env@;
            let ghost rest = rest_of(stack, env, setting);
            let frame: Frame<'a> = match self.stack.pop() {
                Some(frame) => frame,
                None => {
                    return Ok(None);
                },
            };
            let ghost below = self.stack@;
            assert(below =~= stack.drop_last());
            assert(frame == stack.last());
            assert(frame.wf());
            assert(forall|i: int| 0 <= i < below.len() ==> #[trigger] below[i] == stack[i]);
            let node: &'a Tree = match frame {
                Frame::Block { stmts, next } => {
                    if next >= stmts.len() {
                        proof {
                            lemma_done_first(env, below, setting);
                        }
                        continue ;
                    }
                    self.stack.push(Frame::Block { stmts, next: next + 1 });
                    proof {
                        lemma_step_block(stmts, next, env, setting);
                    }
                    &stmts[next]
                },
                Frame::For { body, ivar, current, upper, step } => {
                    if current >= upper {
                        proof {
                            lemma_done_first(env, below, setting);
                        }
                        continue ;
                    }
                    self.env.set_ivar(ivar, current);
                    let following: i64 = match current.checked_add(step) {
                        Some(following) => following,
                        None => upper,
                    };
                    proof {
                        lemma_step_for(body, ivar, current, upper, step, following, env, setting);
                    }
                    self.stack.push(Frame::For { body, ivar, current: following, upper, step });
                    body
                },
                Frame::OwnedFor {
                    body,
                    ivar,
                    lower,
                    step,
                    trip,
                    chunk,
                    threads,
                    chunk_index,
                    offset,
                } => {
                    let mut chunk_index: i64 = chunk_index;
                    let mut offset: i64 = offset;
                    match next_owned_index(&trip, chunk, threads, &mut chunk_index, &mut offset) {
                        None => {
                            proof {
                                lemma_done_first(env, below, setting);
                                lemma_owned_end(frame, env, setting);
                            }
                            continue ;
                        },
                        Some(index) => {
                            proof {
                                lemma_step_owned(frame, index, chunk_index, offset, env, setting);
                            }
                            let value: i128 = lower as i128 + (index as i128) * (step as i128);
                            self.env.set_ivar(ivar, value as i64);
                            self.stack.push(
                                Frame::OwnedFor {
                                    body,
                                    ivar,
                                    lower,
                                    step,
                                    trip,
                                    chunk,
                                    threads,
                                    chunk_index,
                                    offset,
                                },
                            );
                            body
                        },
                    }
                },
            };
            let ghost pushed = self.stack@;
            let ghost first = walk(*node, self.env@, setting);
            proof {
                assert(pushed.drop_last() =~= below);
                lemma_advance(
                    stack.last().rest(env, setting),
                    first,
                    pushed.last(),
                    below,
                    setting,
                );
                assert(below.push(pushed.last()) =~= pushed);
                assert forall|i: int| 0 <= i < pushed.len() implies (#[trigger] pushed[i]).wf() by {
                    if i < below.len() {
                        assert(pushed[i] == below[i]);
                    }
                }
            }
            match self.enter(node) {
                Err(error) => {
                    return Err(error);
                },
                Ok(Some(access)) => {
                    proof {
                        let tail = rest_of(pushed, self.env@, setting).emitted;
                        assert((seq![access] + tail).skip(1) =~= tail);
                    }
                    return Ok(Some(access));
                },
                Ok(None) => {},
            }
        }
    }

    /// Descends into a node: pushes a frame for a construct, or produces the
    /// access for a leaf.
    fn enter(&mut self, node: &'a Tree) -> (entered: Result<Option<Emitted>, Error>)
        requires
            old(self).wf(),
            old(self).root is None,
        ensures
            final(self).wf(),
            final(self).root is None,
            final(self).setting() == old(self).setting(),
            final(self).env == old(self).env,
            ({
                let first = walk(*node, old(self).env@, old(self).setting());
                match entered {
                    Err(error) => first == Walk::failed(error),
                    Ok(Some(access)) => final(self).stack == old(self).stack && first == (Walk {
                        emitted: seq![access],
                        stop: Ok(old(self).env@),
                        steps: 0,
                    }),
                    Ok(None) => rest_of(final(self).stack@, old(self).env@, old(self).setting())
                        == resume(first, old(self).stack@, old(self).setting()),
                }
            }),
        decreases *node,
    {
        let ghost stack = self.stack@;
        let ghost env = self.env@;
        let ghost setting = self.setting();
        match node {
            Tree::Block(stmts) => {
                if stmts.len() > 0 {
                    self.stack.push(Frame::Block { stmts, next: 0 });
                    assert(self.stack@.drop_last() =~= stack);
                } else {
                    proof {
                        lemma_done_first(env, stack, setting);
                    }
                }
                Ok(None)
            },
            Tree::For {
                lower_bound,
                upper_bound,
                lower_bound_operands,
                upper_bound_operands,
                step,
                ivar,
                body,
            } => {
                let index: usize = match ivar {
                    ValID::IVar(index) => *index,
                    other => {
                        return Err(Error::NotAnIvar { ivar: other.clone() });
                    },
                };
                let step: i64 = *step;
                if step <= 0 {
                    return Err(Error::BadStep { step });
                }
                let lower: i64 = match eval_lower_bound(
                    lower_bound,
                    lower_bound_operands.as_slice(),
                    &self.env,
                ) {
                    Ok(lower) => lower,
                    Err(error) => {
                        return Err(error);
                    },
                };
                let upper: i64 = match eval_upper_bound(
                    upper_bound,
                    upper_bound_operands.as_slice(),
                    &self.env,
                ) {
                    Ok(upper) => upper,
                    Err(error) => {
                        return Err(error);
                    },
                };
                if index == usize::MAX {
                    return Err(Error::Overflow);
                }
                let owned: Option<Partition> = match self.partition {
                    Some(partition) => if partition.depth == index {
                        Some(partition)
                    } else {
                        None
                    },
                    None => None,
                };
                match owned {
                    Some(partition) => {
                        let threads: i64 = partition.threads as i64;
                        let count: i128 = ceil_div(upper as i128 - lower as i128, step as i128);
                        let trip: i64 = if count < 0 {
                            0
                        } else if count > i64::MAX as i128 {
                            return Err(Error::Overflow);
                        } else {
                            count as i64
                        };
                        let chunk: i64 = partition.chunk.resolve(trip, threads);
                        proof {
                            lemma_last_iteration(lower as int, upper as int, step as int);
                        }
                        self.stack.push(
                            Frame::OwnedFor {
                                body,
                                ivar: index,
                                lower,
                                step,
                                trip,
                                chunk,
                                threads,
                                chunk_index: partition.tid as i64,
                                offset: 0,
                            },
                        );
                    },
                    None => {
                        self.stack.push(
                            Frame::For { body, ivar: index, current: lower, upper, step },
                        );
                    },
                }
                assert(self.stack@.drop_last() =~= stack);
                Ok(None)
            },
            Tree::If { condition, operands, then_branch, else_branch } => {
                match eval_integer_set(condition, operands.as_slice(), &self.env) {
                    Err(error) => Err(error),
                    Ok(true) => self.enter(then_branch),
                    Ok(false) => match else_branch {
                        Some(otherwise) => self.enter(otherwise),
                        None => {
                            proof {
                                lemma_done_first(env, stack, setting);
                            }
                            Ok(None)
                        },
                    },
                }
            },
            Tree::Access { site, memref, map, operands, is_write } => {
                match eval_map(map, operands.as_slice(), &self.env, &mut self.scratch) {
                    Err(error) => {
                        return Err(error);
                    },
                    Ok(()) => {},
                }
                let key: MemrefKey = match self.table.memref_of(memref) {
                    Err(error) => {
                        return Err(error);
                    },
                    Ok(key) => key,
                };
                let data: DataId = match DataId::new(
                    key,
                    self.scratch.as_slice(),
                    self.block_size,
                ) {
                    Some(data) => data,
                    None => {
                        return Err(Error::RankTooLarge { rank: self.scratch.len() });
                    },
                };
                proof {
                    lemma_data_of(data, key, self.scratch@, self.block_size as int);
                }
                let reference: u32 = match self.table.reference_of(*site) {
                    Err(error) => {
                        return Err(error);
                    },
                    Ok(reference) => reference,
                };
                Ok(Some(Emitted { reference, data, is_write: *is_write }))
            },
        }
    }
}

/// A construct's walk is a walk over its next part, and then the rest of the
/// construct.
spec fn stepped(rest: Walk, first: Walk, frame: Frame, setting: Setting) -> bool {
    rest == match first.stop {
        Err(_) => first.advanced(),
        Ok(env) => first.advanced().followed_by(frame.rest(env, setting)),
    }
}

proof fn lemma_step_block(stmts: &Vec<Tree>, next: usize, env: Values, setting: Setting)
    requires
        next < stmts@.len() <= usize::MAX,
    ensures
        stepped(
            Frame::Block { stmts, next }.rest(env, setting),
            walk(stmts[next as int], env, setting),
            Frame::Block { stmts, next: (next + 1) as usize },
            setting,
        ),
{
}

proof fn lemma_step_for(
    body: &Tree,
    ivar: usize,
    current: i64,
    upper: i64,
    step: i64,
    following: i64,
    env: Values,
    setting: Setting,
)
    requires
        current < upper,
        step > 0,
        following == current + step || following == upper && current + step > upper,
    ensures
        stepped(
            Frame::For { body, ivar, current, upper, step }.rest(env, setting),
            walk(*body, env.with_ivar(ivar as int, current), setting),
            Frame::For { body, ivar, current: following, upper, step },
            setting,
        ),
{
    if let Ok(env) = walk(*body, env.with_ivar(ivar as int, current), setting).stop {
        let (i, u, s) = (ivar as int, upper as int, step as int);
        assert(walk_for(*body, i, following as int, u, s, env, setting) == walk_for(
            *body,
            i,
            current + step,
            u,
            s,
            env,
            setting,
        ));
    }
}

proof fn lemma_owned_end(frame: Frame, env: Values, setting: Setting)
    requires
        frame matches Frame::OwnedFor { trip, chunk, threads, chunk_index, offset, .. } && forall|
            other: int,
        |
            position(chunk as int, chunk_index as int, offset as int) <= other < trip
                ==> #[trigger] owner(other, chunk as int, threads as int) != chunk_index as int
                % threads as int,
    ensures
        frame.rest(env, setting) == Walk::done(env).advanced(),
{
    if let Frame::OwnedFor {
        body,
        ivar,
        lower,
        step,
        trip,
        chunk,
        threads,
        chunk_index,
        offset,
    } = frame {
        let from = position(chunk as int, chunk_index as int, offset as int);
        if from < trip {
            lemma_skip_foreign(
                *body,
                ivar as int,
                lower as int,
                step as int,
                trip as int,
                chunk as int,
                threads as int,
                chunk_index as int % threads as int,
                from,
                trip as int,
                env,
                setting,
            );
        }
    }
}

proof fn lemma_step_owned(
    frame: Frame,
    index: i64,
    new_index: i64,
    new_offset: i64,
    env: Values,
    setting: Setting,
)
    requires
        frame.wf(),
        frame matches Frame::OwnedFor { trip, chunk, threads, chunk_index, offset, .. } && {
            let from = position(chunk as int, chunk_index as int, offset as int);
            let tid = chunk_index as int % threads as int;
            &&& from <= index < trip
            &&& owner(index as int, chunk as int, threads as int) == tid
            &&& forall|other: int|
                from <= other < index ==> #[trigger] owner(other, chunk as int, threads as int)
                    != tid
            &&& new_index as int % threads as int == tid
            &&& position(chunk as int, new_index as int, new_offset as int) == index + 1
        },
    ensures
        frame matches Frame::OwnedFor {
            body,
            ivar,
            lower,
            step,
            trip,
            chunk,
            threads,
            chunk_index,
            offset,
        } && {
            &&& 0 <= index * step <= 0x4000_0000_0000_0000_0000_0000_0000_0000
            &&& i64::MIN <= lower + index * step <= i64::MAX
            &&& stepped(
                frame.rest(env, setting),
                walk(*body, env.with_ivar(ivar as int, (lower + index * step) as i64), setting),
                Frame::OwnedFor {
                    body,
                    ivar,
                    lower,
                    step,
                    trip,
                    chunk,
                    threads,
                    chunk_index: new_index,
                    offset: new_offset,
                },
                setting,
            )
        },
{
    if let Frame::OwnedFor {
        body,
        ivar,
        lower,
        step,
        trip,
        chunk,
        threads,
        chunk_index,
        offset,
    } = frame {
        let from = position(chunk as int, chunk_index as int, offset as int);
        lemma_skip_foreign(
            *body,
            ivar as int,
            lower as int,
            step as int,
            trip as int,
            chunk as int,
            threads as int,
            chunk_index as int % threads as int,
            from,
            index as int,
            env,
            setting,
        );
        assert(0 <= chunk_index * chunk) by (nonlinear_arith)
            requires
                chunk_index >= 0,
                chunk > 0,
        ;
        assert(0 <= index * step <= (trip - 1) * step) by (nonlinear_arith)
            requires
                0 <= index <= trip - 1,
                step > 0,
        ;
        assert((trip - 1) * step <= 0x4000_0000_0000_0000_0000_0000_0000_0000) by (nonlinear_arith)
            requires
                1 <= trip <= 0x7fff_ffff_ffff_ffff,
                0 < step <= 0x7fff_ffff_ffff_ffff,
        ;
    }
}

/// One advance of a construct: a walk over its next part, with the rest of the
/// construct as the innermost frame.
proof fn lemma_advance(
    rest: Walk,
    first: Walk,
    frame: Frame,
    below: Seq<Frame>,
    setting: Setting,
)
    requires
        stepped(rest, first, frame, setting),
    ensures
        resume(rest, below, setting) == resume(first, below.push(frame), setting).advanced(),
{
    assert(below.push(frame).drop_last() =~= below);
    if let Ok(env) = first.stop {
        let inner = frame.rest(env, setting);
        assert(rest_of(below.push(frame), env, setting) == resume(inner, below, setting));
        if let Ok(env) = inner.stop {
            let outer = rest_of(below, env, setting);
            assert((first.emitted + inner.emitted) + outer.emitted =~= first.emitted + (
            inner.emitted + outer.emitted));
        }
    }
}

/// A walk that ends at once leaves the frames around it as they are.
proof fn lemma_done_first(env: Values, stack: Seq<Frame>, setting: Setting)
    ensures
        resume(Walk::done(env), stack, setting) == rest_of(stack, env, setting),
{
    let rest = rest_of(stack, env, setting);
    assert(Seq::empty() + rest.emitted =~= rest.emitted);
}

/// The last iteration of a loop lies below its upper bound.
proof fn lemma_last_iteration(lower: int, upper: int, step: int)
    requires
        step > 0,
    ensures
        trip_count(lower, upper, step) > 0 ==> lower + (trip_count(lower, upper, step) - 1) * step
            < upper,
        trip_count(lower, upper, step) == 0 ==> lower + (trip_count(lower, upper, step) - 1) * step
            <= lower,
{
    let sum = upper - lower + step - 1;
    vstd::arithmetic::div_mod::lemma_fundamental_div_mod(sum, step);
    let (q, m) = (sum / step, sum % step);
    assert((q - 1) * step == step * q - step) by (nonlinear_arith);
    assert((0 - 1) * step == -step) by (nonlinear_arith);
}

} // verus!
