//! How the iterations of the parallel loop are handed to threads.
//!
//! Only `schedule(static, chunk)` is modeled: iteration `k`, counted from zero,
//! belongs to thread `(k / chunk) mod threads`. Ownership is a function of the
//! iteration index alone.

use vstd::prelude::*;

verus! {

/// The chunk size of a static schedule.
#[derive(Clone, Copy, Debug, PartialEq, Eq, Structural)]
pub enum ChunkSize {
    /// Contiguous blocks, one per thread.
    Auto,
    /// A given positive number of iterations.
    Fixed(i64),
}

/// `ceil(trip / threads)`, and at least one.
pub open spec fn auto_chunk(trip: int, threads: int) -> int {
    let share = (trip + threads - 1) / threads;
    if share < 1 {
        1
    } else {
        share
    }
}

impl ChunkSize {
    /// A chunk holds at least one iteration.
    pub open spec fn valid(self) -> bool {
        self matches ChunkSize::Fixed(chunk) ==> chunk > 0
    }

    /// The number of iterations of one chunk.
    pub open spec fn resolved(self, trip: int, threads: int) -> int {
        match self {
            ChunkSize::Fixed(chunk) => chunk as int,
            ChunkSize::Auto => auto_chunk(trip, threads),
        }
    }

    /// The number of iterations of one chunk.
    pub fn resolve(self, trip: i64, threads: i64) -> (chunk: i64)
        requires
            threads > 0,
        ensures
            chunk == self.resolved(trip as int, threads as int),
    {
        match self {
            ChunkSize::Fixed(chunk) => chunk,
            ChunkSize::Auto => {
                let share: i128 = ceil_div(trip as i128, threads as i128);
                if share < 1 {
                    1
                } else {
                    share as i64
                }
            },
        }
    }
}

/// `ceil(value / divisor)`.
pub fn ceil_div(value: i128, divisor: i128) -> (quotient: i128)
    requires
        0 < divisor <= i64::MAX,
        -0x2_0000_0000_0000_0000 <= value <= 0x2_0000_0000_0000_0000,
    ensures
        quotient == (value + divisor - 1) / divisor as int,
        value >= 0 ==> 0 <= quotient <= value,
        value < 0 ==> quotient <= 0,
{
    let sum: i128 = value + divisor - 1;
    proof {
        crate::address::lemma_quotient_fits(sum as int, divisor as int);
        let q = sum as int / divisor as int;
        vstd::arithmetic::div_mod::lemma_fundamental_div_mod(sum as int, divisor as int);
        let m = sum as int % divisor as int;
        if value >= 0 {
            assert(q <= value) by (nonlinear_arith)
                requires
                    value + divisor - 1 == divisor * q + m,
                    0 <= m < divisor,
                    divisor > 0,
                    value >= 0,
            ;
        } else {
            assert(q <= 0) by (nonlinear_arith)
                requires
                    value + divisor - 1 == divisor * q + m,
                    0 <= m < divisor,
                    divisor > 0,
                    value < 0,
            ;
        }
    }
    match sum.checked_div_euclid(divisor) {
        Some(quotient) => quotient,
        None => {
            assert(false);
            0
        },
    }
}

/// One thread's share of the parallel loop.
#[derive(Clone, Copy, Debug)]
pub struct Partition {
    /// Nesting depth of the parallel loop, which is also the number of its
    /// induction variable.
    pub depth: usize,
    pub tid: u32,
    pub threads: u32,
    pub chunk: ChunkSize,
}

impl Partition {
    /// There is at least one thread, and chunks are not empty.
    pub open spec fn valid(self) -> bool {
        self.threads > 0 && self.chunk.valid() && self.tid < self.threads
    }
}

/// The thread that runs an iteration.
pub open spec fn owner(index: int, chunk: int, threads: int) -> int {
    (index / chunk) % threads
}

/// The iteration at which a walk stands.
pub open spec fn position(chunk: int, chunk_index: int, offset: int) -> int {
    chunk_index * chunk + offset
}

proof fn lemma_in_chunk(index: int, chunk: int, chunk_index: int)
    requires
        chunk > 0,
        chunk_index * chunk <= index < (chunk_index + 1) * chunk,
    ensures
        index / chunk == chunk_index,
{
    let offset = index - chunk_index * chunk;
    assert((chunk_index + 1) * chunk == chunk_index * chunk + chunk) by (nonlinear_arith);
    vstd::arithmetic::div_mod::lemma_fundamental_div_mod_converse(
        index,
        chunk,
        chunk_index,
        offset,
    );
}

/// The chunks between two chunks of a thread belong to others.
proof fn lemma_between_chunks(index: int, chunk: int, threads: int, chunk_index: int)
    requires
        chunk > 0,
        threads > 0,
        chunk_index >= 0,
        (chunk_index + 1) * chunk <= index < (chunk_index + threads) * chunk,
    ensures
        owner(index, chunk, threads) != chunk_index % threads,
{
    let at = index / chunk;
    vstd::arithmetic::div_mod::lemma_fundamental_div_mod(index, chunk);
    let m = index % chunk;
    assert(chunk_index < at < chunk_index + threads) by (nonlinear_arith)
        requires
            index == chunk * at + m,
            0 <= m < chunk,
            (chunk_index + 1) * chunk <= index < (chunk_index + threads) * chunk,
    ;
    let d = at - chunk_index;
    if at % threads == chunk_index % threads {
        vstd::arithmetic::div_mod::lemma_fundamental_div_mod(at, threads);
        vstd::arithmetic::div_mod::lemma_fundamental_div_mod(chunk_index, threads);
        let (a, b) = (at / threads, chunk_index / threads);
        assert(threads * (a - b) == d) by (nonlinear_arith)
            requires
                at == threads * a + at % threads,
                chunk_index == threads * b + chunk_index % threads,
                at % threads == chunk_index % threads,
                d == at - chunk_index,
        ;
        assert(false) by (nonlinear_arith)
            requires
                threads * (a - b) == d,
                0 < d < threads,
        ;
    }
}

/// Advances a `schedule(static, chunk)` walk to this thread's next iteration,
/// stepping over the chunks owned by other threads.
pub fn next_owned_index(
    trip: &i64,
    chunk: i64,
    threads: i64,
    chunk_index: &mut i64,
    offset: &mut i64,
) -> (next: Option<i64>)
    requires
        chunk > 0,
        threads > 0,
        *old(chunk_index) >= 0,
        0 <= *old(offset) <= chunk,
    ensures
        *final(chunk_index) >= 0,
        0 <= *final(offset) <= chunk,
        ({
            let tid = *old(chunk_index) as int % threads as int;
            let from = position(chunk as int, *old(chunk_index) as int, *old(offset) as int);
            match next {
                Some(index) => {
                    &&& from <= index < *trip
                    &&& owner(index as int, chunk as int, threads as int) == tid
                    &&& forall|other: int|
                        from <= other < index ==> #[trigger] owner(
                            other,
                            chunk as int,
                            threads as int,
                        ) != tid
                    &&& *final(chunk_index) as int % threads as int == tid
                    &&& position(chunk as int, *final(chunk_index) as int, *final(offset) as int)
                        == index + 1
                },
                None => {
                    &&& forall|other: int|
                        from <= other < *trip ==> #[trigger] owner(
                            other,
                            chunk as int,
                            threads as int,
                        ) != tid
                    &&& position(chunk as int, *final(chunk_index) as int, *final(offset) as int)
                        >= *trip
                },
            }
        }),
{
    let ghost tid = *chunk_index as int % threads as int;
    let ghost from = position(chunk as int, *chunk_index as int, *offset as int);
    loop
        invariant
            chunk > 0,
            threads > 0,
            *chunk_index >= 0,
            0 <= *offset <= chunk,
            tid == *old(chunk_index) as int % threads as int,
            from == position(chunk as int, *old(chunk_index) as int, *old(offset) as int),
            *chunk_index as int % threads as int == tid,
            from <= position(chunk as int, *chunk_index as int, *offset as int),
            forall|other: int|
                from <= other < position(chunk as int, *chunk_index as int, *offset as int)
                    && other < *trip ==> #[trigger] owner(other, chunk as int, threads as int)
                    != tid,
        decreases i64::MAX - *chunk_index,
    {
        let ghost at = *chunk_index as int;
        assert(at * chunk >= 0) by (nonlinear_arith)
            requires
                at >= 0,
                chunk > 0,
        ;
        assert(at * chunk >= at) by (nonlinear_arith)
            requires
                at >= 0,
                chunk > 0,
        ;
        assert((at + 1) * chunk == at * chunk + chunk) by (nonlinear_arith);
        let start: i64 = match chunk_index.checked_mul(chunk) {
            Some(start) => start,
            None => {
                return None;
            },
        };
        if start >= *trip {
            return None;
        }
        let end: i64 = match start.checked_add(chunk) {
            Some(end) => if end < *trip {
                end
            } else {
                *trip
            },
            None => *trip,
        };
        if *offset >= end - start {
            proof {
                assert forall|other: int|
                    from <= other < (at + threads) * chunk && other
                        < *trip implies #[trigger] owner(other, chunk as int, threads as int)
                    != tid by {
                    if other >= position(chunk as int, at, *offset as int) {
                        lemma_between_chunks(other, chunk as int, threads as int, at);
                    }
                }
                assert((at + threads) * chunk >= (at + 1) * chunk) by (nonlinear_arith)
                    requires
                        threads >= 1,
                        chunk > 0,
                ;
                vstd::arithmetic::div_mod::lemma_mod_add_multiples_vanish(at, threads as int);
            }
            *offset = 0;
            match chunk_index.checked_add(threads) {
                Some(next) => {
                    *chunk_index = next;
                },
                None => {
                    proof {
                        assert((at + threads) * chunk >= at + threads) by (nonlinear_arith)
                            requires
                                at + threads >= 0,
                                chunk >= 1,
                        ;
                        assert(i64::MAX * chunk >= i64::MAX) by (nonlinear_arith)
                            requires
                                chunk >= 1,
                        ;
                    }
                    *chunk_index = i64::MAX;
                    return None;
                },
            }
            continue ;
        }
        let index: i64 = start + *offset;
        proof {
            lemma_in_chunk(index as int, chunk as int, at);
        }
        *offset = *offset + 1;
        return Some(index);
    }
}

/// Every iteration has its one owner among the threads.
pub proof fn law_every_iteration_has_one_owner(index: int, chunk: int, threads: int)
    requires
        index >= 0,
        chunk > 0,
        threads > 0,
    ensures
        0 <= owner(index, chunk, threads) < threads,
{
    assert(0 <= owner(index, chunk, threads) < threads) by (nonlinear_arith)
        requires
            threads > 0,
            owner(index, chunk, threads) == (index / chunk) % threads,
    ;
}

/// Chunks of one iteration go round the threads.
pub proof fn law_chunk_one_is_round_robin(index: int, threads: int)
    requires
        index >= 0,
        threads > 0,
    ensures
        owner(index, 1, threads) == index % threads,
{
}

/// The automatic chunk size gives each thread one contiguous block: the
/// iterations of thread `tid` are those from `tid * chunk` up to the next
/// multiple.
pub proof fn law_auto_chunks_are_contiguous_blocks(index: int, trip: int, threads: int, tid: int)
    requires
        0 <= index < trip,
        0 <= tid < threads,
    ensures
        ({
            let chunk = auto_chunk(trip, threads);
            owner(index, chunk, threads) == tid <==> tid * chunk <= index < (tid + 1) * chunk
        }),
{
    let chunk = auto_chunk(trip, threads);
    let sum = trip + threads - 1;
    vstd::arithmetic::div_mod::lemma_fundamental_div_mod(sum, threads);
    let (q, m) = (sum / threads, sum % threads);
    assert(threads * chunk >= trip) by (nonlinear_arith)
        requires
            sum == threads * q + m,
            0 <= m < threads,
            sum == trip + threads - 1,
            chunk >= q,
    ;
    vstd::arithmetic::div_mod::lemma_fundamental_div_mod(index, chunk);
    let (at, rest) = (index / chunk, index % chunk);
    assert(0 <= at < threads) by (nonlinear_arith)
        requires
            index == chunk * at + rest,
            0 <= rest < chunk,
            0 <= index < trip,
            threads * chunk >= trip,
    ;
    vstd::arithmetic::div_mod::lemma_small_mod(at as nat, threads as nat);
    if at == tid {
        assert(tid * chunk <= index < (tid + 1) * chunk) by (nonlinear_arith)
            requires
                index == chunk * at + rest,
                0 <= rest < chunk,
                at == tid,
        ;
    } else if tid * chunk <= index < (tid + 1) * chunk {
        lemma_in_chunk(index, chunk, tid);
    }
}

} // verus!
