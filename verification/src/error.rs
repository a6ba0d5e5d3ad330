//! What can go wrong while a loop tree is walked.

use crate::address::MAX_ARRAY_DIMS;
use crate::text::{decimal, push_decimal, push_signed, signed_decimal};
use crate::tree::ValID;
use vstd::prelude::*;

verus! {

/// A failed evaluation or walk.
#[derive(Debug)]
pub enum Error {
    /// An induction variable was read before any loop set it.
    UnsetIvar { index: usize },
    /// A symbol without a value, and how many have one.
    UnboundSymbol { index: usize, declared: usize },
    /// A position past the end of the operand list.
    MissingOperand { position: usize, present: usize },
    /// An array where an integer belongs.
    MemrefOperand { operand: ValID },
    /// A modulus or divisor that is not positive.
    BadDivisor { divisor: i64 },
    /// A value that does not fit in 64 bits.
    Overflow,
    /// A loop without a lower bound.
    EmptyLowerBound,
    /// A loop without an upper bound.
    EmptyUpperBound,
    /// A loop driven by something else than an induction variable.
    NotAnIvar { ivar: ValID },
    /// A loop step that is not positive.
    BadStep { step: i64 },
    /// An access to something else than an array.
    NotAMemref { target: ValID },
    /// An access site that the pre-pass has not seen.
    UnknownSite,
    /// An array that the pre-pass has not seen.
    UnknownMemref { memref: ValID },
    /// An access with more subscripts than a datum can hold.
    RankTooLarge { rank: usize },
    /// A tree without accesses.
    NoAccesses,
    /// A tree with an access of more subscripts than a datum can hold.
    KernelRankTooLarge { rank: usize },
    /// A scheduler whose choices have to come from outside.
    OutsideChoice,
    /// A choice among the threads with work left that is not one of them.
    BadChoice { position: usize, live: usize },
    /// A trace of more accesses than can be counted.
    TraceTooLong,
}

impl Error {
    /// The message of an error.
    pub open spec fn text(&self) -> Seq<char> {
        match *self {
            Error::UnsetIvar { index } => "induction variable i"@ + decimal(index as nat)
                + " is not in scope"@,
            Error::UnboundSymbol { index, declared } => "symbol s"@ + decimal(index as nat)
                + " has no binding; pass one with `--symbol s"@ + decimal(index as nat)
                + "=<value>` (the program declares "@ + decimal(declared as nat) + " symbol(s))"@,
            Error::MissingOperand { position, present } => "affine operand "@ + decimal(
                position as nat,
            ) + " is out of range ("@ + decimal(present as nat) + " present)"@,
            Error::MemrefOperand { operand } => "memref "@ + operand.text()
                + " cannot appear as an affine operand"@,
            Error::BadDivisor { divisor } =>
                "affine mod/div requires a positive divisor, found "@ + signed_decimal(
                divisor as int,
            ),
            Error::Overflow => "affine arithmetic exceeds 64 bits"@,
            Error::EmptyLowerBound => "affine.for lower bound has no results"@,
            Error::EmptyUpperBound => "affine.for upper bound has no results"@,
            Error::NotAnIvar { ivar } => "affine.for is driven by "@ + ivar.text()
                + ", which is not an induction variable"@,
            Error::BadStep { step } => "affine.for step must be positive, found "@
                + signed_decimal(step as int),
            Error::NotAMemref { target } => "access targets "@ + target.text()
                + ", which is not a memref"@,
            Error::UnknownSite => "access site was not registered by the reference pre-pass"@,
            Error::UnknownMemref { memref } => "memref "@ + memref.text()
                + " was not registered by the reference pre-pass"@,
            Error::RankTooLarge { rank } => "access has rank "@ + decimal(rank as nat)
                + ", above the sampler's supported maximum of "@ + decimal(MAX_ARRAY_DIMS as nat),
            Error::NoAccesses => "the target loop nest contains no memory accesses"@,
            Error::KernelRankTooLarge { rank } => "the kernel has an array of rank "@ + decimal(
                rank as nat,
            ) + ", above the supported maximum of "@ + decimal(MAX_ARRAY_DIMS as nat),
            Error::OutsideChoice => "the scheduler needs random draws from outside"@,
            Error::BadChoice { position, live } => "thread choice "@ + decimal(position as nat)
                + " is out of range ("@ + decimal(live as nat) + " live)"@,
            Error::TraceTooLong => "the trace exceeds 64 bits"@,
        }
    }

    /// The message of an error.
    pub fn message(&self) -> (text: String)
        ensures
            text@ == self.text(),
    {
        let mut text: String = String::new();
        match self {
            Error::UnsetIvar { index } => {
                text.push_str("induction variable i");
                push_decimal(&mut text, *index as u64);
                text.push_str(" is not in scope");
            },
            Error::UnboundSymbol { index, declared } => {
                text.push_str("symbol s");
                push_decimal(&mut text, *index as u64);
                text.push_str(" has no binding; pass one with `--symbol s");
                push_decimal(&mut text, *index as u64);
                text.push_str("=<value>` (the program declares ");
                push_decimal(&mut text, *declared as u64);
                text.push_str(" symbol(s))");
            },
            Error::MissingOperand { position, present } => {
                text.push_str("affine operand ");
                push_decimal(&mut text, *position as u64);
                text.push_str(" is out of range (");
                push_decimal(&mut text, *present as u64);
                text.push_str(" present)");
            },
            Error::MemrefOperand { operand } => {
                text.push_str("memref ");
                operand.push_to(&mut text);
                text.push_str(" cannot appear as an affine operand");
            },
            Error::BadDivisor { divisor } => {
                text.push_str("affine mod/div requires a positive divisor, found ");
                push_signed(&mut text, *divisor);
            },
            Error::Overflow => {
                text.push_str("affine arithmetic exceeds 64 bits");
            },
            Error::EmptyLowerBound => {
                text.push_str("affine.for lower bound has no results");
            },
            Error::EmptyUpperBound => {
                text.push_str("affine.for upper bound has no results");
            },
            Error::NotAnIvar { ivar } => {
                text.push_str("affine.for is driven by ");
                ivar.push_to(&mut text);
                text.push_str(", which is not an induction variable");
            },
            Error::BadStep { step } => {
                text.push_str("affine.for step must be positive, found ");
                push_signed(&mut text, *step);
            },
            Error::NotAMemref { target } => {
                text.push_str("access targets ");
                target.push_to(&mut text);
                text.push_str(", which is not a memref");
            },
            Error::UnknownSite => {
                text.push_str("access site was not registered by the reference pre-pass");
            },
            Error::UnknownMemref { memref } => {
                text.push_str("memref ");
                memref.push_to(&mut text);
                text.push_str(" was not registered by the reference pre-pass");
            },
            Error::RankTooLarge { rank } => {
                text.push_str("access has rank ");
                push_decimal(&mut text, *rank as u64);
                text.push_str(", above the sampler's supported maximum of ");
                push_decimal(&mut text, MAX_ARRAY_DIMS as u64);
            },
            Error::NoAccesses => {
                text.push_str("the target loop nest contains no memory accesses");
            },
            Error::KernelRankTooLarge { rank } => {
                text.push_str("the kernel has an array of rank ");
                push_decimal(&mut text, *rank as u64);
                text.push_str(", above the supported maximum of ");
                push_decimal(&mut text, MAX_ARRAY_DIMS as u64);
            },
            Error::OutsideChoice => {
                text.push_str("the scheduler needs random draws from outside");
            },
            Error::BadChoice { position, live } => {
                text.push_str("thread choice ");
                push_decimal(&mut text, *position as u64);
                text.push_str(" is out of range (");
                push_decimal(&mut text, *live as u64);
                text.push_str(" live)");
            },
            Error::TraceTooLong => {
                text.push_str("the trace exceeds 64 bits");
            },
        }
        proof {
            assert(text@ =~= self.text());
        }
        text
    }
}

} // verus!
