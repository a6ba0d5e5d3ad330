//! What the command line asks for, as far as it can be decided without floating
//! point.

use crate::frontend::{is_refused, parse_symbol_binding, reads_as, BindingError, TreeFacts};
use crate::parallel::DilationLaw;
use crate::text::{
    chars_of, decimal, find, first_of, lemma_first_of, push_decimal, same_text, slice_of, split,
    split_at, string_of, texts, trim, trimmed,
};
use vstd::prelude::*;

verus! {

/// A scheduler as it is written: its kind, and its arguments as texts.
#[derive(Debug)]
pub enum SchedulerText {
    Uniform,
    RoundRobin,
    /// The mean run length.
    Burst { mean_run: String },
    /// The rates of the threads.
    Skewed { rates: Vec<String> },
}

/// What is wrong with a scheduler.
#[derive(Debug)]
pub enum SchedulerError {
    /// No mean run length.
    NoRunLength,
    /// No rates.
    NoRates,
    /// A kind that does not exist.
    Unknown { kind: String },
}

impl SchedulerError {
    /// The message of an error.
    pub open spec fn text(&self) -> Seq<char> {
        match *self {
            SchedulerError::NoRunLength => "`burst` needs a mean run length, as `burst:8`"@,
            SchedulerError::NoRates => "`skewed` needs per-thread rates, as `skewed:1,2,1,1`"@,
            SchedulerError::Unknown { kind } => "unknown scheduler `"@ + kind@
                + "`; expected uniform, round-robin, burst:<n>, or skewed:<rates>"@,
        }
    }

    /// The message of an error.
    pub fn message(&self) -> (text: String)
        ensures
            text@ == self.text(),
    {
        let mut text: String = String::new();
        match self {
            SchedulerError::NoRunLength => {
                text.push_str("`burst` needs a mean run length, as `burst:8`");
            },
            SchedulerError::NoRates => {
                text.push_str("`skewed` needs per-thread rates, as `skewed:1,2,1,1`");
            },
            SchedulerError::Unknown { kind } => {
                text.push_str("unknown scheduler `");
                text.push_str(kind.as_str());
                text.push_str("`; expected uniform, round-robin, burst:<n>, or skewed:<rates>");
            },
        }
        assert(text@ =~= self.text());
        text
    }
}

/// The kinds of schedulers.
#[derive(Clone, Copy, Debug, PartialEq, Eq, Structural)]
pub enum SchedulerKind {
    Uniform,
    RoundRobin,
    Burst,
    Skewed,
}

/// The kind that a word stands for.
pub open spec fn kind_of(word: Seq<char>) -> Option<SchedulerKind> {
    if word == "uniform"@ {
        Some(SchedulerKind::Uniform)
    } else if word == "round-robin"@ || word == "round_robin"@ || word == "rr"@ {
        Some(SchedulerKind::RoundRobin)
    } else if word == "burst"@ {
        Some(SchedulerKind::Burst)
    } else if word == "skewed"@ || word == "skewed-speed"@ {
        Some(SchedulerKind::Skewed)
    } else {
        None
    }
}

fn is_word(word: &Vec<char>, text: &str) -> (same: bool)
    ensures
        same == (word@ == text@),
{
    same_text(word, &chars_of(text))
}

fn read_kind(word: &Vec<char>) -> (kind: Option<SchedulerKind>)
    ensures
        kind == kind_of(word@),
{
    if is_word(word, "uniform") {
        Some(SchedulerKind::Uniform)
    } else if is_word(word, "round-robin") || is_word(word, "round_robin") || is_word(word, "rr") {
        Some(SchedulerKind::RoundRobin)
    } else if is_word(word, "burst") {
        Some(SchedulerKind::Burst)
    } else if is_word(word, "skewed") || is_word(word, "skewed-speed") {
        Some(SchedulerKind::Skewed)
    } else {
        None
    }
}

/// The word that names the kind: what stands before the first colon.
pub open spec fn kind_word(text: Seq<char>) -> Seq<char> {
    trimmed(text.take(first_of(text, ':')))
}

/// The argument: what stands behind the first colon.
pub open spec fn argument(text: Seq<char>) -> Option<Seq<char>> {
    if first_of(text, ':') < text.len() {
        Some(text.skip(first_of(text, ':') + 1))
    } else {
        None
    }
}

/// Reads a scheduler: `uniform`, `round-robin`, `burst:<mean run>` or
/// `skewed:<rate>,<rate>,..`.
pub fn parse_scheduler(text: &str) -> (scheduler: Result<SchedulerText, SchedulerError>)
    ensures
        match kind_of(kind_word(text@)) {
            Some(SchedulerKind::Uniform) => scheduler matches Ok(SchedulerText::Uniform),
            Some(SchedulerKind::RoundRobin) => scheduler matches Ok(SchedulerText::RoundRobin),
            Some(SchedulerKind::Burst) => match argument(text@) {
                Some(argument) => scheduler matches Ok(SchedulerText::Burst { mean_run })
                    && mean_run@ == trimmed(argument),
                None => scheduler matches Err(SchedulerError::NoRunLength),
            },
            Some(SchedulerKind::Skewed) => match argument(text@) {
                Some(argument) => scheduler matches Ok(SchedulerText::Skewed { rates })
                    && rates@.map_values(|rate: String| rate@) == split(argument, ',').map_values(
                    |rate: Seq<char>| trimmed(rate),
                ),
                None => scheduler matches Err(SchedulerError::NoRates),
            },
            None => scheduler matches Err(SchedulerError::Unknown { kind }) && kind@ == kind_word(
                text@,
            ),
        },
{
    let chars: Vec<char> = chars_of(text);
    let colon: usize = find(&chars, 0, ':');
    let total: usize = chars.len();
    proof {
        assert(chars@.skip(0) =~= chars@);
        lemma_first_of(chars@, ':');
    }
    let head: Vec<char> = slice_of(&chars, 0, colon);
    assert(head@ =~= chars@.take(colon as int));
    let word: Vec<char> = trim(&head);
    match read_kind(&word) {
        Some(SchedulerKind::Uniform) => Ok(SchedulerText::Uniform),
        Some(SchedulerKind::RoundRobin) => Ok(SchedulerText::RoundRobin),
        Some(SchedulerKind::Burst) => {
            if colon >= total {
                return Err(SchedulerError::NoRunLength);
            }
            let tail: Vec<char> = slice_of(&chars, colon + 1, total);
            assert(tail@ =~= chars@.skip(colon + 1));
            let short: Vec<char> = trim(&tail);
            assert(short@.subrange(0, short@.len() as int) =~= short@);
            Ok(SchedulerText::Burst { mean_run: string_of(&short, 0, short.len()) })
        },
        Some(SchedulerKind::Skewed) => {
            if colon >= total {
                return Err(SchedulerError::NoRates);
            }
            let tail: Vec<char> = slice_of(&chars, colon + 1, total);
            assert(tail@ =~= chars@.skip(colon + 1));
            let pieces: Vec<Vec<char>> = split_at(&tail, ',');
            let ghost parts = texts(pieces@);
            let ghost view = |rate: String| rate@;
            let ghost short = |rate: Seq<char>| trimmed(rate);
            let mut rates: Vec<String> = Vec::new();
            let mut at: usize = 0;
            assert(rates@.map_values(view) =~= parts.take(0).map_values(short));
            while at < pieces.len()
                invariant
                    at <= pieces@.len(),
                    parts == texts(pieces@),
                    view == (|rate: String| rate@),
                    short == (|rate: Seq<char>| trimmed(rate)),
                    rates@.map_values(view) == parts.take(at as int).map_values(short),
                decreases pieces@.len() - at,
            {
                let rate: Vec<char> = trim(&pieces[at]);
                assert(rate@.subrange(0, rate@.len() as int) =~= rate@);
                let ghost before = rates@;
                rates.push(string_of(&rate, 0, rate.len()));
                proof {
                    assert(parts[at as int] == pieces@[at as int]@);
                    assert(rates@.map_values(view) =~= before.map_values(view).push(rate@));
                    assert(parts.take(at + 1).map_values(short) =~= parts.take(
                        at as int,
                    ).map_values(short).push(trimmed(parts[at as int])));
                }
                at += 1;
            }
            assert(parts.take(at as int) =~= parts);
            Ok(SchedulerText::Skewed { rates })
        },
        None => {
            assert(word@.subrange(0, word@.len() as int) =~= word@);
            Err(SchedulerError::Unknown { kind: string_of(&word, 0, word.len()) })
        },
    }
}

/// What is wrong with the options of a run.
#[derive(Debug)]
pub enum OptionError {
    /// A symbol binding that cannot be read.
    Binding { error: BindingError },
    /// A symbol that the program does not read.
    NoSuchSymbol { index: usize, symbols: usize },
    /// A symbol without a value.
    Unbound { index: usize, symbols: usize },
    /// A parallel loop deeper than the nest.
    TooDeep { depth: usize, max_depth: usize },
    /// Threads without a parallel loop.
    IdleThreads,
}

impl OptionError {
    /// The message of an error.
    pub open spec fn text(&self) -> Seq<char> {
        match *self {
            OptionError::Binding { error } => error.text(),
            OptionError::NoSuchSymbol { index, symbols } => "symbol s"@ + decimal(index as nat)
                + " does not exist; the program reads "@ + decimal(symbols as nat) + " symbol(s)"@,
            OptionError::Unbound { index, symbols } => "symbol s"@ + decimal(index as nat)
                + " has no binding; pass `--symbol s"@ + decimal(index as nat)
                + "=<value>` (the program reads "@ + decimal(symbols as nat) + " symbol(s))"@,
            OptionError::TooDeep { depth, max_depth } => "--parallel-loop-depth "@ + decimal(
                depth as nat,
            ) + " is deeper than the nest, whose loops are at depths 0..="@ + decimal(
                max_depth as nat,
            ),
            OptionError::IdleThreads =>
                "--threads has no effect without --parallel-loop-depth"@,
        }
    }

    /// The message of an error.
    pub fn message(&self) -> (text: String)
        ensures
            text@ == self.text(),
    {
        let mut text: String = String::new();
        match self {
            OptionError::Binding { error } => {
                text.push_str(error.message().as_str());
            },
            OptionError::NoSuchSymbol { index, symbols } => {
                text.push_str("symbol s");
                push_decimal(&mut text, *index as u64);
                text.push_str(" does not exist; the program reads ");
                push_decimal(&mut text, *symbols as u64);
                text.push_str(" symbol(s)");
            },
            OptionError::Unbound { index, symbols } => {
                text.push_str("symbol s");
                push_decimal(&mut text, *index as u64);
                text.push_str(" has no binding; pass `--symbol s");
                push_decimal(&mut text, *index as u64);
                text.push_str("=<value>` (the program reads ");
                push_decimal(&mut text, *symbols as u64);
                text.push_str(" symbol(s))");
            },
            OptionError::TooDeep { depth, max_depth } => {
                text.push_str("--parallel-loop-depth ");
                push_decimal(&mut text, *depth as u64);
                text.push_str(" is deeper than the nest, whose loops are at depths 0..=");
                push_decimal(&mut text, *max_depth as u64);
            },
            OptionError::IdleThreads => {
                text.push_str("--threads has no effect without --parallel-loop-depth");
            },
        }
        assert(text@ =~= self.text());
        text
    }
}

/// The last binding of a symbol among the first ones of a list.
pub open spec fn last_value(bindings: Seq<(usize, i64)>, index: int) -> Option<i64>
    decreases bindings.len(),
{
    if bindings.len() == 0 {
        None
    } else if bindings.last().0 == index {
        Some(bindings.last().1)
    } else {
        last_value(bindings.drop_last(), index)
    }
}

/// Gives every symbol of the program its value: the last one that is bound to
/// it.
pub fn bind_symbols(count: usize, bindings: &Vec<(usize, i64)>) -> (symbols: Result<
    Vec<i64>,
    OptionError,
>)
    ensures
        match symbols {
            Ok(symbols) => {
                &&& symbols@.len() == count
                &&& forall|i: int| 0 <= i < bindings@.len() ==> (#[trigger] bindings@[i]).0 < count
                &&& forall|index: int|
                    0 <= index < count ==> last_value(bindings@, index) == Some(
                        #[trigger] symbols@[index],
                    )
            },
            Err(OptionError::NoSuchSymbol { index, symbols }) => {
                &&& symbols == count
                &&& exists|i: int|
                    0 <= i < bindings@.len() && (#[trigger] bindings@[i]).0 == index && index
                        >= count && forall|j: int| 0 <= j < i ==> (#[trigger] bindings@[j]).0
                        < count
            },
            Err(OptionError::Unbound { index, symbols }) => {
                &&& symbols == count
                &&& index < count
                &&& forall|i: int| 0 <= i < bindings@.len() ==> (#[trigger] bindings@[i]).0 < count
                &&& last_value(bindings@, index as int) is None
                &&& forall|other: int|
                    0 <= other < index ==> (#[trigger] last_value(bindings@, other)) is Some
            },
            Err(_) => false,
        },
{
    let mut symbols: Vec<i64> = Vec::new();
    let mut bound: Vec<bool> = Vec::new();
    let mut fill: usize = 0;
    while fill < count
        invariant
            fill <= count,
            symbols@.len() == fill,
            bound@.len() == fill,
            forall|i: int| 0 <= i < fill ==> !#[trigger] bound@[i],
        decreases count - fill,
    {
        symbols.push(0);
        bound.push(false);
        fill += 1;
    }
    let mut at: usize = 0;
    assert(bindings@.take(0) =~= Seq::empty());
    while at < bindings.len()
        invariant
            at <= bindings@.len(),
            symbols@.len() == count,
            bound@.len() == count,
            forall|i: int| 0 <= i < at ==> (#[trigger] bindings@[i]).0 < count,
            forall|index: int|
                0 <= index < count ==> last_value(bindings@.take(at as int), index)
                    == if #[trigger] bound@[index] {
                    Some(symbols@[index])
                } else {
                    None
                },
        decreases bindings@.len() - at,
    {
        let (index, value): (usize, i64) = bindings[at];
        if index >= count {
            assert(bindings@[at as int].0 == index);
            return Err(OptionError::NoSuchSymbol { index, symbols: count });
        }
        assert(bindings@.take(at + 1).drop_last() =~= bindings@.take(at as int));
        assert(bindings@.take(at + 1).last() == (index, value));
        let ghost earlier = bound@;
        symbols[index] = value;
        bound[index] = true;
        assert(forall|i: int| 0 <= i < count && i != index ==> #[trigger] bound@[i] == earlier[i]);
        at += 1;
    }
    assert(bindings@.take(at as int) =~= bindings@);
    let mut check: usize = 0;
    while check < count
        invariant
            check <= count,
            symbols@.len() == count,
            bound@.len() == count,
            forall|i: int| 0 <= i < bindings@.len() ==> (#[trigger] bindings@[i]).0 < count,
            forall|index: int|
                0 <= index < count ==> last_value(bindings@, index) == if #[trigger] bound@[
                    index
                ] {
                    Some(symbols@[index])
                } else {
                    None
                },
            forall|i: int| 0 <= i < check ==> #[trigger] bound@[i],
        decreases count - check,
    {
        if !bound[check] {
            assert forall|other: int| 0 <= other < check implies (#[trigger] last_value(
                bindings@,
                other,
            )) is Some by {
                assert(bound@[other]);
            }
            return Err(OptionError::Unbound { index: check, symbols: count });
        }
        check += 1;
    }
    assert forall|index: int| 0 <= index < count implies last_value(bindings@, index) == Some(
        #[trigger] symbols@[index],
    ) by {
        assert(bound@[index]);
    }
    Ok(symbols)
}

/// The text binds one of `count` symbols.
pub open spec fn binds(text: Seq<char>, count: int) -> bool {
    exists|binding: (usize, i64)| #[trigger] reads_as(text, binding) && binding.0 < count
}

/// All texts bind one of `count` symbols.
pub open spec fn all_bind(texts: Seq<String>, count: int) -> bool {
    forall|i: int| 0 <= i < texts.len() ==> binds((#[trigger] texts[i])@, count)
}

/// Reads bindings of `count` symbols, up to the first that cannot be read or
/// that binds another symbol.
pub fn read_bindings(texts: &Vec<String>, count: usize) -> (bindings: Result<
    Vec<(usize, i64)>,
    OptionError,
>)
    ensures
        match bindings {
            Ok(bindings) => {
                &&& bindings@.len() == texts@.len()
                &&& forall|i: int|
                    0 <= i < texts@.len() ==> reads_as((#[trigger] texts@[i])@, bindings@[i])
                        && bindings@[i].0 < count
            },
            Err(OptionError::Binding { error }) => exists|i: int|
                0 <= i < texts@.len() && is_refused((#[trigger] texts@[i])@, error) && all_bind(
                    texts@.take(i),
                    count as int,
                ),
            Err(OptionError::NoSuchSymbol { index, symbols }) => {
                &&& symbols == count
                &&& index >= count
                &&& exists|i: int, binding: (usize, i64)|
                    0 <= i < texts@.len() && #[trigger] reads_as(texts@[i]@, binding) && binding.0
                        == index && all_bind(texts@.take(i), count as int)
            },
            Err(_) => false,
        },
{
    let mut bindings: Vec<(usize, i64)> = Vec::new();
    let mut at: usize = 0;
    while at < texts.len()
        invariant
            at <= texts@.len(),
            bindings@.len() == at,
            forall|i: int|
                0 <= i < at ==> reads_as((#[trigger] texts@[i])@, bindings@[i]) && bindings@[i].0
                    < count,
        decreases texts@.len() - at,
    {
        proof {
            assert forall|j: int| 0 <= j < at implies binds(
                (#[trigger] texts@.take(at as int)[j])@,
                count as int,
            ) by {
                assert(reads_as(texts@[j]@, bindings@[j]));
            }
            assert(all_bind(texts@.take(at as int), count as int));
        }
        match parse_symbol_binding(texts[at].as_str()) {
            Ok((index, value)) => {
                if index >= count {
                    assert(reads_as(texts@[at as int]@, (index, value)));
                    return Err(OptionError::NoSuchSymbol { index, symbols: count });
                }
                bindings.push((index, value));
            },
            Err(error) => {
                assert(is_refused(texts@[at as int]@, error));
                return Err(OptionError::Binding { error });
            },
        }
        at += 1;
    }
    Ok(bindings)
}

/// Checks that the parallel loop exists, and that threads come with one.
pub fn check_parallel(depth: Option<usize>, threads: u32, facts: &TreeFacts) -> (checked: Result<
    (),
    OptionError,
>)
    ensures
        match depth {
            Some(depth) => if depth > facts.max_depth {
                checked matches Err(OptionError::TooDeep { depth: d, max_depth }) && d == depth
                    && max_depth == facts.max_depth
            } else {
                checked is Ok
            },
            None => if threads > 1 {
                checked matches Err(OptionError::IdleThreads)
            } else {
                checked is Ok
            },
        },
{
    match depth {
        Some(depth) => {
            if depth > facts.max_depth {
                return Err(OptionError::TooDeep { depth, max_depth: facts.max_depth });
            }
        },
        None => {
            if threads > 1 {
                return Err(OptionError::IdleThreads);
            }
        },
    }
    Ok(())
}

/// Whether a file extension is one of C sources.
pub fn is_c_extension(extension: &str) -> (yes: bool)
    ensures
        yes == (extension@ == "c"@ || extension@ == "cc"@ || extension@ == "cpp"@ || extension@
            == "cxx"@),
{
    let word: Vec<char> = chars_of(extension);
    is_word(&word, "c") || is_word(&word, "cc") || is_word(&word, "cpp") || is_word(&word, "cxx")
}

/// The law that a word names.
pub open spec fn dilation_named(word: Seq<char>) -> Option<DilationLaw> {
    if word == "hybrid"@ {
        Some(DilationLaw::Hybrid)
    } else if word == "nbd"@ {
        Some(DilationLaw::NegativeBinomial)
    } else if word == "gamma"@ {
        Some(DilationLaw::Gamma)
    } else if word == "beta"@ {
        Some(DilationLaw::Beta)
    } else {
        None
    }
}

/// Reads the law of dilated windows.
pub fn parse_dilation(text: &str) -> (law: Option<DilationLaw>)
    ensures
        law == dilation_named(text@),
{
    let word: Vec<char> = chars_of(text);
    if is_word(&word, "hybrid") {
        Some(DilationLaw::Hybrid)
    } else if is_word(&word, "nbd") {
        Some(DilationLaw::NegativeBinomial)
    } else if is_word(&word, "gamma") {
        Some(DilationLaw::Gamma)
    } else if is_word(&word, "beta") {
        Some(DilationLaw::Beta)
    } else {
        None
    }
}

} // verus!
