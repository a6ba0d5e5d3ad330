//! Command line options.

use autolala::frontend::{find_loop, LoopOperation, TreeFacts};
use autolala::options::{
    bind_symbols, check_parallel, is_c_extension, parse_dilation, parse_scheduler, read_bindings,
    SchedulerText,
};
use autolala::parallel::DilationLaw;

/// A rate or a run length, as the number it denotes.
fn number(text: &str) -> Option<f64> {
    text.trim().parse::<f64>().ok()
}

/// The scheduler of an option, with its numbers read.
fn scheduler(text: &str) -> Option<(&'static str, Vec<f64>)> {
    match parse_scheduler(text).ok()? {
        SchedulerText::Uniform => Some(("uniform", vec![])),
        SchedulerText::RoundRobin => Some(("round_robin", vec![])),
        SchedulerText::Burst { mean_run } => {
            let mean_run = number(&mean_run)?;
            if mean_run < 1.0 {
                return None;
            }
            Some(("burst", vec![mean_run]))
        }
        SchedulerText::Skewed { rates } => {
            let rates: Vec<f64> = rates.iter().map(|rate| number(rate)).collect::<Option<_>>()?;
            if rates.iter().any(|rate| *rate < 0.0) || rates.iter().sum::<f64>() <= 0.0 {
                return None;
            }
            Some(("skewed", rates))
        }
    }
}

#[test]
fn scheduler_spellings_parse() {
    assert_eq!(scheduler("uniform").expect("parses"), ("uniform", vec![]));
    assert_eq!(scheduler("rr").expect("parses"), ("round_robin", vec![]));
    assert_eq!(scheduler("burst:8").expect("parses"), ("burst", vec![8.0]));
    assert_eq!(scheduler("skewed:1,2.5").expect("parses"), ("skewed", vec![1.0, 2.5]));
}

#[test]
fn bad_schedulers_are_rejected() {
    assert!(scheduler("nope").is_none());
    assert!(scheduler("burst").is_none());
    assert!(scheduler("burst:0.5").is_none());
    assert!(scheduler("skewed:0,0").is_none());
    assert!(scheduler("skewed:-1,2").is_none());
}

#[test]
fn other_scheduler_spellings() {
    for text in ["round-robin", "round_robin", "rr:ignored"] {
        assert!(matches!(parse_scheduler(text), Ok(SchedulerText::RoundRobin)), "{text}");
    }
    match parse_scheduler("skewed-speed:1,,x").expect("parses") {
        SchedulerText::Skewed { rates } => assert_eq!(rates, vec!["1", "", "x"]),
        other => panic!("{other:?}"),
    }
}

#[test]
fn scheduler_messages() {
    let message = |text: &str| parse_scheduler(text).expect_err("bad").message();
    assert_eq!(message("burst"), "`burst` needs a mean run length, as `burst:8`");
    assert_eq!(message("skewed"), "`skewed` needs per-thread rates, as `skewed:1,2,1,1`");
    assert_eq!(
        message("nope:1"),
        "unknown scheduler `nope`; expected uniform, round-robin, burst:<n>, or skewed:<rates>"
    );
}

#[test]
fn bindings_fill_the_symbols() {
    let texts = vec!["s1=7".to_string(), "s0=-3".to_string(), "s1=8".to_string()];
    let bindings = read_bindings(&texts, 2).expect("well formed");
    assert_eq!(bindings, vec![(1, 7), (0, -3), (1, 8)]);
    assert_eq!(bind_symbols(2, &bindings).expect("complete"), vec![-3, 8]);
}

#[test]
fn missing_and_unknown_symbols_are_named() {
    let message = bind_symbols(2, &vec![(0, 1)]).expect_err("s1").message();
    assert_eq!(
        message,
        "symbol s1 has no binding; pass `--symbol s1=<value>` (the program reads 2 symbol(s))"
    );
    let message = bind_symbols(2, &vec![(0, 1), (2, 1)]).expect_err("s2").message();
    assert_eq!(message, "symbol s2 does not exist; the program reads 2 symbol(s)");
    let texts = vec!["s0=1".to_string(), "s2=1".to_string(), "s0".to_string()];
    let message = read_bindings(&texts, 2).expect_err("s2").message();
    assert!(message.starts_with("symbol s2 does not exist"), "{message}");
    let message = read_bindings(&vec!["s0".to_string()], 2).expect_err("form").message();
    assert_eq!(message, "symbol binding `s0` is not of the form `s<index>=<value>`");
    assert_eq!(bind_symbols(0, &vec![]).expect("nothing to bind"), vec![]);
}

#[test]
fn parallel_options_have_to_fit_the_nest() {
    let facts = TreeFacts { symbols: 0, max_depth: 2 };
    assert!(check_parallel(Some(1), 4, &facts).is_ok());
    assert!(check_parallel(None, 1, &facts).is_ok());
    let message = check_parallel(Some(3), 4, &facts).expect_err("too deep").message();
    assert_eq!(
        message,
        "--parallel-loop-depth 3 is deeper than the nest, whose loops are at depths 0..=2"
    );
    let message = check_parallel(None, 4, &facts).expect_err("idle").message();
    assert_eq!(message, "--threads has no effect without --parallel-loop-depth");
}

#[test]
fn c_sources_are_known_by_their_extension() {
    for extension in ["c", "cc", "cpp", "cxx"] {
        assert!(is_c_extension(extension), "{extension}");
    }
    for extension in ["mlir", "C", "h", ""] {
        assert!(!is_c_extension(extension), "{extension}");
    }
}

#[test]
fn dilation_laws_have_names() {
    assert_eq!(parse_dilation("hybrid"), Some(DilationLaw::Hybrid));
    assert_eq!(parse_dilation("nbd"), Some(DilationLaw::NegativeBinomial));
    assert_eq!(parse_dilation("gamma"), Some(DilationLaw::Gamma));
    assert_eq!(parse_dilation("beta"), Some(DilationLaw::Beta));
    assert_eq!(parse_dilation("Gamma"), None);
}

#[test]
fn loops_are_found_by_their_mark() {
    let operation = |kind: &str, marked| LoopOperation { kind: kind.to_string(), marked };
    let operations = vec![
        operation("arith.constant", true),
        operation("affine.for", false),
        operation("affine.for", true),
    ];
    assert_eq!(find_loop(&operations, false), Some(1));
    assert_eq!(find_loop(&operations, true), Some(2));
    assert_eq!(find_loop(&vec![operation("scf.for", true)], false), None);
}
