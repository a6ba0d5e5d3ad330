# autolala

Locality analysis of affine loop nests, with its logic verified by Verus.

A loop nest is a tree of loops, blocks, conditions and array accesses. The crate
learns in three ways how the nest reuses its data:

- **Sampling** walks the nest, sequentially or on several simulated threads whose
  accesses a seeded scheduler interleaves, and measures reuse intervals, reuse
  distances, and the joint law of private and concurrent intervals.
- **Analysis** turns the nest into plans for a polyhedral library: the set of
  timestamps, the relation to data, the reuse relations, and the thread that owns
  each iteration of a parallel loop.
- **Simulation** writes the nest as a C program that a cache simulator runs, if
  asked for with its memory blocks permuted.

## Layout

- `src/` is the library. Every function has a contract, and the laws of the
  library are public proof functions named `law_*`. The documentation of the crate
  root says which module proves what.
- `tests/` runs the library on concrete values.
- `app/` is the command line around it: MLIR and isl, files, processes, the
  database, and everything in floating point.

## What is trusted

The contracts of the functions in `src/fxmap.rs`, `src/sort.rs`, `src/rng.rs`, of
`unescape` in `src/program.rs`, and of two string functions in `src/text.rs` are
believed: they state what one call into `rustc_hash`'s maps, the standard
library, `rand`, or `unescaper` does.
