//! Locality analysis of affine loop nests.
//!
//! A loop nest is a [`tree::Tree`]. There are three ways to learn how it reuses
//! its data:
//!
//! * **sampling**: [`run`] walks the nest, on one thread or on several whose
//!   accesses a seeded scheduler interleaves, and measures every reuse;
//! * **analysis**: [`polyhedral`] turns the nest into the sets and relations
//!   that a polyhedral library counts, and [`parallel`] models one of its loops
//!   as parallel;
//! * **simulation**: [`emit`] writes the nest as a C program for a cache
//!   simulator.
//!
//! Sampling is exact and reproducible, which is what the other two are held
//! against. Some modules hold nothing but the laws that connect them:
//!
//! * [`split`], [`ownership`] and [`scope`]: the threads of a parallel run make
//!   the accesses of the sequential run, each thread its own in program order;
//! * [`merging`] and [`progress`]: whatever choices a scheduler makes, merging
//!   keeps every stream, lockstep gives every thread its turn, and a merge that
//!   does not drain has a reason;
//! * [`timeline`]: which reuse distances an index of bounded size measures;
//! * [`order`], [`meaning`] and [`thread_stamps`]: the timestamps of the
//!   polyhedral model, in lexicographic order, are the accesses of a walk;
//! * [`agreement`] and [`parallel_agreement`]: what the model counts is what the
//!   sampler measures;
//! * [`lru`]: the measured distances give the misses of an LRU cache;
//! * [`bound_symbols`]: the symbols that a walk needs are those that are counted
//!   beforehand;
//! * [`bursts`]: a granted run of accesses is made in full;
//! * [`c_reading`] and [`c_run`]: a written program, read from its text, makes the
//!   accesses of the walk in the same order;
//! * [`quasi_value`]: an expression has the value of its quasi-polynomial;
//! * [`labels`] and [`reading`]: what is read from the simulator's output, and
//!   what numerals, pieces and white space are;
//! * [`round_trips`], [`selection`], [`extraction`] and [`attributes`]: what the
//!   options and the printed module say is what is taken from them;
//! * [`headers`], [`membership`] and [`origins`]: a program declares every array,
//!   a point belongs to the pieces of its set, and every access and trip count
//!   comes from the tree.

pub mod address;
pub mod affine_eval;
pub mod agreement;
pub mod analysis;
pub mod arrays;
pub mod attributes;
pub mod bignum;
pub mod binner;
pub mod block_hash;
pub mod bound_symbols;
pub mod bursts;
pub mod c_reading;
pub mod c_run;
pub mod cachegrind;
pub mod declarations;
pub mod digest;
pub mod emit;
pub mod error;
pub mod exact_sum;
pub mod expansion;
pub mod expression;
pub mod extraction;
pub mod frontend;
pub mod fxmap;
pub mod headers;
pub mod history;
pub mod interleave;
pub mod interp;
pub mod labels;
pub mod lru;
pub mod meaning;
pub mod measure;
pub mod membership;
pub mod merging;
pub mod options;
pub mod order;
pub mod origins;
pub mod ownership;
pub mod parallel;
pub mod parallel_agreement;
pub mod polygeist;
pub mod polyhedral;
pub mod polytope;
pub mod program;
pub mod progress;
pub mod quasi_affine;
pub mod quasi_poly;
pub mod quasi_value;
pub mod rational;
pub mod reading;
pub mod recency;
pub mod references;
pub mod report;
pub mod reuse_distance;
pub mod reuse_relation;
pub mod rng;
pub mod round_trips;
pub mod rounding;
pub mod run;
pub mod schedule;
pub mod scope;
pub mod selection;
pub mod sort;
pub mod space;
pub mod split;
pub mod support;
pub mod symbolic;
pub mod text;
pub mod thread_stamps;
pub mod timeline;
pub mod totals;
pub mod tree;
pub mod walk;
