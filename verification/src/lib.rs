//! Core of an incremental view-maintenance engine.
//!
//! Streams of weighted updates `(key, val, time, diff)` at partially ordered
//! logical times are collected into immutable sorted batches, merged and
//! progressively compacted inside a fueled spine, and consumed through
//! shared arrangements by the delta-join operators `propose` and `validate`.
//! The `Lattice` trait carries the order theory of logical times; `AltNeu`
//! refines a time with a before/after role so that the delta streams of a
//! multi-way join compose without double counting; `Variable` closes the
//! loop for iterative computations.
//!
//! Every structure is specified against the multiset semantics of a trace:
//! the weight of a pair visible at a query time is the sum of the diffs of
//! all updates at or below it, and compaction by a frontier preserves every
//! weight visible in the frontier's upward closure.

pub mod altneu;
pub mod arrange;
pub mod batch;
pub mod cogroup;
pub mod cursor;
pub mod lattice;
pub mod merge;
pub mod operators;
pub mod product;
pub mod spine;
pub mod text;
pub mod update;
pub mod variable;
