//! An incremental, dependency-tracked computation engine.
//!
//! A [`database::Database`] holds input cells and the memoized results of
//! queries. Each cached result remembers exactly what its query read, so
//! that after an input is written only those queries run again that read
//! something that changed; a query whose result comes out equal stops the
//! change from spreading further. Queries emit notes as a side channel,
//! which are gathered from the cached results.
//!
//! The engine:
//! - [`datum`]: values with a model, by which they are compared;
//! - [`interner`]: small stable identifiers for such values;
//! - [`program`]: query bodies as resumable functions of their answers;
//! - [`semantics`]: what a query means when nothing is cached;
//! - [`state`], [`upkeep`]: the state of a database and its consistency;
//! - [`database`], [`engine`], [`gather`]: the operations;
//! - [`laws`]: what holds of every consistent database.
//!
//! Two programs for it:
//! - [`sample`]: a few formulas over numbers;
//! - [`text`], [`module`], [`compiler`], [`queries`], [`findings`]: files
//!   that import and export names, and the check that imports resolve.
pub mod compiler;
pub mod database;
pub mod datum;
pub mod engine;
pub mod findings;
pub mod gather;
pub mod interner;
pub mod laws;
pub mod module;
pub mod program;
pub mod queries;
pub mod sample;
pub mod semantics;
pub mod state;
pub mod text;
pub mod upkeep;
