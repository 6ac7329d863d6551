//! A verified engine for analyzing textual system-call trace logs.
//!
//! The library ingests trace lines (as produced by a syscall tracer that
//! writes one output file per traced process), reconstructs which files each
//! process touched, and aggregates the results into per-directory size and
//! age statistics.

pub mod bytes;
pub mod parser;
pub mod state;
pub mod classify;
pub mod agg;
pub mod follow;
pub mod engine;
pub mod fscheck;
pub mod laws;
