//! A join-calculus coordination engine.
//!
//! Programs declare join patterns: rules naming an ordered list of channels
//! together with a handler that consumes one message from each channel.  The
//! engine decides, on every message arrival, whether a pattern has become
//! satisfiable, atomically removes the matched messages and reports which
//! pattern fired with which arguments.  The matching and consumption logic is
//! verified; threads, locks and type erasure are layered above it by callers.

pub mod engine;
pub mod errors;
pub mod laws;
pub mod model;
