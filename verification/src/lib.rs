//! Calibration statistics for a forecasting venue.
//!
//! The library reconstructs a chronologically ordered stream of wager
//! events from page files, resolves each underlying question to a
//! ground-truth verdict, and aggregates stated probabilities into two
//! bucket histograms: one over the full history and one snapshot of the
//! last known probability per question as of a configurable cutoff.
//!
//! Probabilities are fixed-point values in basis points: an integer
//! `p` with `0 <= p <= PROB_ONE` stands for the probability
//! `p / PROB_ONE`.

use vstd::prelude::*;

pub mod accumulator;
pub mod bucket;
pub mod pipeline;
pub mod registry;
pub mod report;
pub mod resolver;
pub mod stream;
pub mod strutil;
pub mod types;

verus! {

/// Fixed-point scale: this many basis points stand for probability 1.0.
pub const PROB_ONE: u32 = 10000;

} // verus!
