//! Core data model: questions, wager events, raw resolution records,
//! verdicts, run configuration and the error taxonomy.

use vstd::prelude::*;

verus! {

/// A question's raw resolution record. Upstream data encodes a
/// resolution either as a string or as a number; anything else is an
/// unexpected shape.
pub enum ResolutionValue {
    /// A string resolution: an outcome keyword or an opaque answer id.
    Text(String),
    /// A numeric resolution that is an integer.
    Numeric(i64),
    /// A numeric resolution that is not an integer.
    NonIntegerNumeric,
    /// Any other shape of resolution record.
    OtherShape,
}

/// A forecasting item with an eventual ground truth.
pub struct Question {
    /// Unique key.
    pub id: String,
    /// Creation timestamp, in milliseconds.
    pub created_time: i64,
    /// Close timestamp, in milliseconds; absent in some sources.
    pub close_time: Option<i64>,
    /// Mechanism tag; must indicate the continuous-pari-mutuel
    /// mechanism for the question to be eligible.
    pub mechanism: Option<String>,
    /// Fallback type tag checked when present.
    pub type_tag: Option<String>,
    /// Raw resolution record; absent while the question is open.
    pub resolution: Option<ResolutionValue>,
    /// Resolution timestamp, in milliseconds.
    pub resolution_time: Option<i64>,
}

/// A single stated-probability observation tied to a question.
///
/// Probabilities are in basis points: `0 <= p <= PROB_ONE`.
pub struct WagerEvent {
    /// Unique key of the event itself.
    pub id: String,
    /// Owning question id.
    pub question_id: String,
    /// Sub-outcome identifier for multiple-choice questions.
    pub answer: Option<String>,
    /// Stated probability before the event, in basis points.
    pub prob_before: u32,
    /// Stated probability after the event, in basis points.
    pub prob_after: u32,
    /// Creation timestamp, in milliseconds.
    pub created_time: i64,
    /// Redemption flag; carried through but not filtered on.
    pub is_redemption: bool,
    /// Ante flag; carried through but not filtered on.
    pub is_ante: bool,
    /// Cancellation flag; carried through but not filtered on.
    pub is_cancelled: bool,
}

impl WagerEvent {
    /// Both stated probabilities are in range.
    pub open spec fn wf(self) -> bool {
        self.prob_before <= crate::PROB_ONE && self.prob_after <= crate::PROB_ONE
    }
}

/// The resolved ground-truth classification of a question.
#[derive(PartialEq, Eq, Structural, Clone, Copy, Debug)]
pub enum Verdict {
    /// The outcome asked about came true.
    Yes,
    /// The outcome asked about did not come true.
    No,
    /// No resolution recorded yet.
    Unresolved,
    /// Resolved without a binary ground truth (cancelled, ambiguous
    /// multi-resolution, or market-based partial resolution).
    Voided,
    /// A resolution shape the decision table does not cover: a signal
    /// of schema drift that must surface as a fatal error.
    Invalid,
}

/// Fatal conditions of a run.
#[derive(PartialEq, Eq, Structural, Clone, Copy, Debug)]
pub enum RunError {
    /// A resolution record fell outside the decision table.
    ResolutionInvalid,
    /// A retained cutoff candidate no longer resolves to a definite
    /// outcome; the accumulator's own invariant rules this out.
    InternalInvariant,
}

/// Run-scoped configuration: the cutoff instant and the coarse
/// granularity are deliberately not hardcoded.
pub struct Config {
    /// Cutoff instant for the snapshot histogram, in milliseconds.
    pub cutoff: i64,
    /// Coarse bucket granularity in percent; must divide 100.
    pub granularity: u64,
    /// Whether the cutoff snapshot additionally requires the
    /// question's resolution timestamp to lie at or after the cutoff.
    pub require_resolution_after_cutoff: bool,
}

impl Config {
    /// The granularity is a positive divisor of 100.
    pub open spec fn wf(self) -> bool {
        1 <= self.granularity <= 100 && 100int % (self.granularity as int) == 0
    }
}

} // verus!
