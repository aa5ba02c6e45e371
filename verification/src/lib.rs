//! A keyboard-layout analysis and optimization engine.
//!
//! Given a character-frequency corpus, a keyboard description that maps
//! per-position ngram strokes to per-metric contributions, and a set of
//! metrics to evaluate, the engine scores named layouts exactly, re-scores a
//! changing layout incrementally per swap, and drives four search strategies
//! over the space of layouts. All statistics are exact integers: a stat is a
//! sum of `amount * frequency` products and a score is the weighted-sum
//! numerator over an evaluator's positive weight sum.

mod sums;

pub mod analyzer;
pub mod cli;
pub mod corpus;
pub mod ddako;
pub mod evaluator;
pub mod fixedpoint;
pub mod layout;
pub mod metric;
pub mod rng;
pub mod runs;
pub mod search;

use vstd::prelude::*;

verus! {

/// Exclusive bound on a single ngram count (a `u32`).
pub const FREQ_BOUND: i128 = 4294967296;

/// Inclusive bound on the magnitude of one contribution amount.
pub const AMT_BOUND: i128 = 1000000;

/// Inclusive bound on the number of character codes of a corpus.
pub const MAX_CHARS: usize = 1024;

/// Inclusive bound on the number of keyboard positions.
pub const MAX_POSITIONS: usize = 4096;

/// Inclusive bound on the number of metrics of a `MetricData`.
pub const MAX_METRICS: usize = 1024;

/// Inclusive bound on the number of stroke records of a `MetricData`.
pub const MAX_STROKES: usize = 1048576;

/// Inclusive bound on the number of contributions of one stroke record.
pub const MAX_AMOUNTS: usize = 1024;

/// Bound on one `amount * frequency` term.
pub const AMT_TERM_BOUND: i128 = AMT_BOUND * FREQ_BOUND;

/// Bound on one stroke record's contribution to one metric.
pub const STROKE_BOUND: i128 = AMT_TERM_BOUND * 1024;

/// Bound on the magnitude of one per-metric stat.
pub const STAT_BOUND: i128 = STROKE_BOUND * 1048576;

/// Bound on the magnitude of an evaluator score numerator.
pub const SCORE_BOUND: i128 = STAT_BOUND * 32768 * 1024;

/// The error kinds the engine surfaces; all arise at setup, never inside a
/// search loop.
#[derive(Clone, Copy, PartialEq, Eq, Structural, Debug)]
pub enum EngineError {
    /// A metric selector matched no descriptor's name or short name.
    MetricNotFound,
    /// A layout does not fit the keyboard's position count or the corpus's
    /// character codes, or a pin exceeds the layout.
    IncompatibleLayout,
    /// An evaluator's raw weights sum to zero or less, leaving the
    /// normalization undefined.
    DegenerateWeights,
    /// An evaluator was built with no metrics at all.
    EmptyMetricSet,
    /// A key=value argument had no separator or an unparsable value.
    InvalidKeyVal,
}

} // verus!
