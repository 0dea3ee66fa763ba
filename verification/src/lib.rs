use vstd::prelude::*;

pub mod dnn;
pub mod phone;
pub mod word;
pub mod text;
pub mod transition;
pub mod viterbi;

verus! {

// All probabilities are carried in the log domain as fixed-point integers:
// a probability p in (0, 1] is stored as round(ln(p) * scale) for a fixed
// scale chosen by the caller, and a probability of exactly zero is stored as
// `None`.  Products of probabilities become sums of scores, so the compiled
// network and the search work on exact integer arithmetic.

/// Penalty subtracted from every word-boundary edge, in score units.
pub const WORD_PENALTY: i64 = 10_000_000;

/// Bound on the magnitude of a single log-domain probability score.
pub const SCORE_LIMIT: i64 = 549_755_813_888;

/// Bound on the number of frames one utterance may hold, so that cumulative
/// path scores cannot overflow `i64`.
pub const MAX_FRAMES: usize = 1_048_576;

/// A log-domain probability score: non-positive and bounded.
pub open spec fn score_ok(s: i64) -> bool {
    -SCORE_LIMIT <= s && s <= 0
}

/// An optional score; `None` stands for probability zero.
pub open spec fn opt_score_ok(o: Option<i64>) -> bool {
    o matches Some(s) ==> score_ok(s)
}

/// An observation (emission) score: bounded, but may be positive, since
/// log-densities are not capped at zero.
pub open spec fn obs_score_ok(s: i64) -> bool {
    -SCORE_LIMIT <= s && s <= SCORE_LIMIT
}

/// Errors raised while assembling the model from its parsed artifacts.
#[derive(Clone, Copy, PartialEq, Eq, Structural, Debug)]
pub enum BuildError {
    /// A model artifact had the wrong shape or an out-of-range score.
    ParseError,
    /// A word referred to a phone name that the phone table does not hold.
    LookupMissing,
}

/// Errors raised while decoding one utterance.
#[derive(Clone, Copy, PartialEq, Eq, Structural, Debug)]
pub enum DecodeError {
    /// The utterance holds no frames.
    EmptyInput,
    /// No cell of the last frame is reachable.
    Unreachable,
}

} // verus!
