//! Classification of a batch's results for reporting.
use crate::stats::{sum, Similarities};
use vstd::prelude::*;

verus! {

/// Scores at or above this value are flagged as highly suspicious.
pub const HIGH_SUSPICION: u8 = 95;

/// Whether a score is flagged as highly suspicious.
pub fn is_high_suspicion(score: u8) -> (r: bool)
    ensures
        r == (score >= HIGH_SUSPICION),
{
    score >= HIGH_SUSPICION
}

/// What a batch reports.
#[derive(Clone, Copy, Debug, PartialEq, Eq, Structural)]
pub enum BatchOutcome {
    /// No score, or every score zero; `suggest_filter` says whether to hint
    /// at filtering by file extension.
    NothingSimilar { suggest_filter: bool },
    /// The statistics and the retained pairs are shown.
    Report,
}

/// Decides what a batch reports: nothing similar when there is no score or
/// the mean score is zero (every score zero), with the filtering hint only
/// when no extension filter was given; otherwise a report.
pub fn classify_batch(stats: &Similarities, filtered: bool) -> (r: BatchOutcome)
    ensures
        (r is NothingSimilar) == (stats@.len() == 0 || sum(stats@) == 0),
        r matches BatchOutcome::NothingSimilar { suggest_filter } ==> suggest_filter == !filtered,
{
    if stats.empty() || stats.sum() == 0 {
        BatchOutcome::NothingSimilar { suggest_filter: !filtered }
    } else {
        BatchOutcome::Report
    }
}

} // verus!
