//! Detection of near-duplicate submissions: per-submission aggregation of
//! file contents, fuzzy fingerprints, deduplicated all-pairs comparison,
//! score statistics and threshold classification.
pub mod aggregate;
pub mod fingerprint;
pub mod pairs;
pub mod report;
pub mod stats;
