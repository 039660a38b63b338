//! Stem-frequency analysis: tokenize lower-cased text, bucket tokens by
//! character set, stem them, accumulate per-stem statistics across files,
//! and produce a filtered, ranked report.

pub mod assoc;
pub mod stemmer;
pub mod text;
pub mod dict;
pub mod unstemmed;
pub mod pipeline;
