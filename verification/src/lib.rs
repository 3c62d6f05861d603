//! Morphological-analysis core: token aggregation with surface-form
//! frequency counting, keyword-in-context concordance search over per-line
//! token streams, and CSV export of the frequency table.

pub mod adapter;
pub mod token;
pub mod freq;
pub mod lines;
pub mod concord;
pub mod numfmt;
pub mod csv;
pub mod engine;
