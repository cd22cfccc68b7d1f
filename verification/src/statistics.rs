//! Statistics relating per-piece metrics across a corpus.

pub mod correlation;

pub use correlation::{calculate_pearson_correlation, Correlation};
