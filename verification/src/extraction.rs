//! Measure extraction: the single pass that walks a score document and
//! emits one record per measure.

pub mod musicxml;
pub mod text;

pub use musicxml::{extract_measure_data, ExtractionError};
