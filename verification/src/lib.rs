//! Musicological metrics over parsed musical scores.
//!
//! The crate models a score as a hierarchy of parts, measures and measure
//! elements, extracts one record per measure (note count, tempo, time
//! signature, pitch set), and reduces those records to note-density and
//! pitch-diversity metrics. A Pearson correlation statistic relates
//! per-piece metrics across a corpus. All arithmetic is exact, over
//! rational numbers.

pub mod analysis;
pub mod extraction;
pub mod model;
pub mod rational;
pub mod score;
pub mod statistics;

pub use analysis::{calculate_density_metrics, calculate_diversity_metrics, DensityMetrics,
    DiversityMetrics};
pub use extraction::{extract_measure_data, ExtractionError};
pub use model::{Accidental, ChromaticNoteName, KeySet, MeasureData, NoteName, PianoKey, Pitch,
    PitchSet, TimeSignature};
pub use rational::Rational;
pub use statistics::{calculate_pearson_correlation, Correlation};
