//! Metric reducers over the extracted per-measure records.

pub mod density_metrics;
pub mod diversity_metrics;
pub mod note_density;
pub mod note_diversity;

pub use density_metrics::DensityMetrics;
pub use diversity_metrics::DiversityMetrics;
pub use note_density::calculate_density_metrics;
pub use note_diversity::calculate_diversity_metrics;
