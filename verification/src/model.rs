//! Core data model: time signatures, spelled pitches, physical piano
//! keys, and the per-measure record the extraction pass produces.

pub mod measure_data;
pub mod piano_key;
pub mod pitch;
pub mod pitch_set;
pub mod time_signature;

pub use measure_data::MeasureData;
pub use piano_key::{ChromaticNoteName, PianoKey};
pub use pitch::{Accidental, NoteName, Pitch};
pub use pitch_set::{KeySet, PitchSet};
pub use time_signature::TimeSignature;
