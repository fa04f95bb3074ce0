//! Splits text written without spaces into its most probable words, by a
//! dynamic program over word costs derived from a ranked corpus.

pub mod cost_model;
pub mod segmenter;
pub mod backtracker;
pub mod language_model;
pub mod laws;

pub use cost_model::{CostModel, INFINITE_COST, UNKNOWN_COST};
pub use language_model::{segment, split_wrapper, LanguageModel, SplitError};
