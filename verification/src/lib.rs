//! Pairwise alignment of biological sequences by dynamic programming.
//!
//! Scores are exact integers, sequences are byte strings (one byte per
//! residue) and the gap symbol is `-`.

pub mod align;
pub mod alignment;
pub mod error;
pub mod grid;
pub mod needleman_wunsch;
pub mod scoring;
pub mod smith_waterman;
pub mod step;
pub mod text;
pub mod traceback;

pub use crate::align::PWAlign;
pub use crate::alignment::{Distance, PWAlignment};
pub use crate::error::AlignError;
pub use crate::grid::Variant;
pub use crate::needleman_wunsch::NeedlemanWunsch;
pub use crate::scoring::{Matrix, Scoring};
pub use crate::smith_waterman::SmithWaterman;
pub use crate::step::Step;
