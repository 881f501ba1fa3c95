//! Descriptive statistics over a block of text: counts of words, characters,
//! sentences and paragraphs, the most frequent and the longest words, and an
//! estimated reading time.
pub mod count;
pub mod laws;
pub mod outside;
pub mod rank;
pub mod stats;
pub mod tally;

pub use stats::{analyze_text_fast, WordStats};
