//! Extractive summaries by word frequency.
//!
//! A text is cut into units (paragraphs, sentences, or the stretches between
//! occurrences of a chosen string). Every unit is scored by adding up, over
//! its words, how often each word occurs in the whole text, with the words of
//! an exclusion list counting for nothing. The best units are then put back
//! in the order in which they stood and joined by blank lines.

pub mod frequency;
pub mod laws;
pub mod rank;
pub mod split;
pub mod summary;

pub use crate::summary::{analyze, run, summarize, Digest, Paragraph, Summary};
