//! Word-cloud layout engine: a summed-area occupancy table, a uniform
//! random slot search over it, and the frequency tokenizer that ranks words.
pub mod canvas;
pub mod layout;
pub mod sat;
pub mod tokenizer;

pub use tokenizer::{Tokenizer, WeightedWord, DEFAULT_EXCLUDE_WORDS_TEXT};
