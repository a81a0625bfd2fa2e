//! CSS: the tokenizer.
pub mod token;
