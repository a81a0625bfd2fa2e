//! HTML: attributes, tokens, the tokenizer that produces them and the tree
//! constructor that consumes them.
pub mod attribute;
pub mod parser;
pub mod source;
pub mod token;
