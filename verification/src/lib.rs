//! The document ingestion pipeline of a small browser engine: a URL parser,
//! an HTTP response parser, an HTML tokenizer with its tree constructor, and
//! a CSS tokenizer.
pub mod error;
pub mod http;
pub mod renderer;
pub mod text;
pub mod url;
