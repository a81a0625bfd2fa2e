//! Turning the body of a response into a document tree, and the text of its
//! style elements into tokens.
pub mod css;
pub mod dom;
pub mod html;
