//! The errors of the library.
use vstd::prelude::*;

verus! {

/// What went wrong, with a message.
#[derive(Debug)]
pub enum Error {
    Network(String),
    InvalidUI(String),
    UnexpectedInput(String),
    Other(String),
}

} // verus!
