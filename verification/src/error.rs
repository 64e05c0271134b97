//! The ways in which an operation can refuse its input.
use vstd::prelude::*;

verus! {

/// Why an operation was refused. A refused operation changes nothing.
#[derive(Debug, PartialEq, Eq)]
pub enum Error {
    /// The index lies outside the sequence. Carries the index.
    OutOfBounds(usize),
    /// The key is not bound in the table. Carries the key.
    InvalidKey(std::string::String),
}

} // verus!
