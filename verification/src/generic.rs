//! Error types shared by the fallible operations of this crate.

use vstd::prelude::*;

verus! {

/// Why an operation could not complete.
#[derive(Debug, Clone, Copy, PartialEq, Eq)]
pub enum WriteError {
    /// A dimension or length does not fit in the field that the file format
    /// gives it.
    Overflow,
    /// The operation is not available for this input.
    Unsupported,
}

/// Why input could not be read.
#[derive(Debug, Clone, Copy, PartialEq, Eq)]
pub enum ReadError {
    /// The input is not in the format read, or is damaged.
    Malformed,
}

} // verus!
