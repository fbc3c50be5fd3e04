//! Outputs that know how far they have been written, and an in-memory
//! output that marks named ranges of what is written to it.

use vstd::prelude::*;

pub mod buffer;
pub mod tagged;

pub use crate::io::buffer::{output_buffer, OutputBuffer, OutputBufferWalkEntry};
pub use crate::io::tagged::{RangeModel, TaggedRange};

verus! {

/// An output whose current position can be asked for.
pub trait Offset: Sized {
    /// The current position, as a number of bytes.
    spec fn position(&self) -> nat;

    /// The current position.
    fn offset(&mut self) -> (offset: usize)
        ensures
            offset == old(self).position(),
            *final(self) == *old(self),
    ;

    /// The total length of the output.
    fn len(&mut self) -> (len: usize)
        ensures
            len == old(self).position(),
            *final(self) == *old(self),
    ;
}

impl Offset for Vec<u8> {
    /// Bytes are appended at the end, so the position is the length.
    open spec fn position(&self) -> nat {
        self@.len()
    }

    fn offset(&mut self) -> (offset: usize) {
        self.len()
    }

    fn len(&mut self) -> (len: usize) {
        Vec::len(self)
    }
}

} // verus!
