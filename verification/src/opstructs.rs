//! Operations represented as values.

use vstd::prelude::*;

verus! {

/// An operation, gathered with its arguments, that can be performed once.
pub trait Callable {
    /// What performing the operation gives.
    type Output;

    /// Performs the operation.
    fn call(self) -> Self::Output;
}

} // verus!
