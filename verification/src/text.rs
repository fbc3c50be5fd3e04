//! Rendering text onto images.

use vstd::prelude::*;

verus! {

/// A bitmap font that can be used to render text onto a
/// [`Png`](crate::png::data::Png) image.
#[derive(Debug, Clone, Copy, PartialEq, Eq)]
pub struct Font;

} // verus!
