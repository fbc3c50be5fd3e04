//! Sizes of the fixed parts of the PNG file format.

use vstd::prelude::*;

verus! {

/// Bytes before a chunk's body: its length and its type.
pub const PNG_CHUNK_PREFIX_SIZE: usize = 8;

/// Bytes after a chunk's body: its checksum.
pub const PNG_CHUNK_SUFFIX_SIZE: usize = 4;

/// Bytes a chunk adds around its body.
pub const PNG_CHUNK_WRAPPER_SIZE: usize = 12;

/// Size in bytes of the PNG signature and IHDR chunk together.
pub const PNG_HEADER_SIZE: usize = 33;

} // verus!
