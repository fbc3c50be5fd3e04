//! Sizes of parts of the ZIP file format.

use vstd::prelude::*;

verus! {

/// The size of an individual file header for a zip file, assuming all
/// variable-length fields are empty (zero-length file name, comment, and
/// extra data).
pub const ZIP_FILE_HEADER_EMPTY_SIZE: usize = 0;

} // verus!
