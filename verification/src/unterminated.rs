//! Byte strings serialized without any length prefix or terminator.

use vstd::prelude::*;

verus! {

/// Bytes that will be serialized without any form of terminator or
/// delimiter: as many bytes will be read back as the deserializer allows.
/// Meant for formats like Postcard.
#[derive(Debug, Clone, PartialEq, Eq, PartialOrd, Ord, Hash)]
pub struct UnterminatedBytes(pub Vec<u8>);

impl UnterminatedBytes {
    /// The bytes.
    pub fn as_slice(&self) -> (bytes: &[u8])
        ensures
            bytes@ == self.0@,
    {
        self.0.as_slice()
    }
}

impl From<Vec<u8>> for UnterminatedBytes {
    fn from(bytes: Vec<u8>) -> (wrapped: Self) {
        UnterminatedBytes(bytes)
    }
}

impl vstd::std_specs::convert::FromSpecImpl<Vec<u8>> for UnterminatedBytes {
    open spec fn obeys_from_spec() -> bool {
        true
    }

    open spec fn from_spec(bytes: Vec<u8>) -> UnterminatedBytes {
        UnterminatedBytes(bytes)
    }
}

impl From<UnterminatedBytes> for Vec<u8> {
    fn from(wrapped: UnterminatedBytes) -> (bytes: Self) {
        wrapped.0
    }
}

impl vstd::std_specs::convert::FromSpecImpl<UnterminatedBytes> for Vec<u8> {
    open spec fn obeys_from_spec() -> bool {
        true
    }

    open spec fn from_spec(wrapped: UnterminatedBytes) -> Vec<u8> {
        wrapped.0
    }
}

} // verus!
