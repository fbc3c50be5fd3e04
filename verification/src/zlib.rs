//! zlib streams.

use vstd::prelude::*;

use crate::checksums::{adler32, spec_adler32};
use crate::deflate::{write_deflate, DeflateMode};
use crate::encoding::{push_byte, push_bytes, push_u32_le, u32_le};
use crate::generic::{ReadError, WriteError};
use crate::png::writing::{stored_blocks, zlib_header};

verus! {

/// The zlib stream that [`write_zlib`] writes for `data`: the header, `data`
/// in stored deflate blocks, and the Adler-32 of those blocks
/// (little-endian).
pub open spec fn zlib_framed(data: Seq<u8>) -> Seq<u8> {
    zlib_header() + stored_blocks(data) + u32_le(spec_adler32(stored_blocks(data)))
}

/// How a zlib stream is produced.
#[derive(Debug, Clone, Copy, PartialEq, Eq, PartialOrd, Ord, Hash)]
pub enum ZlibMode {
    /// deflate with a 32KiB LZ77 window
    Deflate32K { mode: DeflateMode },
}

impl Default for ZlibMode {
    fn default() -> (mode: Self)
        ensures
            mode == (ZlibMode::Deflate32K { mode: DeflateMode::Stored }),
    {
        ZlibMode::Deflate32K { mode: DeflateMode::Stored }
    }
}

/// Writes `data` as a zlib stream (see [`zlib_framed`]), returning the number
/// of bytes written.
pub fn write_zlib(output: &mut Vec<u8>, data: &[u8]) -> (written: Result<usize, WriteError>)
    ensures
        final(output)@ == old(output)@ + zlib_framed(data@),
        written == Ok::<usize, WriteError>(zlib_framed(data@).len() as usize),
{
    let mut op = write_zlib { output, data, mode: ZlibMode::default() };
    let written = op.call();
    assert(op.output@ == old(output)@ + zlib_framed(data@));
    written
}

/// The arguments of a zlib write, gathered so that the write can be
/// configured before it is performed.
#[allow(non_camel_case_types)]
#[derive(Debug)]
pub struct write_zlib<'all> {
    pub output: &'all mut Vec<u8>,
    pub data: &'all [u8],
    pub mode: ZlibMode,
}

impl<'all> write_zlib<'all> {
    /// Performs the write.
    pub fn call(&mut self) -> (written: Result<usize, WriteError>)
        ensures
            final(self).output@ == old(self).output@ + zlib_framed(old(self).data@),
            *final(final(self).output) == *final(old(self).output),
            final(self).data == old(self).data,
            final(self).mode == old(self).mode,
            written == Ok::<usize, WriteError>(zlib_framed(old(self).data@).len() as usize),
    {
        let before = self.output.len();
        let cmf: u8 = 0x78;
        let flg: u8 = 0;
        let check: u8 = 31 - ((cmf as u16 * 256 + flg as u16) % 31) as u8;
        let flg: u8 = flg + check;
        push_byte(self.output, cmf);
        push_byte(self.output, flg);
        let mut buffer: Vec<u8> = Vec::new();
        let _ = write_deflate(&mut buffer, self.data);
        push_bytes(self.output, buffer.as_slice());
        push_u32_le(self.output, adler32(buffer.as_slice()));
        let after = self.output.len();
        Ok(after - before)
    }
}

/// The bytes that the zlib stream at the start of `data` holds, as
/// `flate2` decompresses them, or `None` where it finds the stream broken.
pub uninterp spec fn zlib_inflated(data: Seq<u8>) -> Option<Seq<u8>>;

/// Reads `data` to its end through `flate2::read::ZlibDecoder::new`;
/// `None` where reading fails. Named `zlib_inflated`.
#[verifier::external_body]
fn inflate_zlib(data: &[u8]) -> (inflated: Option<Vec<u8>>)
    ensures
        inflated.deep_view() == zlib_inflated(data@),
{
    let mut decoder = flate2::read::ZlibDecoder::new(data);
    let mut buffer = Vec::new();
    match std::io::Read::read_to_end(&mut decoder, &mut buffer) {
        Ok(_) => Some(buffer),
        Err(_) => None,
    }
}

/// Decompresses the zlib stream `input`.
pub fn read_zlib(input: &[u8]) -> (data: Result<Vec<u8>, ReadError>)
    ensures
        match data {
            Ok(d) => zlib_inflated(input@) == Some(d@),
            Err(e) => e == ReadError::Malformed && zlib_inflated(input@) is None,
        },
{
    match inflate_zlib(input) {
        Some(data) => Ok(data),
        None => Err(ReadError::Malformed),
    }
}

} // verus!
