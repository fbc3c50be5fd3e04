//! A proof of concept of a ZIP/PNG polyglot: an indexed-color PNG image whose
//! pixel rows are also the stored-deflate data of ZIP local file entries.

use vstd::prelude::*;

use crate::checksums::{crc32, spec_crc32};
use crate::encoding::{
    push_byte, push_bytes, push_repeated, push_u16_le, push_u32_le, u16_le, u32_le, zeros,
};
use crate::generic::WriteError;
use crate::png::data::{BitDepth, ColorType};
use crate::png::palettes::{CIVIDIS, TURBO};
use crate::io::buffer::output_buffer;
use crate::png::write_png::{write_non_png_chunk, write_png_body, write_png_header, write_png_palette};
use crate::png::writing::{
    chunk_type_idat, chunk_type_pkpk, chunk_type_plte, png_chunk, png_header, stored_block,
    stored_blocks, zlib_header,
};
use crate::zlib::zlib_framed;

verus! {

/// The width of the image area that holds each file's bytes; the image is
/// four pixels wider, for each row's deflate block header.
pub const POC_WIDTH: u32 = 48;

/// The height of the image.
pub const POC_HEIGHT: u32 = 96;

/// The five bytes before each row of file data: a PNG "no filter" byte that
/// is also a non-final stored deflate block header, then the block length
/// (`POC_WIDTH + 4`) and its complement, little-endian.
pub open spec fn poc_block_header() -> Seq<u8> {
    seq![0u8, 52u8, 0u8, 203u8, 255u8]
}

/// The bytes of `body`, with [`poc_block_header`] before every
/// [`POC_WIDTH`]-th byte, starting with the first.
pub open spec fn poc_rows(body: Seq<u8>) -> Seq<u8>
    decreases body.len(),
{
    if body.len() == 0 {
        Seq::empty()
    } else {
        poc_rows(body.drop_last()) + (if (body.len() - 1) % (POC_WIDTH as int) == 0 {
            poc_block_header()
        } else {
            Seq::empty()
        }) + seq![body.last()]
    }
}

/// The ZIP local file header of one file: signature, version, modification
/// time and date, checksum, compressed size (one block header per row),
/// size, and name.
pub open spec fn poc_local_header(name: Seq<u8>, body: Seq<u8>) -> Seq<u8> {
    seq![0x50u8, 0x4Bu8, 0x03u8, 0x04u8] + u16_le(10) + seq![0x50u8, 0x4Bu8, 0x50u8, 0x4Bu8]
        + u32_le(spec_crc32(body)) + u32_le((body.len() as int / (POC_WIDTH as int) * (
    POC_WIDTH as int + 5)) as u32) + u32_le(body.len() as u32) + u16_le(name.len() as u16)
        + zeros(2) + name
}

/// Four blank rows of visual padding: one black, three white.
pub open spec fn poc_trailer() -> Seq<u8> {
    let white_row = seq![0u8] + Seq::new(52, |_i: int| 0xFFu8);
    zeros(53) + white_row + white_row + white_row
}

/// The image data for one file: a filter byte, zero padding so that the
/// local file header fills the rest of the first row, the header, the body
/// in rows, and the trailer.
pub open spec fn poc_file_data(name: Seq<u8>, body: Seq<u8>) -> Seq<u8> {
    let header = poc_local_header(name, body);
    seq![0u8] + zeros((POC_WIDTH + 4 - header.len()) as nat) + header + poc_rows(body)
        + poc_trailer()
}

/// `TURBO.plte`
pub open spec fn turbo_name() -> Seq<u8> {
    seq![0x54u8, 0x55u8, 0x52u8, 0x42u8, 0x4Fu8, 0x2Eu8, 0x70u8, 0x6Cu8, 0x74u8, 0x65u8]
}

/// `CIVIDIS.plte`
pub open spec fn cividis_name() -> Seq<u8> {
    seq![
        0x43u8,
        0x49u8,
        0x56u8,
        0x49u8,
        0x44u8,
        0x49u8,
        0x53u8,
        0x2Eu8,
        0x70u8,
        0x6Cu8,
        0x74u8,
        0x65u8,
    ]
}

#[verifier::opaque]
/// The image data: the `TURBO` and then the `CIVIDIS` palette, each stored
/// as a file named after it.
pub open spec fn poc_image_data() -> Seq<u8> {
    poc_file_data(turbo_name(), TURBO@) + poc_file_data(cividis_name(), CIVIDIS@)
}

/// The file that [`poc_zipng`] writes: a 52x96 8-bit indexed PNG header, the
/// palette, the image data as a zlib stream, and an empty `pkPK` chunk.
pub open spec fn poc_zipng_file(palette: Seq<u8>) -> Seq<u8> {
    png_header((POC_WIDTH + 4) as u32, POC_HEIGHT, BitDepth::EightBit, ColorType::Indexed) + png_chunk(
        chunk_type_plte(),
        palette,
    ) + png_chunk(chunk_type_idat(), zlib_framed(poc_image_data())) + png_chunk(
        chunk_type_pkpk(),
        Seq::empty(),
    )
}

/// Each byte of the body adds at most six bytes of rows.
pub proof fn lemma_poc_rows_len(body: Seq<u8>)
    ensures
        body.len() <= poc_rows(body).len() <= 6 * body.len(),
    decreases body.len(),
{
    if body.len() > 0 {
        lemma_poc_rows_len(body.drop_last());
    }
}

/// Data that fits in one stored deflate block makes a zlib stream eleven
/// bytes longer.
pub proof fn lemma_zlib_framed_len(data: Seq<u8>)
    requires
        0 < data.len() <= 0xFFFF,
    ensures
        zlib_framed(data).len() == data.len() + 11,
{
    assert(data.subrange(0, data.len() as int) =~= data);
    assert(stored_blocks(data) == stored_block(true, data));
}

fn write_poc_file(idat: &mut Vec<u8>, name: &[u8], body: &[u8])
    requires
        name@.len() <= 26,
        body@.len() <= 0xFFFF,
        old(idat)@.len() + 6 * body@.len() + 400 <= usize::MAX,
    ensures
        final(idat)@ == old(idat)@ + poc_file_data(name@, body@),
{
    // PNG filter byte, ignored by ZIP readers
    push_byte(idat, 0);
    let mut header: Vec<u8> = Vec::new();
    // local file header signature
    push_bytes(&mut header, &[0x50, 0x4B, 0x03, 0x04]);
    // version needed to extract
    push_u16_le(&mut header, 10);
    // modification time and date
    push_bytes(&mut header, &[0x50, 0x4B, 0x50, 0x4B]);
    // checksum
    push_u32_le(&mut header, crc32(body));
    // compressed size: the body plus one block header per row
    push_u32_le(&mut header, (body.len() / 48 * 53) as u32);
    // uncompressed size
    push_u32_le(&mut header, body.len() as u32);
    // file name length
    push_u16_le(&mut header, name.len() as u16);
    // extra fields length
    push_repeated(&mut header, 0, 2);
    // file name
    push_bytes(&mut header, name);
    assert(header@ =~= poc_local_header(name@, body@));
    assert(header@.len() == 26 + name@.len());
    let padding = 52 - header.len();
    push_repeated(idat, 0, padding);
    push_bytes(idat, header.as_slice());
    let ghost before_rows = idat@;
    let mut i: usize = 0;
    while i < body.len()
        invariant
            i <= body@.len() <= 0xFFFF,
            idat@ == before_rows + poc_rows(body@.take(i as int)),
            before_rows.len() + 6 * body@.len() + 300 <= usize::MAX,
        decreases body@.len() - i,
    {
        proof {
            lemma_poc_rows_len(body@.take(i as int));
        }
        if i % 48 == 0 {
            // filter byte and deflate block header
            push_byte(idat, 0);
            // block length (little-endian)
            push_byte(idat, 52);
            push_byte(idat, 0);
            // block length complement (little-endian)
            push_byte(idat, 203);
            push_byte(idat, 255);
        }
        push_byte(idat, body[i]);
        assert(body@.take(i + 1).drop_last() =~= body@.take(i as int));
        i = i + 1;
        assert(idat@ =~= before_rows + poc_rows(body@.take(i as int)));
    }
    assert(body@.take(body@.len() as int) =~= body@);
    // blank lines, visual padding
    push_repeated(idat, 0, 53);
    push_byte(idat, 0);
    push_repeated(idat, 0xFF, 52);
    push_byte(idat, 0);
    push_repeated(idat, 0xFF, 52);
    push_byte(idat, 0);
    push_repeated(idat, 0xFF, 52);
    assert(idat@ =~= old(idat)@ + poc_file_data(name@, body@));
}

fn write_poc_image_data(idat: &mut Vec<u8>)
    requires
        old(idat)@.len() == 0,
    ensures
        final(idat)@ == poc_image_data(),
        0 < final(idat)@.len() <= 0xFFFF,
{
    let turbo_file: [u8; 10] = [0x54, 0x55, 0x52, 0x42, 0x4F, 0x2E, 0x70, 0x6C, 0x74, 0x65];
    let cividis_file: [u8; 12] = [
        0x43,
        0x49,
        0x56,
        0x49,
        0x44,
        0x49,
        0x53,
        0x2E,
        0x70,
        0x6C,
        0x74,
        0x65,
    ];
    assert(turbo_file@ == turbo_name());
    assert(cividis_file@ == cividis_name());
    let turbo: &[u8] = TURBO.as_slice();
    let cividis: &[u8] = CIVIDIS.as_slice();
    write_poc_file(idat, turbo_file.as_slice(), turbo);
    proof {
        lemma_poc_rows_len(turbo@);
    }
    write_poc_file(idat, cividis_file.as_slice(), cividis);
    proof {
        lemma_poc_rows_len(cividis@);
    }
    assert(idat@ =~= poc_image_data()) by {
        reveal(poc_image_data);
    }
}

/// Writes a ZIP/PNG polyglot: a 52x96 8-bit indexed-color PNG using
/// `palette`, whose image data rows also hold the `TURBO` and `CIVIDIS`
/// palettes as stored files of a ZIP archive, each row's leading bytes
/// doubling as a PNG filter byte and a deflate block header.
pub fn poc_zipng(palette: &[u8]) -> (result: Result<Vec<u8>, WriteError>)
    requires
        palette@.len() <= u32::MAX,
    ensures
        result matches Ok(file) && file@ == poc_zipng_file(palette@),
{
    let mut buffer = output_buffer();
    let _ = write_png_header(&mut buffer, 48 + 4, 96, BitDepth::EightBit, ColorType::Indexed);
    let _ = write_png_palette(&mut buffer, palette);
    let mut idat: Vec<u8> = Vec::new();
    write_poc_image_data(&mut idat);
    proof {
        lemma_zlib_framed_len(idat@);
    }
    let _ = write_png_body(&mut buffer, idat.as_slice());
    let empty: [u8; 0] = [];
    assert(empty@ =~= Seq::<u8>::empty());
    let _ = write_non_png_chunk(&mut buffer, empty.as_slice());
    assert(buffer.content() =~= poc_zipng_file(palette@));
    Ok(buffer.into_bytes())
}

} // verus!
