//! Writing PNG files whose image data is stored in uncompressed deflate
//! blocks.

use vstd::prelude::*;

use crate::checksums::{adler32, crc32, spec_adler32, spec_crc32};
use crate::encoding::{
    push_byte, push_bytes, push_range, push_u16_le, push_u32_be, push_u32_le, u16_le, u32_be,
    u32_le,
};
use crate::generic::WriteError;
use crate::png::data::{bit_depth_value, color_type_value, samples_of, BitDepth, ColorType};
use crate::png::sizes::PNG_HEADER_SIZE;

verus! {

/// The eight bytes that start every PNG file.
pub open spec fn png_signature() -> Seq<u8> {
    seq![0x89u8, 0x50u8, 0x4Eu8, 0x47u8, 0x0Du8, 0x0Au8, 0x1Au8, 0x0Au8]
}

/// A PNG chunk: the body's length (big-endian), the four-byte type, the body,
/// and the CRC-32 of the type and body (big-endian).
pub open spec fn png_chunk(chunk_type: Seq<u8>, body: Seq<u8>) -> Seq<u8> {
    u32_be(body.len() as u32) + chunk_type + body + u32_be(spec_crc32(chunk_type + body))
}

/// The body of the `IHDR` chunk.
pub open spec fn ihdr_body(width: u32, height: u32, depth: BitDepth, color: ColorType) -> Seq<u8> {
    u32_be(width) + u32_be(height) + seq![bit_depth_value(depth), color_type_value(color), 0u8, 0u8, 0u8]
}

/// The signature followed by the `IHDR` chunk.
pub open spec fn png_header(width: u32, height: u32, depth: BitDepth, color: ColorType) -> Seq<u8> {
    png_signature() + png_chunk(seq![0x49u8, 0x48u8, 0x44u8, 0x52u8], ihdr_body(width, height, depth, color))
}

/// The chunk types used by the writers.
pub open spec fn chunk_type_plte() -> Seq<u8> {
    seq![0x50u8, 0x4Cu8, 0x54u8, 0x45u8]
}

pub open spec fn chunk_type_idat() -> Seq<u8> {
    seq![0x49u8, 0x44u8, 0x41u8, 0x54u8]
}

pub open spec fn chunk_type_iend() -> Seq<u8> {
    seq![0x49u8, 0x45u8, 0x4Eu8, 0x44u8]
}

/// The private chunk type that carries non-image data.
pub open spec fn chunk_type_pkpk() -> Seq<u8> {
    seq![0x70u8, 0x6Bu8, 0x50u8, 0x4Bu8]
}

/// The largest body of a stored (uncompressed) deflate block.
pub const STORED_BLOCK_MAX: usize = 0xFFFF;

/// A stored deflate block: a header byte that is 1 for the final block and 0
/// otherwise, the length and its complement (little-endian), and the bytes.
pub open spec fn stored_block(is_last: bool, bytes: Seq<u8>) -> Seq<u8> {
    seq![if is_last { 1u8 } else { 0u8 }] + u16_le(bytes.len() as u16) + u16_le(
        (0xFFFF - bytes.len()) as u16,
    ) + bytes
}

/// The stored deflate blocks that hold `data[start..]`, in pieces of at most
/// 65535 bytes; the last block is marked final.
pub open spec fn stored_blocks_from(data: Seq<u8>, start: int) -> Seq<u8>
    decreases data.len() - start,
{
    if start < 0 || start >= data.len() {
        Seq::empty()
    } else if data.len() - start <= STORED_BLOCK_MAX {
        stored_block(true, data.subrange(start, data.len() as int))
    } else {
        stored_block(false, data.subrange(start, start + STORED_BLOCK_MAX)) + stored_blocks_from(
            data,
            start + STORED_BLOCK_MAX,
        )
    }
}

/// All of `data` in stored deflate blocks. Empty data gives no block at all.
pub open spec fn stored_blocks(data: Seq<u8>) -> Seq<u8> {
    stored_blocks_from(data, 0)
}

/// The zlib header written before deflate data: a 32 KiB window with no
/// preset dictionary, the check bits making the pair a multiple of 31.
pub open spec fn zlib_header() -> Seq<u8> {
    seq![0x78u8, 0x01u8]
}

/// A zlib stream of stored blocks: the header, the blocks, and the Adler-32
/// of the uncompressed data (little-endian).
pub open spec fn zlib_stored(data: Seq<u8>) -> Seq<u8> {
    zlib_header() + stored_blocks(data) + u32_le(spec_adler32(data))
}

/// The distance from the start of the first block's bytes to the end of the
/// last block's bytes in [`zlib_stored`].
pub open spec fn stored_data_span(data: Seq<u8>) -> int {
    if data.len() == 0 {
        0
    } else {
        stored_blocks(data).len() - 5
    }
}

/// Rows of `row` bytes taken from `data[start..]`, each preceded by a zero
/// byte (the PNG "no filter" marker); the last row may be shorter.
pub open spec fn filtered_rows_from(data: Seq<u8>, row: int, start: int) -> Seq<u8>
    decreases data.len() - start,
{
    if row <= 0 || start < 0 || start >= data.len() {
        Seq::empty()
    } else if data.len() - start <= row {
        seq![0u8] + data.subrange(start, data.len() as int)
    } else {
        seq![0u8] + data.subrange(start, start + row) + filtered_rows_from(data, row, start + row)
    }
}

/// `data` split into rows of `row` bytes, each preceded by a zero byte.
pub open spec fn filtered_rows(data: Seq<u8>, row: int) -> Seq<u8> {
    filtered_rows_from(data, row, 0)
}

/// The number of bytes in one row of pixels.
pub open spec fn row_bytes(width: int, depth: BitDepth, color: ColorType) -> int {
    (width * bit_depth_value(depth) * samples_of(color) + 7) / 8
}

/// A whole PNG file as [`write_png`] writes it.
pub open spec fn png_file(
    pixel_data: Seq<u8>,
    width: u32,
    height: u32,
    depth: BitDepth,
    color: ColorType,
    palette: Option<Seq<u8>>,
) -> Seq<u8> {
    png_header(width, height, depth, color) + match palette {
        Some(p) => png_chunk(chunk_type_plte(), p),
        None => Seq::empty(),
    } + png_chunk(
        chunk_type_idat(),
        zlib_stored(filtered_rows(pixel_data, row_bytes(width as int, depth, color))),
    ) + png_chunk(chunk_type_iend(), Seq::empty())
}

/// The preconditions under which [`write_png`] runs without panicking: the
/// row size fits in 32 bits, rows are non-empty when there is pixel data, and
/// each chunk body fits in a 32-bit length.
pub open spec fn write_png_ok(
    pixel_data: Seq<u8>,
    width: u32,
    depth: BitDepth,
    color: ColorType,
    palette: Option<Seq<u8>>,
) -> bool {
    &&& width * bit_depth_value(depth) * samples_of(color) + 7 <= u32::MAX
    &&& pixel_data.len() > 0 ==> row_bytes(width as int, depth, color) > 0
    &&& palette matches Some(p) ==> p.len() <= u32::MAX
    &&& zlib_stored(filtered_rows(pixel_data, row_bytes(width as int, depth, color))).len()
        <= u32::MAX
}

fn push_chunk_type(output: &mut Vec<u8>, chunk_type: &[u8; 4])
    ensures
        final(output)@ == old(output)@ + chunk_type@,
{
    push_bytes(output, chunk_type.as_slice());
}

/// Writes a PNG chunk of the given type and body, returning the number of
/// bytes written.
pub fn write_png_chunk(buffer: &mut Vec<u8>, chunk_type: &[u8; 4], data: &[u8]) -> (written:
    Result<usize, WriteError>)
    requires
        data@.len() <= u32::MAX,
    ensures
        final(buffer)@ == old(buffer)@ + png_chunk(chunk_type@, data@),
        written == Ok::<usize, WriteError>((12 + data@.len()) as usize),
{
    let before = buffer.len();
    push_u32_be(buffer, data.len() as u32);
    push_chunk_type(buffer, chunk_type);
    push_bytes(buffer, data);
    let mut checked: Vec<u8> = Vec::new();
    push_chunk_type(&mut checked, chunk_type);
    push_bytes(&mut checked, data);
    assert(checked@ == chunk_type@ + data@);
    push_u32_be(buffer, crc32(checked.as_slice()));
    assert(buffer@ == old(buffer)@ + png_chunk(chunk_type@, data@));
    let after = buffer.len();
    Ok(after - before)
}

/// Writes the PNG signature and the `IHDR` chunk, returning the number of
/// bytes written.
pub fn write_png_header(
    buffer: &mut Vec<u8>,
    width: u32,
    height: u32,
    color_depth: BitDepth,
    color_mode: ColorType,
) -> (written: Result<usize, WriteError>)
    ensures
        final(buffer)@ == old(buffer)@ + png_header(width, height, color_depth, color_mode),
        written == Ok::<usize, WriteError>(PNG_HEADER_SIZE),
{
    let before = buffer.len();
    let signature: [u8; 8] = [0x89, 0x50, 0x4E, 0x47, 0x0D, 0x0A, 0x1A, 0x0A];
    push_bytes(buffer, signature.as_slice());
    let mut body: Vec<u8> = Vec::new();
    push_u32_be(&mut body, width);
    push_u32_be(&mut body, height);
    push_byte(&mut body, u8::from(color_depth));
    push_byte(&mut body, u8::from(color_mode));
    push_byte(&mut body, 0);
    push_byte(&mut body, 0);
    push_byte(&mut body, 0);
    assert(body@ == ihdr_body(width, height, color_depth, color_mode));
    let ihdr: [u8; 4] = [0x49, 0x48, 0x44, 0x52];
    let _ = write_png_chunk(buffer, &ihdr, body.as_slice());
    assert(buffer@ == old(buffer)@ + png_header(width, height, color_depth, color_mode));
    let after = buffer.len();
    Ok(after - before)
}

/// Writes a `PLTE` chunk holding `palette`.
pub fn write_png_palette(buffer: &mut Vec<u8>, palette: &[u8]) -> (written: Result<
    usize,
    WriteError,
>)
    requires
        palette@.len() <= u32::MAX,
    ensures
        final(buffer)@ == old(buffer)@ + png_chunk(chunk_type_plte(), palette@),
        written == Ok::<usize, WriteError>((12 + palette@.len()) as usize),
{
    let plte: [u8; 4] = [0x50, 0x4C, 0x54, 0x45];
    write_png_chunk(buffer, &plte, palette)
}

/// Writes `data` as a zlib stream of stored (uncompressed) deflate blocks,
/// returning the distance from the start of the first block's bytes to the
/// end of the last block's bytes.
pub fn write_non_deflated(buffer: &mut Vec<u8>, data: &[u8]) -> (span: Result<usize, WriteError>)
    ensures
        final(buffer)@ == old(buffer)@ + zlib_stored(data@),
        span == Ok::<usize, WriteError>(stored_data_span(data@) as usize),
{
    push_byte(buffer, 0x78);
    push_byte(buffer, 0x01);
    let ghost start = buffer@;
    let mut first_data: Option<usize> = None;
    let mut last_data: usize = 0;
    let mut i: usize = 0;
    while i < data.len()
        invariant
            i <= data@.len(),
            start == old(buffer)@ + zlib_header(),
            buffer@ + stored_blocks_from(data@, i as int) == start + stored_blocks(data@),
            i == 0 ==> first_data is None && buffer@ == start,
            i > 0 ==> first_data == Some((start.len() + 5) as usize) && last_data == buffer@.len(),
        decreases data@.len() - i,
    {
        let ghost before = buffer@;
        let end: usize = if data.len() - i <= STORED_BLOCK_MAX {
            data.len()
        } else {
            i + STORED_BLOCK_MAX
        };
        let is_last = end == data.len();
        let length: u16 = (end - i) as u16;
        push_byte(buffer, if is_last { 1 } else { 0 });
        push_u16_le(buffer, length);
        push_u16_le(buffer, 0xFFFF - length);
        if first_data.is_none() {
            first_data = Some(buffer.len());
        }
        push_range(buffer, data, i, end);
        last_data = buffer.len();
        proof {
            let block = stored_block(is_last, data@.subrange(i as int, end as int));
            assert(buffer@ == before + block);
            assert(stored_blocks_from(data@, i as int) == block + stored_blocks_from(
                data@,
                end as int,
            ));
            assert(before + (block + stored_blocks_from(data@, end as int)) == buffer@
                + stored_blocks_from(data@, end as int));
        }
        i = end;
    }
    assert(stored_blocks_from(data@, i as int) == Seq::<u8>::empty());
    assert(buffer@ == start + stored_blocks(data@));
    let span = match first_data {
        Some(first) => last_data - first,
        None => 0,
    };
    push_u32_le(buffer, adler32(data));
    Ok(span)
}

/// Writes the zlib stream of `data` (see [`write_non_deflated`]) as an `IDAT`
/// chunk.
pub fn write_png_body(buffer: &mut Vec<u8>, data: &[u8]) -> (written: Result<usize, WriteError>)
    requires
        zlib_stored(data@).len() <= u32::MAX,
    ensures
        final(buffer)@ == old(buffer)@ + png_chunk(chunk_type_idat(), zlib_stored(data@)),
        written == Ok::<usize, WriteError>((12 + zlib_stored(data@).len()) as usize),
{
    let mut deflated: Vec<u8> = Vec::new();
    let _ = write_non_deflated(&mut deflated, data);
    assert(deflated@ == zlib_stored(data@));
    let idat: [u8; 4] = [0x49, 0x44, 0x41, 0x54];
    write_png_chunk(buffer, &idat, deflated.as_slice())
}

/// Writes `data` in a private `pkPK` chunk, which PNG readers skip.
pub fn write_non_png_chunk(buffer: &mut Vec<u8>, data: &[u8]) -> (written: Result<
    usize,
    WriteError,
>)
    requires
        data@.len() <= u32::MAX,
    ensures
        final(buffer)@ == old(buffer)@ + png_chunk(chunk_type_pkpk(), data@),
        written == Ok::<usize, WriteError>((12 + data@.len()) as usize),
{
    let pkpk: [u8; 4] = [0x70, 0x6B, 0x50, 0x4B];
    write_png_chunk(buffer, &pkpk, data)
}

/// Writes the empty `IEND` chunk that ends a PNG file.
pub fn write_png_footer(buffer: &mut Vec<u8>) -> (written: Result<usize, WriteError>)
    ensures
        final(buffer)@ == old(buffer)@ + png_chunk(chunk_type_iend(), Seq::empty()),
        written == Ok::<usize, WriteError>(12),
{
    let iend: [u8; 4] = [0x49, 0x45, 0x4E, 0x44];
    let empty: [u8; 0] = [];
    let result = write_png_chunk(buffer, &iend, empty.as_slice());
    assert(empty@ == Seq::<u8>::empty());
    result
}

/// Splits `pixel_data` into rows of `bytes_per_line` bytes, each preceded by
/// a zero byte: the PNG "no filter" marker.
pub fn filter_rows(pixel_data: &[u8], bytes_per_line: usize) -> (filtered: Vec<u8>)
    requires
        pixel_data@.len() > 0 ==> bytes_per_line > 0,
    ensures
        filtered@ == filtered_rows(pixel_data@, bytes_per_line as int),
{
    let mut filtered: Vec<u8> = Vec::new();
    let mut i: usize = 0;
    while i < pixel_data.len()
        invariant
            i <= pixel_data@.len(),
            pixel_data@.len() > 0 ==> bytes_per_line > 0,
            filtered@ + filtered_rows_from(pixel_data@, bytes_per_line as int, i as int)
                == filtered_rows(pixel_data@, bytes_per_line as int),
        decreases pixel_data@.len() - i,
    {
        let ghost before = filtered@;
        let end: usize = if pixel_data.len() - i <= bytes_per_line {
            pixel_data.len()
        } else {
            i + bytes_per_line
        };
        filtered.push(0);
        push_range(&mut filtered, pixel_data, i, end);
        proof {
            let row = seq![0u8] + pixel_data@.subrange(i as int, end as int);
            assert(filtered@ == before + row);
            assert(filtered_rows_from(pixel_data@, bytes_per_line as int, i as int) == row
                + filtered_rows_from(pixel_data@, bytes_per_line as int, end as int));
            assert(before + (row + filtered_rows_from(pixel_data@, bytes_per_line as int, end as int))
                == filtered@ + filtered_rows_from(pixel_data@, bytes_per_line as int, end as int));
        }
        i = end;
    }
    assert(filtered_rows_from(pixel_data@, bytes_per_line as int, i as int) == Seq::<u8>::empty());
    filtered
}

/// The number of bytes in one row of `width` pixels.
pub fn bytes_per_row(width: u32, bit_depth: BitDepth, color_mode: ColorType) -> (bytes: u32)
    requires
        width * bit_depth_value(bit_depth) * samples_of(color_mode) + 7 <= u32::MAX,
    ensures
        bytes == row_bytes(width as int, bit_depth, color_mode),
{
    let bits_per_pixel = bit_depth.bits_per_sample() * color_mode.samples_per_pixel();
    assert(width * bits_per_pixel == width * bit_depth_value(bit_depth) * samples_of(color_mode))
        by (nonlinear_arith)
        requires
            bits_per_pixel == bit_depth_value(bit_depth) * samples_of(color_mode),
    ;
    let bits_per_line = width * bits_per_pixel as u32;
    (bits_per_line + 7) / 8
}

/// Writes a complete PNG file: the header, the palette if there is one, the
/// pixel rows (each preceded by a "no filter" byte) in stored deflate blocks,
/// and the footer.
pub fn write_png(
    buffer: &mut Vec<u8>,
    pixel_data: &[u8],
    width: u32,
    height: u32,
    bit_depth: BitDepth,
    color_mode: ColorType,
    palette: Option<&[u8]>,
)
    requires
        write_png_ok(
            pixel_data@,
            width,
            bit_depth,
            color_mode,
            match palette {
                Some(p) => Some(p@),
                None => None,
            },
        ),
    ensures
        final(buffer)@ == old(buffer)@ + png_file(
            pixel_data@,
            width,
            height,
            bit_depth,
            color_mode,
            match palette {
                Some(p) => Some(p@),
                None => None,
            },
        ),
{
    let _ = write_png_header(buffer, width, height, bit_depth, color_mode);
    let ghost after_header = buffer@;
    if let Some(palette) = palette {
        let _ = write_png_palette(buffer, palette);
    }
    let ghost after_palette = buffer@;
    let bytes_per_line = bytes_per_row(width, bit_depth, color_mode);
    let filtered_data = filter_rows(pixel_data, bytes_per_line as usize);
    let _ = write_png_body(buffer, filtered_data.as_slice());
    let ghost after_body = buffer@;
    let _ = write_png_footer(buffer);
    proof {
        let p = match palette {
            Some(p) => Some(p@),
            None => None,
        };
        let h = png_header(width, height, bit_depth, color_mode);
        let pal = match p {
            Some(p) => png_chunk(chunk_type_plte(), p),
            None => Seq::empty(),
        };
        let body = png_chunk(
            chunk_type_idat(),
            zlib_stored(filtered_rows(pixel_data@, row_bytes(width as int, bit_depth, color_mode))),
        );
        let foot = png_chunk(chunk_type_iend(), Seq::empty());
        assert(after_header == old(buffer)@ + h);
        assert(after_palette == after_header + pal);
        assert(after_body == after_palette + body);
        assert(buffer@ == after_body + foot);
        assert(png_file(pixel_data@, width, height, bit_depth, color_mode, p) == h + pal + body
            + foot);
        assert(buffer@ =~= old(buffer)@ + (h + pal + body + foot));
    }
}

} // verus!
