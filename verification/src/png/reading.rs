//! Reading back the PNG files that this crate writes: image data in stored
//! (uncompressed) deflate blocks, rows without filtering.

use vstd::prelude::*;

use crate::checksums::spec_crc32;
use crate::encoding::{u16_le, u32_be};
use crate::png::data::{bit_depth_value, color_type_value, BitDepth, ColorType, PngModel};
use crate::png::writing::{
    chunk_type_idat, chunk_type_iend, chunk_type_plte, filtered_rows, filtered_rows_from,
    ihdr_body, png_chunk, png_file, png_header, png_signature, row_bytes, stored_block,
    stored_blocks, stored_blocks_from, write_png_ok, zlib_header, zlib_stored, STORED_BLOCK_MAX,
};

verus! {

/// The number that four bytes write, most significant first.
pub open spec fn be32(b: Seq<u8>) -> int {
    b[0] * 0x100_0000 + b[1] * 0x1_0000 + b[2] * 0x100 + b[3]
}

/// The number that two bytes write, least significant first.
pub open spec fn le16(b: Seq<u8>) -> int {
    b[0] + b[1] * 0x100
}

/// Reading back four big-endian bytes gives the number written.
pub proof fn lemma_be32(x: u32)
    ensures
        be32(u32_be(x)) == x,
        u32_be(x).len() == 4,
{
    let b0 = x / 16777216;
    let b1 = (x / 65536) % 256;
    let b2 = (x / 256) % 256;
    let b3 = x % 256;
    assert(x == b0 * 16777216 + b1 * 65536 + b2 * 256 + b3) by (bit_vector)
        requires
            b0 == x / 16777216,
            b1 == (x / 65536) % 256,
            b2 == (x / 256) % 256,
            b3 == x % 256,
    ;
    assert(b0 < 256) by (bit_vector)
        requires
            b0 == x / 16777216,
    ;
}

/// Reading back two little-endian bytes gives the number written.
pub proof fn lemma_le16(x: u16)
    ensures
        le16(u16_le(x)) == x,
        u16_le(x).len() == 2,
{
    let b0 = x % 256;
    let b1 = x / 256;
    assert(x == b0 + b1 * 256) by (bit_vector)
        requires
            b0 == x % 256,
            b1 == x / 256,
    ;
    assert(b1 < 256) by (bit_vector)
        requires
            b1 == x / 256,
    ;
}

/// The chunk at the start of `bytes`: its type, its body, and the bytes
/// after it; `None` unless they hold a whole chunk whose CRC matches.
#[verifier::opaque]
pub open spec fn parse_chunk(bytes: Seq<u8>) -> Option<(Seq<u8>, Seq<u8>, Seq<u8>)> {
    if bytes.len() < 12 {
        None
    } else {
        let len = be32(bytes.take(4));
        if bytes.len() < 12 + len {
            None
        } else {
            let chunk_type = bytes.subrange(4, 8);
            let body = bytes.subrange(8, 8 + len);
            if be32(bytes.subrange(8 + len, 12 + len)) == spec_crc32(chunk_type + body) {
                Some((chunk_type, body, bytes.skip(12 + len)))
            } else {
                None
            }
        }
    }
}

/// A written chunk reads back as its type and body.
pub proof fn lemma_parse_chunk(chunk_type: Seq<u8>, body: Seq<u8>, rest: Seq<u8>)
    requires
        chunk_type.len() == 4,
        body.len() <= u32::MAX,
    ensures
        parse_chunk(png_chunk(chunk_type, body) + rest) == Some((chunk_type, body, rest)),
{
    let len = body.len() as u32;
    let crc = spec_crc32(chunk_type + body);
    lemma_be32(len);
    lemma_be32(crc);
    reveal(parse_chunk);
    let bytes = png_chunk(chunk_type, body) + rest;
    let n = body.len() as int;
    assert(bytes.take(4) =~= u32_be(len));
    assert(bytes.subrange(4, 8) =~= chunk_type);
    assert(bytes.subrange(8, 8 + n) =~= body);
    assert(bytes.subrange(8 + n, 12 + n) =~= u32_be(crc));
    assert(bytes.skip(12 + n) =~= rest);
}

/// The bit depth that an `IHDR` code stands for.
pub open spec fn depth_of(code: u8) -> Option<BitDepth> {
    if code == 1 {
        Some(BitDepth::OneBit)
    } else if code == 2 {
        Some(BitDepth::TwoBit)
    } else if code == 4 {
        Some(BitDepth::FourBit)
    } else if code == 8 {
        Some(BitDepth::EightBit)
    } else if code == 16 {
        Some(BitDepth::SixteenBit)
    } else {
        None
    }
}

/// The color type that an `IHDR` code stands for.
pub open spec fn color_of(code: u8) -> Option<ColorType> {
    if code == 0 {
        Some(ColorType::Luminance)
    } else if code == 2 {
        Some(ColorType::RedGreenBlue)
    } else if code == 3 {
        Some(ColorType::Indexed)
    } else if code == 4 {
        Some(ColorType::LuminanceAlpha)
    } else if code == 6 {
        Some(ColorType::RedGreenBlueAlpha)
    } else {
        None
    }
}

/// The width, height, bit depth and color type in an `IHDR` body; `None`
/// unless it has thirteen bytes, known codes, and zero compression, filter
/// and interlace methods.
#[verifier::opaque]
pub open spec fn decode_header(body: Seq<u8>) -> Option<(u32, u32, BitDepth, ColorType)> {
    if body.len() != 13 || body[10] != 0 || body[11] != 0 || body[12] != 0 {
        None
    } else {
        match (depth_of(body[8]), color_of(body[9])) {
            (Some(depth), Some(color)) => Some(
                (be32(body.take(4)) as u32, be32(body.subrange(4, 8)) as u32, depth, color),
            ),
            _ => None,
        }
    }
}

/// A written `IHDR` body reads back as what it was written from.
pub proof fn lemma_decode_header(width: u32, height: u32, depth: BitDepth, color: ColorType)
    ensures
        decode_header(ihdr_body(width, height, depth, color)) == Some((width, height, depth, color)),
{
    reveal(decode_header);
    lemma_be32(width);
    lemma_be32(height);
    let body = ihdr_body(width, height, depth, color);
    assert(body.take(4) =~= u32_be(width));
    assert(body.subrange(4, 8) =~= u32_be(height));
    assert(body[8] == bit_depth_value(depth));
    assert(body[9] == color_type_value(color));
}

/// The data in a run of stored deflate blocks; `None` unless every block
/// header is well formed, a final block ends the run and nothing follows it.
#[verifier::opaque]
pub open spec fn decode_blocks(blocks: Seq<u8>) -> Option<Seq<u8>>
    decreases blocks.len(),
{
    if blocks.len() == 0 {
        Some(Seq::empty())
    } else if blocks.len() < 5 || blocks[0] > 1 {
        None
    } else {
        let len = le16(blocks.subrange(1, 3));
        if le16(blocks.subrange(3, 5)) != 0xFFFF - len || blocks.len() < 5 + len {
            None
        } else {
            let data = blocks.subrange(5, 5 + len);
            if blocks[0] == 1 {
                if blocks.len() == 5 + len {
                    Some(data)
                } else {
                    None
                }
            } else {
                match decode_blocks(blocks.skip(5 + len)) {
                    Some(more) => Some(data + more),
                    None => None,
                }
            }
        }
    }
}

/// Stored blocks read back as the data they were written from.
pub proof fn lemma_decode_blocks(data: Seq<u8>, start: int)
    requires
        0 <= start <= data.len(),
    ensures
        decode_blocks(stored_blocks_from(data, start)) == Some(data.skip(start)),
    decreases data.len() - start,
{
    reveal(decode_blocks);
    let blocks = stored_blocks_from(data, start);
    if start >= data.len() {
        assert(data.skip(start) =~= Seq::<u8>::empty());
    } else {
        let last = data.len() - start <= STORED_BLOCK_MAX;
        let end = if last {
            data.len() as int
        } else {
            start + STORED_BLOCK_MAX
        };
        let piece = data.subrange(start, end);
        let len = piece.len() as int;
        lemma_le16(len as u16);
        lemma_le16((0xFFFF - len) as u16);
        let block = stored_block(last, piece);
        assert(block.subrange(1, 3) =~= u16_le(len as u16));
        assert(block.subrange(3, 5) =~= u16_le((0xFFFF - len) as u16));
        if last {
            assert(blocks == block);
            assert(blocks.subrange(5, 5 + len) =~= piece);
            assert(piece =~= data.skip(start));
        } else {
            lemma_decode_blocks(data, end);
            let rest = stored_blocks_from(data, end);
            assert(blocks == block + rest);
            assert(blocks.subrange(1, 3) =~= block.subrange(1, 3));
            assert(blocks.subrange(3, 5) =~= block.subrange(3, 5));
            assert(blocks.subrange(5, 5 + len) =~= piece);
            assert(blocks.skip(5 + len) =~= rest);
            assert(piece + data.skip(end) =~= data.skip(start));
        }
    }
}

/// The data in a zlib stream of stored blocks (see [`decode_blocks`]); the
/// checksum at its end is not checked.
#[verifier::opaque]
pub open spec fn decode_zlib(stream: Seq<u8>) -> Option<Seq<u8>> {
    if stream.len() < 6 || stream.take(2) != zlib_header() {
        None
    } else {
        decode_blocks(stream.subrange(2, stream.len() - 4))
    }
}

/// Rows of `row` bytes each preceded by a zero "no filter" byte, the last
/// row possibly shorter, without those bytes; `None` if a row starts with
/// another filter.
#[verifier::opaque]
pub open spec fn unfilter(filtered: Seq<u8>, row: int) -> Option<Seq<u8>>
    decreases filtered.len(),
{
    if filtered.len() == 0 {
        Some(Seq::empty())
    } else if row <= 0 || filtered[0] != 0 {
        None
    } else if filtered.len() - 1 <= row {
        Some(filtered.skip(1))
    } else {
        match unfilter(filtered.skip(row + 1), row) {
            Some(more) => Some(filtered.subrange(1, row + 1) + more),
            None => None,
        }
    }
}

/// Filtered rows read back as the data they were made from.
pub proof fn lemma_unfilter(data: Seq<u8>, row: int, start: int)
    requires
        0 <= start <= data.len(),
        row > 0 || start == data.len(),
    ensures
        unfilter(filtered_rows_from(data, row, start), row) == Some(data.skip(start)),
    decreases data.len() - start,
{
    reveal(unfilter);
    let filtered = filtered_rows_from(data, row, start);
    if start >= data.len() {
        assert(data.skip(start) =~= Seq::<u8>::empty());
    } else if data.len() - start <= row {
        assert(filtered.skip(1) =~= data.skip(start));
    } else {
        lemma_unfilter(data, row, start + row);
        let rest = filtered_rows_from(data, row, start + row);
        assert(filtered.skip(row + 1) =~= rest);
        assert(filtered.subrange(1, row + 1) + data.skip(start + row) =~= data.skip(start));
    }
}

/// The `IHDR` chunk type.
pub open spec fn chunk_type_ihdr() -> Seq<u8> {
    seq![0x49u8, 0x48u8, 0x44u8, 0x52u8]
}

/// The image in the chunks after the header: an optional `PLTE` chunk, the
/// `IDAT` chunk, and the empty `IEND` chunk that ends the file.
pub open spec fn parse_image(
    chunks: Seq<u8>,
    width: u32,
    height: u32,
    depth: BitDepth,
    color: ColorType,
) -> Option<PngModel> {
    let (palette, rest) = match parse_chunk(chunks) {
        Some((chunk_type, body, after)) => if chunk_type == chunk_type_plte() {
            (Some(body), after)
        } else {
            (None, chunks)
        },
        None => (None, chunks),
    };
    match parse_chunk(rest) {
        Some((data_type, data, after_data)) => if data_type != chunk_type_idat() {
            None
        } else {
            match parse_chunk(after_data) {
                Some((end_type, end_body, after_end)) => if end_type != chunk_type_iend()
                    || end_body.len() != 0 || after_end.len() != 0 {
                    None
                } else {
                    match decode_zlib(data) {
                        Some(filtered) => match unfilter(
                            filtered,
                            row_bytes(width as int, depth, color),
                        ) {
                            Some(pixels) => Some(
                                PngModel {
                                    pixel_data: pixels,
                                    width: width as usize,
                                    height: height as usize,
                                    bit_depth: depth,
                                    color_type: color,
                                    palette_data: palette,
                                    transparency_data: None,
                                },
                            ),
                            None => None,
                        },
                        None => None,
                    }
                },
                None => None,
            }
        },
        None => None,
    }
}

/// The image in a PNG file as this crate writes them: the signature, the
/// `IHDR` chunk, then (see [`parse_image`]) an optional `PLTE` chunk, one
/// `IDAT` chunk whose zlib stream holds stored blocks of rows that are not
/// filtered, and an empty `IEND` chunk. `None` for anything else.
pub open spec fn parse_png(bytes: Seq<u8>) -> Option<PngModel> {
    if bytes.len() < 8 || bytes.take(8) != png_signature() {
        None
    } else {
        match parse_chunk(bytes.skip(8)) {
            Some((header_type, header, rest)) => if header_type != chunk_type_ihdr() {
                None
            } else {
                match decode_header(header) {
                    Some((width, height, depth, color)) => parse_image(
                        rest,
                        width,
                        height,
                        depth,
                        color,
                    ),
                    None => None,
                }
            },
            None => None,
        }
    }
}

/// The zlib stream of written image data reads back as the filtered rows.
proof fn lemma_zlib_data(filtered: Seq<u8>)
    ensures
        decode_zlib(zlib_stored(filtered)) == Some(filtered),
{
    reveal(decode_zlib);
    let stream = zlib_stored(filtered);
    let blocks = stored_blocks(filtered);
    lemma_decode_blocks(filtered, 0);
    assert(filtered.skip(0) =~= filtered);
    assert(decode_blocks(blocks) == Some(filtered));
    assert(stream.len() >= 6);
    assert(stream.take(2) =~= zlib_header());
    assert(stream.subrange(2, stream.len() - 4) =~= blocks);
}

/// The image data of a written file reads back as the pixel data.
proof fn lemma_image_data(pixels: Seq<u8>, row: int)
    requires
        pixels.len() > 0 ==> row > 0,
    ensures
        decode_zlib(zlib_stored(filtered_rows(pixels, row))) == Some(filtered_rows(pixels, row)),
        unfilter(filtered_rows(pixels, row), row) == Some(pixels),
{
    lemma_zlib_data(filtered_rows(pixels, row));
    lemma_unfilter(pixels, row, 0);
    assert(pixels.skip(0) =~= pixels);
}

/// The chunks after a written header read back as the image.
proof fn lemma_parse_image(png: PngModel)
    requires
        png.width <= u32::MAX,
        png.height <= u32::MAX,
        write_png_ok(png.pixel_data, png.width as u32, png.bit_depth, png.color_type, png.palette_data),
        png.transparency_data is None,
    ensures
        ({
            let width = png.width as u32;
            let row = row_bytes(width as int, png.bit_depth, png.color_type);
            let plte = match png.palette_data {
                Some(p) => png_chunk(chunk_type_plte(), p),
                None => Seq::empty(),
            };
            let idat = png_chunk(chunk_type_idat(), zlib_stored(filtered_rows(png.pixel_data, row)));
            let iend = png_chunk(chunk_type_iend(), Seq::empty());
            parse_image(plte + idat + iend, width, png.height as u32, png.bit_depth, png.color_type)
                == Some(png)
        }),
{
    let width = png.width as u32;
    let row = row_bytes(width as int, png.bit_depth, png.color_type);
    let filtered = filtered_rows(png.pixel_data, row);
    let stream = zlib_stored(filtered);
    let plte = match png.palette_data {
        Some(p) => png_chunk(chunk_type_plte(), p),
        None => Seq::empty(),
    };
    let idat = png_chunk(chunk_type_idat(), stream);
    let iend = png_chunk(chunk_type_iend(), Seq::empty());
    lemma_image_data(png.pixel_data, row);
    lemma_parse_chunk(chunk_type_idat(), stream, iend);
    assert(iend =~= iend + Seq::<u8>::empty());
    lemma_parse_chunk(chunk_type_iend(), Seq::empty(), Seq::empty());
    assert(chunk_type_iend() != chunk_type_idat()) by {
        assert(chunk_type_iend()[1] != chunk_type_idat()[1]);
    }
    match png.palette_data {
        Some(p) => {
            assert(plte + idat + iend =~= png_chunk(chunk_type_plte(), p) + (idat + iend));
            lemma_parse_chunk(chunk_type_plte(), p, idat + iend);
        },
        None => {
            assert(plte + idat + iend =~= idat + iend);
            assert(chunk_type_idat() != chunk_type_plte()) by {
                assert(chunk_type_idat()[0] != chunk_type_plte()[0]);
            }
        },
    }
}

/// Reading a written image gives back the image: for every image that
/// [`Png::write`](crate::png::data::Png::write) encodes, with no
/// transparency data (which the writer does not store), reading the file
/// gives the same pixels, dimensions, bit depth, color type and palette.
pub proof fn law_png_round_trip(png: PngModel)
    requires
        png.width <= u32::MAX,
        png.height <= u32::MAX,
        write_png_ok(png.pixel_data, png.width as u32, png.bit_depth, png.color_type, png.palette_data),
        png.transparency_data is None,
    ensures
        parse_png(
            png_file(
                png.pixel_data,
                png.width as u32,
                png.height as u32,
                png.bit_depth,
                png.color_type,
                png.palette_data,
            ),
        ) == Some(png),
{
    let width = png.width as u32;
    let height = png.height as u32;
    let (depth, color) = (png.bit_depth, png.color_type);
    let row = row_bytes(width as int, depth, color);
    let plte = match png.palette_data {
        Some(p) => png_chunk(chunk_type_plte(), p),
        None => Seq::empty(),
    };
    let idat = png_chunk(chunk_type_idat(), zlib_stored(filtered_rows(png.pixel_data, row)));
    let iend = png_chunk(chunk_type_iend(), Seq::empty());
    let rest = plte + idat + iend;
    let file = png_file(png.pixel_data, width, height, depth, color, png.palette_data);
    let ihdr = png_chunk(chunk_type_ihdr(), ihdr_body(width, height, depth, color));
    assert(file =~= png_signature() + (ihdr + rest));
    assert(file.take(8) =~= png_signature());
    assert(file.skip(8) =~= ihdr + rest);
    lemma_parse_chunk(chunk_type_ihdr(), ihdr_body(width, height, depth, color), rest);
    lemma_decode_header(width, height, depth, color);
    lemma_parse_image(png);
}

fn be32_at(bytes: &[u8], at: usize) -> (value: u32)
    requires
        at + 4 <= bytes@.len(),
    ensures
        value == be32(bytes@.subrange(at as int, at + 4)),
{
    let value = bytes[at] as u32 * 0x100_0000 + bytes[at + 1] as u32 * 0x1_0000 + bytes[at + 2] as u32
        * 0x100 + bytes[at + 3] as u32;
    value
}

fn le16_at(bytes: &[u8], at: usize) -> (value: u16)
    requires
        at + 2 <= bytes@.len(),
    ensures
        value == le16(bytes@.subrange(at as int, at + 2)),
{
    bytes[at] as u16 + bytes[at + 1] as u16 * 0x100
}

/// The chunk at `at` (see [`parse_chunk`]), as the positions of its type
/// and of its body's end, and where the next chunk starts.
fn read_chunk(bytes: &[u8], at: usize) -> (chunk: Option<(usize, usize)>)
    requires
        at <= bytes@.len(),
    ensures
        match chunk {
            Some((body_end, next)) => {
                &&& at + 8 <= body_end
                &&& body_end + 4 == next
                &&& next <= bytes@.len()
                &&& parse_chunk(bytes@.skip(at as int)) == Some(
                    (
                        bytes@.subrange(at + 4, at + 8),
                        bytes@.subrange(at + 8, body_end as int),
                        bytes@.skip(next as int),
                    ),
                )
            },
            None => parse_chunk(bytes@.skip(at as int)) is None,
        },
{
    reveal(parse_chunk);
    let ghost rest = bytes@.skip(at as int);
    if bytes.len() - at < 12 {
        return None;
    }
    let len = be32_at(bytes, at);
    assert(rest.take(4) =~= bytes@.subrange(at as int, at + 4));
    if ((bytes.len() - at - 12) as u64) < len as u64 {
        return None;
    }
    let body_end = at + 8 + len as usize;
    let mut checked: Vec<u8> = Vec::new();
    crate::encoding::push_range(&mut checked, bytes, at + 4, body_end);
    let crc = be32_at(bytes, body_end);
    assert(rest.subrange(4, 8) =~= bytes@.subrange(at + 4, at + 8));
    assert(rest.subrange(8, 8 + len) =~= bytes@.subrange(at + 8, body_end as int));
    assert(rest.subrange(8 + len, 12 + len) =~= bytes@.subrange(body_end as int, body_end + 4));
    assert(rest.skip(12 + len) =~= bytes@.skip(body_end + 4));
    assert(checked@ =~= rest.subrange(4, 8) + rest.subrange(8, 8 + len));
    if crc != crate::checksums::crc32(checked.as_slice()) {
        return None;
    }
    Some((body_end, body_end + 4))
}

fn same_type(bytes: &[u8], at: usize, expected: [u8; 4]) -> (same: bool)
    requires
        at + 4 <= bytes@.len(),
    ensures
        same == (bytes@.subrange(at as int, at + 4) == expected@),
{
    let same = bytes[at] == expected[0] && bytes[at + 1] == expected[1] && bytes[at + 2]
        == expected[2] && bytes[at + 3] == expected[3];
    proof {
        if same {
            assert(bytes@.subrange(at as int, at + 4) =~= expected@);
        } else if bytes@.subrange(at as int, at + 4) == expected@ {
            assert(bytes@.subrange(at as int, at + 4)[0] == expected@[0]);
            assert(bytes@.subrange(at as int, at + 4)[1] == expected@[1]);
            assert(bytes@.subrange(at as int, at + 4)[2] == expected@[2]);
            assert(bytes@.subrange(at as int, at + 4)[3] == expected@[3]);
        }
    }
    same
}

fn depth_from_code(code: u8) -> (depth: Option<BitDepth>)
    ensures
        depth == depth_of(code),
{
    if code == 1 {
        Some(BitDepth::OneBit)
    } else if code == 2 {
        Some(BitDepth::TwoBit)
    } else if code == 4 {
        Some(BitDepth::FourBit)
    } else if code == 8 {
        Some(BitDepth::EightBit)
    } else if code == 16 {
        Some(BitDepth::SixteenBit)
    } else {
        None
    }
}

fn color_from_code(code: u8) -> (color: Option<ColorType>)
    ensures
        color == color_of(code),
{
    if code == 0 {
        Some(ColorType::Luminance)
    } else if code == 2 {
        Some(ColorType::RedGreenBlue)
    } else if code == 3 {
        Some(ColorType::Indexed)
    } else if code == 4 {
        Some(ColorType::LuminanceAlpha)
    } else if code == 6 {
        Some(ColorType::RedGreenBlueAlpha)
    } else {
        None
    }
}

/// The header in `bytes[start..end]` (see [`decode_header`]).
fn read_header(bytes: &[u8], start: usize, end: usize) -> (header: Option<(u32, u32, BitDepth, ColorType)>)
    requires
        start <= end <= bytes@.len(),
    ensures
        header == decode_header(bytes@.subrange(start as int, end as int)),
{
    reveal(decode_header);
    let ghost body = bytes@.subrange(start as int, end as int);
    if end - start != 13 || bytes[start + 10] != 0 || bytes[start + 11] != 0 || bytes[start + 12] != 0 {
        return None;
    }
    let depth = depth_from_code(bytes[start + 8]);
    let color = color_from_code(bytes[start + 9]);
    assert(body.take(4) =~= bytes@.subrange(start as int, start + 4));
    assert(body.subrange(4, 8) =~= bytes@.subrange(start + 4, start + 8));
    match (depth, color) {
        (Some(depth), Some(color)) => Some(
            (be32_at(bytes, start), be32_at(bytes, start + 4), depth, color),
        ),
        _ => None,
    }
}

/// The data in the stored blocks in `bytes[start..end]` (see
/// [`decode_blocks`]).
fn read_blocks(bytes: &[u8], start: usize, end: usize) -> (data: Option<Vec<u8>>)
    requires
        start <= end <= bytes@.len(),
    ensures
        match data {
            Some(d) => decode_blocks(bytes@.subrange(start as int, end as int)) == Some(d@),
            None => decode_blocks(bytes@.subrange(start as int, end as int)) is None,
        },
{
    reveal(decode_blocks);
    let ghost whole = bytes@.subrange(start as int, end as int);
    let mut data: Vec<u8> = Vec::new();
    let mut at = start;
    loop
        invariant
            start <= at <= end <= bytes@.len(),
            whole == bytes@.subrange(start as int, end as int),
            decode_blocks(whole) == match decode_blocks(bytes@.subrange(at as int, end as int)) {
                Some(more) => Some(data@ + more),
                None => None::<Seq<u8>>,
            },
        decreases end - at,
    {
        proof {
            reveal(decode_blocks);
        }
        let ghost blocks = bytes@.subrange(at as int, end as int);
        if at == end {
            assert(blocks =~= Seq::<u8>::empty());
            assert(decode_blocks(blocks) == Some(Seq::<u8>::empty()));
            assert(data@ + Seq::<u8>::empty() =~= data@);
            return Some(data);
        }
        if end - at < 5 || bytes[at] > 1 {
            return None;
        }
        let len = le16_at(bytes, at + 1);
        let check = le16_at(bytes, at + 3);
        assert(blocks.subrange(1, 3) =~= bytes@.subrange(at + 1, at + 3));
        assert(blocks.subrange(3, 5) =~= bytes@.subrange(at + 3, at + 5));
        if check as u32 != 0xFFFF - len as u32 || ((end - at - 5) as u64) < len as u64 {
            return None;
        }
        let data_end = at + 5 + len as usize;
        let ghost piece = bytes@.subrange(at + 5, data_end as int);
        assert(blocks.subrange(5, 5 + len) =~= piece);
        let ghost before = data@;
        crate::encoding::push_range(&mut data, bytes, at + 5, data_end);
        assert(data@ == before + piece);
        if bytes[at] == 1 {
            if data_end == end {
                assert(decode_blocks(blocks) == Some(piece));
                return Some(data);
            }
            assert(decode_blocks(blocks) is None);
            return None;
        }
        let ghost rest = bytes@.subrange(data_end as int, end as int);
        assert(blocks.skip(5 + len) =~= rest);
        assert(decode_blocks(blocks) == match decode_blocks(rest) {
            Some(more) => Some(piece + more),
            None => None::<Seq<u8>>,
        });
        proof {
            match decode_blocks(rest) {
                Some(more) => {
                    assert(before + (piece + more) =~= data@ + more);
                },
                None => {},
            }
        }
        at = data_end;
    }
}

/// The rows in `filtered` without their filter bytes (see [`unfilter`]).
fn read_rows(filtered: &[u8], row: u64) -> (pixels: Option<Vec<u8>>)
    ensures
        match pixels {
            Some(p) => unfilter(filtered@, row as int) == Some(p@),
            None => unfilter(filtered@, row as int) is None,
        },
{
    let mut pixels: Vec<u8> = Vec::new();
    let mut at: usize = 0;
    assert(filtered@.skip(0) =~= filtered@);
    loop
        invariant
            at <= filtered@.len(),
            unfilter(filtered@, row as int) == match unfilter(filtered@.skip(at as int), row as int) {
                Some(more) => Some(pixels@ + more),
                None => None::<Seq<u8>>,
            },
        decreases filtered@.len() - at,
    {
        proof {
            reveal(unfilter);
        }
        let ghost rest = filtered@.skip(at as int);
        if at == filtered.len() {
            assert(rest =~= Seq::<u8>::empty());
            assert(pixels@ + Seq::<u8>::empty() =~= pixels@);
            return Some(pixels);
        }
        if row == 0 || filtered[at] != 0 {
            return None;
        }
        let ghost before = pixels@;
        if ((filtered.len() - at - 1) as u64) <= row {
            crate::encoding::push_range(&mut pixels, filtered, at + 1, filtered.len());
            assert(rest.skip(1) =~= filtered@.subrange(at + 1, filtered@.len() as int));
            return Some(pixels);
        }
        let next = at + 1 + row as usize;
        crate::encoding::push_range(&mut pixels, filtered, at + 1, next);
        assert(rest.subrange(1, row + 1) =~= filtered@.subrange(at + 1, next as int));
        assert(rest.skip(row + 1) =~= filtered@.skip(next as int));
        proof {
            match unfilter(filtered@.skip(next as int), row as int) {
                Some(more) => {
                    assert(before + (filtered@.subrange(at + 1, next as int) + more) =~= pixels@
                        + more);
                },
                None => {},
            }
        }
        at = next;
    }
}

/// The image in a PNG file as this crate writes them (see [`parse_png`]):
/// its pixel data, width, height, bit depth, color type and palette.
pub fn read_png(input: &[u8]) -> (image: Option<(Vec<u8>, u32, u32, BitDepth, ColorType, Option<Vec<u8>>)>)
    ensures
        match image {
            Some((pixels, width, height, depth, color, palette)) => parse_png(input@) == Some(
                PngModel {
                    pixel_data: pixels@,
                    width: width as usize,
                    height: height as usize,
                    bit_depth: depth,
                    color_type: color,
                    palette_data: match palette {
                        Some(p) => Some(p@),
                        None => None,
                    },
                    transparency_data: None,
                },
            ),
            None => parse_png(input@) is None,
        },
{
    let signature: [u8; 8] = [0x89, 0x50, 0x4E, 0x47, 0x0D, 0x0A, 0x1A, 0x0A];
    assert(signature@ == png_signature());
    if input.len() < 8 {
        return None;
    }
    let mut i: usize = 0;
    while i < 8
        invariant
            8 <= input@.len(),
            i <= 8,
            signature@ == png_signature(),
            forall|k: int| 0 <= k < i ==> input@[k] == signature@[k],
        decreases 8 - i,
    {
        if input[i] != signature[i] {
            assert(input@.take(8)[i as int] != png_signature()[i as int]);
            return None;
        }
        i = i + 1;
    }
    assert(input@.take(8) =~= png_signature());
    let (header_end, after_header) = match read_chunk(input, 8) {
        Some(chunk) => chunk,
        None => {
            return None;
        },
    };
    if !same_type(input, 12, [0x49, 0x48, 0x44, 0x52]) {
        return None;
    }
    let (width, height, depth, color) = match read_header(input, 16, header_end) {
        Some(header) => header,
        None => {
            return None;
        },
    };
    let ghost rest = input@.skip(after_header as int);
    let mut at = after_header;
    let mut palette: Option<Vec<u8>> = None;
    match read_chunk(input, after_header) {
        Some((body_end, next)) => {
            if same_type(input, after_header + 4, [0x50, 0x4C, 0x54, 0x45]) {
                let mut p: Vec<u8> = Vec::new();
                crate::encoding::push_range(&mut p, input, after_header + 8, body_end);
                palette = Some(p);
                at = next;
            }
        },
        None => {},
    }
    let (data_end, after_data) = match read_chunk(input, at) {
        Some(chunk) => chunk,
        None => {
            return None;
        },
    };
    if !same_type(input, at + 4, [0x49, 0x44, 0x41, 0x54]) {
        return None;
    }
    let (end_end, after_end) = match read_chunk(input, after_data) {
        Some(chunk) => chunk,
        None => {
            return None;
        },
    };
    if !same_type(input, after_data + 4, [0x49, 0x45, 0x4E, 0x44]) || end_end != after_data + 8
        || after_end != input.len() {
        proof {
            if end_end != after_data + 8 {
                assert(input@.subrange(after_data + 8, end_end as int).len() != 0);
            }
            if after_end != input.len() {
                assert(input@.skip(after_end as int).len() != 0);
            }
        }
        return None;
    }
    assert(input@.skip(after_end as int).len() == 0);
    let data_start = at + 8;
    let ghost stream = input@.subrange(data_start as int, data_end as int);
    proof {
        reveal(decode_zlib);
    }
    if data_end - data_start < 6 || input[data_start] != 0x78 || input[data_start + 1] != 0x01 {
        proof {
            if data_end - data_start >= 6 {
                assert(stream.take(2) != zlib_header()) by {
                    assert(stream.take(2)[0] == input@[data_start as int]);
                    assert(stream.take(2)[1] == input@[data_start + 1]);
                }
            }
        }
        return None;
    }
    assert(stream.take(2) =~= zlib_header());
    let filtered = match read_blocks(input, data_start + 2, data_end - 4) {
        Some(f) => f,
        None => {
            assert(stream.subrange(2, stream.len() - 4) =~= input@.subrange(
                data_start + 2,
                data_end - 4,
            ));
            return None;
        },
    };
    assert(stream.subrange(2, stream.len() - 4) =~= input@.subrange(data_start + 2, data_end - 4));
    let depth_bits = depth.bits_per_sample() as u64;
    let samples = color.samples_per_pixel() as u64;
    assert(depth_bits * samples <= 64) by (nonlinear_arith)
        requires
            depth_bits <= 16,
            samples <= 4,
    ;
    let bits = depth_bits * samples;
    assert(width as u64 * bits <= 0xFFFF_FFFF * 64) by (nonlinear_arith)
        requires
            width <= 0xFFFF_FFFF,
            bits <= 64,
    ;
    assert(width * bits == width * bit_depth_value(depth) * crate::png::data::samples_of(color))
        by (nonlinear_arith)
        requires
            bits == bit_depth_value(depth) * crate::png::data::samples_of(color),
    ;
    let row = (width as u64 * bits + 7) / 8;
    let pixels = match read_rows(filtered.as_slice(), row) {
        Some(p) => p,
        None => {
            return None;
        },
    };
    Some((pixels, width, height, depth, color, palette))
}

} // verus!
