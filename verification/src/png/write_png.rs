//! Writing PNG files whose image data is a zlib stream produced by
//! [`write_zlib`], into an [`OutputBuffer`] whose `png` track marks the
//! parts of the file.

use vstd::prelude::*;
use vstd::utf8::encode_utf8;

use crate::checksums::{crc32, spec_crc32};
use crate::encoding::{push_bytes, push_u32_be, u32_be};
use crate::generic::WriteError;
use crate::io::buffer::{
    absorb_all, closed, depths_fit, lemma_absorb_all_stack, lemma_marked_stack, marked, started, tags_of,
    OutputBuffer, TagState,
};
use crate::png::data::{bit_depth_value, color_type_value, samples_of, BitDepth, ColorType};
use crate::png::sizes::PNG_HEADER_SIZE;
use crate::png::writing::{
    bytes_per_row, chunk_type_idat, chunk_type_iend, chunk_type_pkpk, chunk_type_plte,
    filter_rows, filtered_rows, ihdr_body, png_chunk, png_header, png_signature, row_bytes,
};
use crate::zlib::{write_zlib, zlib_framed};

verus! {

/// A whole PNG file as [`write_png`] writes it.
pub open spec fn png_file_zlib(
    pixel_data: Seq<u8>,
    width: u32,
    height: u32,
    depth: BitDepth,
    color: ColorType,
    palette: Option<Seq<u8>>,
) -> Seq<u8> {
    png_header(width, height, depth, color) + match palette {
        Some(p) => png_chunk(chunk_type_plte(), p),
        None => Seq::empty(),
    } + png_chunk(
        chunk_type_idat(),
        zlib_framed(filtered_rows(pixel_data, row_bytes(width as int, depth, color))),
    ) + png_chunk(chunk_type_iend(), Seq::empty())
}

/// The preconditions under which [`write_png`] runs without panicking.
pub open spec fn write_png_zlib_ok(
    pixel_data: Seq<u8>,
    width: u32,
    depth: BitDepth,
    color: ColorType,
    palette: Option<Seq<u8>>,
) -> bool {
    &&& width * bit_depth_value(depth) * samples_of(color) + 7 <= u32::MAX
    &&& pixel_data.len() > 0 ==> row_bytes(width as int, depth, color) > 0
    &&& palette matches Some(p) ==> p.len() <= u32::MAX
    &&& zlib_framed(filtered_rows(pixel_data, row_bytes(width as int, depth, color))).len()
        <= u32::MAX
}

/// The track on which PNG files mark their parts.
pub open spec fn png_track() -> Seq<u8> {
    encode_utf8("png"@)
}

/// `tags` with the range from `from` to `to` marked `name` on the `png`
/// track.
pub open spec fn png_marked(tags: TagState, name: Seq<u8>, from: int, to: int) -> TagState {
    marked(tags, png_track(), name, from, to)
}

/// The tags after the start of a chunk is written at `at`: the chunk is
/// opened, its size and type are marked, and its body is opened.
pub open spec fn chunk_begun(tags: TagState, at: int) -> TagState {
    let opened = started(tags, png_track(), encode_utf8("chunk"@), at);
    let sized = png_marked(opened, encode_utf8("size"@), at, at + 4);
    let typed = png_marked(sized, encode_utf8("type"@), at + 4, at + 8);
    started(typed, png_track(), encode_utf8("body"@), at + 8)
}

/// The tags after the end of a chunk whose body ends at `end` is written:
/// the body is ended, the checksum is marked, and the chunk is ended.
pub open spec fn chunk_finished(tags: TagState, end: int) -> TagState {
    let bodied = closed(tags, png_track(), end);
    closed(png_marked(bodied, encode_utf8("checksum"@), end, end + 4), png_track(), end + 4)
}

/// The tags after a chunk with an `n`-byte body is written from `at`, what
/// is written of the body marking the tags as `inner` does.
pub open spec fn chunk_marks(tags: TagState, at: int, n: int, inner: spec_fn(TagState) -> TagState) -> TagState {
    chunk_finished(inner(chunk_begun(tags, at)), at + 8 + n)
}

/// [`chunk_marks`] with the chunk inside a range named `wrapper`.
pub open spec fn wrapped_chunk_marks(
    tags: TagState,
    wrapper: Seq<u8>,
    at: int,
    n: int,
    inner: spec_fn(TagState) -> TagState,
) -> TagState {
    closed(chunk_marks(started(tags, png_track(), wrapper, at), at, n, inner), png_track(), at + 12 + n)
}

/// No marks inside a chunk's body.
pub open spec fn unmarked() -> spec_fn(TagState) -> TagState {
    |tags: TagState| tags
}

/// The whole body of a chunk written from `at`, `n` bytes long, marked
/// `name`.
pub open spec fn body_marked(name: Seq<u8>, at: int, n: int) -> spec_fn(TagState) -> TagState {
    |tags: TagState| png_marked(tags, name, at + 8, at + 8 + n)
}

/// The fields of an `IHDR` body written from `at`, each marked.
pub open spec fn ihdr_fields(at: int) -> spec_fn(TagState) -> TagState {
    |tags: TagState|
        {
            let w = png_marked(tags, encode_utf8("width"@), at, at + 4);
            let h = png_marked(w, encode_utf8("height"@), at + 4, at + 8);
            let d = png_marked(h, encode_utf8("bit-depth"@), at + 8, at + 9);
            let c = png_marked(d, encode_utf8("color-mode"@), at + 9, at + 10);
            let z = png_marked(c, encode_utf8("compression-mode"@), at + 10, at + 11);
            let f = png_marked(z, encode_utf8("filter-mode"@), at + 11, at + 12);
            png_marked(f, encode_utf8("interlace-mode"@), at + 12, at + 13)
        }
}

/// The tags after the signature and the `IHDR` chunk are written from `at`:
/// the signature marked `signature`, and the chunk, inside `header`, with
/// each field of its body marked.
#[verifier::opaque]
pub open spec fn header_marks(tags: TagState, at: int) -> TagState {
    wrapped_chunk_marks(
        png_marked(tags, encode_utf8("signature"@), at, at + 8),
        encode_utf8("header"@),
        at + 8,
        13,
        ihdr_fields(at + 16),
    )
}

/// The tags after a `PLTE` chunk with an `n`-byte palette is written from
/// `at`: inside `palette`, with its body marked `colors`.
#[verifier::opaque]
pub open spec fn palette_marks(tags: TagState, at: int, n: int) -> TagState {
    wrapped_chunk_marks(tags, encode_utf8("palette"@), at, n, body_marked(encode_utf8("colors"@), at, n))
}

/// The tags after an `IDAT` chunk with an `n`-byte zlib stream is written
/// from `at`: inside `pixels`, with its body marked `zlib`.
#[verifier::opaque]
pub open spec fn pixels_marks(tags: TagState, at: int, n: int) -> TagState {
    wrapped_chunk_marks(tags, encode_utf8("pixels"@), at, n, body_marked(encode_utf8("zlib"@), at, n))
}

/// The tags after a `pkPK` chunk with an `n`-byte body is written from
/// `at`: inside `comment`.
pub open spec fn comment_marks(tags: TagState, at: int, n: int) -> TagState {
    wrapped_chunk_marks(tags, encode_utf8("comment"@), at, n, unmarked())
}

/// The tags after the `IEND` chunk is written from `at`: inside `footer`.
#[verifier::opaque]
pub open spec fn footer_marks(tags: TagState, at: int) -> TagState {
    wrapped_chunk_marks(tags, encode_utf8("footer"@), at, 0, unmarked())
}

/// The tags after [`write_png`] writes a file from `at`: the whole file
/// marked `png`, and inside it the header, the palette if there is one, the
/// pixels and the footer (see [`header_marks`], [`palette_marks`],
/// [`pixels_marks`], [`footer_marks`]).
#[verifier::opaque]
pub open spec fn png_file_marks(
    tags: TagState,
    at: int,
    pixel_data: Seq<u8>,
    width: u32,
    depth: BitDepth,
    color: ColorType,
    palette: Option<Seq<u8>>,
) -> TagState {
    let headed = header_marks(started(tags, png_track(), encode_utf8("png"@), at), at);
    let (paletted, pixels_at) = match palette {
        Some(p) => (palette_marks(headed, at + 33, p.len() as int), at + 33 + 12 + p.len()),
        None => (headed, at + 33),
    };
    let n = zlib_framed(filtered_rows(pixel_data, row_bytes(width as int, depth, color))).len() as int;
    let footer_at = pixels_at + 12 + n;
    closed(footer_marks(pixels_marks(paletted, pixels_at, n), footer_at), png_track(), footer_at + 12)
}

/// Opening a chunk adds two open ranges to the `png` track.
proof fn lemma_chunk_begun(tags: TagState, at: int)
    ensures
        chunk_begun(tags, at).1.contains_key(png_track()),
        chunk_begun(tags, at).1[png_track()].len() == tags_of(tags.1, png_track()).len() + 2,
{
    let opened = started(tags, png_track(), encode_utf8("chunk"@), at);
    lemma_marked_stack(opened, png_track(), encode_utf8("size"@), at, at + 4);
    let sized = png_marked(opened, encode_utf8("size"@), at, at + 4);
    lemma_marked_stack(sized, png_track(), encode_utf8("type"@), at + 4, at + 8);
}

/// Finishing a chunk takes two open ranges off the `png` track.
proof fn lemma_chunk_finished(tags: TagState, end: int)
    requires
        tags.1.contains_key(png_track()),
        tags.1[png_track()].len() >= 2,
    ensures
        chunk_finished(tags, end).1.contains_key(png_track()),
        chunk_finished(tags, end).1[png_track()].len() == tags.1[png_track()].len() - 2,
{
    let bodied = closed(tags, png_track(), end);
    lemma_marked_stack(bodied, png_track(), encode_utf8("checksum"@), end, end + 4);
}

/// Marking the fields of an `IHDR` body keeps the `png` stack as long as
/// it was.
proof fn lemma_ihdr_fields(tags: TagState, at: int)
    requires
        tags.1.contains_key(png_track()),
        tags.1[png_track()].len() > 0,
    ensures
        ihdr_fields(at)(tags).1.contains_key(png_track()),
        ihdr_fields(at)(tags).1[png_track()].len() == tags.1[png_track()].len(),
{
    let w = png_marked(tags, encode_utf8("width"@), at, at + 4);
    lemma_marked_stack(tags, png_track(), encode_utf8("width"@), at, at + 4);
    let h = png_marked(w, encode_utf8("height"@), at + 4, at + 8);
    lemma_marked_stack(w, png_track(), encode_utf8("height"@), at + 4, at + 8);
    let d = png_marked(h, encode_utf8("bit-depth"@), at + 8, at + 9);
    lemma_marked_stack(h, png_track(), encode_utf8("bit-depth"@), at + 8, at + 9);
    let c = png_marked(d, encode_utf8("color-mode"@), at + 9, at + 10);
    lemma_marked_stack(d, png_track(), encode_utf8("color-mode"@), at + 9, at + 10);
    let z = png_marked(c, encode_utf8("compression-mode"@), at + 10, at + 11);
    lemma_marked_stack(c, png_track(), encode_utf8("compression-mode"@), at + 10, at + 11);
    let f = png_marked(z, encode_utf8("filter-mode"@), at + 11, at + 12);
    lemma_marked_stack(z, png_track(), encode_utf8("filter-mode"@), at + 11, at + 12);
    lemma_marked_stack(f, png_track(), encode_utf8("interlace-mode"@), at + 12, at + 13);
}

/// Writes `data` marked as `tag` on the `png` track.
fn extend_marked(buffer: &mut OutputBuffer, tag: &str, data: &[u8])
    requires
        old(buffer).wf(),
    ensures
        final(buffer).wf(),
        final(buffer).content() == old(buffer).content() + data@,
        (final(buffer).complete(), final(buffer).open_tags()) == png_marked(
            (old(buffer).complete(), old(buffer).open_tags()),
            encode_utf8(tag@),
            old(buffer).content().len() as int,
            (old(buffer).content().len() + data@.len()) as int,
        ),
{
    buffer.start("png", tag);
    buffer.extend(data);
    buffer.end("png", tag);
}

/// Writes the size and type of a chunk with an `n`-byte body, and opens its
/// body.
fn begin_chunk(buffer: &mut OutputBuffer, chunk_type: &[u8; 4], n: usize)
    requires
        old(buffer).wf(),
        n <= u32::MAX,
    ensures
        final(buffer).wf(),
        final(buffer).content() == old(buffer).content() + u32_be(n as u32) + chunk_type@,
        (final(buffer).complete(), final(buffer).open_tags()) == chunk_begun(
            (old(buffer).complete(), old(buffer).open_tags()),
            old(buffer).content().len() as int,
        ),
{
    buffer.start("png", "chunk");
    let mut size: Vec<u8> = Vec::new();
    push_u32_be(&mut size, n as u32);
    extend_marked(buffer, "size", size.as_slice());
    extend_marked(buffer, "type", chunk_type.as_slice());
    buffer.start("png", "body");
    assert(buffer.content() =~= old(buffer).content() + u32_be(n as u32) + chunk_type@);
}

/// Ends the body of a chunk whose type is `chunk_type` and whose body is
/// `body`, and writes its checksum.
fn finish_chunk(buffer: &mut OutputBuffer, chunk_type: &[u8; 4], body: &[u8])
    requires
        old(buffer).wf(),
        old(buffer).open_tags().contains_key(png_track()),
        old(buffer).open_tags()[png_track()].len() >= 2,
    ensures
        final(buffer).wf(),
        final(buffer).content() == old(buffer).content() + u32_be(spec_crc32(chunk_type@ + body@)),
        (final(buffer).complete(), final(buffer).open_tags()) == chunk_finished(
            (old(buffer).complete(), old(buffer).open_tags()),
            old(buffer).content().len() as int,
        ),
{
    let ghost tags = (buffer.complete(), buffer.open_tags());
    buffer.end("png", "body");
    let mut checked: Vec<u8> = Vec::new();
    push_bytes(&mut checked, chunk_type.as_slice());
    push_bytes(&mut checked, body);
    let mut checksum: Vec<u8> = Vec::new();
    push_u32_be(&mut checksum, crc32(checked.as_slice()));
    let ghost end = old(buffer).content().len() as int;
    proof {
        lemma_marked_stack(
            closed(tags, png_track(), end),
            png_track(),
            encode_utf8("checksum"@),
            end,
            end + 4,
        );
    }
    extend_marked(buffer, "checksum", checksum.as_slice());
    buffer.end("png", "chunk");
}

/// Writes a chunk with body `data` inside a range named `wrapper`, the
/// body marked `inner` where there is one.
fn write_wrapped_chunk(
    buffer: &mut OutputBuffer,
    wrapper: &str,
    chunk_type: &[u8; 4],
    data: &[u8],
    inner: Option<&str>,
) -> (written: usize)
    requires
        old(buffer).wf(),
        data@.len() <= u32::MAX,
    ensures
        final(buffer).wf(),
        final(buffer).content() == old(buffer).content() + png_chunk(chunk_type@, data@),
        (final(buffer).complete(), final(buffer).open_tags()) == wrapped_chunk_marks(
            (old(buffer).complete(), old(buffer).open_tags()),
            encode_utf8(wrapper@),
            old(buffer).content().len() as int,
            data@.len() as int,
            match inner {
                Some(name) => body_marked(encode_utf8(name@), old(buffer).content().len() as int, data@.len() as int),
                None => unmarked(),
            },
        ),
        written == 12 + data@.len(),
{
    let before = buffer.len();
    let ghost at = old(buffer).content().len() as int;
    let ghost tags = (buffer.complete(), buffer.open_tags());
    let ghost n = data@.len() as int;
    let ghost inner_marks = match inner {
        Some(name) => body_marked(encode_utf8(name@), at, n),
        None => unmarked(),
    };
    buffer.start("png", wrapper);
    let ghost wrapped = (buffer.complete(), buffer.open_tags());
    begin_chunk(buffer, chunk_type, data.len());
    proof {
        lemma_chunk_begun(wrapped, at);
    }
    match inner {
        Some(name) => {
            proof {
                lemma_marked_stack(chunk_begun(wrapped, at), png_track(), encode_utf8(name@), at + 8, at + 8 + n);
            }
            extend_marked(buffer, name, data);
        },
        None => {
            buffer.extend(data);
        },
    }
    assert((buffer.complete(), buffer.open_tags()) == inner_marks(chunk_begun(wrapped, at)));
    finish_chunk(buffer, chunk_type, data);
    proof {
        lemma_chunk_finished(inner_marks(chunk_begun(wrapped, at)), at + 8 + n);
    }
    buffer.end("png", wrapper);
    assert(buffer.content() =~= old(buffer).content() + png_chunk(chunk_type@, data@));
    buffer.len() - before
}

/// Writes the PNG signature and the `IHDR` chunk, marking the signature,
/// the chunk and each field of its body (see [`header_marks`]).
#[verifier::rlimit(40)]
pub fn write_png_header(
    buffer: &mut OutputBuffer,
    width: u32,
    height: u32,
    color_depth: BitDepth,
    color_mode: ColorType,
) -> (written: Result<usize, WriteError>)
    requires
        old(buffer).wf(),
    ensures
        final(buffer).wf(),
        final(buffer).content() == old(buffer).content() + png_header(width, height, color_depth, color_mode),
        (final(buffer).complete(), final(buffer).open_tags()) == header_marks(
            (old(buffer).complete(), old(buffer).open_tags()),
            old(buffer).content().len() as int,
        ),
        written == Ok::<usize, WriteError>(PNG_HEADER_SIZE),
{
    let ghost at = old(buffer).content().len() as int;
    let ghost tags = (buffer.complete(), buffer.open_tags());
    let signature: [u8; 8] = [0x89, 0x50, 0x4E, 0x47, 0x0D, 0x0A, 0x1A, 0x0A];
    assert(signature@ == png_signature());
    extend_marked(buffer, "signature", signature.as_slice());
    let ghost signed = (buffer.complete(), buffer.open_tags());
    buffer.start("png", "header");
    let ghost wrapped = (buffer.complete(), buffer.open_tags());
    let ihdr: [u8; 4] = [0x49, 0x48, 0x44, 0x52];
    begin_chunk(buffer, &ihdr, 13);
    proof {
        lemma_chunk_begun(wrapped, at + 8);
        lemma_ihdr_fields(chunk_begun(wrapped, at + 8), at + 16);
    }
    let mut body: Vec<u8> = Vec::new();
    let mut field: Vec<u8> = Vec::new();
    push_u32_be(&mut field, width);
    extend_marked(buffer, "width", field.as_slice());
    push_bytes(&mut body, field.as_slice());
    let mut field: Vec<u8> = Vec::new();
    push_u32_be(&mut field, height);
    extend_marked(buffer, "height", field.as_slice());
    push_bytes(&mut body, field.as_slice());
    let depth: [u8; 1] = [u8::from(color_depth)];
    extend_marked(buffer, "bit-depth", depth.as_slice());
    push_bytes(&mut body, depth.as_slice());
    let color: [u8; 1] = [u8::from(color_mode)];
    extend_marked(buffer, "color-mode", color.as_slice());
    push_bytes(&mut body, color.as_slice());
    let zero: [u8; 1] = [0];
    extend_marked(buffer, "compression-mode", zero.as_slice());
    extend_marked(buffer, "filter-mode", zero.as_slice());
    extend_marked(buffer, "interlace-mode", zero.as_slice());
    push_bytes(&mut body, zero.as_slice());
    push_bytes(&mut body, zero.as_slice());
    push_bytes(&mut body, zero.as_slice());
    assert(body@ =~= ihdr_body(width, height, color_depth, color_mode));
    assert((buffer.complete(), buffer.open_tags()) == ihdr_fields(at + 16)(chunk_begun(wrapped, at + 8)));
    finish_chunk(buffer, &ihdr, body.as_slice());
    proof {
        lemma_chunk_finished(ihdr_fields(at + 16)(chunk_begun(wrapped, at + 8)), at + 16 + 13);
    }
    buffer.end("png", "header");
    assert(buffer.content() =~= old(buffer).content() + png_header(width, height, color_depth, color_mode));
    assert((buffer.complete(), buffer.open_tags()) == header_marks(tags, at)) by {
        reveal(header_marks);
    }
    Ok(PNG_HEADER_SIZE)
}

/// Writes a `PLTE` chunk holding `palette`, marked as `palette` with its
/// body marked `colors`.
pub fn write_png_palette(buffer: &mut OutputBuffer, palette: &[u8]) -> (written: Result<
    usize,
    WriteError,
>)
    requires
        old(buffer).wf(),
        palette@.len() <= u32::MAX,
    ensures
        final(buffer).wf(),
        final(buffer).content() == old(buffer).content() + png_chunk(chunk_type_plte(), palette@),
        (final(buffer).complete(), final(buffer).open_tags()) == palette_marks(
            (old(buffer).complete(), old(buffer).open_tags()),
            old(buffer).content().len() as int,
            palette@.len() as int,
        ),
        written == Ok::<usize, WriteError>((12 + palette@.len()) as usize),
{
    proof {
        reveal(palette_marks);
    }
    let plte: [u8; 4] = [0x50, 0x4C, 0x54, 0x45];
    assert(plte@ == chunk_type_plte());
    Ok(write_wrapped_chunk(buffer, "palette", &plte, palette, Some("colors")))
}

/// Writes the zlib stream of `data` (see [`write_zlib`]) as an `IDAT`
/// chunk, marked as `pixels` with its body marked `zlib`.
pub fn write_png_body(buffer: &mut OutputBuffer, data: &[u8]) -> (written: Result<usize, WriteError>)
    requires
        old(buffer).wf(),
        zlib_framed(data@).len() <= u32::MAX,
    ensures
        final(buffer).wf(),
        final(buffer).content() == old(buffer).content() + png_chunk(chunk_type_idat(), zlib_framed(data@)),
        (final(buffer).complete(), final(buffer).open_tags()) == pixels_marks(
            (old(buffer).complete(), old(buffer).open_tags()),
            old(buffer).content().len() as int,
            zlib_framed(data@).len() as int,
        ),
        written == Ok::<usize, WriteError>((12 + zlib_framed(data@).len()) as usize),
{
    let mut deflated: Vec<u8> = Vec::new();
    let _ = write_zlib(&mut deflated, data);
    assert(deflated@ == zlib_framed(data@));
    proof {
        reveal(pixels_marks);
    }
    let idat: [u8; 4] = [0x49, 0x44, 0x41, 0x54];
    assert(idat@ == chunk_type_idat());
    Ok(write_wrapped_chunk(buffer, "pixels", &idat, deflated.as_slice(), Some("zlib")))
}

/// Writes `data` in a private `pkPK` chunk, which PNG readers skip, marked
/// as `comment`.
pub fn write_non_png_chunk(buffer: &mut OutputBuffer, data: &[u8]) -> (written: Result<
    usize,
    WriteError,
>)
    requires
        old(buffer).wf(),
        data@.len() <= u32::MAX,
    ensures
        final(buffer).wf(),
        final(buffer).content() == old(buffer).content() + png_chunk(chunk_type_pkpk(), data@),
        (final(buffer).complete(), final(buffer).open_tags()) == comment_marks(
            (old(buffer).complete(), old(buffer).open_tags()),
            old(buffer).content().len() as int,
            data@.len() as int,
        ),
        written == Ok::<usize, WriteError>((12 + data@.len()) as usize),
{
    let pkpk: [u8; 4] = [0x70, 0x6B, 0x50, 0x4B];
    assert(pkpk@ == chunk_type_pkpk());
    Ok(write_wrapped_chunk(buffer, "comment", &pkpk, data, None))
}

/// Writes the empty `IEND` chunk that ends a PNG file, marked as `footer`.
pub fn write_png_footer(buffer: &mut OutputBuffer) -> (written: Result<usize, WriteError>)
    requires
        old(buffer).wf(),
    ensures
        final(buffer).wf(),
        final(buffer).content() == old(buffer).content() + png_chunk(chunk_type_iend(), Seq::empty()),
        (final(buffer).complete(), final(buffer).open_tags()) == footer_marks(
            (old(buffer).complete(), old(buffer).open_tags()),
            old(buffer).content().len() as int,
        ),
        written == Ok::<usize, WriteError>(12),
{
    proof {
        reveal(footer_marks);
    }
    let iend: [u8; 4] = [0x49, 0x45, 0x4E, 0x44];
    assert(iend@ == chunk_type_iend());
    let empty: [u8; 0] = [];
    assert(empty@ =~= Seq::<u8>::empty());
    Ok(write_wrapped_chunk(buffer, "footer", &iend, empty.as_slice(), None))
}

/// Writes a PNG chunk of the given type whose body is what `data` holds,
/// returning the number of bytes written. The chunk, its size, type, body
/// and checksum are marked; the complete tags of `data` are taken over
/// inside the body (see [`OutputBuffer::concat`]).
pub fn write_png_chunk(buffer: &mut OutputBuffer, chunk_type: &[u8; 4], data: &OutputBuffer) -> (written:
    Result<usize, WriteError>)
    requires
        old(buffer).wf(),
        data.wf(),
        data.content().len() <= u32::MAX,
        old(buffer).content().len() + data.content().len() + 12 <= usize::MAX,
        depths_fit(
            chunk_begun((old(buffer).complete(), old(buffer).open_tags()), old(buffer).content().len() as int).1,
            data.complete(),
        ),
    ensures
        final(buffer).wf(),
        final(buffer).content() == old(buffer).content() + png_chunk(chunk_type@, data.content()),
        (final(buffer).complete(), final(buffer).open_tags()) == chunk_marks(
            (old(buffer).complete(), old(buffer).open_tags()),
            old(buffer).content().len() as int,
            data.content().len() as int,
            |tags: TagState| absorb_all(tags, data.complete_list(), (old(buffer).content().len() + 8) as int),
        ),
        written == Ok::<usize, WriteError>((12 + data.content().len()) as usize),
{
    let ghost at = old(buffer).content().len() as int;
    let ghost tags = (buffer.complete(), buffer.open_tags());
    let before = buffer.len();
    begin_chunk(buffer, chunk_type, data.len());
    proof {
        lemma_chunk_begun(tags, at);
        lemma_absorb_all_stack(chunk_begun(tags, at), data.complete_list(), at + 8, png_track());
    }
    buffer.concat(data);
    finish_chunk(buffer, chunk_type, data.as_slice());
    assert(buffer.content() =~= old(buffer).content() + png_chunk(chunk_type@, data.content()));
    let after = buffer.len();
    Ok(after - before)
}

/// Writes a complete PNG file: the header, the palette if there is one, the
/// pixel rows (each preceded by a "no filter" byte) as a zlib stream, and
/// the footer, marking the file and its parts (see [`png_file_marks`]).
#[verifier::rlimit(50)]
pub fn write_png(
    buffer: &mut OutputBuffer,
    pixel_data: &[u8],
    width: u32,
    height: u32,
    bit_depth: BitDepth,
    color_mode: ColorType,
    palette: Option<&[u8]>,
) -> (result: Result<(), WriteError>)
    requires
        old(buffer).wf(),
        write_png_zlib_ok(
            pixel_data@,
            width,
            bit_depth,
            color_mode,
            match palette {
                Some(p) => Some(p@),
                None => None,
            },
        ),
    ensures
        final(buffer).wf(),
        final(buffer).content() == old(buffer).content() + png_file_zlib(
            pixel_data@,
            width,
            height,
            bit_depth,
            color_mode,
            match palette {
                Some(p) => Some(p@),
                None => None,
            },
        ),
        (final(buffer).complete(), final(buffer).open_tags()) == png_file_marks(
            (old(buffer).complete(), old(buffer).open_tags()),
            old(buffer).content().len() as int,
            pixel_data@,
            width,
            bit_depth,
            color_mode,
            match palette {
                Some(p) => Some(p@),
                None => None,
            },
        ),
        result == Ok::<(), WriteError>(()),
{
    let ghost at = old(buffer).content().len() as int;
    let ghost p = match palette {
        Some(p) => Some(p@),
        None => None,
    };
    let ghost t0 = (buffer.complete(), buffer.open_tags());
    buffer.start("png", "png");
    let ghost t1 = (buffer.complete(), buffer.open_tags());
    let _ = write_png_header(buffer, width, height, bit_depth, color_mode);
    let ghost t2 = (buffer.complete(), buffer.open_tags());
    let ghost after_header = buffer.content();
    proof {
        lemma_png_header_len(width, height, bit_depth, color_mode);
    }
    if let Some(palette) = palette {
        let _ = write_png_palette(buffer, palette);
        assert((buffer.complete(), buffer.open_tags()) == palette_marks(t2, at + 33, palette@.len() as int));
    }
    let ghost t3 = (buffer.complete(), buffer.open_tags());
    let ghost after_palette = buffer.content();
    let bytes_per_line = bytes_per_row(width, bit_depth, color_mode);
    let filtered_data = filter_rows(pixel_data, bytes_per_line as usize);
    let _ = write_png_body(buffer, filtered_data.as_slice());
    let ghost t4 = (buffer.complete(), buffer.open_tags());
    let ghost after_body = buffer.content();
    let _ = write_png_footer(buffer);
    let ghost t5 = (buffer.complete(), buffer.open_tags());
    proof {
        lemma_png_file_stack(t0, at, pixel_data@, width, bit_depth, color_mode, p);
        lemma_png_file_parts(t0, t1, t2, t3, t4, t5, at, pixel_data@, width, bit_depth, color_mode, p);
    }
    buffer.end("png", "png");
    proof {
        let h = png_header(width, height, bit_depth, color_mode);
        let pal = match p {
            Some(p) => png_chunk(chunk_type_plte(), p),
            None => Seq::empty(),
        };
        let body = png_chunk(
            chunk_type_idat(),
            zlib_framed(filtered_rows(pixel_data@, row_bytes(width as int, bit_depth, color_mode))),
        );
        let foot = png_chunk(chunk_type_iend(), Seq::empty());
        assert(after_header == old(buffer).content() + h);
        assert(after_palette == after_header + pal);
        assert(after_body == after_palette + body);
        assert(buffer.content() == after_body + foot);
        assert(png_file_zlib(pixel_data@, width, height, bit_depth, color_mode, p) == h + pal
            + body + foot);
        assert(buffer.content() =~= old(buffer).content() + (h + pal + body + foot));
    }
    Ok(())
}

/// Whether `inner` leaves a non-empty `png` stack as long as it was.
pub open spec fn keeps_png_stack(inner: spec_fn(TagState) -> TagState) -> bool {
    forall|t: TagState|
        t.1.contains_key(png_track()) && t.1[png_track()].len() > 0 ==> (#[trigger] inner(t)).1.contains_key(
            png_track(),
        ) && inner(t).1[png_track()].len() == t.1[png_track()].len()
}

/// A chunk written inside a range of its own leaves the `png` stack as long
/// as it was.
proof fn lemma_wrapped_stack(tags: TagState, wrapper: Seq<u8>, at: int, n: int, inner: spec_fn(TagState) -> TagState)
    requires
        keeps_png_stack(inner),
    ensures
        wrapped_chunk_marks(tags, wrapper, at, n, inner).1.contains_key(png_track()),
        wrapped_chunk_marks(tags, wrapper, at, n, inner).1[png_track()].len() == tags_of(tags.1, png_track()).len(),
{
    let opened = started(tags, png_track(), wrapper, at);
    lemma_chunk_begun(opened, at);
    let begun = chunk_begun(opened, at);
    assert(inner(begun).1.contains_key(png_track()));
    lemma_chunk_finished(inner(begun), at + 8 + n);
}

/// Marking a range leaves the stack of its track as long as it was.
proof fn lemma_marked_any(tags: TagState, track: Seq<u8>, name: Seq<u8>, from: int, to: int)
    ensures
        marked(tags, track, name, from, to).1.contains_key(track),
        marked(tags, track, name, from, to).1[track].len() == tags_of(tags.1, track).len(),
{
}

proof fn lemma_keeps_body_marked(name: Seq<u8>, at: int, n: int)
    ensures
        keeps_png_stack(body_marked(name, at, n)),
{
    assert forall|t: TagState| t.1.contains_key(png_track()) && t.1[png_track()].len() > 0 implies (
    #[trigger] body_marked(name, at, n)(t)).1.contains_key(png_track()) && body_marked(name, at, n)(
        t,
    ).1[png_track()].len() == t.1[png_track()].len() by {
        lemma_marked_stack(t, png_track(), name, at + 8, at + 8 + n);
    }
}

proof fn lemma_keeps_unmarked()
    ensures
        keeps_png_stack(unmarked()),
{
}

proof fn lemma_keeps_ihdr_fields(at: int)
    ensures
        keeps_png_stack(ihdr_fields(at)),
{
    assert forall|t: TagState| t.1.contains_key(png_track()) && t.1[png_track()].len() > 0 implies (
    #[trigger] ihdr_fields(at)(t)).1.contains_key(png_track()) && ihdr_fields(at)(t).1[png_track()].len()
        == t.1[png_track()].len() by {
        lemma_ihdr_fields(t, at);
    }
}

/// Every part of a file keeps the `png` stack as it was, so the range
/// opened for the whole file is still open before the file is ended.
proof fn lemma_png_file_stack(
    tags: TagState,
    at: int,
    pixel_data: Seq<u8>,
    width: u32,
    depth: BitDepth,
    color: ColorType,
    palette: Option<Seq<u8>>,
)
    ensures
        ({
            let headed = header_marks(started(tags, png_track(), encode_utf8("png"@), at), at);
            let (paletted, pixels_at) = match palette {
                Some(p) => (palette_marks(headed, at + 33, p.len() as int), at + 33 + 12 + p.len()),
                None => (headed, at + 33),
            };
            let n = zlib_framed(filtered_rows(pixel_data, row_bytes(width as int, depth, color))).len() as int;
            let footed = footer_marks(pixels_marks(paletted, pixels_at, n), pixels_at + 12 + n);
            &&& footed.1.contains_key(png_track())
            &&& footed.1[png_track()].len() == tags_of(tags.1, png_track()).len() + 1
        }),
{
    reveal(header_marks);
    reveal(palette_marks);
    reveal(pixels_marks);
    reveal(footer_marks);
    let opened = started(tags, png_track(), encode_utf8("png"@), at);
    let signed = png_marked(opened, encode_utf8("signature"@), at, at + 8);
    lemma_marked_any(opened, png_track(), encode_utf8("signature"@), at, at + 8);
    lemma_keeps_ihdr_fields(at + 16);
    lemma_wrapped_stack(signed, encode_utf8("header"@), at + 8, 13, ihdr_fields(at + 16));
    let headed = header_marks(opened, at);
    let (paletted, pixels_at) = match palette {
        Some(p) => (palette_marks(headed, at + 33, p.len() as int), at + 33 + 12 + p.len()),
        None => (headed, at + 33),
    };
    if let Some(p) = palette {
        lemma_keeps_body_marked(encode_utf8("colors"@), at + 33, p.len() as int);
        lemma_wrapped_stack(headed, encode_utf8("palette"@), at + 33, p.len() as int, body_marked(encode_utf8("colors"@), at + 33, p.len() as int));
    }
    let n = zlib_framed(filtered_rows(pixel_data, row_bytes(width as int, depth, color))).len() as int;
    lemma_keeps_body_marked(encode_utf8("zlib"@), pixels_at, n);
    lemma_wrapped_stack(paletted, encode_utf8("pixels"@), pixels_at, n, body_marked(encode_utf8("zlib"@), pixels_at, n));
    lemma_keeps_unmarked();
    lemma_wrapped_stack(pixels_marks(paletted, pixels_at, n), encode_utf8("footer"@), pixels_at + 12 + n, 0, unmarked());
}

/// The tags that [`write_png`] leaves, part by part, are those of
/// [`png_file_marks`].
proof fn lemma_png_file_parts(
    t0: TagState,
    t1: TagState,
    t2: TagState,
    t3: TagState,
    t4: TagState,
    t5: TagState,
    at: int,
    pixel_data: Seq<u8>,
    width: u32,
    depth: BitDepth,
    color: ColorType,
    palette: Option<Seq<u8>>,
)
    requires
        t1 == started(t0, png_track(), encode_utf8("png"@), at),
        t2 == header_marks(t1, at),
        t3 == match palette {
            Some(p) => palette_marks(t2, at + 33, p.len() as int),
            None => t2,
        },
        t4 == pixels_marks(
            t3,
            match palette {
                Some(p) => at + 33 + 12 + p.len(),
                None => at + 33,
            },
            zlib_framed(filtered_rows(pixel_data, row_bytes(width as int, depth, color))).len() as int,
        ),
        t5 == footer_marks(
            t4,
            match palette {
                Some(p) => at + 33 + 12 + p.len(),
                None => at + 33,
            } + 12 + zlib_framed(filtered_rows(pixel_data, row_bytes(width as int, depth, color))).len(),
        ),
    ensures
        closed(
            t5,
            png_track(),
            match palette {
                Some(p) => at + 33 + 12 + p.len(),
                None => at + 33,
            } + 12 + zlib_framed(filtered_rows(pixel_data, row_bytes(width as int, depth, color))).len() + 12,
        ) == png_file_marks(t0, at, pixel_data, width, depth, color, palette),
{
    reveal(png_file_marks);
}

/// The signature and the `IHDR` chunk take 33 bytes.
proof fn lemma_png_header_len(width: u32, height: u32, depth: BitDepth, color: ColorType)
    ensures
        png_header(width, height, depth, color).len() == 33,
{
}

} // verus!
