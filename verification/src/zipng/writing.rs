//! A ZIP/PNG polyglot of a small archive: a PNG image whose private chunk
//! holds a ZIP archive, the archive's comment running over the rest of the
//! PNG file so that ZIP readers find its end record at the end of the file.

use vstd::prelude::*;

use crate::encoding::{push_bytes, push_range, push_repeated, zeros};
use crate::generic::WriteError;
use crate::io::buffer::output_buffer;
use crate::png::data::{BitDepth, ColorType};
use crate::png::palettes::TURBO;
use crate::png::writing::{
    chunk_type_iend, chunk_type_idat, chunk_type_pkpk, chunk_type_plte, filter_rows, filtered_rows,
    filtered_rows_from, png_chunk, png_header, stored_block, stored_blocks, write_non_png_chunk,
    write_png_body, write_png_footer, write_png_header, write_png_palette, zlib_stored,
};
use crate::zip::write_zip::{
    archive_fits, contains_end_signature, end_signature, files_view, lemma_archive_comment,
    lemma_single_file_fits, lemma_zip_archive_len, write_zip, zip_archive, zip_fits,
};

verus! {

/// The `README.md` file that the polyglot's archive holds, as ASCII text:
///
///     \
///     Blocking waiting for file lock on build directory            
///     Compiling zipng v0.20221122.0-dev.4 (C:\Users\_\zipng)
///     Finished dev [unoptimized + debuginfo] target(s) in 3.13s
///     Running `target\debug\examples\poc.exe`
///     2022-11-28T20:55:28.068033Z  INFO zipng::png::data: close, time.busy: 222us, time.idle: 17.1us
pub const POC_README: [u8; 312] = [
    0x5C, 0x0A, 0x42, 0x6C, 0x6F, 0x63, 0x6B, 0x69, 0x6E, 0x67, 0x20, 0x77,
    0x61, 0x69, 0x74, 0x69, 0x6E, 0x67, 0x20, 0x66, 0x6F, 0x72, 0x20, 0x66,
    0x69, 0x6C, 0x65, 0x20, 0x6C, 0x6F, 0x63, 0x6B, 0x20, 0x6F, 0x6E, 0x20,
    0x62, 0x75, 0x69, 0x6C, 0x64, 0x20, 0x64, 0x69, 0x72, 0x65, 0x63, 0x74,
    0x6F, 0x72, 0x79, 0x20, 0x20, 0x20, 0x20, 0x20, 0x20, 0x20, 0x20, 0x20,
    0x20, 0x20, 0x20, 0x0A, 0x43, 0x6F, 0x6D, 0x70, 0x69, 0x6C, 0x69, 0x6E,
    0x67, 0x20, 0x7A, 0x69, 0x70, 0x6E, 0x67, 0x20, 0x76, 0x30, 0x2E, 0x32,
    0x30, 0x32, 0x32, 0x31, 0x31, 0x32, 0x32, 0x2E, 0x30, 0x2D, 0x64, 0x65,
    0x76, 0x2E, 0x34, 0x20, 0x28, 0x43, 0x3A, 0x5C, 0x55, 0x73, 0x65, 0x72,
    0x73, 0x5C, 0x5F, 0x5C, 0x7A, 0x69, 0x70, 0x6E, 0x67, 0x29, 0x0A, 0x46,
    0x69, 0x6E, 0x69, 0x73, 0x68, 0x65, 0x64, 0x20, 0x64, 0x65, 0x76, 0x20,
    0x5B, 0x75, 0x6E, 0x6F, 0x70, 0x74, 0x69, 0x6D, 0x69, 0x7A, 0x65, 0x64,
    0x20, 0x2B, 0x20, 0x64, 0x65, 0x62, 0x75, 0x67, 0x69, 0x6E, 0x66, 0x6F,
    0x5D, 0x20, 0x74, 0x61, 0x72, 0x67, 0x65, 0x74, 0x28, 0x73, 0x29, 0x20,
    0x69, 0x6E, 0x20, 0x33, 0x2E, 0x31, 0x33, 0x73, 0x0A, 0x52, 0x75, 0x6E,
    0x6E, 0x69, 0x6E, 0x67, 0x20, 0x60, 0x74, 0x61, 0x72, 0x67, 0x65, 0x74,
    0x5C, 0x64, 0x65, 0x62, 0x75, 0x67, 0x5C, 0x65, 0x78, 0x61, 0x6D, 0x70,
    0x6C, 0x65, 0x73, 0x5C, 0x70, 0x6F, 0x63, 0x2E, 0x65, 0x78, 0x65, 0x60,
    0x0A, 0x32, 0x30, 0x32, 0x32, 0x2D, 0x31, 0x31, 0x2D, 0x32, 0x38, 0x54,
    0x32, 0x30, 0x3A, 0x35, 0x35, 0x3A, 0x32, 0x38, 0x2E, 0x30, 0x36, 0x38,
    0x30, 0x33, 0x33, 0x5A, 0x20, 0x20, 0x49, 0x4E, 0x46, 0x4F, 0x20, 0x7A,
    0x69, 0x70, 0x6E, 0x67, 0x3A, 0x3A, 0x70, 0x6E, 0x67, 0x3A, 0x3A, 0x64,
    0x61, 0x74, 0x61, 0x3A, 0x20, 0x63, 0x6C, 0x6F, 0x73, 0x65, 0x2C, 0x20,
    0x74, 0x69, 0x6D, 0x65, 0x2E, 0x62, 0x75, 0x73, 0x79, 0x3A, 0x20, 0x32,
    0x32, 0x32, 0x75, 0x73, 0x2C, 0x20, 0x74, 0x69, 0x6D, 0x65, 0x2E, 0x69,
    0x64, 0x6C, 0x65, 0x3A, 0x20, 0x31, 0x37, 0x2E, 0x31, 0x75, 0x73, 0x0A,
];

/// `README.md`
pub open spec fn readme_name() -> Seq<u8> {
    seq![0x52u8, 0x45u8, 0x41u8, 0x44u8, 0x4Du8, 0x45u8, 0x2Eu8, 0x6Du8, 0x64u8]
}

/// The files of the polyglot's archive: `README.md`, holding [`POC_README`].
pub open spec fn poc_files() -> Seq<(Seq<u8>, Seq<u8>)> {
    seq![(readme_name(), POC_README@)]
}

/// The image part of a polyglot: the header of a 32x32 8-bit
/// indexed-color PNG image, the `TURBO` palette, and image data of pixels
/// all of the palette's first color.
#[verifier::opaque]
pub open spec fn polyglot_image() -> Seq<u8> {
    png_header(32, 32, BitDepth::EightBit, ColorType::Indexed) + png_chunk(chunk_type_plte(), TURBO@)
        + png_chunk(chunk_type_idat(), zlib_stored(filtered_rows(zeros(1024), 32)))
}

/// Where the archive of a polyglot written after `pos` bytes starts: after
/// the image and the size and type of the `pkPK` chunk that holds it.
pub open spec fn polyglot_archive_at(pos: int) -> int {
    pos + polyglot_image().len() + 8
}

/// The records of the archive of `files` starting at `at`: its entries,
/// central directory and end record, which declares a comment of 16 bytes.
#[verifier::opaque]
pub open spec fn polyglot_records(at: int, files: Seq<(Seq<u8>, Seq<u8>)>) -> Seq<u8> {
    let archive = zip_archive(at, files, zeros(16));
    archive.subrange(0, archive.len() - 16)
}

/// The polyglot of `files` written after `pos` bytes: the image, the
/// archive's records in a `pkPK` chunk, and the `IEND` chunk.
pub open spec fn polyglot_file(pos: int, files: Seq<(Seq<u8>, Seq<u8>)>) -> Seq<u8> {
    polyglot_image() + png_chunk(chunk_type_pkpk(), polyglot_records(polyglot_archive_at(pos), files))
        + png_chunk(chunk_type_iend(), Seq::empty())
}

/// Whether the polyglot of `files` can be written after `pos` bytes: the
/// archive fits its 32-bit fields and memory (see [`zip_fits`]), and its
/// records fit a chunk's 32-bit length.
pub open spec fn polyglot_fits(pos: int, files: Seq<(Seq<u8>, Seq<u8>)>) -> bool {
    &&& polyglot_archive_at(pos) <= usize::MAX
    &&& zip_fits(polyglot_archive_at(pos), files, zeros(16))
    &&& polyglot_records(polyglot_archive_at(pos), files).len() <= u32::MAX
}

/// The file that [`poc_zipng`] writes: the polyglot of [`poc_files`].
pub open spec fn poc_polyglot() -> Seq<u8> {
    polyglot_file(0, poc_files())
}

/// Splitting data into rows, each behind a filter byte, at most doubles it.
proof fn lemma_filtered_len(data: Seq<u8>, row: int, start: int)
    requires
        row >= 1,
        0 <= start <= data.len(),
    ensures
        filtered_rows_from(data, row, start).len() <= 2 * (data.len() - start),
    decreases data.len() - start,
{
    if start < data.len() && data.len() - start > row {
        lemma_filtered_len(data, row, start + row);
    }
}

/// Data that fits in one stored deflate block makes a zlib stream eleven
/// bytes longer.
proof fn lemma_zlib_stored_len(data: Seq<u8>)
    requires
        0 < data.len() <= 0xFFFF,
    ensures
        zlib_stored(data).len() == data.len() + 11,
{
    assert(data.subrange(0, data.len() as int) =~= data);
    assert(stored_blocks(data) == stored_block(true, data));
}

/// Writes [`polyglot_image`].
fn write_polyglot_image(file: &mut Vec<u8>)
    requires
        old(file)@.len() == 0,
    ensures
        final(file)@ == polyglot_image(),
{
    let _ = write_png_header(file, 32, 32, BitDepth::EightBit, ColorType::Indexed);
    let palette: &[u8] = TURBO.as_slice();
    let _ = write_png_palette(file, palette);
    let mut pixels: Vec<u8> = Vec::new();
    push_repeated(&mut pixels, 0, 1024);
    assert(pixels@ =~= zeros(1024));
    let filtered = filter_rows(pixels.as_slice(), 32);
    proof {
        lemma_filtered_len(pixels@, 32, 0);
        assert(filtered@.len() > 0) by {
            assert(filtered_rows(pixels@, 32) == seq![0u8] + pixels@.subrange(0, 32)
                + filtered_rows_from(pixels@, 32, 32));
        }
        lemma_zlib_stored_len(filtered@);
    }
    let _ = write_png_body(file, filtered.as_slice());
    assert(file@ =~= polyglot_image()) by {
        reveal(polyglot_image);
    }
}

/// The 16 zero bytes that stand in for the archive's comment.
proof fn lemma_no_end_signature(stand_in: Seq<u8>)
    requires
        stand_in =~= zeros(16),
    ensures
        !contains_end_signature(stand_in),
{
    if contains_end_signature(stand_in) {
        let i = choose|i: int|
            0 <= i && i + 4 <= stand_in.len() && #[trigger] stand_in.subrange(i, i + 4) == end_signature();
        assert(stand_in.subrange(i, i + 4)[0] == end_signature()[0]);
    }
}

/// Writes the archive of `files` after `prefix` and a stand-in for the
/// chunk's size and type, with a stand-in comment of 16 bytes, and gives its
/// records (see [`polyglot_records`]); `None` where the polyglot does not
/// fit.
fn build_records(prefix: &[u8], image_len: usize, files: &[(&[u8], &[u8])]) -> (records: Option<Vec<u8>>)
    requires
        image_len == polyglot_image().len(),
        image_len <= prefix@.len(),
        prefix@.len() + 8 <= usize::MAX,
    ensures
        ({
            let pos = prefix@.len() - image_len;
            match records {
                Some(r) => polyglot_fits(pos, files_view(files@)) && r@ == polyglot_records(
                    polyglot_archive_at(pos),
                    files_view(files@),
                ),
                None => !polyglot_fits(pos, files_view(files@)),
            }
        }),
{
    let ghost fv = files_view(files@);
    let ghost pos = prefix@.len() - image_len;
    let at = prefix.len() + 8;
    let stand_in: [u8; 16] = [0; 16];
    proof {
        assert(stand_in@ =~= zeros(16));
        lemma_no_end_signature(stand_in@);
    }
    if !archive_fits(files, stand_in.as_slice(), at) {
        return None;
    }
    let mut scratch = output_buffer();
    scratch.extend(prefix);
    let chunk_start: [u8; 8] = [0; 8];
    scratch.extend(chunk_start.as_slice());
    let _ = write_zip(&mut scratch, files, stand_in.as_slice());
    proof {
        lemma_zip_archive_len(at as int, fv, stand_in@);
    }
    let archive_end = scratch.len() - 16;
    if archive_end - at > 0xFFFF_FFFF {
        proof {
            let archive = zip_archive(at as int, fv, zeros(16));
            assert(scratch.content() =~= prefix@ + zeros(8) + archive);
            reveal(polyglot_records);
        }
        return None;
    }
    let mut records: Vec<u8> = Vec::new();
    push_range(&mut records, scratch.as_slice(), at, archive_end);
    proof {
        let archive = zip_archive(at as int, fv, zeros(16));
        assert(scratch.content() =~= prefix@ + zeros(8) + archive);
        assert(records@ =~= polyglot_records(at as int, fv)) by {
            reveal(polyglot_records);
        }
    }
    Some(records)
}

/// Appends to `output` a ZIP/PNG polyglot of `files`: a 32x32 8-bit
/// indexed-color PNG image using the `TURBO` palette, whose `pkPK` chunk
/// holds the archive's entries, central directory and end record. The end
/// record's comment is the rest of the file (the chunk's checksum and the
/// `IEND` chunk), so the file ends as a ZIP archive does; offsets in the
/// archive are measured from the start of `output`. Returns the number of
/// bytes written, or [`WriteError::Overflow`], writing nothing, where the
/// archive does not fit (see [`polyglot_fits`]).
pub fn write_polyglot(output: &mut Vec<u8>, files: &[(&[u8], &[u8])]) -> (result: Result<usize, WriteError>)
    ensures
        ({
            let pos = old(output)@.len() as int;
            let fv = files_view(files@);
            if polyglot_fits(pos, fv) {
                &&& result == Ok::<usize, WriteError>(polyglot_file(pos, fv).len() as usize)
                &&& final(output)@ == old(output)@ + polyglot_file(pos, fv)
                &&& final(output)@.subrange(polyglot_archive_at(pos), final(output)@.len() as int)
                    == zip_archive(
                    polyglot_archive_at(pos),
                    fv,
                    final(output)@.subrange(final(output)@.len() - 16, final(output)@.len() as int),
                )
            } else {
                &&& result == Err::<usize, WriteError>(WriteError::Overflow)
                &&& final(output)@ == old(output)@
            }
        }),
{
    let ghost pos = output@.len() as int;
    let ghost fv = files_view(files@);
    let mut image: Vec<u8> = Vec::new();
    write_polyglot_image(&mut image);
    proof {
        lemma_polyglot_image_len();
    }
    let start = output.len();
    if start > usize::MAX - 8 - image.len() {
        return Err(WriteError::Overflow);
    }
    let mut prefix: Vec<u8> = Vec::new();
    push_bytes(&mut prefix, output.as_slice());
    push_bytes(&mut prefix, image.as_slice());
    let records = match build_records(prefix.as_slice(), image.len(), files) {
        Some(records) => records,
        None => {
            return Err(WriteError::Overflow);
        },
    };
    push_bytes(output, image.as_slice());
    let _ = write_non_png_chunk(output, records.as_slice());
    let _ = write_png_footer(output);
    proof {
        let at = polyglot_archive_at(pos);
        let all = output@;
        let file = polyglot_file(pos, fv);
        assert(all =~= old(output)@ + file);
        let comment = all.subrange(all.len() - 16, all.len() as int);
        assert(all.subrange(at, all.len() as int) =~= polyglot_records(at, fv) + comment);
        assert(polyglot_records(at, fv) + comment == zip_archive(at, fv, comment)) by {
            reveal(polyglot_records);
            lemma_archive_comment(at, fv, comment, zeros(16));
        }
    }
    Ok(output.len() - start)
}

/// Serializes an archive holding a `README.md` file as a ZIP/PNG polyglot
/// file (see [`write_polyglot`]).
pub fn poc_zipng() -> (result: Result<Vec<u8>, WriteError>)
    ensures
        result matches Ok(file) && file@ == poc_polyglot() && file@.subrange(
            polyglot_archive_at(0),
            file@.len() as int,
        ) == zip_archive(
            polyglot_archive_at(0),
            poc_files(),
            file@.subrange(file@.len() - 16, file@.len() as int),
        ),
{
    let mut file: Vec<u8> = Vec::new();
    let name: [u8; 9] = [0x52, 0x45, 0x41, 0x44, 0x4D, 0x45, 0x2E, 0x6D, 0x64];
    let body: &[u8] = POC_README.as_slice();
    let files: [(&[u8], &[u8]); 1] = [(name.as_slice(), body)];
    proof {
        assert(name@ == readme_name());
        assert(files_view(files@) =~= poc_files());
        lemma_poc_fits();
    }
    let _ = write_polyglot(&mut file, files.as_slice());
    Ok(file)
}

/// The image takes fewer than 4096 bytes.
proof fn lemma_polyglot_image_len()
    ensures
        polyglot_image().len() <= 0x1000,
{
    reveal(polyglot_image);
    lemma_filtered_len(zeros(1024), 32, 0);
    assert(filtered_rows(zeros(1024), 32).len() > 0) by {
        assert(filtered_rows(zeros(1024), 32) == seq![0u8] + zeros(1024).subrange(0, 32)
            + filtered_rows_from(zeros(1024), 32, 32));
    }
    lemma_zlib_stored_len(filtered_rows(zeros(1024), 32));
}

/// The polyglot of the `README.md` archive fits.
proof fn lemma_poc_fits()
    ensures
        polyglot_fits(0, poc_files()),
{
    lemma_polyglot_image_len();
    reveal(polyglot_records);
    lemma_single_file_fits(polyglot_archive_at(0), readme_name(), POC_README@, zeros(16));
}

} // verus!
