//! Serialization of stored (uncompressed) ZIP archives.

use vstd::prelude::*;

use crate::checksums::{crc32, spec_crc32};
use crate::encoding::{
    push_bytes, push_repeated, push_u16_le, push_u32_le, u16_le, u32_le, zeros,
};
use crate::generic::WriteError;
use crate::io::buffer::{
    closed, lemma_marked_stack, marked, same_but_children, started, tags_of, OutputBuffer, TagState,
};
use crate::io::tagged::RangeModel;
use crate::padding::{lemma_padding_for, padding_for, padding_needed};
use vstd::utf8::encode_utf8;

verus! {

/// Non-empty file bodies are aligned and padded to blocks of this many bytes.
pub const BLOCK_SIZE: usize = 1024;

/// The name and body of each file, as byte sequences.
pub open spec fn files_view(files: Seq<(&[u8], &[u8])>) -> Seq<(Seq<u8>, Seq<u8>)> {
    Seq::new(files.len(), |i: int| (files[i].0@, files[i].1@))
}

/// The name of the `mimetype` file of EPUB and OpenDocument packages.
pub open spec fn mimetype_name() -> Seq<u8> {
    seq![0x6Du8, 0x69u8, 0x6Du8, 0x65u8, 0x74u8, 0x79u8, 0x70u8, 0x65u8]
}

/// The signature that ends a ZIP archive: `PK\x05\x06`.
pub open spec fn end_signature() -> Seq<u8> {
    seq![0x50u8, 0x4Bu8, 0x05u8, 0x06u8]
}

/// Whether `bytes` contains the end-of-archive signature anywhere.
pub open spec fn contains_end_signature(bytes: Seq<u8>) -> bool {
    exists|i: int| 0 <= i && i + 4 <= bytes.len() && #[trigger] bytes.subrange(i, i + 4) == end_signature()
}

/// The local file header that precedes a file's body.
pub open spec fn local_header(name: Seq<u8>, body: Seq<u8>) -> Seq<u8> {
    seq![0x50u8, 0x4Bu8, 0x03u8, 0x04u8] + u16_le(10) + zeros(4) + seq![
        0x50u8,
        0x4Bu8,
        0x50u8,
        0x4Bu8,
    ] + u32_le(spec_crc32(body)) + u32_le(body.len() as u32) + u32_le(body.len() as u32)
        + u16_le(name.len() as u16) + zeros(2) + name
}

/// Whether a file's header and body are aligned to [`BLOCK_SIZE`] blocks:
/// every file with a body, except the `mimetype` file.
pub open spec fn is_aligned_entry(name: Seq<u8>, body: Seq<u8>) -> bool {
    body.len() > 0 && name != mimetype_name()
}

/// The bytes written for one file whose entry starts at offset `pos`: its
/// local header and body, for aligned entries preceded by zeros so that the
/// header ends at a block boundary and followed by zeros up to the next one.
pub open spec fn local_entry(pos: int, name: Seq<u8>, body: Seq<u8>) -> Seq<u8> {
    let header = local_header(name, body);
    if is_aligned_entry(name, body) {
        let lead = padding_for(pos + header.len(), BLOCK_SIZE as int);
        let body_end = pos + lead + header.len() + body.len();
        zeros(lead as nat) + header + body + zeros(padding_for(body_end, BLOCK_SIZE as int) as nat)
    } else {
        header + body
    }
}

/// The local entries of `files`, written one after the other from offset
/// `pos`.
pub open spec fn local_section(pos: int, files: Seq<(Seq<u8>, Seq<u8>)>) -> Seq<u8>
    decreases files.len(),
{
    if files.len() == 0 {
        Seq::empty()
    } else {
        let before = local_section(pos, files.drop_last());
        before + local_entry(pos + before.len(), files.last().0, files.last().1)
    }
}

/// The offset at which the entry of file `i` starts (before any padding).
pub open spec fn entry_offset(pos: int, files: Seq<(Seq<u8>, Seq<u8>)>, i: int) -> int {
    pos + local_section(pos, files.take(i)).len()
}

/// Where the local header of a file whose entry starts at `pos` begins:
/// after the leading padding, for aligned entries.
pub open spec fn header_start(pos: int, name: Seq<u8>, body: Seq<u8>) -> int {
    if is_aligned_entry(name, body) {
        pos + padding_for(pos + local_header(name, body).len(), BLOCK_SIZE as int)
    } else {
        pos
    }
}

/// The offset of the local header of file `i`: what the central directory
/// records for it.
pub open spec fn header_offset(pos: int, files: Seq<(Seq<u8>, Seq<u8>)>, i: int) -> int {
    header_start(entry_offset(pos, files, i), files[i].0, files[i].1)
}

/// The central directory record of one file.
pub open spec fn central_header(name: Seq<u8>, body: Seq<u8>, offset: int) -> Seq<u8> {
    seq![0x50u8, 0x4Bu8, 0x01u8, 0x02u8] + u16_le(10) + u16_le(10) + zeros(4) + seq![
        0x50u8,
        0x4Bu8,
        0x50u8,
        0x4Bu8,
    ] + u32_le(spec_crc32(body)) + u32_le(body.len() as u32) + u32_le(body.len() as u32)
        + u16_le(name.len() as u16) + zeros(12) + u32_le(offset as u32) + name
}

/// The central directory records of the first `n` files.
pub open spec fn central_directory(pos: int, files: Seq<(Seq<u8>, Seq<u8>)>, n: int) -> Seq<u8>
    decreases n,
{
    if n <= 0 {
        Seq::empty()
    } else {
        central_directory(pos, files, n - 1) + central_header(
            files[n - 1].0,
            files[n - 1].1,
            header_offset(pos, files, n - 1),
        )
    }
}

/// The end of central directory record, followed by the archive comment.
pub open spec fn end_record(count: int, directory_len: int, directory_offset: int, comment: Seq<
    u8,
>) -> Seq<u8> {
    end_signature() + zeros(4) + u16_le(count as u16) + u16_le(count as u16) + u32_le(
        directory_len as u32,
    ) + u32_le(directory_offset as u32) + u16_le(comment.len() as u16) + comment
}

/// The archive written for `files` from offset `pos`, ending with `suffix` as
/// the archive comment.
pub open spec fn zip_archive(pos: int, files: Seq<(Seq<u8>, Seq<u8>)>, suffix: Seq<u8>) -> Seq<u8> {
    let local = local_section(pos, files);
    let directory = central_directory(pos, files, files.len() as int);
    local + directory + end_record(files.len() as int, directory.len() as int, pos + local.len(), suffix)
}

/// Whether every count, length and offset of the archive fits in its field,
/// and the whole archive fits in memory after `pos` bytes.
pub open spec fn zip_fits(pos: int, files: Seq<(Seq<u8>, Seq<u8>)>, suffix: Seq<u8>) -> bool {
    let local = local_section(pos, files);
    let directory = central_directory(pos, files, files.len() as int);
    &&& 0 <= pos
    &&& files.len() <= u16::MAX
    &&& suffix.len() <= u16::MAX
    &&& forall|i: int|
        0 <= i < files.len() ==> (#[trigger] files[i]).0.len() <= u16::MAX && files[i].1.len()
            <= u32::MAX
    &&& forall|i: int| 0 <= i < files.len() ==> #[trigger] header_offset(pos, files, i) <= u32::MAX
    &&& pos + local.len() <= u32::MAX
    &&& directory.len() <= u32::MAX
    &&& pos + zip_archive(pos, files, suffix).len() + BLOCK_SIZE <= usize::MAX
}

/// Each entry only adds bytes: the section for a prefix of the files is no
/// longer than the section for a longer prefix.
pub proof fn lemma_local_section_grows(pos: int, files: Seq<(Seq<u8>, Seq<u8>)>, i: int, j: int)
    requires
        0 <= i <= j <= files.len(),
    ensures
        local_section(pos, files.take(i)).len() <= local_section(pos, files.take(j)).len(),
    decreases j - i,
{
    if i < j {
        lemma_local_section_grows(pos, files, i, j - 1);
        assert(files.take(j).drop_last() =~= files.take(j - 1));
    }
}

/// The central directory for a prefix of the files is no longer than for a
/// longer prefix.
pub proof fn lemma_central_directory_grows(pos: int, files: Seq<(Seq<u8>, Seq<u8>)>, i: int, j: int)
    requires
        0 <= i <= j,
    ensures
        central_directory(pos, files, i).len() <= central_directory(pos, files, j).len(),
    decreases j - i,
{
    if i < j {
        lemma_central_directory_grows(pos, files, i, j - 1);
    }
}

/// An archive differs from one with another comment of the same length only
/// in the comment: what comes before it does not depend on the comment's
/// bytes.
pub proof fn lemma_archive_comment(
    pos: int,
    files: Seq<(Seq<u8>, Seq<u8>)>,
    comment: Seq<u8>,
    other: Seq<u8>,
)
    requires
        comment.len() == other.len(),
    ensures
        zip_archive(pos, files, comment) == zip_archive(pos, files, other).subrange(
            0,
            zip_archive(pos, files, other).len() - other.len(),
        ) + comment,
{
    let local = local_section(pos, files);
    let directory = central_directory(pos, files, files.len() as int);
    let head = end_head(files.len() as int, directory.len() as int, pos + local.len(), other.len() as int);
    assert(end_record(files.len() as int, directory.len() as int, pos + local.len(), other) =~= head
        + other);
    assert(end_record(files.len() as int, directory.len() as int, pos + local.len(), comment)
        =~= head + comment);
    let archive = zip_archive(pos, files, other);
    assert(archive.subrange(0, archive.len() - other.len()) =~= local + directory + head);
    assert(zip_archive(pos, files, comment) =~= local + directory + head + comment);
}

/// An archive of one file, written after `pos` bytes, fits when the offset,
/// the name, the body and the comment are small; it then takes at most two
/// blocks of padding and 100 bytes beyond two copies of the name, the body
/// and the comment.
pub proof fn lemma_single_file_fits(pos: int, name: Seq<u8>, body: Seq<u8>, comment: Seq<u8>)
    requires
        0 <= pos <= 0x1000_0000,
        name.len() <= 0xFFFF,
        body.len() <= 0x1000_0000,
        comment.len() <= 0xFFFF,
    ensures
        zip_fits(pos, seq![(name, body)], comment),
        zip_archive(pos, seq![(name, body)], comment).len() <= 2 * BLOCK_SIZE + 100 + 2 * name.len()
            + body.len() + comment.len(),
{
    let files = seq![(name, body)];
    assert(files.drop_last() =~= Seq::<(Seq<u8>, Seq<u8>)>::empty());
    assert(files.take(0) =~= Seq::<(Seq<u8>, Seq<u8>)>::empty());
    let header = local_header(name, body);
    assert(header.len() == 30 + name.len());
    lemma_padding_for(pos + header.len(), BLOCK_SIZE as int);
    let lead = padding_for(pos + header.len(), BLOCK_SIZE as int);
    lemma_padding_for(pos + lead + header.len() + body.len(), BLOCK_SIZE as int);
    let local = local_section(pos, files);
    assert(local_section(pos, files.drop_last()) =~= Seq::<u8>::empty());
    assert(files.last() == (name, body));
    assert(local =~= local_entry(pos, name, body));
    assert(local.len() <= 2 * BLOCK_SIZE + 30 + name.len() + body.len());
    assert(local_section(pos, files.take(0)) =~= Seq::<u8>::empty());
    assert(entry_offset(pos, files, 0) == pos);
    assert(header_offset(pos, files, 0) <= pos + BLOCK_SIZE);
    assert forall|i: int| 0 <= i < files.len() implies #[trigger] header_offset(pos, files, i) <= u32::MAX by {
        assert(i == 0);
    }
    assert forall|i: int| 0 <= i < files.len() implies (#[trigger] files[i]).0.len() <= u16::MAX
        && files[i].1.len() <= u32::MAX by {
        assert(i == 0);
    }
    let directory = central_directory(pos, files, 1);
    assert(central_directory(pos, files, 0) =~= Seq::<u8>::empty());
    assert(directory.len() == 46 + name.len());
    lemma_zip_archive_len(pos, files, comment);
}

fn is_mimetype(name: &[u8]) -> (result: bool)
    ensures
        result == (name@ == mimetype_name()),
{
    let expected: [u8; 8] = [0x6D, 0x69, 0x6D, 0x65, 0x74, 0x79, 0x70, 0x65];
    assert(expected@ == mimetype_name());
    if name.len() != 8 {
        return false;
    }
    let mut i: usize = 0;
    while i < 8
        invariant
            name@.len() == 8,
            expected@ == mimetype_name(),
            i <= 8,
            forall|k: int| 0 <= k < i ==> name@[k] == expected@[k],
        decreases 8 - i,
    {
        if name[i] != expected[i] {
            return false;
        }
        i = i + 1;
    }
    assert(name@ =~= mimetype_name());
    true
}

/// Whether `bytes` contains the end-of-archive signature `PK\x05\x06`.
pub fn has_end_signature(bytes: &[u8]) -> (found: bool)
    ensures
        found == contains_end_signature(bytes@),
{
    if bytes.len() < 4 {
        return false;
    }
    let mut i: usize = 0;
    let last = bytes.len() - 4;
    while i <= last
        invariant
            last + 4 == bytes@.len(),
            forall|k: int| 0 <= k < i ==> #[trigger] bytes@.subrange(k, k + 4) != end_signature(),
            i <= bytes@.len(),
        decreases bytes@.len() - i,
    {
        if bytes[i] == 0x50 && bytes[i + 1] == 0x4B && bytes[i + 2] == 0x05 && bytes[i + 3] == 0x06 {
            assert(bytes@.subrange(i as int, i + 4) =~= end_signature());
            return true;
        }
        assert(bytes@.subrange(i as int, i + 4)[0] == bytes@[i as int]);
        assert(bytes@.subrange(i as int, i + 4)[1] == bytes@[i + 1]);
        assert(bytes@.subrange(i as int, i + 4)[2] == bytes@[i + 2]);
        assert(bytes@.subrange(i as int, i + 4)[3] == bytes@[i + 3]);
        i = i + 1;
    }
    false
}

fn build_local_header(name: &[u8], body: &[u8]) -> (header: Vec<u8>)
    requires
        name@.len() <= u16::MAX,
        body@.len() <= u32::MAX,
    ensures
        header@ == local_header(name@, body@),
{
    let mut header: Vec<u8> = Vec::new();
    // local file header signature
    push_bytes(&mut header, &[0x50, 0x4B, 0x03, 0x04]);
    // version needed to extract
    push_u16_le(&mut header, 10);
    // general purpose bit flag, compression method (stored)
    push_repeated(&mut header, 0, 4);
    // modification time and date
    push_bytes(&mut header, &[0x50, 0x4B, 0x50, 0x4B]);
    // checksum
    push_u32_le(&mut header, crc32(body));
    // compressed and uncompressed size
    push_u32_le(&mut header, body.len() as u32);
    push_u32_le(&mut header, body.len() as u32);
    // file name length
    push_u16_le(&mut header, name.len() as u16);
    // extra fields length
    push_repeated(&mut header, 0, 2);
    // file name
    push_bytes(&mut header, name);
    assert(header@ =~= local_header(name@, body@));
    header
}

fn build_central_header(name: &[u8], body: &[u8], offset: u32) -> (header: Vec<u8>)
    requires
        name@.len() <= u16::MAX,
        body@.len() <= u32::MAX,
    ensures
        header@ == central_header(name@, body@, offset as int),
{
    let mut header: Vec<u8> = Vec::new();
    // central file header signature
    push_bytes(&mut header, &[0x50, 0x4B, 0x01, 0x02]);
    // creator version and platform, required version
    push_u16_le(&mut header, 10);
    push_u16_le(&mut header, 10);
    // general purpose bit flag, compression method
    push_repeated(&mut header, 0, 4);
    // modification time and date
    push_bytes(&mut header, &[0x50, 0x4B, 0x50, 0x4B]);
    // checksum
    push_u32_le(&mut header, crc32(body));
    // compressed and uncompressed size
    push_u32_le(&mut header, body.len() as u32);
    push_u32_le(&mut header, body.len() as u32);
    // file name length
    push_u16_le(&mut header, name.len() as u16);
    // extra field, comment length, disk number, internal and external
    // attributes
    push_repeated(&mut header, 0, 12);
    // local file header offset
    push_u32_le(&mut header, offset);
    // file name
    push_bytes(&mut header, name);
    assert(header@ =~= central_header(name@, body@, offset as int));
    header
}

/// The track on which archives mark their parts.
pub open spec fn zip_track() -> Seq<u8> {
    encode_utf8("zip"@)
}

/// The tags after the entry of a file is written from `at`: an aligned
/// entry is not marked; any other has its local header marked `file-header`
/// and its body `file-body`.
pub open spec fn entry_marks(tags: TagState, at: int, name: Seq<u8>, body: Seq<u8>) -> TagState {
    if is_aligned_entry(name, body) {
        tags
    } else {
        let header_end = at + local_header(name, body).len();
        marked(
            marked(tags, zip_track(), encode_utf8("file-header"@), at, header_end),
            zip_track(),
            encode_utf8("file-body"@),
            header_end,
            header_end + body.len(),
        )
    }
}

/// The tags after the entries of the first `n` files are written from
/// `pos`.
pub open spec fn entries_marks(tags: TagState, pos: int, files: Seq<(Seq<u8>, Seq<u8>)>, n: int) -> TagState
    decreases n,
{
    if n <= 0 {
        tags
    } else {
        entry_marks(
            entries_marks(tags, pos, files, n - 1),
            entry_offset(pos, files, n - 1),
            files[n - 1].0,
            files[n - 1].1,
        )
    }
}

/// The tags after an archive is written from `pos`: the whole archive is
/// marked `zip` on the `zip` track, and inside it the entries (see
/// [`entry_marks`]), the central directory (`index`), the end record
/// (`index-terminator`) and the comment (`comment`).
pub open spec fn zip_marks(tags: TagState, pos: int, files: Seq<(Seq<u8>, Seq<u8>)>, suffix: Seq<u8>) -> TagState {
    let local_end = pos + local_section(pos, files).len();
    let directory_end = local_end + central_directory(pos, files, files.len() as int).len();
    let record_end = directory_end + 22;
    let end = record_end + suffix.len();
    let entries = entries_marks(started(tags, zip_track(), zip_track(), pos), pos, files, files.len() as int);
    let indexed = marked(entries, zip_track(), encode_utf8("index"@), local_end, directory_end);
    let terminated = marked(indexed, zip_track(), encode_utf8("index-terminator"@), directory_end, record_end);
    closed(marked(terminated, zip_track(), encode_utf8("comment"@), record_end, end), zip_track(), end)
}

/// Writes `count` zero bytes.
fn extend_zeros(output: &mut OutputBuffer, count: usize)
    requires
        old(output).wf(),
    ensures
        final(output).wf(),
        final(output).content() == old(output).content() + zeros(count as nat),
        final(output).complete() == old(output).complete(),
        final(output).open_tags() == old(output).open_tags(),
{
    let mut pad: Vec<u8> = Vec::new();
    push_repeated(&mut pad, 0, count);
    assert(pad@ =~= zeros(count as nat));
    output.extend(pad.as_slice());
}

/// Writes `data` marked as `tag` on the `zip` track.
fn extend_marked(output: &mut OutputBuffer, tag: &str, data: &[u8])
    requires
        old(output).wf(),
    ensures
        final(output).wf(),
        final(output).content() == old(output).content() + data@,
        (final(output).complete(), final(output).open_tags()) == marked(
            (old(output).complete(), old(output).open_tags()),
            zip_track(),
            encode_utf8(tag@),
            old(output).content().len() as int,
            (old(output).content().len() + data@.len()) as int,
        ),
{
    output.start("zip", tag);
    output.extend(data);
    output.end("zip", tag);
}

/// Writes the entry of one file at the end of `output` (see
/// [`local_entry`]) and gives the offset of its local header.
fn write_local_entry(output: &mut OutputBuffer, name: &[u8], body: &[u8]) -> (header_at: usize)
    requires
        old(output).wf(),
        name@.len() <= u16::MAX,
        body@.len() <= u32::MAX,
        old(output).content().len() + local_entry(old(output).content().len() as int, name@, body@).len()
            + BLOCK_SIZE <= usize::MAX,
    ensures
        final(output).wf(),
        final(output).content() == old(output).content() + local_entry(
            old(output).content().len() as int,
            name@,
            body@,
        ),
        (final(output).complete(), final(output).open_tags()) == entry_marks(
            (old(output).complete(), old(output).open_tags()),
            old(output).content().len() as int,
            name@,
            body@,
        ),
        header_at == header_start(old(output).content().len() as int, name@, body@),
{
    let header = build_local_header(name, body);
    let at = output.len();
    let ghost pos = at as int;
    if body.len() != 0 && !is_mimetype(name) {
        let lead = padding_needed(at + header.len(), BLOCK_SIZE);
        proof {
            lemma_padding_for(pos + header@.len(), BLOCK_SIZE as int);
        }
        extend_zeros(output, lead);
        let header_at = output.len();
        output.extend(header.as_slice());
        output.extend(body);
        let body_end = output.len();
        let trail = padding_needed(body_end, BLOCK_SIZE);
        extend_zeros(output, trail);
        assert(output.content() =~= old(output).content() + local_entry(pos, name@, body@));
        header_at
    } else {
        extend_marked(output, "file-header", header.as_slice());
        extend_marked(output, "file-body", body);
        assert(output.content() =~= old(output).content() + local_entry(pos, name@, body@));
        at
    }
}

/// Writes the entries of `files` one after the other, and gives the offset
/// of each one's local header.
fn write_local_section(output: &mut OutputBuffer, files: &[(&[u8], &[u8])], suffix: &[u8]) -> (offsets:
    Vec<usize>)
    requires
        old(output).wf(),
        zip_fits(old(output).content().len() as int, files_view(files@), suffix@),
    ensures
        final(output).wf(),
        final(output).content() == old(output).content() + local_section(
            old(output).content().len() as int,
            files_view(files@),
        ),
        (final(output).complete(), final(output).open_tags()) == entries_marks(
            (old(output).complete(), old(output).open_tags()),
            old(output).content().len() as int,
            files_view(files@),
            files@.len() as int,
        ),
        offsets@.len() == files@.len(),
        forall|k: int|
            0 <= k < files@.len() ==> offsets@[k] == header_offset(
                old(output).content().len() as int,
                files_view(files@),
                k,
            ),
{
    let ghost pos = output.content().len() as int;
    let ghost fv = files_view(files@);
    let ghost tags = (output.complete(), output.open_tags());
    let mut offsets: Vec<usize> = Vec::new();
    let mut i: usize = 0;
    assert(fv.take(0) =~= Seq::<(Seq<u8>, Seq<u8>)>::empty());
    while i < files.len()
        invariant
            fv == files_view(files@),
            pos == old(output).content().len(),
            tags == (old(output).complete(), old(output).open_tags()),
            zip_fits(pos, fv, suffix@),
            i <= files@.len(),
            output.wf(),
            output.content() == old(output).content() + local_section(pos, fv.take(i as int)),
            (output.complete(), output.open_tags()) == entries_marks(tags, pos, fv, i as int),
            offsets@.len() == i,
            forall|k: int| 0 <= k < i ==> offsets@[k] == header_offset(pos, fv, k),
        decreases files@.len() - i,
    {
        let name = files[i].0;
        let body = files[i].1;
        assert(fv[i as int] == (name@, body@));
        assert(fv.take(i + 1).drop_last() =~= fv.take(i as int));
        proof {
            lemma_local_section_grows(pos, fv, i + 1, fv.len() as int);
            assert(fv.take(fv.len() as int) =~= fv);
        }
        let header_at = write_local_entry(output, name, body);
        offsets.push(header_at);
        i = i + 1;
        assert(output.content() =~= old(output).content() + local_section(pos, fv.take(i as int)));
    }
    assert(fv.take(fv.len() as int) =~= fv);
    offsets
}

fn build_central_directory(
    files: &[(&[u8], &[u8])],
    offsets: &Vec<usize>,
    pos: usize,
    suffix: &[u8],
) -> (directory: Vec<u8>)
    requires
        zip_fits(pos as int, files_view(files@), suffix@),
        offsets@.len() == files@.len(),
        forall|k: int|
            0 <= k < files@.len() ==> offsets@[k] == header_offset(
                pos as int,
                files_view(files@),
                k,
            ),
    ensures
        directory@ == central_directory(pos as int, files_view(files@), files@.len() as int),
{
    let ghost fv = files_view(files@);
    let mut directory: Vec<u8> = Vec::new();
    let mut j: usize = 0;
    while j < files.len()
        invariant
            fv == files_view(files@),
            zip_fits(pos as int, fv, suffix@),
            j <= files@.len(),
            offsets@.len() == files@.len(),
            forall|k: int| 0 <= k < files@.len() ==> offsets@[k] == header_offset(pos as int, fv, k),
            directory@ == central_directory(pos as int, fv, j as int),
        decreases files@.len() - j,
    {
        let name = files[j].0;
        let body = files[j].1;
        assert(fv[j as int] == (name@, body@));
        proof {
            lemma_central_directory_grows(pos as int, fv, j + 1, fv.len() as int);
        }
        let header = build_central_header(name, body, offsets[j] as u32);
        push_bytes(&mut directory, header.as_slice());
        j = j + 1;
    }
    directory
}

/// The end of central directory record without the comment.
pub open spec fn end_head(count: int, directory_len: int, directory_offset: int, comment_len: int) -> Seq<u8> {
    end_signature() + zeros(4) + u16_le(count as u16) + u16_le(count as u16) + u32_le(
        directory_len as u32,
    ) + u32_le(directory_offset as u32) + u16_le(comment_len as u16)
}

fn build_end_head(count: usize, directory_len: usize, directory_offset: usize, comment_len: usize) -> (head: Vec<u8>)
    requires
        count <= u16::MAX,
        directory_len <= u32::MAX,
        directory_offset <= u32::MAX,
        comment_len <= u16::MAX,
    ensures
        head@ == end_head(count as int, directory_len as int, directory_offset as int, comment_len as int),
        head@.len() == 22,
{
    let mut head: Vec<u8> = Vec::new();
    // end of central directory signature
    push_bytes(&mut head, &[0x50, 0x4B, 0x05, 0x06]);
    // disk numbers
    push_repeated(&mut head, 0, 4);
    // directory entries on this disk, and in total
    push_u16_le(&mut head, count as u16);
    push_u16_le(&mut head, count as u16);
    // central directory length and offset
    push_u32_le(&mut head, directory_len as u32);
    push_u32_le(&mut head, directory_offset as u32);
    // archive comment length
    push_u16_le(&mut head, comment_len as u16);
    assert(head@ =~= end_head(count as int, directory_len as int, directory_offset as int, comment_len as int));
    head
}

/// Writes `files` to `output` as a ZIP archive of stored (uncompressed)
/// entries, with `suffix` as the archive comment. Every non-empty file other
/// than `mimetype` has its local header and body aligned to [`BLOCK_SIZE`]
/// blocks. Offsets in the archive are measured from the start of `output`.
/// The parts of the archive are marked on the `zip` track (see
/// [`zip_marks`]). Returns the number of bytes written.
pub fn write_zip(output: &mut OutputBuffer, files: &[(&[u8], &[u8])], suffix: &[u8]) -> (written:
    Result<usize, WriteError>)
    requires
        old(output).wf(),
        !contains_end_signature(suffix@),
        zip_fits(old(output).content().len() as int, files_view(files@), suffix@),
    ensures
        final(output).wf(),
        final(output).content() == old(output).content() + zip_archive(
            old(output).content().len() as int,
            files_view(files@),
            suffix@,
        ),
        (final(output).complete(), final(output).open_tags()) == zip_marks(
            (old(output).complete(), old(output).open_tags()),
            old(output).content().len() as int,
            files_view(files@),
            suffix@,
        ),
        written == Ok::<usize, WriteError>(
            zip_archive(old(output).content().len() as int, files_view(files@), suffix@).len() as usize,
        ),
{
    let ghost fv = files_view(files@);
    let ghost tags = (output.complete(), output.open_tags());
    let start = output.len();
    output.start("zip", "zip");
    let ghost opened = (output.complete(), output.open_tags());
    let offsets = write_local_section(output, files, suffix);
    let directory = build_central_directory(files, &offsets, start, suffix);
    let directory_offset = output.len();
    proof {
        lemma_entries_marks_stack(opened, start as int, fv, fv.len() as int);
        lemma_zip_archive_len(start as int, fv, suffix@);
    }
    extend_marked(output, "index", directory.as_slice());
    proof {
        lemma_marked_stack(
            entries_marks(opened, start as int, fv, fv.len() as int),
            zip_track(),
            encode_utf8("index"@),
            directory_offset as int,
            directory_offset + directory@.len(),
        );
    }
    let head = build_end_head(files.len(), directory.len(), directory_offset, suffix.len());
    let ghost indexed = (output.complete(), output.open_tags());
    extend_marked(output, "index-terminator", head.as_slice());
    proof {
        lemma_marked_stack(
            indexed,
            zip_track(),
            encode_utf8("index-terminator"@),
            output.content().len() - 22,
            output.content().len() as int,
        );
    }
    extend_marked(output, "comment", suffix);
    proof {
        lemma_marked_stack(
            (output.complete(), output.open_tags()),
            zip_track(),
            encode_utf8("comment"@),
            0,
            0,
        );
    }
    output.end("zip", "zip");
    assert(output.content() =~= old(output).content() + zip_archive(start as int, fv, suffix@));
    let end = output.len();
    Ok(end - start)
}

/// Writing an archive into a buffer with no open range on the `zip` track
/// adds one complete root to that track: named `zip`, with no ancestors,
/// spanning exactly the archive.
pub proof fn law_archive_marked(tags: TagState, pos: int, files: Seq<(Seq<u8>, Seq<u8>)>, suffix: Seq<u8>)
    requires
        tags_of(tags.1, zip_track()).len() == 0,
    ensures
        ({
            let after = zip_marks(tags, pos, files, suffix);
            let roots = tags_of(tags.0, zip_track());
            let end = pos + zip_archive(pos, files, suffix).len();
            &&& after.0.contains_key(zip_track())
            &&& after.0[zip_track()].len() == roots.len() + 1
            &&& after.0[zip_track()].take(roots.len() as int) == roots
            &&& after.0[zip_track()].last().start == pos
            &&& after.0[zip_track()].last().end == end
            &&& after.0[zip_track()].last().depth == 0
            &&& after.0[zip_track()].last().name == zip_track()
            &&& after.1[zip_track()].len() == 0
        }),
{
    let track = zip_track();
    let opened = started(tags, track, track, pos);
    assert(opened.1[track] =~= seq![RangeModel { start: pos, end: usize::MAX as int, depth: 0, name: track, children: Seq::empty() }]);
    lemma_entries_marks_stack(opened, pos, files, files.len() as int);
    let local_end = pos + local_section(pos, files).len();
    let directory_end = local_end + central_directory(pos, files, files.len() as int).len();
    let record_end = directory_end + 22;
    let end = record_end + suffix.len();
    let entries = entries_marks(opened, pos, files, files.len() as int);
    let indexed = marked(entries, track, encode_utf8("index"@), local_end, directory_end);
    lemma_marked_stack(entries, track, encode_utf8("index"@), local_end, directory_end);
    let terminated = marked(indexed, track, encode_utf8("index-terminator"@), directory_end, record_end);
    lemma_marked_stack(indexed, track, encode_utf8("index-terminator"@), directory_end, record_end);
    let commented = marked(terminated, track, encode_utf8("comment"@), record_end, end);
    lemma_marked_stack(terminated, track, encode_utf8("comment"@), record_end, end);
    lemma_zip_archive_len(pos, files, suffix);
    assert(commented.1[track].len() == 1);
    assert(commented.0 == tags.0);
    let after = closed(commented, track, end);
    assert(after.0[track] == tags_of(tags.0, track).push(crate::io::tagged::ended(commented.1[track].last(), end)));
    assert(after.0[track].take(tags_of(tags.0, track).len() as int) =~= tags_of(tags.0, track));
    assert(after.1[track] =~= Seq::<RangeModel>::empty());
}

/// Writing entries leaves the stack of the `zip` track as long as it was,
/// and its innermost range where and what it was.
proof fn lemma_entries_marks_stack(tags: TagState, pos: int, files: Seq<(Seq<u8>, Seq<u8>)>, n: int)
    requires
        tags.1.contains_key(zip_track()),
        tags.1[zip_track()].len() > 0,
    ensures
        entries_marks(tags, pos, files, n).1.contains_key(zip_track()),
        entries_marks(tags, pos, files, n).1[zip_track()].len() == tags.1[zip_track()].len(),
        same_but_children(entries_marks(tags, pos, files, n).1[zip_track()].last(), tags.1[zip_track()].last()),
        entries_marks(tags, pos, files, n).0 == tags.0,
    decreases n,
{
    if n > 0 {
        lemma_entries_marks_stack(tags, pos, files, n - 1);
        let before = entries_marks(tags, pos, files, n - 1);
        let (name, body) = (files[n - 1].0, files[n - 1].1);
        if !is_aligned_entry(name, body) {
            let at = entry_offset(pos, files, n - 1);
            let header_end = at + local_header(name, body).len();
            lemma_marked_stack(before, zip_track(), encode_utf8("file-header"@), at, header_end);
            lemma_marked_stack(
                marked(before, zip_track(), encode_utf8("file-header"@), at, header_end),
                zip_track(),
                encode_utf8("file-body"@),
                header_end,
                header_end + body.len(),
            );
        }
    }
}

proof fn lemma_header_lengths(name: Seq<u8>, body: Seq<u8>, offset: int)
    ensures
        local_header(name, body).len() == 30 + name.len(),
        central_header(name, body, offset).len() == 46 + name.len(),
{
}

fn entry_length(cur: u64, name: &[u8], body: &[u8]) -> (lengths: (u64, u64))
    requires
        cur <= u32::MAX,
        name@.len() <= u16::MAX,
        body@.len() <= u32::MAX,
    ensures
        lengths.0 == header_start(cur as int, name@, body@) - cur,
        lengths.0 < 1024,
        lengths.1 == local_entry(cur as int, name@, body@).len(),
        lengths.1 <= 30 + 0xFFFF + 0xFFFF_FFFF + 2048,
{
    proof {
        lemma_header_lengths(name@, body@, 0);
    }
    let header_len = 30 + name.len() as u64;
    if body.len() != 0 && !is_mimetype(name) {
        let header_end = cur + header_len;
        let lead: u64 = if header_end % 1024 != 0 {
            1024 - header_end % 1024
        } else {
            0
        };
        let body_end = cur + lead + header_len + body.len() as u64;
        let trail: u64 = if body_end % 1024 != 0 {
            1024 - body_end % 1024
        } else {
            0
        };
        (lead, lead + header_len + body.len() as u64 + trail)
    } else {
        (0, header_len + body.len() as u64)
    }
}

/// The archive is its local section, its central directory, and the end
/// record with the comment.
pub proof fn lemma_zip_archive_len(pos: int, files: Seq<(Seq<u8>, Seq<u8>)>, suffix: Seq<u8>)
    ensures
        zip_archive(pos, files, suffix).len() == local_section(pos, files).len()
            + central_directory(pos, files, files.len() as int).len() + 22 + suffix.len(),
{
}

/// Whether [`write_zip`] can write `files` with `suffix` after `pos` bytes
/// of output: every count, length and offset fits in its field (see
/// [`zip_fits`]).
pub fn archive_fits(files: &[(&[u8], &[u8])], suffix: &[u8], pos: usize) -> (fits: bool)
    ensures
        fits == zip_fits(pos as int, files_view(files@), suffix@),
{
    let ghost fv = files_view(files@);
    if files.len() > 0xFFFF || suffix.len() > 0xFFFF {
        return false;
    }
    let mut cur: u64 = pos as u64;
    let mut directory: u64 = 0;
    let mut i: usize = 0;
    while i < files.len()
        invariant
            fv == files_view(files@),
            files@.len() <= 0xFFFF,
            i <= files@.len(),
            cur == pos + local_section(pos as int, fv.take(i as int)).len(),
            i > 0 ==> cur <= 0xFFFF_FFFF + 30 + 0xFFFF + 0xFFFF_FFFF + 2048,
            i == 0 ==> cur == pos,
            directory == central_directory(pos as int, fv, i as int).len(),
            directory <= i * (46 + 0xFFFF),
            forall|k: int|
                0 <= k < i ==> (#[trigger] fv[k]).0.len() <= u16::MAX && fv[k].1.len() <= u32::MAX,
            forall|k: int| 0 <= k < i ==> #[trigger] header_offset(pos as int, fv, k) <= u32::MAX,
        decreases files@.len() - i,
    {
        let name = files[i].0;
        let body = files[i].1;
        assert(fv[i as int] == (name@, body@));
        if name.len() > 0xFFFF || body.len() > 0xFFFF_FFFF {
            return false;
        }
        if cur > 0xFFFF_FFFF {
            assert(header_offset(pos as int, fv, i as int) > u32::MAX);
            return false;
        }
        let (lead, entry_len) = entry_length(cur, name, body);
        if cur + lead > 0xFFFF_FFFF {
            assert(header_offset(pos as int, fv, i as int) > u32::MAX);
            return false;
        }
        proof {
            assert(fv.take(i + 1).drop_last() =~= fv.take(i as int));
            lemma_header_lengths(name@, body@, header_offset(pos as int, fv, i as int));
            assert(directory + 46 + name@.len() <= (i + 1) * (46 + 0xFFFF)) by (nonlinear_arith)
                requires
                    directory <= i * (46 + 0xFFFF),
                    name@.len() <= 0xFFFF,
            ;
        }
        cur = cur + entry_len;
        directory = directory + 46 + name.len() as u64;
        i = i + 1;
    }
    assert(fv.take(files@.len() as int) =~= fv);
    proof {
        lemma_zip_archive_len(pos as int, fv, suffix@);
    }
    if cur > 0xFFFF_FFFF || directory > 0xFFFF_FFFF {
        return false;
    }
    cur + directory + 22 + suffix.len() as u64 + 1024 <= usize::MAX as u64
}

/// The local section of a prefix of the files is a prefix of the local
/// section of all of them.
pub proof fn lemma_local_section_prefix(pos: int, files: Seq<(Seq<u8>, Seq<u8>)>, i: int)
    requires
        0 <= i <= files.len(),
    ensures
        local_section(pos, files.take(i)).len() <= local_section(pos, files).len(),
        local_section(pos, files).take(local_section(pos, files.take(i)).len() as int)
            == local_section(pos, files.take(i)),
    decreases files.len() - i,
{
    if i == files.len() {
        assert(files.take(i) =~= files);
    } else {
        lemma_local_section_prefix(pos, files, i + 1);
        assert(files.take(i + 1).drop_last() =~= files.take(i));
        let small = local_section(pos, files.take(i));
        let mid = local_section(pos, files.take(i + 1));
        let whole = local_section(pos, files);
        assert(mid.take(small.len() as int) =~= small);
        assert(whole.take(small.len() as int) =~= mid.take(small.len() as int));
    }
}

/// Within an entry, the local header starts at [`header_start`] and the body
/// follows it.
proof fn lemma_entry_layout(pos: int, name: Seq<u8>, body: Seq<u8>)
    requires
        0 <= pos,
    ensures
        0 <= header_start(pos, name, body) - pos,
        header_start(pos, name, body) - pos + local_header(name, body).len() + body.len()
            <= local_entry(pos, name, body).len(),
        local_entry(pos, name, body).subrange(
            header_start(pos, name, body) - pos,
            header_start(pos, name, body) - pos + local_header(name, body).len() + body.len(),
        ) == local_header(name, body) + body,
{
    let header = local_header(name, body);
    let entry = local_entry(pos, name, body);
    let start = header_start(pos, name, body) - pos;
    if is_aligned_entry(name, body) {
        lemma_padding_for(pos + header.len(), BLOCK_SIZE as int);
        assert(entry.subrange(start, start + header.len() + body.len()) =~= header + body);
    } else {
        assert(entry.subrange(0, (header.len() + body.len()) as int) =~= header + body);
    }
}

/// Each file's entry sits in the local section at its entry offset.
proof fn lemma_entry_in_section(pos: int, files: Seq<(Seq<u8>, Seq<u8>)>, i: int)
    requires
        0 <= i < files.len(),
    ensures
        ({
            let e = entry_offset(pos, files, i) - pos;
            let entry = local_entry(entry_offset(pos, files, i), files[i].0, files[i].1);
            &&& 0 <= e
            &&& e + entry.len() <= local_section(pos, files).len()
            &&& local_section(pos, files).subrange(e, e + entry.len()) == entry
        }),
{
    let before = local_section(pos, files.take(i));
    let entry = local_entry(entry_offset(pos, files, i), files[i].0, files[i].1);
    assert(files.take(i + 1).drop_last() =~= files.take(i));
    assert(files.take(i + 1).last() == files[i]);
    let through = local_section(pos, files.take(i + 1));
    assert(through == before + entry);
    lemma_local_section_prefix(pos, files, i + 1);
    let local = local_section(pos, files);
    assert(local.subrange(before.len() as int, (before.len() + entry.len()) as int) =~= entry) by {
        assert(local.take(through.len() as int) == through);
        assert forall|k: int| 0 <= k < entry.len() implies #[trigger] local.subrange(
            before.len() as int,
            (before.len() + entry.len()) as int,
        )[k] == entry[k] by {
            assert(local.take(through.len() as int)[before.len() + k] == through[before.len() + k]);
        }
    }
}

/// What the central directory records for each file points at its local
/// header: the archive holds that file's local header at the recorded offset
/// (counted from the start of the output), with the file's body right after
/// it.
pub proof fn law_header_offsets(
    pos: int,
    files: Seq<(Seq<u8>, Seq<u8>)>,
    suffix: Seq<u8>,
    i: int,
)
    requires
        0 <= pos,
        0 <= i < files.len(),
    ensures
        pos <= header_offset(pos, files, i),
        ({
            let archive = zip_archive(pos, files, suffix);
            let at = header_offset(pos, files, i) - pos;
            let header = local_header(files[i].0, files[i].1);
            &&& at + header.len() + files[i].1.len() <= archive.len()
            &&& archive.subrange(at, at + header.len() + files[i].1.len()) == header + files[i].1
        }),
{
    let (name, body) = (files[i].0, files[i].1);
    let e = entry_offset(pos, files, i);
    let entry = local_entry(e, name, body);
    let header = local_header(name, body);
    lemma_entry_in_section(pos, files, i);
    lemma_entry_layout(e, name, body);
    let local = local_section(pos, files);
    let archive = zip_archive(pos, files, suffix);
    let start = header_start(e, name, body) - e;
    let at = header_offset(pos, files, i) - pos;
    let m = header.len() + body.len();
    assert(at == (e - pos) + start);
    let got = archive.subrange(at, at + m);
    assert forall|k: int| 0 <= k < m implies #[trigger] got[k] == (header + body)[k] by {
        assert(archive[at + k] == local[at + k]);
        assert(local.subrange(e - pos, e - pos + entry.len())[start + k] == local[at + k]);
        assert(entry.subrange(start, start + m)[k] == entry[start + k]);
    }
    assert(got =~= header + body);
}

/// Files are written in the order they are given: the local header of an
/// earlier file starts before the local header of a later one.
pub proof fn law_header_order(pos: int, files: Seq<(Seq<u8>, Seq<u8>)>, i: int, j: int)
    requires
        0 <= pos,
        0 <= i < j < files.len(),
    ensures
        header_offset(pos, files, i) < header_offset(pos, files, j),
{
    let e = entry_offset(pos, files, i);
    lemma_local_section_grows(pos, files, 0, i);
    assert(files.take(0) =~= Seq::<(Seq<u8>, Seq<u8>)>::empty());
    assert(local_section(pos, files.take(0)) =~= Seq::<u8>::empty());
    lemma_entry_layout(e, files[i].0, files[i].1);
    let entry = local_entry(e, files[i].0, files[i].1);
    assert(files.take(i + 1).drop_last() =~= files.take(i));
    assert(files.take(i + 1).last() == files[i]);
    assert(entry_offset(pos, files, i + 1) == e + entry.len());
    lemma_local_section_grows(pos, files, i + 1, j);
    let f = entry_offset(pos, files, j);
    assert(f >= pos);
    lemma_entry_layout(f, files[j].0, files[j].1);
}

/// The body of every file that is aligned (non-empty, and not `mimetype`)
/// starts at a multiple of [`BLOCK_SIZE`] bytes into the output, and its
/// entry, padding included, ends at one.
pub proof fn law_aligned_bodies(pos: int, files: Seq<(Seq<u8>, Seq<u8>)>, i: int)
    requires
        0 <= pos,
        0 <= i < files.len(),
        is_aligned_entry(files[i].0, files[i].1),
    ensures
        (header_offset(pos, files, i) + local_header(files[i].0, files[i].1).len())
            % (BLOCK_SIZE as int) == 0,
        (entry_offset(pos, files, i) + local_entry(
            entry_offset(pos, files, i),
            files[i].0,
            files[i].1,
        ).len()) % (BLOCK_SIZE as int) == 0,
{
    let e = entry_offset(pos, files, i);
    let (name, body) = (files[i].0, files[i].1);
    let header = local_header(name, body);
    lemma_padding_for(e + header.len(), BLOCK_SIZE as int);
    let lead = padding_for(e + header.len(), BLOCK_SIZE as int);
    lemma_padding_for(e + lead + header.len() + body.len(), BLOCK_SIZE as int);
}

/// Finishing an archive needs no separate step: [`write_zip`] writes the
/// end of central directory record itself.
pub fn write_zip_archive_terminator() {
}

} // verus!
