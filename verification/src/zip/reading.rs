//! Reading back the ZIP archives that this crate writes: stored entries,
//! located through the central directory.

use vstd::prelude::*;

use crate::encoding::{u16_le, u32_le};
use crate::zip::order::{entry_views, AsEntry};
use crate::png::reading::{le16, lemma_le16};
use crate::zip::write_zip::{
    central_directory, central_header, end_record, end_signature, header_offset, law_header_offsets,
    local_header, local_section, zip_archive, zip_fits,
};

verus! {

/// The number that four bytes write, least significant first.
pub open spec fn le32(b: Seq<u8>) -> int {
    b[0] + b[1] * 0x100 + b[2] * 0x1_0000 + b[3] * 0x100_0000
}

/// Reading back four little-endian bytes gives the number written.
pub proof fn lemma_le32(x: u32)
    ensures
        le32(u32_le(x)) == x,
        u32_le(x).len() == 4,
{
    let b0 = x % 256;
    let b1 = (x / 256) % 256;
    let b2 = (x / 65536) % 256;
    let b3 = x / 16777216;
    assert(x == b0 + b1 * 256 + b2 * 65536 + b3 * 16777216) by (bit_vector)
        requires
            b0 == x % 256,
            b1 == (x / 256) % 256,
            b2 == (x / 65536) % 256,
            b3 == x / 16777216,
    ;
    assert(b3 < 256) by (bit_vector)
        requires
            b3 == x / 16777216,
    ;
}

/// `PK\x01\x02`
pub open spec fn directory_signature() -> Seq<u8> {
    seq![0x50u8, 0x4Bu8, 0x01u8, 0x02u8]
}

/// `PK\x03\x04`
pub open spec fn local_signature() -> Seq<u8> {
    seq![0x50u8, 0x4Bu8, 0x03u8, 0x04u8]
}

/// The central directory record at the start of `records`: the file's name,
/// its size and the offset of its local header, and the bytes after the
/// record; `None` unless it is a whole record of a stored file.
#[verifier::opaque]
pub open spec fn parse_record(records: Seq<u8>) -> Option<(Seq<u8>, int, int, Seq<u8>)> {
    if records.len() < 46 || records.take(4) != directory_signature() || records[10] != 0
        || records[11] != 0 {
        None
    } else {
        let name_len = le16(records.subrange(28, 30));
        if records.len() < 46 + name_len {
            None
        } else {
            Some(
                (
                    records.subrange(46, 46 + name_len),
                    le32(records.subrange(20, 24)),
                    le32(records.subrange(42, 46)),
                    records.skip(46 + name_len),
                ),
            )
        }
    }
}

/// The body of the file named `name` whose `size`-byte body follows its local
/// header at `offset` in `bytes`; `None` unless a local header with that name
/// is there and the body fits.
#[verifier::opaque]
pub open spec fn read_local(bytes: Seq<u8>, name: Seq<u8>, size: int, offset: int) -> Option<Seq<u8>> {
    let start = offset + 30 + name.len();
    if offset < 0 || bytes.len() < start + size || bytes.subrange(offset, offset + 4)
        != local_signature() || le16(bytes.subrange(offset + 26, offset + 28)) != name.len()
        || bytes.subrange(offset + 30, start) != name {
        None
    } else {
        Some(bytes.subrange(start, start + size))
    }
}

/// The files named by the first `count` records of `records`, with their
/// bodies from `bytes`; `None` unless exactly `count` whole records are
/// there and every file can be read.
#[verifier::opaque]
pub open spec fn parse_entries(bytes: Seq<u8>, records: Seq<u8>, count: nat) -> Option<
    Seq<(Seq<u8>, Seq<u8>)>,
>
    decreases count,
{
    if count == 0 {
        if records.len() == 0 {
            Some(Seq::empty())
        } else {
            None
        }
    } else {
        match parse_record(records) {
            Some((name, size, offset, rest)) => match read_local(bytes, name, size, offset) {
                Some(body) => match parse_entries(bytes, rest, (count - 1) as nat) {
                    Some(files) => Some(seq![(name, body)] + files),
                    None => None,
                },
                None => None,
            },
            None => None,
        }
    }
}

/// The files of a ZIP archive as this crate writes them: the end record is
/// the last 22 bytes (there is no archive comment), and the central
/// directory that it points at lists, in order, stored files whose local
/// headers it points at. `None` for anything else.
pub open spec fn parse_zip(bytes: Seq<u8>) -> Option<Seq<(Seq<u8>, Seq<u8>)>> {
    if bytes.len() < 22 {
        None
    } else {
        let end = bytes.skip(bytes.len() - 22);
        let count = le16(end.subrange(10, 12));
        let directory_len = le32(end.subrange(12, 16));
        let directory_offset = le32(end.subrange(16, 20));
        if end.take(4) != end_signature() || le16(end.subrange(20, 22)) != 0 || directory_offset
            + directory_len > bytes.len() - 22 {
            None
        } else {
            parse_entries(
                bytes,
                bytes.subrange(directory_offset, directory_offset + directory_len),
                count as nat,
            )
        }
    }
}

/// The central directory records of files `k..n`, in order.
pub open spec fn directory_from(pos: int, files: Seq<(Seq<u8>, Seq<u8>)>, k: int, n: int) -> Seq<u8>
    decreases n - k,
{
    if k >= n {
        Seq::empty()
    } else {
        central_header(files[k].0, files[k].1, header_offset(pos, files, k)) + directory_from(
            pos,
            files,
            k + 1,
            n,
        )
    }
}

proof fn lemma_directory_from_push(pos: int, files: Seq<(Seq<u8>, Seq<u8>)>, k: int, n: int)
    requires
        0 <= k < n,
    ensures
        directory_from(pos, files, k, n) == directory_from(pos, files, k, n - 1) + central_header(
            files[n - 1].0,
            files[n - 1].1,
            header_offset(pos, files, n - 1),
        ),
    decreases n - k,
{
    if k < n - 1 {
        lemma_directory_from_push(pos, files, k + 1, n);
        let h = central_header(files[k].0, files[k].1, header_offset(pos, files, k));
        let last = central_header(files[n - 1].0, files[n - 1].1, header_offset(pos, files, n - 1));
        assert(h + (directory_from(pos, files, k + 1, n - 1) + last) =~= (h + directory_from(
            pos,
            files,
            k + 1,
            n - 1,
        )) + last);
    } else {
        assert(directory_from(pos, files, k, n - 1) =~= Seq::<u8>::empty());
        assert(directory_from(pos, files, k + 1, n) =~= Seq::<u8>::empty());
        let last = central_header(files[n - 1].0, files[n - 1].1, header_offset(pos, files, n - 1));
        assert(last + Seq::<u8>::empty() =~= Seq::<u8>::empty() + last);
    }
}

/// The central directory is the records of the files from the first on.
proof fn lemma_directory_from(pos: int, files: Seq<(Seq<u8>, Seq<u8>)>, n: int)
    requires
        0 <= n <= files.len(),
    ensures
        central_directory(pos, files, n) == directory_from(pos, files, 0, n),
    decreases n,
{
    if n > 0 {
        lemma_directory_from(pos, files, n - 1);
        lemma_directory_from_push(pos, files, 0, n);
    } else {
        assert(central_directory(pos, files, n) =~= directory_from(pos, files, 0, n));
    }
}

/// A written central directory record reads back as the name, size and
/// offset it was written with.
proof fn lemma_parse_record(name: Seq<u8>, body: Seq<u8>, offset: int, rest: Seq<u8>)
    requires
        name.len() <= u16::MAX,
        body.len() <= u32::MAX,
        0 <= offset <= u32::MAX,
    ensures
        parse_record(central_header(name, body, offset) + rest) == Some(
            (name, body.len() as int, offset, rest),
        ),
{
    reveal(parse_record);
    let records = central_header(name, body, offset) + rest;
    lemma_le16(name.len() as u16);
    lemma_le32(body.len() as u32);
    lemma_le32(offset as u32);
    let n = name.len() as int;
    assert(records.take(4) =~= directory_signature());
    assert(records.subrange(28, 30) =~= u16_le(name.len() as u16));
    assert(records.subrange(20, 24) =~= u32_le(body.len() as u32));
    assert(records.subrange(42, 46) =~= u32_le(offset as u32));
    assert(records.subrange(46, 46 + n) =~= name);
    assert(records.skip(46 + n) =~= rest);
}

/// A local header followed by its body reads back as the body.
proof fn lemma_read_local_at(bytes: Seq<u8>, name: Seq<u8>, body: Seq<u8>, h: int)
    requires
        0 <= h,
        name.len() <= u16::MAX,
        h + local_header(name, body).len() + body.len() <= bytes.len(),
        bytes.subrange(h, h + local_header(name, body).len() + body.len()) == local_header(
            name,
            body,
        ) + body,
    ensures
        read_local(bytes, name, body.len() as int, h) == Some(body),
{
    reveal(read_local);
    let header = local_header(name, body);
    let m = header.len() + body.len();
    let piece = bytes.subrange(h, h + m);
    lemma_le16(name.len() as u16);
    assert(header.len() == 30 + name.len());
    assert(bytes.subrange(h, h + 4) =~= piece.subrange(0, 4));
    assert(piece.subrange(0, 4) =~= local_signature());
    assert(bytes.subrange(h + 26, h + 28) =~= piece.subrange(26, 28));
    assert(piece.subrange(26, 28) =~= u16_le(name.len() as u16));
    let start = h + 30 + name.len();
    assert(bytes.subrange(h + 30, start) =~= piece.subrange(30, 30 + name.len() as int));
    assert(piece.subrange(30, 30 + name.len() as int) =~= name);
    assert(bytes.subrange(start, start + body.len()) =~= piece.subrange(
        30 + name.len() as int,
        m as int,
    ));
    assert(piece.subrange(30 + name.len() as int, m as int) =~= body);
}

/// Each file of a written archive reads back from where the central
/// directory points.
proof fn lemma_read_local(files: Seq<(Seq<u8>, Seq<u8>)>, suffix: Seq<u8>, i: int)
    requires
        0 <= i < files.len(),
        files[i].0.len() <= u16::MAX,
    ensures
        read_local(
            zip_archive(0, files, suffix),
            files[i].0,
            files[i].1.len() as int,
            header_offset(0, files, i),
        ) == Some(files[i].1),
{
    law_header_offsets(0, files, suffix, i);
    lemma_read_local_at(zip_archive(0, files, suffix), files[i].0, files[i].1, header_offset(0, files, i));
}

/// The records of files `k..n` of a written archive read back as those
/// files.
proof fn lemma_parse_entries(files: Seq<(Seq<u8>, Seq<u8>)>, suffix: Seq<u8>, k: int, n: int)
    requires
        0 <= k <= n,
        n == files.len(),
        zip_fits(0, files, suffix),
    ensures
        parse_entries(zip_archive(0, files, suffix), directory_from(0, files, k, n), (n - k) as nat)
            == Some(files.subrange(k, n)),
    decreases n - k,
{
    reveal(parse_entries);
    let archive = zip_archive(0, files, suffix);
    if k == n {
        assert(directory_from(0, files, k, n) =~= Seq::<u8>::empty());
        assert(files.subrange(k, n) =~= Seq::<(Seq<u8>, Seq<u8>)>::empty());
    } else {
        let (name, body) = (files[k].0, files[k].1);
        let h = header_offset(0, files, k);
        assert(files[k] == (name, body));
        assert(name.len() <= u16::MAX && body.len() <= u32::MAX);
        assert(h <= u32::MAX);
        law_header_offsets(0, files, suffix, k);
        lemma_parse_record(name, body, h, directory_from(0, files, k + 1, n));
        lemma_read_local(files, suffix, k);
        lemma_parse_entries(files, suffix, k + 1, n);
        assert(seq![(name, body)] + files.subrange(k + 1, n) =~= files.subrange(k, n));
    }
}

/// Reading a written archive gives back its files: for every list of files
/// that [`write_zip`](crate::zip::write_zip::write_zip) can write at the
/// start of an output with no archive comment, reading the archive gives
/// the same names and bodies in the same order.
pub proof fn law_zip_round_trip(files: Seq<(Seq<u8>, Seq<u8>)>)
    requires
        zip_fits(0, files, Seq::empty()),
    ensures
        parse_zip(zip_archive(0, files, Seq::empty())) == Some(files),
{
    let suffix = Seq::<u8>::empty();
    let n = files.len() as int;
    let archive = zip_archive(0, files, suffix);
    let local = local_section(0, files);
    let directory = central_directory(0, files, n);
    let end = end_record(n, directory.len() as int, local.len() as int, suffix);
    assert(archive == local + directory + end);
    assert(end.len() == 22);
    assert(archive.skip(archive.len() - 22) =~= end);
    lemma_le16(n as u16);
    lemma_le16(0);
    lemma_le32(directory.len() as u32);
    lemma_le32(local.len() as u32);
    assert(end.take(4) =~= end_signature());
    assert(end.subrange(10, 12) =~= u16_le(n as u16));
    assert(end.subrange(12, 16) =~= u32_le(directory.len() as u32));
    assert(end.subrange(16, 20) =~= u32_le(local.len() as u32));
    assert(end.subrange(20, 22) =~= u16_le(0));
    assert(archive.subrange(local.len() as int, (local.len() + directory.len()) as int) =~= directory);
    lemma_directory_from(0, files, n);
    lemma_parse_entries(files, suffix, 0, n);
    assert(files.subrange(0, n) =~= files);
}

fn le16_at(bytes: &[u8], at: usize) -> (value: u16)
    requires
        at + 2 <= bytes@.len(),
    ensures
        value == le16(bytes@.subrange(at as int, at + 2)),
{
    bytes[at] as u16 + bytes[at + 1] as u16 * 0x100
}

fn le32_at(bytes: &[u8], at: usize) -> (value: u32)
    requires
        at + 4 <= bytes@.len(),
    ensures
        value == le32(bytes@.subrange(at as int, at + 4)),
{
    bytes[at] as u32 + bytes[at + 1] as u32 * 0x100 + bytes[at + 2] as u32 * 0x1_0000 + bytes[at
        + 3] as u32 * 0x100_0000
}

fn signature_at(bytes: &[u8], at: usize, expected: [u8; 4]) -> (found: bool)
    requires
        at + 4 <= bytes@.len(),
    ensures
        found == (bytes@.subrange(at as int, at + 4) == expected@),
{
    let found = bytes[at] == expected[0] && bytes[at + 1] == expected[1] && bytes[at + 2]
        == expected[2] && bytes[at + 3] == expected[3];
    proof {
        let got = bytes@.subrange(at as int, at + 4);
        if found {
            assert(got =~= expected@);
        } else if got == expected@ {
            assert(got[0] == expected@[0] && got[1] == expected@[1] && got[2] == expected@[2]
                && got[3] == expected@[3]);
        }
    }
    found
}

fn same_bytes(bytes: &[u8], a: usize, b: usize, len: usize) -> (same: bool)
    requires
        a + len <= bytes@.len(),
        b + len <= bytes@.len(),
    ensures
        same == (bytes@.subrange(a as int, a + len) == bytes@.subrange(b as int, b + len)),
{
    let mut k: usize = 0;
    while k < len
        invariant
            a + len <= bytes.len(),
            b + len <= bytes.len(),
            k <= len,
            forall|j: int|
                0 <= j < k ==> #[trigger] bytes@.subrange(a as int, a + len)[j] == bytes@.subrange(
                    b as int,
                    b + len,
                )[j],
        decreases len - k,
    {
        if bytes[a + k] != bytes[b + k] {
            assert(bytes@.subrange(a as int, a + len)[k as int] != bytes@.subrange(
                b as int,
                b + len,
            )[k as int]);
            return false;
        }
        k = k + 1;
    }
    assert(bytes@.subrange(a as int, a + len) =~= bytes@.subrange(b as int, b + len));
    true
}

fn copy_range(bytes: &[u8], start: usize, end: usize) -> (copy: Vec<u8>)
    requires
        start <= end <= bytes@.len(),
    ensures
        copy@ == bytes@.subrange(start as int, end as int),
{
    let mut copy: Vec<u8> = Vec::new();
    crate::encoding::push_range(&mut copy, bytes, start, end);
    copy
}

/// The file named by the record at `bytes[at..end]`, with its body, and
/// where the next record starts (see [`parse_record`] and [`read_local`]).
fn read_entry(bytes: &[u8], at: usize, end: usize) -> (entry: Option<(Vec<u8>, Vec<u8>, usize)>)
    requires
        at <= end <= bytes@.len(),
    ensures
        match entry {
            Some((name, body, next)) => {
                &&& at < next <= end
                &&& match parse_record(bytes@.subrange(at as int, end as int)) {
                    Some((n, size, offset, rest)) => {
                        &&& n == name@
                        &&& rest == bytes@.subrange(next as int, end as int)
                        &&& read_local(bytes@, n, size, offset) == Some(body@)
                    },
                    None => false,
                }
            },
            None => match parse_record(bytes@.subrange(at as int, end as int)) {
                Some((n, size, offset, rest)) => read_local(bytes@, n, size, offset) is None,
                None => true,
            },
        },
{
    reveal(parse_record);
    reveal(read_local);
    let ghost records = bytes@.subrange(at as int, end as int);
    if end - at < 46 || !signature_at(bytes, at, [0x50, 0x4B, 0x01, 0x02]) || bytes[at + 10] != 0
        || bytes[at + 11] != 0 {
        proof {
            if end - at >= 46 {
                assert(records.take(4) =~= bytes@.subrange(at as int, at + 4));
                assert(records[10] == bytes@[at + 10] && records[11] == bytes@[at + 11]);
            }
        }
        return None;
    }
    assert(records.take(4) =~= bytes@.subrange(at as int, at + 4));
    let name_len = le16_at(bytes, at + 28) as usize;
    assert(records.subrange(28, 30) =~= bytes@.subrange(at + 28, at + 30));
    if end - at - 46 < name_len {
        return None;
    }
    let size = le32_at(bytes, at + 20) as usize;
    let offset = le32_at(bytes, at + 42) as usize;
    assert(records.subrange(20, 24) =~= bytes@.subrange(at + 20, at + 24));
    assert(records.subrange(42, 46) =~= bytes@.subrange(at + 42, at + 46));
    let name_at = at + 46;
    let next = name_at + name_len;
    assert(records.subrange(46, 46 + name_len) =~= bytes@.subrange(name_at as int, next as int));
    assert(records.skip(46 + name_len) =~= bytes@.subrange(next as int, end as int));
    if (bytes.len() as u64) < offset as u64 + 30 + name_len as u64 + size as u64 {
        return None;
    }
    let body_at = offset + 30 + name_len;
    if !signature_at(bytes, offset, [0x50, 0x4B, 0x03, 0x04]) || le16_at(bytes, offset + 26) as usize
        != name_len || !same_bytes(bytes, offset + 30, name_at, name_len) {
        return None;
    }
    let name = copy_range(bytes, name_at, next);
    let body = copy_range(bytes, body_at, body_at + size);
    Some((name, body, next))
}

/// The files named by `count` records in `bytes[start..end]` (see
/// [`parse_entries`]).
fn read_entries(bytes: &[u8], start: usize, end: usize, count: u16) -> (files: Option<
    Vec<(Vec<u8>, Vec<u8>)>,
>)
    requires
        start <= end <= bytes@.len(),
    ensures
        match files {
            Some(f) => parse_entries(bytes@, bytes@.subrange(start as int, end as int), count as nat)
                == Some(entry_views(f@)),
            None => parse_entries(bytes@, bytes@.subrange(start as int, end as int), count as nat)
                is None,
        },
{
    let ghost whole = bytes@.subrange(start as int, end as int);
    let mut files: Vec<(Vec<u8>, Vec<u8>)> = Vec::new();
    let mut at = start;
    let mut read: u16 = 0;
    assert(entry_views(files@) + Seq::<(Seq<u8>, Seq<u8>)>::empty() =~= Seq::<(Seq<u8>, Seq<u8>)>::empty());
    loop
        invariant
            start <= at <= end <= bytes@.len(),
            read <= count,
            whole == bytes@.subrange(start as int, end as int),
            parse_entries(bytes@, whole, count as nat) == match parse_entries(
                bytes@,
                bytes@.subrange(at as int, end as int),
                (count - read) as nat,
            ) {
                Some(more) => Some(entry_views(files@) + more),
                None => None::<Seq<(Seq<u8>, Seq<u8>)>>,
            },
        decreases count - read,
    {
        proof {
            reveal(parse_entries);
        }
        let ghost records = bytes@.subrange(at as int, end as int);
        if read == count {
            if at == end {
                assert(records =~= Seq::<u8>::empty());
                assert(entry_views(files@) + Seq::<(Seq<u8>, Seq<u8>)>::empty() =~= entry_views(
                    files@,
                ));
                return Some(files);
            }
            return None;
        }
        let (name, body, next) = match read_entry(bytes, at, end) {
            Some(entry) => entry,
            None => {
                return None;
            },
        };
        let ghost before = entry_views(files@);
        let ghost item = (name@, body@);
        files.push((name, body));
        assert(entry_views(files@) =~= before.push(item));
        proof {
            match parse_entries(bytes@, bytes@.subrange(next as int, end as int), (count - read - 1) as nat) {
                Some(more) => {
                    assert(before + (seq![item] + more) =~= entry_views(files@) + more);
                },
                None => {},
            }
        }
        at = next;
        read = read + 1;
    }
}

/// The files of the archive in `input` (see [`parse_zip`]).
pub fn read_zip(input: &[u8]) -> (files: Option<Vec<(Vec<u8>, Vec<u8>)>>)
    ensures
        match files {
            Some(f) => parse_zip(input@) == Some(entry_views(f@)),
            None => parse_zip(input@) is None,
        },
{
    if input.len() < 22 {
        return None;
    }
    let end = input.len() - 22;
    let ghost record = input@.skip(end as int);
    let found = signature_at(input, end, [0x50, 0x4B, 0x05, 0x06]);
    assert(record.take(4) =~= input@.subrange(end as int, end + 4));
    let comment_len = le16_at(input, end + 20);
    assert(record.subrange(20, 22) =~= input@.subrange(end + 20, end + 22));
    let count = le16_at(input, end + 10);
    assert(record.subrange(10, 12) =~= input@.subrange(end + 10, end + 12));
    let directory_len = le32_at(input, end + 12);
    assert(record.subrange(12, 16) =~= input@.subrange(end + 12, end + 16));
    let directory_offset = le32_at(input, end + 16);
    assert(record.subrange(16, 20) =~= input@.subrange(end + 16, end + 20));
    if !found || comment_len != 0 || directory_offset as u64 + directory_len as u64 > end as u64 {
        return None;
    }
    let start = directory_offset as usize;
    read_entries(input, start, start + directory_len as usize, count)
}

} // verus!
