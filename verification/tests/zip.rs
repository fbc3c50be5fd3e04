use zipng::io::output_buffer;
use zipng::padding::{write_aligned_pad_end, write_aligned_pad_start};
use zipng::zip::configuration::{
    ZipConfiguration, ZipEntry, PIN_MIMETYPE, SORT_BY_BODY, SORT_BY_NAME,
};
use zipng::zip::data::{ToZip, Zip};
use zipng::zip::write_zip::{archive_fits, has_end_signature, write_zip, write_zip_archive_terminator, BLOCK_SIZE};
use zipng::zip::zip;
use std::cmp::Ordering;
use zipng::generic::ReadError;

fn u16_at(bytes: &[u8], at: usize) -> u16 {
    u16::from_le_bytes([bytes[at], bytes[at + 1]])
}

fn u32_at(bytes: &[u8], at: usize) -> u32 {
    u32::from_le_bytes([bytes[at], bytes[at + 1], bytes[at + 2], bytes[at + 3]])
}

#[test]
fn one_aligned_file() {
    let mut buffer = output_buffer();
    let files: [(&[u8], &[u8]); 1] = [(b"a", b"b")];
    assert_eq!(write_zip(&mut buffer, &files, b""), Ok(2117));
    let zip_tags = buffer.root_tags("zip").unwrap();
    assert_eq!(zip_tags.len(), 1);
    assert_eq!((zip_tags[0].name().as_str(), zip_tags[0].start(), zip_tags[0].end()), ("zip", 0, 2117));
    let parts: Vec<(String, usize, usize)> =
        zip_tags[0].children().iter().map(|t| (t.name().clone(), t.start(), t.end())).collect();
    assert_eq!(
        parts,
        vec![
            ("index".to_string(), 2048, 2095),
            ("index-terminator".to_string(), 2095, 2117),
            ("comment".to_string(), 2117, 2117),
        ]
    );
    let output = buffer.into_bytes();
    assert_eq!(output.len(), 2117);
    assert!(output[..993].iter().all(|&b| b == 0));
    assert_eq!(&output[993..997], b"PK\x03\x04");
    assert_eq!(u16_at(&output, 997), 10);
    assert_eq!(u32_at(&output, 993 + 14), 0x71BE_EFF9);
    assert_eq!(u32_at(&output, 993 + 18), 1);
    assert_eq!(u32_at(&output, 993 + 22), 1);
    assert_eq!(u16_at(&output, 993 + 26), 1);
    assert_eq!(output[1023], b'a');
    assert_eq!(output[1024], b'b');
    assert!(output[1025..2048].iter().all(|&b| b == 0));
    assert_eq!(&output[2048..2052], b"PK\x01\x02");
    assert_eq!(u32_at(&output, 2048 + 42), 993);
    let recorded = u32_at(&output, 2048 + 42) as usize;
    assert_eq!(&output[recorded..recorded + 4], b"PK\x03\x04");
    assert_eq!(recorded + 31, 1024);
    assert_eq!(output[2094], b'a');
    assert_eq!(&output[2095..2099], b"PK\x05\x06");
    assert_eq!(u16_at(&output, 2095 + 8), 1);
    assert_eq!(u16_at(&output, 2095 + 10), 1);
    assert_eq!(u32_at(&output, 2095 + 12), 47);
    assert_eq!(u32_at(&output, 2095 + 16), 2048);
    assert_eq!(u16_at(&output, 2095 + 20), 0);
}

#[test]
fn mimetype_and_empty_files_are_not_aligned() {
    let mut buffer = output_buffer();
    buffer.extend(&[9; 3]);
    let files: [(&[u8], &[u8]); 2] = [(b"mimetype", b"application/epub+zip"), (b"empty", b"")];
    let written = write_zip(&mut buffer, &files, b"hi").unwrap();
    let root = &buffer.root_tags("zip").unwrap()[0];
    assert_eq!((root.name().as_str(), root.start(), root.end()), ("zip", 3, 3 + written));
    let parts: Vec<(String, usize, usize)> =
        root.children().iter().map(|t| (t.name().clone(), t.start(), t.end())).collect();
    assert_eq!(
        parts,
        vec![
            ("file-header".to_string(), 3, 3 + 38),
            ("file-body".to_string(), 3 + 38, 3 + 58),
            ("file-header".to_string(), 3 + 58, 3 + 93),
            ("file-body".to_string(), 3 + 93, 3 + 93),
            ("index".to_string(), 3 + 93, 3 + 93 + 54 + 51),
            ("index-terminator".to_string(), 3 + 93 + 105, 3 + 93 + 105 + 22),
            ("comment".to_string(), 3 + 93 + 105 + 22, 3 + written),
        ]
    );
    let output = buffer.into_bytes();
    assert_eq!(written, 38 + 20 + 35 + (46 + 8) + (46 + 5) + 22 + 2);
    assert_eq!(&output[3..7], b"PK\x03\x04");
    assert_eq!(&output[3 + 30..3 + 38], b"mimetype");
    assert_eq!(&output[3 + 38..3 + 58], b"application/epub+zip");
    assert_eq!(&output[3 + 58..3 + 62], b"PK\x03\x04");
    let directory = 3 + 58 + 35;
    assert_eq!(&output[directory..directory + 4], b"PK\x01\x02");
    assert_eq!(u32_at(&output, directory + 42), 3);
    assert_eq!(u32_at(&output, directory + 54 + 42), 3 + 58);
    let end = directory + 54 + 51;
    assert_eq!(&output[end..end + 4], b"PK\x05\x06");
    assert_eq!(u32_at(&output, end + 16), directory as u32);
    assert_eq!(u16_at(&output, end + 20), 2);
    assert_eq!(&output[end + 22..], b"hi");
}

#[test]
fn end_signature_search() {
    assert!(has_end_signature(b"xxPK\x05\x06yy"));
    assert!(!has_end_signature(b"PK\x05"));
    assert!(!has_end_signature(b"PK\x03\x04"));
    assert_eq!(BLOCK_SIZE, 1024);
    write_zip_archive_terminator();
}

#[test]
fn packages_put_mimetype_first() {
    let files: [(&[u8], &[u8]); 3] = [(b"b/c", b"x"), (b"a", b""), (b"mimetype", b"app")];
    let archive = zip(&files);
    assert_eq!(&archive[0..4], b"PK\x03\x04");
    assert_eq!(&archive[30..38], b"mimetype");
    assert_eq!(&archive[41..45], b"PK\x03\x04");
    assert_eq!(&archive[41 + 30..41 + 31], b"a");
}

#[test]
fn sorting_by_name_and_body() {
    let mut zip = Zip::new_with_files(vec![
        (b"b".to_vec(), b"2".to_vec()),
        (b"a/x".to_vec(), b"1".to_vec()),
        (b"a".to_vec(), b"3".to_vec()),
    ]);
    zip.sort_by(SORT_BY_NAME);
    let names: Vec<&[u8]> = zip.files.iter().map(|f| f.0.as_slice()).collect();
    assert_eq!(names, vec![&b"a"[..], &b"b"[..], &b"a/x"[..]]);
    zip.sort_by(SORT_BY_BODY);
    let names: Vec<&[u8]> = zip.files.iter().map(|f| f.0.as_slice()).collect();
    assert_eq!(names, vec![&b"a/x"[..], &b"b"[..], &b"a"[..]]);
}

#[test]
fn comparing_entries() {
    let a = ZipEntry::new(b"a", b"1");
    let b = ZipEntry::new(b"b", b"0");
    assert_eq!(SORT_BY_NAME.compare(&a, &b), Ordering::Less);
    assert_eq!(SORT_BY_BODY.compare(&a, &b), Ordering::Greater);
    assert_eq!(SORT_BY_NAME.compare(&a, &a), Ordering::Equal);
    assert!(PIN_MIMETYPE.test(&ZipEntry::new(b"mimetype", b"application/epub+zip")));
    assert!(!PIN_MIMETYPE.test(&ZipEntry::new(b"mimetype", &[b'a'; 256])));
    assert!(!PIN_MIMETYPE.test(&ZipEntry::new(b"mimetype", &[0xC3, 0xA9])));
    assert!(!PIN_MIMETYPE.test(&ZipEntry::new(b"other", b"text")));
}

#[test]
fn configuration() {
    let default = ZipConfiguration::default();
    assert!(default.body_contiguous);
    assert_eq!(default.body_alignment, 1024);
    assert_eq!(default.sort_body_by, Some(SORT_BY_BODY));
    assert_eq!(default.sort_meta_by, Some(SORT_BY_NAME));
    assert_eq!(default.pin_header_with, Some(PIN_MIMETYPE));
    let configured = ZipConfiguration::new(|mut c: ZipConfiguration| {
        c.body_alignment = 1;
        c.body_contiguous = false;
        c
    });
    assert_eq!(configured.body_alignment, 1);
    let mut zip = Zip::default();
    zip.configuration = configured;
    zip.blocks();
    assert_eq!(zip.configuration.body_alignment, 1024);
    assert!(zip.configuration.body_contiguous);
}

#[test]
fn empty_archive_is_just_the_end_record() {
    let zip = Zip::default();
    let bytes = zip.write_vec().unwrap();
    assert_eq!(bytes, b"PK\x05\x06\0\0\0\0\0\0\0\0\0\0\0\0\0\0\0\0\0\0".to_vec());
    let copy = Zip::new(&zip);
    assert!(copy.files.is_empty());
    assert!(zip.to_zip().files.is_empty());
}

#[test]
fn archive_write_appends() {
    let zip = Zip::new_with_files(vec![(b"mimetype".to_vec(), b"x".to_vec())]);
    let mut buffer = output_buffer();
    buffer.extend(&[1, 2]);
    let written = zip.write(&mut buffer).unwrap();
    let output = buffer.into_bytes();
    assert_eq!(written, 39 + 54 + 22);
    assert_eq!(output.len(), 2 + written);
    assert_eq!(u32_at(&output, 2 + 39 + 42), 2);
}

#[test]
fn padding_to_blocks() {
    let mut output = vec![1, 2, 3];
    assert_eq!(write_aligned_pad_end(&mut output, &[4, 5], 4), Ok(3..5));
    assert_eq!(output, vec![1, 2, 3, 4, 5, 0, 0, 0]);
    let mut output = vec![1];
    assert_eq!(write_aligned_pad_start(&mut output, &[9, 9], 4), Ok(2..4));
    assert_eq!(output, vec![1, 0, 9, 9]);
    let mut output = vec![1, 2];
    assert_eq!(write_aligned_pad_end(&mut output, &[3, 4], 4), Ok(2..4));
    assert_eq!(output, vec![1, 2, 3, 4]);
}

#[test]
fn recorded_offsets_point_at_local_headers() {
    let files: [(&[u8], &[u8]); 3] = [(b"one", b"1"), (b"mimetype", b"x"), (b"three", b"333")];
    let mut buffer = output_buffer();
    buffer.extend(&[0xAA; 5]);
    write_zip(&mut buffer, &files, b"").unwrap();
    let output = buffer.into_bytes();
    let end = output.len() - 22;
    assert_eq!(&output[end..end + 4], b"PK\x05\x06");
    let mut record = u32_at(&output, end + 16) as usize;
    for (name, body) in files.iter() {
        assert_eq!(&output[record..record + 4], b"PK\x01\x02");
        let local = u32_at(&output, record + 42) as usize;
        assert_eq!(&output[local..local + 4], b"PK\x03\x04");
        assert_eq!(&output[local + 30..local + 30 + name.len()], *name);
        let body_at = local + 30 + name.len();
        assert_eq!(&output[body_at..body_at + body.len()], *body);
        if *name != b"mimetype" {
            assert_eq!(body_at % 1024, 0);
        }
        record += 46 + name.len();
    }
}

#[test]
fn fits_checks() {
    let files: [(&[u8], &[u8]); 1] = [(b"a", b"b")];
    assert!(archive_fits(&files, b"", 0));
    assert!(!archive_fits(&files, b"", 0x1_0000_0000));
    let long_name = vec![b'n'; 0x10000];
    let files: [(&[u8], &[u8]); 1] = [(&long_name, b"b")];
    assert!(!archive_fits(&files, b"", 0));
    let long_comment = vec![0u8; 0x10000];
    assert!(!archive_fits(&[], &long_comment, 0));
    assert!(Zip::default().fits(0));
}

#[test]
fn reading_back_written_archives() {
    let zip = Zip::new_with_files(vec![
        (b"mimetype".to_vec(), b"application/epub+zip".to_vec()),
        (b"empty".to_vec(), Vec::new()),
        (b"dir/file.txt".to_vec(), vec![7; 3000]),
        (b"x".to_vec(), b"y".to_vec()),
    ]);
    let bytes = zip.write_vec().unwrap();
    let read = Zip::read(&bytes).unwrap();
    assert_eq!(read.files, zip.files);
    assert_eq!(read.configuration, ZipConfiguration::default());
    assert_eq!(Zip::read_slice(&bytes).unwrap().files, zip.files);

    let empty = Zip::default().write_vec().unwrap();
    assert!(Zip::read(&empty).unwrap().files.is_empty());

    assert!(matches!(Zip::read(b"PK\x05\x06"), Err(ReadError::Malformed)));
    let mut damaged = bytes.clone();
    let last = damaged.len() - 1;
    damaged[last] = 1;
    assert!(matches!(Zip::read(&damaged), Err(ReadError::Malformed)));
    let mut moved = bytes.clone();
    assert_eq!(&moved[982..986], b"PK\x03\x04");
    moved[982] = b'Q';
    assert!(matches!(Zip::read(&moved), Err(ReadError::Malformed)));
}

#[test]
fn sorting_keeps_level_files_in_order() {
    let files = vec![
        (b"b".to_vec(), b"2".to_vec()),
        (b"a".to_vec(), b"second".to_vec()),
        (b"a".to_vec(), b"first".to_vec()),
        (b"a/c".to_vec(), b"0".to_vec()),
    ];
    let mut zip = Zip::new_with_files(files);
    zip.sort_by(SORT_BY_NAME);
    let names: Vec<(Vec<u8>, Vec<u8>)> = zip.files.clone();
    assert_eq!(
        names,
        vec![
            (b"a".to_vec(), b"second".to_vec()),
            (b"a".to_vec(), b"first".to_vec()),
            (b"b".to_vec(), b"2".to_vec()),
            (b"a/c".to_vec(), b"0".to_vec()),
        ]
    );
}
