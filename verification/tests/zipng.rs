use zipng::png::data::Png;
use zipng::png::palettes::TURBO;
use zipng::zip::data::Zip;
use zipng::zipng::data::Zipng;
use zipng::zipng::to_zipng::ToZipng;
use zipng::zipng::{write_zipng, writing};

#[test]
fn proof_of_concept_polyglot() {
    let file = write_zipng::poc_zipng(&TURBO).unwrap();
    assert_eq!(file.len(), 33 + 12 + 768 + 12 + (2226 + 11) + 12);
    assert_eq!(&file[..8], b"\x89PNG\r\n\x1a\n");
    assert_eq!(&file[12..16], b"IHDR");
    assert_eq!(&file[16..20], &52u32.to_be_bytes());
    assert_eq!(&file[20..24], &96u32.to_be_bytes());
    assert_eq!(&file[33 + 4..33 + 8], b"PLTE");
    assert_eq!(&file[813 + 4..813 + 8], b"IDAT");
    assert_eq!(&file[821..823], &[0x78, 0x01]);
    assert_eq!(file[828], 0);
    assert_eq!(&file[845..849], b"PK\x03\x04");
    assert_eq!(&file[845 + 26..845 + 36], b"TURBO.plte");
    assert_eq!(&file[881..886], &[0, 52, 0, 203, 255]);
    assert_eq!(&file[file.len() - 8..file.len() - 4], b"pkPK");
}

#[test]
fn proof_of_concept_header() {
    let file = writing::poc_zipng().unwrap();
    assert_eq!(&file[..8], b"\x89PNG\r\n\x1a\n");
    assert_eq!(&file[12..16], b"IHDR");
    assert_eq!(&file[16..24], &[0, 0, 0, 32, 0, 0, 0, 32]);
    assert_eq!(&file[24..26], &[8, 3]);
    assert_eq!(&file[33 + 4..33 + 8], b"PLTE");
    assert_eq!(&file[41..41 + 768], &TURBO[..]);
    // the image data: 32 rows of 32 bytes, each behind a filter byte, in one
    // stored deflate block
    assert_eq!(&file[813..821], &[0, 0, 0x04, 0x2B, b'I', b'D', b'A', b'T']);
    let image_end = 813 + 12 + 1056 + 11;
    assert_eq!(&file[image_end + 4..image_end + 8], b"pkPK");
    // the file ends with the IEND chunk
    assert_eq!(&file[file.len() - 12..], b"\x00\x00\x00\x00IEND\xaeB`\x82");
    // the archive: a local header for README.md ...
    let archive_at = image_end + 8;
    let header_at = (archive_at..file.len()).find(|&i| file[i..].starts_with(b"PK\x03\x04")).unwrap();
    assert_eq!(&file[header_at + 30..header_at + 39], b"README.md");
    assert_eq!(&file[header_at + 39..header_at + 39 + 312], &writing::POC_README[..]);
    // ... a central directory entry pointing at it ...
    let entry_at = (archive_at..file.len()).find(|&i| file[i..].starts_with(b"PK\x01\x02")).unwrap();
    assert_eq!(&file[entry_at + 42..entry_at + 46], &(header_at as u32).to_le_bytes());
    assert_eq!(&file[entry_at + 46..entry_at + 55], b"README.md");
    // ... and an end record counting one entry, whose comment runs to the
    // end of the file
    let end_at = file.len() - 16 - 22;
    assert_eq!(&file[end_at..end_at + 4], b"PK\x05\x06");
    assert_eq!(&file[end_at + 8..end_at + 12], &[1, 0, 1, 0]);
    assert_eq!(&file[end_at + 16..end_at + 20], &(entry_at as u32).to_le_bytes());
    assert_eq!(&file[end_at + 20..end_at + 22], &[16, 0]);
}

#[test]
fn contents_from_parts() {
    let png = Png::new_rgb(1, 1);
    let zipng = Zipng::new(&png);
    assert_eq!(zipng.png.pixel_data, vec![0, 0, 0]);
    assert!(zipng.zip.files.is_empty());
    let zip = Zip::new_with_files(vec![(b"a".to_vec(), b"b".to_vec())]);
    let zipng = zip.to_zipng();
    assert_eq!(zipng.zip.files.len(), 1);
    assert_eq!(zipng.png.width, 0);
    let empty = Zipng::default();
    assert!(empty.zip.files.is_empty());
    assert_eq!(Zipng::new(&empty).png.height, 0);
}

fn find(file: &[u8], from: usize, pattern: &[u8]) -> Vec<usize> {
    (from..file.len()).filter(|&i| file[i..].starts_with(pattern)).collect()
}

#[test]
fn archives_written_as_polyglots() {
    let zip = Zip::new_with_files(vec![
        (b"a.txt".to_vec(), b"alpha".to_vec()),
        (b"b.txt".to_vec(), Vec::new()),
    ]);
    let mut output = vec![7u8; 5];
    let written = zip.write_zipng(&mut output).unwrap();
    assert_eq!(output.len(), 5 + written);
    assert_eq!(&output[..5], &[7; 5]);
    let file = &output[5..];
    assert_eq!(&file[..8], b"\x89PNG\r\n\x1a\n");
    assert_eq!(&file[12..16], b"IHDR");
    assert_eq!(&file[file.len() - 12..], b"\x00\x00\x00\x00IEND\xaeB`\x82");
    let archive_at = 5 + 1892 + 8;
    assert_eq!(&output[archive_at - 4..archive_at], b"pkPK");
    // each central entry records where its local header is in `output`
    let headers = find(&output, archive_at, b"PK\x03\x04");
    let entries = find(&output, archive_at, b"PK\x01\x02");
    assert_eq!(headers.len(), 2);
    assert_eq!(entries.len(), 2);
    for (header, entry) in headers.iter().zip(entries.iter()) {
        assert_eq!(&output[entry + 42..entry + 46], &(*header as u32).to_le_bytes());
    }
    assert_eq!(&output[headers[0] + 30..headers[0] + 35], b"a.txt");
    assert_eq!(&output[headers[0] + 35..headers[0] + 40], b"alpha");
    // the end record counts both entries and its comment runs to the end
    let end_at = output.len() - 16 - 22;
    assert_eq!(&output[end_at..end_at + 4], b"PK\x05\x06");
    assert_eq!(&output[end_at + 8..end_at + 12], &[2, 0, 2, 0]);
    assert_eq!(&output[end_at + 16..end_at + 20], &(entries[0] as u32).to_le_bytes());
    assert_eq!(&output[end_at + 20..end_at + 22], &[16, 0]);
    // the readme polyglot is the same writer's output
    let mut readme = Vec::new();
    let single = Zip::new_with_files(vec![(b"README.md".to_vec(), writing::POC_README.to_vec())]);
    single.write_zipng(&mut readme).unwrap();
    assert_eq!(readme, writing::poc_zipng().unwrap());
}
