use zipng::deflate::write_deflate;
use zipng::generic::ReadError;
use zipng::zlib::{read_zlib, write_zlib, ZlibMode};
use zipng::deflate::DeflateMode;

#[test]
fn zlib_stream_of_three_bytes() {
    let mut output = vec![0xEE];
    assert_eq!(write_zlib(&mut output, b"abc"), Ok(14));
    assert_eq!(output, vec![0xEE, 0x78, 0x01, 0x01, 0x03, 0x00, 0xFC, 0xFF, b'a', b'b', b'c', 0x26, 0x03, 0x57, 0x0B]);
}

#[test]
fn deflate_splits_long_data_into_blocks() {
    let data = vec![5u8; 0x10000];
    let mut output = Vec::new();
    assert_eq!(write_deflate(&mut output, &data), Ok(0x10000 + 10));
    assert_eq!(&output[..5], &[0x00, 0xFF, 0xFF, 0x00, 0x00]);
    assert_eq!(&output[5 + 0xFFFF..5 + 0xFFFF + 5], &[0x01, 0x01, 0x00, 0xFE, 0xFF]);
    let mut empty = Vec::new();
    assert_eq!(write_deflate(&mut empty, &[]), Ok(0));
    assert!(empty.is_empty());
}

#[test]
fn configured_write() {
    let mut output = Vec::new();
    let mut op = zipng::zlib::write_zlib { output: &mut output, data: b"", mode: ZlibMode::default() };
    assert_eq!(op.call(), Ok(6));
    assert_eq!(ZlibMode::default(), ZlibMode::Deflate32K { mode: DeflateMode::Stored });
    assert_eq!(output, vec![0x78, 0x01, 0x01, 0x00, 0x00, 0x00]);
}

#[test]
fn zlib_streams_are_read() {
    let stream = [0x78, 0x01, 0x01, 0x03, 0x00, 0xFC, 0xFF, b'a', b'b', b'c', 0x02, 0x4D, 0x01, 0x27];
    assert_eq!(read_zlib(&stream), Ok(b"abc".to_vec()));
    let empty = [0x78, 0x01, 0x01, 0x00, 0x00, 0xFF, 0xFF, 0x00, 0x00, 0x00, 0x01];
    assert_eq!(read_zlib(&empty), Ok(Vec::new()));
    let mut damaged = stream;
    damaged[13] ^= 1;
    assert_eq!(read_zlib(&damaged), Err(ReadError::Malformed));
    assert_eq!(read_zlib(b"not zlib at all"), Err(ReadError::Malformed));
}
