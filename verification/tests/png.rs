use zipng::generic::{ReadError, WriteError};
use zipng::io::buffer::output_buffer;
use zipng::png::data::{BitDepth, ColorType, Png};
use zipng::png::palettes::{RGB_256_COLOR_PALETTE_SIZE, TURBO};
use zipng::png::to_png::ToPng;
use zipng::png::write_png;
use zipng::png::writing::{bytes_per_row, filter_rows, write_png, write_png_header, write_png_palette};

fn hex(text: &str) -> Vec<u8> {
    (0..text.len())
        .step_by(2)
        .map(|i| u8::from_str_radix(&text[i..i + 2], 16).unwrap())
        .collect()
}

#[test]
fn writes_a_two_by_two_greyscale_image() {
    let mut buffer = Vec::new();
    write_png(&mut buffer, &[1, 2, 3, 4], 2, 2, BitDepth::EightBit, ColorType::Luminance, None);
    assert_eq!(
        buffer,
        hex("89504e470d0a1a0a0000000d494844520000000200000002080000000057dd52f8000000114944415478010106\
             00f9ff0001020003040b001d00d17935930000000049454e44ae426082")
    );
}

#[test]
fn zlib_variant_checksums_the_blocks() {
    let mut buffer = output_buffer();
    assert_eq!(
        write_png::write_png(&mut buffer, &[1, 2, 3, 4], 2, 2, BitDepth::EightBit, ColorType::Luminance, None),
        Ok(())
    );
    assert_eq!(
        buffer.into_bytes(),
        hex("89504e470d0a1a0a0000000d494844520000000200000002080000000057dd52f8000000114944415478010106\
             00f9ff0001020003040a022a0f6af93b3d0000000049454e44ae426082")
    );
}

#[test]
fn header_and_palette() {
    let mut buffer = Vec::new();
    assert_eq!(write_png_header(&mut buffer, 32, 32, BitDepth::EightBit, ColorType::Indexed), Ok(33));
    assert_eq!(
        buffer,
        hex("89504e470d0a1a0a0000000d494844520000002000000020080300000044a48ac6")
    );
    assert_eq!(write_png_palette(&mut buffer, &TURBO), Ok(12 + RGB_256_COLOR_PALETTE_SIZE));
    assert_eq!(buffer.len(), 33 + 12 + 768);
    assert_eq!(&buffer[33..41], &[0x00, 0x00, 0x03, 0x00, b'P', b'L', b'T', b'E']);
}

#[test]
fn rows_get_a_filter_byte() {
    assert_eq!(filter_rows(&[1, 2, 3, 4, 5], 2), vec![0, 1, 2, 0, 3, 4, 0, 5]);
    assert_eq!(filter_rows(&[], 3), Vec::<u8>::new());
    assert_eq!(bytes_per_row(3, BitDepth::OneBit, ColorType::Luminance), 1);
    assert_eq!(bytes_per_row(10, BitDepth::SixteenBit, ColorType::RedGreenBlueAlpha), 80);
}

#[test]
fn png_write_matches_write_png() {
    let mut png = Png::new_grayscale(2, 2, BitDepth::EightBit);
    png.set_pixel(0, 0, &[1]).unwrap();
    png.set_pixel(1, 0, &[2]).unwrap();
    png.set_pixel(0, 1, &[3]).unwrap();
    png.set_pixel(1, 1, &[4]).unwrap();
    assert_eq!(png.pixel_data, vec![1, 2, 3, 4]);
    let mut expected = Vec::new();
    write_png(&mut expected, &[1, 2, 3, 4], 2, 2, BitDepth::EightBit, ColorType::Luminance, None);
    assert_eq!(png.write_vec(), Ok(expected));
}

#[test]
fn too_wide_images_are_refused() {
    let png = Png::from_parts(Vec::new(), u32::MAX as usize + 1, 1, BitDepth::EightBit, ColorType::Luminance);
    let mut output = vec![7];
    assert_eq!(png.write(&mut output), Err(WriteError::Overflow));
    assert_eq!(output, vec![7]);
}

#[test]
fn new_images_are_zeroed() {
    let png = Png::new_rgb(3, 2);
    assert_eq!(png.pixel_data, vec![0; 18]);
    assert_eq!(png.color_type, ColorType::RedGreenBlue);
    let png = Png::new_rgba(2, 2);
    assert_eq!(png.pixel_data.len(), 16);
    let png = Png::new_indexed(4, 4, BitDepth::FourBit, &[1, 2, 3]);
    assert_eq!(png.pixel_data.len(), 8);
    assert_eq!(png.palette_data, Some(vec![1, 2, 3]));
    assert_eq!(png.bits_per_pixel(), 4);
    assert_eq!(png.image_bytes_per_row(), 2);
    assert_eq!(png.image_bytes_expected(), 8);
    let png = Png::new_indexed(3, 2, BitDepth::OneBit, &[0, 0, 0]);
    assert_eq!(png.pixel_data, vec![0; 2]);
    assert_eq!(png.image_bytes_expected(), 2);
    let png = Png::new_grayscale(2, 2, BitDepth::SixteenBit);
    assert_eq!(png.pixel_data, vec![0; 8]);
    assert_eq!(png.image_bytes_expected(), 8);
    let png = Png::new_grayscale(5, 3, BitDepth::TwoBit);
    assert_eq!(png.pixel_data.len(), 6);
    let png = Png::default();
    assert_eq!((png.width, png.height, png.bit_depth, png.color_type), (0, 0, BitDepth::EightBit, ColorType::Luminance));
}

#[test]
fn unstructured_bytes_choose_a_layout() {
    let png = Png::from_unstructured_bytes(&[0xFF; 2]);
    assert_eq!((png.width, png.height, png.bit_depth, png.color_type), (16, 1, BitDepth::OneBit, ColorType::Luminance));
    let png = Png::from_unstructured_bytes(&[0; 0x100]);
    assert_eq!((png.width, png.height, png.bit_depth), (16, 64, BitDepth::TwoBit));
    assert_eq!(png.image_bytes_expected(), 0x100);
    let png = Png::from_unstructured_bytes(&[0; 0x101]);
    assert_eq!((png.width, png.height, png.color_type), (16, 17, ColorType::Indexed));
    assert_eq!(png.image_bytes_expected(), 16 * 17);
    assert_eq!(png.palette_data, Some(TURBO.to_vec()));
    let png = Png::from_unstructured_bytes(&vec![0; 0x800001]);
    assert!(png.image_bytes_expected() >= 0x800001);
    assert_eq!((png.width, png.color_type, png.palette_data), (1024, ColorType::RedGreenBlueAlpha, None));
    assert_eq!(png.height, 2049);
}

#[test]
fn unstructured_images_cover_their_data() {
    let png = Png::from_unstructured_bytes(&[7; 512]);
    assert_eq!((png.width, png.height), (16, 32));
    assert_eq!(png.image_bytes_expected(), 512);
    for len in [1usize, 2, 3, 31, 32, 33, 255, 257, 0x801, 0x20001, 0x200001, 0x200002] {
        let png = Png::from_unstructured_bytes(&vec![1; len]);
        assert!(png.image_bytes_expected() >= len, "{len}");
        assert!(1 <= png.width && png.width <= 1024 && png.height <= 8192);
        assert_eq!(png.palette_data.is_some(), png.color_type == ColorType::Indexed);
    }
}

#[test]
fn to_png_conversions() {
    let png = Png::new(&[[1u8, 2, 3], [4, 5, 6]]);
    assert_eq!((png.width, png.height), (3, 2));
    assert_eq!(png.pixel_data, vec![1, 2, 3, 4, 5, 6]);
    assert_eq!(png.color_type, ColorType::Luminance);
    let bytes: &[u8] = &[9; 40];
    assert_eq!(bytes.to_png().bit_depth, BitDepth::TwoBit);
    let copy = png.to_png();
    assert_eq!(copy, png);
}

#[test]
fn mutable_pixels_of_rgb_images() {
    let mut png = Png::new_rgb(2, 2);
    png.mut_pixel(1, 1).copy_from_slice(&[7, 8, 9]);
    assert_eq!(png.pixel_data, vec![0, 0, 0, 0, 0, 0, 0, 0, 0, 7, 8, 9]);
    assert_eq!(u8::from(BitDepth::SixteenBit), 16);
    assert_eq!(u8::from(ColorType::RedGreenBlueAlpha), 6);
    assert_eq!(BitDepth::FourBit.bits_per_sample(), 4);
    assert_eq!(ColorType::LuminanceAlpha.samples_per_pixel(), 2);
}

#[test]
fn writability() {
    assert!(Png::new_rgb(2, 2).writable());
    let wide = Png::from_parts(vec![0], 0x4000_0000, 1, BitDepth::SixteenBit, ColorType::RedGreenBlueAlpha);
    assert!(!wide.writable());
    let empty_rows = Png::from_parts(vec![1, 2], 0, 1, BitDepth::EightBit, ColorType::Luminance);
    assert!(!empty_rows.writable());
    let huge = Png::from_parts(Vec::new(), u32::MAX as usize + 1, 1, BitDepth::EightBit, ColorType::Luminance);
    assert!(huge.writable());
}

#[test]
fn reading_back_written_images() {
    let mut grey = Png::new_grayscale(3, 2, BitDepth::EightBit);
    grey.set_pixel(2, 1, &[200]).unwrap();
    let file = grey.write_vec().unwrap();
    assert_eq!(Png::read_slice(&file), Ok(grey.clone()));
    assert_eq!(Png::read(&file), Ok(grey));

    let mut indexed = Png::new_indexed(5, 3, BitDepth::TwoBit, &[0, 0, 0, 255, 255, 255]);
    indexed.pixel_data = vec![0b0001_1011, 0b1100_0000, 0xFF, 0, 1, 2];
    let file = indexed.write_vec().unwrap();
    assert_eq!(Png::read(&file), Ok(indexed));

    let empty = Png::default();
    assert_eq!(Png::read(&empty.write_vec().unwrap()), Ok(empty));

    let big = Png::from_unstructured_bytes(&vec![7u8; 0x30000]);
    let file = big.write_vec().unwrap();
    assert_eq!(Png::read(&file), Ok(big));

    assert_eq!(Png::read(b"not a png"), Err(ReadError::Malformed));
    assert_eq!(Png::read_slice(b"not a png"), Err(ReadError::Malformed));
    let mut damaged = Png::new_rgb(1, 1).write_vec().unwrap();
    damaged[20] ^= 1;
    assert_eq!(Png::read(&damaged), Err(ReadError::Malformed));
    let compressed = hex(
        "89504e470d0a1a0a0000000d4948445200000001000000010800000000\
         3a7e9b550000000a49444154789c63a8070000810080d394534a0000000049454e44ae426082",
    );
    assert_eq!(Png::read(&compressed), Err(ReadError::Malformed));
}

#[test]
fn written_files_mark_their_parts() {
    let mut buffer = output_buffer();
    assert_eq!(
        write_png::write_png(&mut buffer, &[1, 2, 3, 4], 2, 2, BitDepth::EightBit, ColorType::Luminance, None),
        Ok(())
    );
    assert_eq!(buffer.tracks(), vec!["png".to_string()]);
    let roots = buffer.root_tags("png").unwrap();
    assert_eq!(roots.len(), 1);
    let file = &roots[0];
    assert_eq!(file.name().as_str(), "png");
    assert_eq!(file.range(), 0..buffer.len());
    let parts: Vec<(String, usize, usize)> =
        file.children().iter().map(|part| (part.name().clone(), part.start(), part.end())).collect();
    let n = buffer.len();
    assert_eq!(
        parts,
        vec![
            ("signature".to_string(), 0, 8),
            ("header".to_string(), 8, 33),
            ("pixels".to_string(), 33, n - 12),
            ("footer".to_string(), n - 12, n),
        ]
    );
    let header = &file.children()[1];
    let chunk = &header.children()[0];
    assert_eq!(chunk.name().as_str(), "chunk");
    let body = &chunk.children()[2];
    assert_eq!(body.name().as_str(), "body");
    let fields: Vec<String> = body.children().iter().map(|field| field.name().clone()).collect();
    assert_eq!(
        fields,
        vec!["width", "height", "bit-depth", "color-mode", "compression-mode", "filter-mode", "interlace-mode"]
    );
    assert_eq!(body.children()[0].range(), 16..20);
}
