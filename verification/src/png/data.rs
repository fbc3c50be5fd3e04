//! In-memory representation of a PNG image.

use vstd::prelude::*;

use crate::encoding::{push_bytes, u32_be, zeros};
use crate::generic::{ReadError, WriteError};
use crate::png::reading::{parse_png, read_png};
use crate::png::palettes::TURBO;
use crate::png::to_png::ToPng;
use crate::png::writing::{
    bytes_per_row, filter_rows, png_file, png_header, png_signature, row_bytes, write_non_deflated, write_png, write_png_ok,
};

verus! {

/// The bit depth of an image, as defined in the PNG specification.
///
/// > **bit depth**: for indexed-colour images, the number of bits per palette
/// > index. For other images, the number of bits per sample in the image. This
/// > is the value that appears in the `IHDR` Image header chunk.
#[derive(Debug, Clone, Copy, PartialEq, Eq, PartialOrd, Ord, Hash, Default)]
pub enum BitDepth {
    OneBit,
    TwoBit,
    FourBit,
    #[default]
    EightBit,
    SixteenBit,
}

/// The color type of an image, as defined in the PNG specification.
///
/// > There are five types of PNG image. Corresponding to each type is a
/// > **colour type**, which is the sum of the following values: 1 (palette
/// > used), 2 (truecolour used) and 4 (alpha used).
#[derive(Debug, Clone, Copy, PartialEq, Eq, PartialOrd, Ord, Hash, Default)]
pub enum ColorType {
    #[default]
    Luminance,
    RedGreenBlue,
    Indexed,
    LuminanceAlpha,
    RedGreenBlueAlpha,
}

/// The number of bits per sample: the value stored in the `IHDR` chunk.
pub open spec fn bit_depth_value(depth: BitDepth) -> u8 {
    match depth {
        BitDepth::OneBit => 1,
        BitDepth::TwoBit => 2,
        BitDepth::FourBit => 4,
        BitDepth::EightBit => 8,
        BitDepth::SixteenBit => 16,
    }
}

/// The color type code stored in the `IHDR` chunk.
pub open spec fn color_type_value(color_type: ColorType) -> u8 {
    match color_type {
        ColorType::Luminance => 0,
        ColorType::RedGreenBlue => 2,
        ColorType::Indexed => 3,
        ColorType::LuminanceAlpha => 4,
        ColorType::RedGreenBlueAlpha => 6,
    }
}

/// The number of samples (channels) in each pixel.
pub open spec fn samples_of(color_type: ColorType) -> usize {
    match color_type {
        ColorType::Luminance => 1,
        ColorType::RedGreenBlue => 3,
        ColorType::Indexed => 1,
        ColorType::LuminanceAlpha => 2,
        ColorType::RedGreenBlueAlpha => 4,
    }
}

impl BitDepth {
    /// The number of bits in each sample.
    pub fn bits_per_sample(&self) -> (bits: usize)
        ensures
            bits == bit_depth_value(*self),
    {
        match self {
            BitDepth::OneBit => 1,
            BitDepth::TwoBit => 2,
            BitDepth::FourBit => 4,
            BitDepth::EightBit => 8,
            BitDepth::SixteenBit => 16,
        }
    }
}

impl ColorType {
    /// The number of samples (channels) in each pixel.
    pub fn samples_per_pixel(&self) -> (samples: usize)
        ensures
            samples == samples_of(*self),
    {
        match self {
            ColorType::Luminance => 1,
            ColorType::RedGreenBlue => 3,
            ColorType::Indexed => 1,
            ColorType::LuminanceAlpha => 2,
            ColorType::RedGreenBlueAlpha => 4,
        }
    }
}

impl From<BitDepth> for u8 {
    fn from(depth: BitDepth) -> (value: u8) {
        match depth {
            BitDepth::OneBit => 1,
            BitDepth::TwoBit => 2,
            BitDepth::FourBit => 4,
            BitDepth::EightBit => 8,
            BitDepth::SixteenBit => 16,
        }
    }
}

impl vstd::std_specs::convert::FromSpecImpl<BitDepth> for u8 {
    open spec fn obeys_from_spec() -> bool {
        true
    }

    open spec fn from_spec(depth: BitDepth) -> u8 {
        bit_depth_value(depth)
    }
}

impl From<ColorType> for u8 {
    fn from(color_type: ColorType) -> (value: u8) {
        match color_type {
            ColorType::Luminance => 0,
            ColorType::RedGreenBlue => 2,
            ColorType::Indexed => 3,
            ColorType::LuminanceAlpha => 4,
            ColorType::RedGreenBlueAlpha => 6,
        }
    }
}

impl vstd::std_specs::convert::FromSpecImpl<ColorType> for u8 {
    open spec fn obeys_from_spec() -> bool {
        true
    }

    open spec fn from_spec(color_type: ColorType) -> u8 {
        color_type_value(color_type)
    }
}

/// In-memory representation of a PNG file's essential image contents.
#[derive(Debug, Clone, Hash, PartialEq, Eq, PartialOrd, Ord)]
#[non_exhaustive]
pub struct Png {
    pub pixel_data: Vec<u8>,
    pub width: usize,
    pub height: usize,
    pub bit_depth: BitDepth,
    pub color_type: ColorType,
    pub palette_data: Option<Vec<u8>>,
    pub transparency_data: Option<Vec<u8>>,
}

/// The contents of a [`Png`], as mathematical values.
#[verifier::ext_equal]
pub struct PngModel {
    pub pixel_data: Seq<u8>,
    pub width: usize,
    pub height: usize,
    pub bit_depth: BitDepth,
    pub color_type: ColorType,
    pub palette_data: Option<Seq<u8>>,
    pub transparency_data: Option<Seq<u8>>,
}

/// The view of an optional byte vector.
pub open spec fn opt_bytes(v: Option<Vec<u8>>) -> Option<Seq<u8>> {
    match v {
        Some(v) => Some(v@),
        None => None,
    }
}

impl View for Png {
    type V = PngModel;

    open spec fn view(&self) -> PngModel {
        PngModel {
            pixel_data: self.pixel_data@,
            width: self.width,
            height: self.height,
            bit_depth: self.bit_depth,
            color_type: self.color_type,
            palette_data: opt_bytes(self.palette_data),
            transparency_data: opt_bytes(self.transparency_data),
        }
    }
}

/// The bit depth, color type, palette use and (unclamped) width chosen for
/// unstructured data of `len` bytes.
pub open spec fn unstructured_layout(len: int) -> (BitDepth, ColorType, bool, int) {
    if len <= 0x20 {
        (BitDepth::OneBit, ColorType::Luminance, false, if 16 <= len * 8 { 16 } else { len * 8 })
    } else if len <= 0x100 {
        (BitDepth::TwoBit, ColorType::Luminance, false, 16)
    } else if len <= 0x200 {
        (BitDepth::EightBit, ColorType::Indexed, true, 16)
    } else if len <= 0x800 {
        (BitDepth::EightBit, ColorType::Indexed, true, 32)
    } else if len <= 0x2000 {
        (BitDepth::EightBit, ColorType::Indexed, true, 64)
    } else if len <= 0x8000 {
        (BitDepth::EightBit, ColorType::Indexed, true, 128)
    } else if len <= 0x20000 {
        (BitDepth::EightBit, ColorType::Indexed, true, 256)
    } else if len <= 0x80000 {
        (BitDepth::EightBit, ColorType::Indexed, true, 512)
    } else if len <= 0x200000 {
        (BitDepth::EightBit, ColorType::Indexed, true, 1024)
    } else if len <= 0x800000 {
        (BitDepth::EightBit, ColorType::RedGreenBlue, false, 1024)
    } else {
        (BitDepth::EightBit, ColorType::RedGreenBlueAlpha, false, 1024)
    }
}

/// The image that [`Png::from_unstructured_bytes`] makes of `bytes`.
pub open spec fn unstructured_png(bytes: Seq<u8>) -> PngModel {
    let (depth, color, has_palette, raw_width) = unstructured_layout(bytes.len() as int);
    let width = if raw_width <= 1024 { raw_width } else { 1024 };
    let bits = bit_depth_value(depth) * samples_of(color);
    let pixel_count = (bytes.len() * 8 + bits - 1) / bits;
    let rows = (pixel_count + width - 1) / width;
    PngModel {
        pixel_data: bytes,
        width: width as usize,
        height: (if rows <= 8192 { rows } else { 8192 }) as usize,
        bit_depth: depth,
        color_type: color,
        palette_data: if has_palette { Some(TURBO@) } else { None },
        transparency_data: None,
    }
}

/// The layouts of [`unstructured_layout`]: a width from 1 to 1024, and
/// enough room in 8192 rows of that width for 32MiB of data.
proof fn lemma_unstructured_layout(len: int)
    requires
        len > 0,
    ensures
        ({
            let (depth, color, _, width) = unstructured_layout(len);
            let bits = bit_depth_value(depth) * samples_of(color);
            &&& 1 <= width <= 1024
            &&& 1 <= bits <= 32
            &&& len <= 0x2000000 ==> 8 * len <= 8192 * width * bits
        }),
{
    let (depth, color, _, width) = unstructured_layout(len);
    let bits = bit_depth_value(depth) * samples_of(color);
    if len <= 0x20 {
        assert(bits == 1);
        assert(8 * len <= 8192 * width) by (nonlinear_arith)
            requires
                0 < len <= 0x20,
                width == if 16 <= len * 8 { 16 } else { len * 8 },
        ;
        assert(8192 * width * bits == 8192 * width) by (nonlinear_arith)
            requires
                bits == 1,
        ;
    } else if len <= 0x100 {
        assert(bits == 2 && width == 16);
        assert(8192 * width * bits == 262144) by (nonlinear_arith)
            requires
                bits == 2,
                width == 16,
        ;
    } else if len <= 0x200 {
        assert(bits == 8 && width == 16);
        assert(8192 * width * bits == 1048576) by (nonlinear_arith)
            requires
                bits == 8,
                width == 16,
        ;
    } else if len <= 0x800 {
        assert(bits == 8 && width == 32);
        assert(8192 * width * bits == 2097152) by (nonlinear_arith)
            requires
                bits == 8,
                width == 32,
        ;
    } else if len <= 0x2000 {
        assert(bits == 8 && width == 64);
        assert(8192 * width * bits == 4194304) by (nonlinear_arith)
            requires
                bits == 8,
                width == 64,
        ;
    } else if len <= 0x8000 {
        assert(bits == 8 && width == 128);
        assert(8192 * width * bits == 8388608) by (nonlinear_arith)
            requires
                bits == 8,
                width == 128,
        ;
    } else if len <= 0x20000 {
        assert(bits == 8 && width == 256);
        assert(8192 * width * bits == 16777216) by (nonlinear_arith)
            requires
                bits == 8,
                width == 256,
        ;
    } else if len <= 0x80000 {
        assert(bits == 8 && width == 512);
        assert(8192 * width * bits == 33554432) by (nonlinear_arith)
            requires
                bits == 8,
                width == 512,
        ;
    } else if len <= 0x200000 {
        assert(bits == 8 && width == 1024);
        assert(8192 * width * bits == 67108864) by (nonlinear_arith)
            requires
                bits == 8,
                width == 1024,
        ;
    } else if len <= 0x800000 {
        assert(bits == 24 && width == 1024);
        assert(8192 * width * bits == 201326592) by (nonlinear_arith)
            requires
                bits == 24,
                width == 1024,
        ;
    } else {
        assert(bits == 32 && width == 1024);
        assert(8192 * width * bits == 268435456) by (nonlinear_arith)
            requires
                bits == 32,
                width == 1024,
        ;
    }
}

/// With `rows` rows of `width` pixels of `bits` bits each, as many as
/// `len` bytes need, `rows * row_bytes` holds at least `len` bytes, and
/// no more than 8192 rows are needed where `len` bytes fit in 8192 rows.
proof fn lemma_rows_cover(len: int, width: int, bits: int)
    requires
        len > 0,
        width >= 1,
        bits >= 1,
        8 * len <= 8192 * width * bits,
    ensures
        ({
            let pixel_count = (len * 8 + bits - 1) / bits;
            let rows = (pixel_count + width - 1) / width;
            &&& rows <= 8192
            &&& (width * bits + 7) / 8 * rows >= len
        }),
{
    let pixel_count = (len * 8 + bits - 1) / bits;
    let rows = (pixel_count + width - 1) / width;
    assert(pixel_count * bits >= len * 8) by (nonlinear_arith)
        requires
            bits >= 1,
            pixel_count == (len * 8 + bits - 1) / bits,
    ;
    assert(pixel_count <= 8192 * width) by (nonlinear_arith)
        requires
            bits >= 1,
            width >= 1,
            pixel_count == (len * 8 + bits - 1) / bits,
            8 * len <= 8192 * width * bits,
    ;
    assert(rows * width >= pixel_count) by (nonlinear_arith)
        requires
            width >= 1,
            pixel_count >= 0,
            rows == (pixel_count + width - 1) / width,
    ;
    assert(rows <= 8192) by (nonlinear_arith)
        requires
            width >= 1,
            pixel_count >= 0,
            pixel_count <= 8192 * width,
            rows == (pixel_count + width - 1) / width,
    ;
    let row = (width * bits + 7) / 8;
    assert(row * 8 >= width * bits) by (nonlinear_arith)
        requires
            width * bits >= 0,
            row == (width * bits + 7) / 8,
    ;
    assert(row * rows >= len) by (nonlinear_arith)
        requires
            row * 8 >= width * bits,
            rows * width >= pixel_count,
            pixel_count * bits >= len * 8,
            rows >= 0,
            bits >= 1,
            width >= 1,
    ;
}

/// The number of bits per pixel of an image with this depth and color type.
pub open spec fn pixel_bits(depth: BitDepth, color: ColorType) -> int {
    bit_depth_value(depth) * samples_of(color)
}

/// The empty image: no pixels, 8-bit greyscale, no palette.
pub open spec fn empty_png() -> PngModel {
    PngModel {
        pixel_data: Seq::empty(),
        width: 0,
        height: 0,
        bit_depth: BitDepth::EightBit,
        color_type: ColorType::Luminance,
        palette_data: None,
        transparency_data: None,
    }
}

impl Png {
    /// An image of the given pixel data and layout, without palette or
    /// transparency data.
    pub fn from_parts(
        pixel_data: Vec<u8>,
        width: usize,
        height: usize,
        bit_depth: BitDepth,
        color_type: ColorType,
    ) -> (png: Self)
        ensures
            png@ == (PngModel {
                pixel_data: pixel_data@,
                width,
                height,
                bit_depth,
                color_type,
                palette_data: None,
                transparency_data: None,
            }),
    {
        Png {
            pixel_data,
            width,
            height,
            bit_depth,
            color_type,
            palette_data: None,
            transparency_data: None,
        }
    }

    /// Creates a new [`Png`] from the given data.
    pub fn new<T: ToPng + ?Sized>(data: &T) -> (png: Self)
        requires
            data.png_convertible(),
        ensures
            png@ == data.png_view(),
    {
        data.to_png()
    }
}

impl Default for Png {
    fn default() -> (png: Self)
        ensures
            png@ == empty_png(),
    {
        let png = Png {
            pixel_data: Vec::new(),
            width: 0,
            height: 0,
            bit_depth: BitDepth::EightBit,
            color_type: ColorType::Luminance,
            palette_data: None,
            transparency_data: None,
        };
        assert(png@.pixel_data =~= Seq::<u8>::empty());
        png
    }
}

fn copy_bytes(bytes: &Vec<u8>) -> (copy: Vec<u8>)
    ensures
        copy@ == bytes@,
{
    let mut copy: Vec<u8> = Vec::new();
    push_bytes(&mut copy, bytes.as_slice());
    copy
}

fn copy_opt_bytes(bytes: &Option<Vec<u8>>) -> (copy: Option<Vec<u8>>)
    ensures
        opt_bytes(copy) == opt_bytes(*bytes),
{
    match bytes {
        Some(b) => Some(copy_bytes(b)),
        None => None,
    }
}

impl Png {
    /// A copy of this image.
    pub fn duplicate(&self) -> (copy: Png)
        ensures
            copy@ == self@,
    {
        Png {
            pixel_data: copy_bytes(&self.pixel_data),
            width: self.width,
            height: self.height,
            bit_depth: self.bit_depth,
            color_type: self.color_type,
            palette_data: copy_opt_bytes(&self.palette_data),
            transparency_data: copy_opt_bytes(&self.transparency_data),
        }
    }

    /// Create a new indexed-color [`Png`] with the given dimensions, bit depth,
    /// and color palette. The pixel data is zeroed and holds as many bytes as
    /// the image needs: its rows, each padded to a whole byte.
    pub fn new_indexed(width: usize, height: usize, bit_depth: BitDepth, palette: &[u8]) -> (png:
        Self)
        requires
            row_bytes(width as int, bit_depth, ColorType::Indexed) * height <= usize::MAX,
        ensures
            png@ == (PngModel {
                pixel_data: zeros((row_bytes(width as int, bit_depth, ColorType::Indexed) * height) as nat),
                width,
                height,
                bit_depth,
                color_type: ColorType::Indexed,
                palette_data: Some(palette@),
                transparency_data: None,
            }),
    {
        let mut palette_data: Vec<u8> = Vec::new();
        push_bytes(&mut palette_data, palette);
        let pixel_data = zeroed_pixels(width, height, bit_depth, ColorType::Indexed);
        Png {
            width,
            height,
            bit_depth,
            color_type: ColorType::Indexed,
            palette_data: Some(palette_data),
            transparency_data: None,
            pixel_data,
        }
    }

    /// Create a new greyscale [`Png`] with the given dimensions and bit
    /// depth. The pixel data is zeroed and holds as many bytes as the image
    /// needs: its rows, each padded to a whole byte.
    pub fn new_grayscale(width: usize, height: usize, bit_depth: BitDepth) -> (png: Self)
        requires
            row_bytes(width as int, bit_depth, ColorType::Luminance) * height <= usize::MAX,
        ensures
            png@ == (PngModel {
                pixel_data: zeros((row_bytes(width as int, bit_depth, ColorType::Luminance) * height) as nat),
                width,
                height,
                bit_depth,
                color_type: ColorType::Luminance,
                palette_data: None,
                transparency_data: None,
            }),
    {
        let color_type = ColorType::Luminance;
        let pixel_data = zeroed_pixels(width, height, bit_depth, color_type);
        Png {
            pixel_data,
            width,
            height,
            bit_depth,
            color_type,
            palette_data: None,
            transparency_data: None,
        }
    }

    /// Creates a new 24-bit RGB [`Png`] with the given dimensions.
    pub fn new_rgb(width: usize, height: usize) -> (png: Self)
        requires
            width * height * 3 <= usize::MAX,
        ensures
            png@ == (PngModel {
                pixel_data: zeros((width * height * 3) as nat),
                width,
                height,
                bit_depth: BitDepth::EightBit,
                color_type: ColorType::RedGreenBlue,
                palette_data: None,
                transparency_data: None,
            }),
    {
        let bit_depth = BitDepth::EightBit;
        let color_type = ColorType::RedGreenBlue;
        assert(width * height <= width * height * 3) by (nonlinear_arith);
        let pixel_data = vec![0u8; width * height * color_type.samples_per_pixel()];
        assert(pixel_data@ == zeros((width * height * 3) as nat));
        Png {
            pixel_data,
            width,
            height,
            bit_depth,
            color_type,
            palette_data: None,
            transparency_data: None,
        }
    }

    /// Creates a new 32-bit RGBA [`Png`] with the given dimensions.
    pub fn new_rgba(width: usize, height: usize) -> (png: Self)
        requires
            width * height * 4 <= usize::MAX,
        ensures
            png@ == (PngModel {
                pixel_data: zeros((width * height * 4) as nat),
                width,
                height,
                bit_depth: BitDepth::EightBit,
                color_type: ColorType::RedGreenBlueAlpha,
                palette_data: None,
                transparency_data: None,
            }),
    {
        let bit_depth = BitDepth::EightBit;
        let color_type = ColorType::RedGreenBlueAlpha;
        assert(width * height <= width * height * 4) by (nonlinear_arith);
        let pixel_data = vec![0u8; width * height * color_type.samples_per_pixel()];
        assert(pixel_data@ == zeros((width * height * 4) as nat));
        Png {
            pixel_data,
            width,
            height,
            bit_depth,
            color_type,
            palette_data: None,
            transparency_data: None,
        }
    }
}

/// Zeroed pixel data for an image of `height` rows of `width` pixels, each
/// row padded to a whole byte.
fn zeroed_pixels(width: usize, height: usize, depth: BitDepth, color: ColorType) -> (pixels: Vec<u8>)
    requires
        row_bytes(width as int, depth, color) * height <= usize::MAX,
    ensures
        pixels@ == zeros((row_bytes(width as int, depth, color) * height) as nat),
{
    let sample_bits = depth.bits_per_sample();
    let samples = color.samples_per_pixel();
    assert(sample_bits * samples <= 64) by (nonlinear_arith)
        requires
            sample_bits <= 16,
            samples <= 4,
    ;
    let bits: u128 = (sample_bits * samples) as u128;
    assert(width * bits <= 0xFFFF_FFFF_FFFF_FFFF * 64) by (nonlinear_arith)
        requires
            width <= 0xFFFF_FFFF_FFFF_FFFF,
            bits <= 64,
    ;
    let row: u128 = (width as u128 * bits + 7) / 8;
    assert(row == row_bytes(width as int, depth, color)) by (nonlinear_arith)
        requires
            bits == bit_depth_value(depth) * samples_of(color),
            row == (width * bits + 7) / 8,
    ;
    assert(row * height <= usize::MAX);
    let total: u128 = row * height as u128;
    let pixel_data = vec![0u8; total as usize];
    assert(pixel_data@ == zeros((row_bytes(width as int, depth, color) * height) as nat));
    pixel_data
}

impl Png {
    /// Create a [`Png`] from unstructured image data bytes, choosing a bit
    /// depth, color type and width from the amount of data; indexed images
    /// use the [`TURBO`] palette.
    ///
    /// Data beyond the first 32MiB may be ignored.
    pub fn from_unstructured_bytes(bytes: &[u8]) -> (png: Self)
        requires
            bytes@.len() > 0,
        ensures
            png@ == unstructured_png(bytes@),
            bytes@.len() <= 0x2000000 ==> png.height <= 8192 && row_bytes(
                png.width as int,
                png.bit_depth,
                png.color_type,
            ) * png.height >= bytes@.len(),
    {
        let len = bytes.len();
        let mut bit_depth = BitDepth::EightBit;
        let mut color_type = ColorType::Indexed;
        let mut has_palette = true;
        let width: usize;
        if len <= 0x20 {
            has_palette = false;
            bit_depth = BitDepth::OneBit;
            color_type = ColorType::Luminance;
            width = if 16 <= len * 8 { 16 } else { len * 8 };
        } else if len <= 0x100 {
            has_palette = false;
            bit_depth = BitDepth::TwoBit;
            color_type = ColorType::Luminance;
            width = 16;
        } else if len <= 0x200 {
            width = 16;
        } else if len <= 0x800 {
            width = 32;
        } else if len <= 0x2000 {
            width = 64;
        } else if len <= 0x8000 {
            width = 128;
        } else if len <= 0x20000 {
            width = 256;
        } else if len <= 0x80000 {
            width = 512;
        } else if len <= 0x200000 {
            width = 1024;
        } else if len <= 0x800000 {
            width = 1024;
            has_palette = false;
            color_type = ColorType::RedGreenBlue;
        } else {
            width = 1024;
            has_palette = false;
            color_type = ColorType::RedGreenBlueAlpha;
        }
        let sample_bits = bit_depth.bits_per_sample();
        let samples = color_type.samples_per_pixel();
        assert(sample_bits * samples <= 64) by (nonlinear_arith)
            requires
                sample_bits <= 16,
                samples <= 4,
        ;
        let bits = sample_bits * samples;
        let width = if width <= 1024 { width } else { 1024 };
        let data_bits: u128 = len as u128 * 8;
        let pixel_count: u128 = (data_bits + bits as u128 - 1) / bits as u128;
        let rows: u128 = (pixel_count + width as u128 - 1) / width as u128;
        let height: usize = if rows <= 8192 { rows as usize } else { 8192 };
        proof {
            let (depth, color, _, raw_width) = unstructured_layout(len as int);
            lemma_unstructured_layout(len as int);
            if len <= 0x2000000 {
                lemma_rows_cover(len as int, width as int, bits as int);
            }
        }
        let palette_data = if has_palette {
            let mut palette: Vec<u8> = Vec::new();
            push_bytes(&mut palette, TURBO.as_slice());
            Some(palette)
        } else {
            None
        };
        let mut pixel_data: Vec<u8> = Vec::new();
        push_bytes(&mut pixel_data, bytes);
        Png {
            width,
            height,
            bit_depth,
            color_type,
            palette_data,
            transparency_data: None,
            pixel_data,
        }
    }

    /// Returns the number of bits per pixel in the image data of this [`Png`].
    ///
    /// This does not relate to the color palette (if one is present).
    pub fn bits_per_pixel(&self) -> (bits: usize)
        ensures
            bits == pixel_bits(self.bit_depth, self.color_type),
    {
        self.bit_depth.bits_per_sample() * self.color_type.samples_per_pixel()
    }

    /// Returns the number of bytes per row of pixels in the image data of this
    /// [`Png`].
    pub fn image_bytes_per_row(&self) -> (bytes: usize)
        requires
            self.width * pixel_bits(self.bit_depth, self.color_type) + 7 <= usize::MAX,
        ensures
            bytes == row_bytes(self.width as int, self.bit_depth, self.color_type),
    {
        let bits = self.bits_per_pixel();
        assert(self.width * bits == self.width * bit_depth_value(self.bit_depth) * samples_of(
            self.color_type,
        )) by (nonlinear_arith)
            requires
                bits == bit_depth_value(self.bit_depth) * samples_of(self.color_type),
        ;
        (self.width * bits + 7) / 8
    }

    /// Returns the total number of image bytes that we expect the image to
    /// contain based on its metadata. **This may not be the actual size of
    /// the image data in this [`Png`]**, but in most cases it should be.
    pub fn image_bytes_expected(&self) -> (bytes: usize)
        requires
            self.width * pixel_bits(self.bit_depth, self.color_type) + 7 <= usize::MAX,
            row_bytes(self.width as int, self.bit_depth, self.color_type) * self.height
                <= usize::MAX,
        ensures
            bytes == row_bytes(self.width as int, self.bit_depth, self.color_type) * self.height,
    {
        self.image_bytes_per_row() * self.height
    }
}

/// Whether [`Png::write`] can encode `png` without panicking once its
/// dimensions are known to fit in 32 bits.
pub open spec fn png_writable(png: PngModel) -> bool {
    png.width <= u32::MAX && png.height <= u32::MAX ==> write_png_ok(
        png.pixel_data,
        png.width as u32,
        png.bit_depth,
        png.color_type,
        png.palette_data,
    )
}

/// The PNG file that [`Png::write`] produces for `png`, or `None` when its
/// width or height does not fit in 32 bits.
pub open spec fn png_encoding(png: PngModel) -> Option<Seq<u8>> {
    if png.width <= u32::MAX && png.height <= u32::MAX {
        Some(
            png_file(
                png.pixel_data,
                png.width as u32,
                png.height as u32,
                png.bit_depth,
                png.color_type,
                png.palette_data,
            ),
        )
    } else {
        None
    }
}

/// A PNG file as [`Png::write_vec`] encodes an image starts with the PNG
/// signature, and the `IHDR` chunk that gives the image's width and height
/// (big-endian).
pub proof fn law_encoding_header(png: PngModel)
    requires
        png.width <= u32::MAX,
        png.height <= u32::MAX,
    ensures
        png_encoding(png) matches Some(file) && file.subrange(0, 8) == png_signature() && file.subrange(
            12,
            16,
        ) == seq![0x49u8, 0x48u8, 0x44u8, 0x52u8] && file.subrange(16, 20) == u32_be(png.width as u32)
            && file.subrange(20, 24) == u32_be(png.height as u32),
{
    let file = png_encoding(png)->0;
    let header = png_header(png.width as u32, png.height as u32, png.bit_depth, png.color_type);
    assert(file.subrange(0, 24) =~= header.subrange(0, 24));
    assert(file.subrange(0, 8) =~= header.subrange(0, 8));
    assert(file.subrange(12, 16) =~= header.subrange(12, 16));
    assert(file.subrange(16, 20) =~= header.subrange(16, 20));
    assert(file.subrange(20, 24) =~= header.subrange(20, 24));
}

/// The images that [`Png::new_rgb`] and [`Png::new_rgba`] make hold as many
/// bytes as their layout expects.
pub proof fn law_new_image_bytes_expected(width: usize, height: usize, samples: int)
    requires
        samples == 3 || samples == 4,
    ensures
        row_bytes(
            width as int,
            BitDepth::EightBit,
            if samples == 3 {
                ColorType::RedGreenBlue
            } else {
                ColorType::RedGreenBlueAlpha
            },
        ) * height == zeros((width * height * samples) as nat).len(),
{
    let color = if samples == 3 {
        ColorType::RedGreenBlue
    } else {
        ColorType::RedGreenBlueAlpha
    };
    assert(samples_of(color) == samples);
    assert(bit_depth_value(BitDepth::EightBit) == 8);
    assert(width * 8 * samples == (width * samples) * 8) by (nonlinear_arith);
    assert((width * samples * 8 + 7) / 8 == width * samples) by (nonlinear_arith)
        requires
            width * samples >= 0,
    ;
    assert(width * samples * height == width * height * samples) by (nonlinear_arith);
    assert(width * height * samples >= 0) by (nonlinear_arith)
        requires
            samples >= 3,
    ;
}

/// The first byte of pixel `(x, y)` in the pixel data of `png`.
pub open spec fn pixel_offset(png: PngModel, x: int, y: int) -> int {
    y * row_bytes(png.width as int, png.bit_depth, png.color_type) + x * pixel_bits(
        png.bit_depth,
        png.color_type,
    ) / 8
}

/// The number of bytes of one pixel of `png`.
pub open spec fn pixel_len(png: PngModel) -> int {
    pixel_bits(png.bit_depth, png.color_type) / 8
}

/// Whether [`Png::mut_pixel`] can address pixel `(x, y)` of `png`: the image
/// has 8 or 16 bits per sample and the pixel lies within the pixel data.
pub open spec fn pixel_addressable(png: PngModel, x: int, y: int) -> bool {
    &&& (png.bit_depth == BitDepth::EightBit || png.bit_depth == BitDepth::SixteenBit)
    &&& png.width * pixel_bits(png.bit_depth, png.color_type) + 7 <= usize::MAX
    &&& x * pixel_bits(png.bit_depth, png.color_type) <= usize::MAX
    &&& y * row_bytes(png.width as int, png.bit_depth, png.color_type) <= usize::MAX
    &&& 0 <= x && 0 <= y
    &&& pixel_offset(png, x, y) + pixel_len(png) <= png.pixel_data.len()
}

fn option_slice(bytes: &Option<Vec<u8>>) -> (slice: Option<&[u8]>)
    ensures
        match slice {
            Some(s) => opt_bytes(*bytes) == Some(s@),
            None => opt_bytes(*bytes) == None::<Seq<u8>>,
        },
{
    match bytes {
        Some(b) => Some(b.as_slice()),
        None => None,
    }
}

impl Png {
    /// Serializes this [`Png`] as a PNG image file, appending it to `output`.
    /// Fails, writing nothing, when the width or height does not fit in the
    /// 32 bits that the format gives it.
    pub fn write(&self, output: &mut Vec<u8>) -> (result: Result<(), WriteError>)
        requires
            png_writable(self@),
        ensures
            match png_encoding(self@) {
                Some(file) => result == Ok::<(), WriteError>(()) && final(output)@ == old(output)@ + file,
                None => result == Err::<(), WriteError>(WriteError::Overflow) && final(output)@ == old(output)@,
            },
    {
        if self.width > u32::MAX as usize || self.height > u32::MAX as usize {
            return Err(WriteError::Overflow);
        }
        let mut buffer: Vec<u8> = Vec::new();
        let palette = option_slice(&self.palette_data);
        write_png(
            &mut buffer,
            self.pixel_data.as_slice(),
            self.width as u32,
            self.height as u32,
            self.bit_depth,
            self.color_type,
            palette,
        );
        push_bytes(output, buffer.as_slice());
        Ok(())
    }

    /// Serializes this [`Png`] into a byte vector as a PNG image file.
    pub fn write_vec(&self) -> (result: Result<Vec<u8>, WriteError>)
        requires
            png_writable(self@),
        ensures
            match png_encoding(self@) {
                Some(file) => result matches Ok(v) && v@ == file,
                None => result == Err::<Vec<u8>, WriteError>(WriteError::Overflow),
            },
    {
        let mut output: Vec<u8> = Vec::new();
        match self.write(&mut output) {
            Ok(()) => Ok(output),
            Err(e) => Err(e),
        }
    }

    /// The bytes of pixel `(x, y)`, for images with 8 or 16 bits per sample,
    /// as a mutable slice into the pixel data.
    pub fn mut_pixel(&mut self, x: usize, y: usize) -> (pixel: &mut [u8])
        requires
            pixel_addressable(old(self)@, x as int, y as int),
        ensures
            pixel@ == old(self)@.pixel_data.subrange(
                pixel_offset(old(self)@, x as int, y as int),
                pixel_offset(old(self)@, x as int, y as int) + pixel_len(old(self)@),
            ),
            final(self)@ == (PngModel {
                pixel_data: old(self)@.pixel_data.subrange(
                    0,
                    pixel_offset(old(self)@, x as int, y as int),
                ) + final(pixel)@ + old(self)@.pixel_data.subrange(
                    pixel_offset(old(self)@, x as int, y as int) + pixel_len(old(self)@),
                    old(self)@.pixel_data.len() as int,
                ),
                ..old(self)@
            }),
    {
        let bits_per_pixel = self.bits_per_pixel();
        let row = y * self.image_bytes_per_row();
        let col = x * bits_per_pixel / 8;
        let len = bits_per_pixel / 8;
        assert(row + col == pixel_offset(old(self)@, x as int, y as int));
        let all = self.pixel_data.as_mut_slice();
        let total = all.len();
        assert(row + col <= total);
        let (before, rest) = all.split_at_mut(row + col);
        let (pixel, after) = rest.split_at_mut(len);
        assert(has_resolved(before));
        assert(has_resolved(after));
        pixel
    }

    /// Sets the pixel at the given coordinates to the given color.
    /// The required length of the color data may vary depending on the
    /// color type and bit depth of the image.
    pub fn set_pixel(&mut self, x: usize, y: usize, color: &[u8]) -> (result: Result<
        (),
        WriteError,
    >)
        requires
            pixel_addressable(old(self)@, x as int, y as int),
            color@.len() == pixel_len(old(self)@),
        ensures
            result == Ok::<(), WriteError>(()),
            final(self)@ == (PngModel {
                pixel_data: old(self)@.pixel_data.subrange(
                    0,
                    pixel_offset(old(self)@, x as int, y as int),
                ) + color@ + old(self)@.pixel_data.subrange(
                    pixel_offset(old(self)@, x as int, y as int) + pixel_len(old(self)@),
                    old(self)@.pixel_data.len() as int,
                ),
                ..old(self)@
            }),
    {
        let pixel = self.mut_pixel(x, y);
        let mut i: usize = 0;
        while i < color.len()
            invariant
                pixel@.len() == color@.len(),
                i <= color@.len(),
                forall|j: int| 0 <= j < i ==> pixel@[j] == color@[j],
            decreases color@.len() - i,
        {
            pixel[i] = color[i];
            i = i + 1;
        }
        assert(pixel@ == color@);
        Ok(())
    }
}

impl Png {
    /// Whether [`Png::write`] can encode this image: its dimensions do not
    /// fit in 32 bits (and it fails cleanly), or its rows, palette and image
    /// data fit the sizes that the format gives them.
    pub fn writable(&self) -> (result: bool)
        ensures
            result == png_writable(self@),
    {
        if self.width > u32::MAX as usize || self.height > u32::MAX as usize {
            return true;
        }
        let width = self.width as u32;
        let depth = self.bit_depth.bits_per_sample() as u64;
        let samples = self.color_type.samples_per_pixel() as u64;
        assert(depth * samples <= 64) by (nonlinear_arith)
            requires
                depth <= 16,
                samples <= 4,
        ;
        let bits = depth * samples;
        assert(width as u64 * bits <= 0xFFFF_FFFF * 64) by (nonlinear_arith)
            requires
                width <= 0xFFFF_FFFF,
                bits <= 64,
        ;
        if width as u64 * bits + 7 > u32::MAX as u64 {
            assert(width * bit_depth_value(self.bit_depth) * samples_of(self.color_type) + 7 > u32::MAX)
                by (nonlinear_arith)
                requires
                    width * bits + 7 > u32::MAX,
                    bits == bit_depth_value(self.bit_depth) * samples_of(self.color_type),
            ;
            return false;
        }
        assert(width * bits == width * bit_depth_value(self.bit_depth) * samples_of(self.color_type))
            by (nonlinear_arith)
            requires
                bits == bit_depth_value(self.bit_depth) * samples_of(self.color_type),
        ;
        let row = bytes_per_row(width, self.bit_depth, self.color_type);
        if self.pixel_data.len() > 0 && row == 0 {
            return false;
        }
        match &self.palette_data {
            Some(p) => {
                if p.len() > u32::MAX as usize {
                    return false;
                }
            },
            None => {},
        }
        let filtered = filter_rows(self.pixel_data.as_slice(), row as usize);
        let mut stream: Vec<u8> = Vec::new();
        let _ = write_non_deflated(&mut stream, filtered.as_slice());
        stream.len() <= u32::MAX as usize
    }
}

impl Png {
    /// Deserializes a PNG image file, as this crate writes them, into a
    /// [`Png`]: image data in stored deflate blocks, rows without filtering
    /// (see [`parse_png`]). Anything else is [`ReadError::Malformed`].
    pub fn read(input: &[u8]) -> (result: Result<Png, ReadError>)
        ensures
            match parse_png(input@) {
                Some(image) => result matches Ok(png) && png@ == image,
                None => result == Err::<Png, ReadError>(ReadError::Malformed),
            },
    {
        match read_png(input) {
            Some((pixel_data, width, height, bit_depth, color_type, palette_data)) => {
                Ok(
                    Png {
                        pixel_data,
                        width: width as usize,
                        height: height as usize,
                        bit_depth,
                        color_type,
                        palette_data,
                        transparency_data: None,
                    },
                )
            },
            None => Err(ReadError::Malformed),
        }
    }

    /// Deserializes a PNG image file held in a byte slice into a [`Png`],
    /// as [`Png::read`] does.
    pub fn read_slice(input: &[u8]) -> (result: Result<Png, ReadError>)
        ensures
            match parse_png(input@) {
                Some(image) => result matches Ok(png) && png@ == image,
                None => result == Err::<Png, ReadError>(ReadError::Malformed),
            },
    {
        Png::read(input)
    }
}

} // verus!
