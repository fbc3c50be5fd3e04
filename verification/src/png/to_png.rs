//! Conversions of inputs into [`Png`] images.

use vstd::prelude::*;

use crate::encoding::push_bytes;
use crate::png::data::{unstructured_png, BitDepth, ColorType, Png, PngModel};

verus! {

/// A [`Png`] or input that can be converted to one.
pub trait ToPng {
    /// Whether [`ToPng::to_png`] can convert this input.
    spec fn png_convertible(&self) -> bool;

    /// The image that [`ToPng::to_png`] makes of this input.
    spec fn png_view(&self) -> PngModel;

    /// Create a [`Png`] from this input.
    fn to_png(&self) -> (png: Png)
        requires
            self.png_convertible(),
        ensures
            png@ == self.png_view(),
    ;
}

impl ToPng for Png {
    open spec fn png_convertible(&self) -> bool {
        true
    }

    open spec fn png_view(&self) -> PngModel {
        self@
    }

    /// A copy of this [`Png`].
    fn to_png(&self) -> (png: Png) {
        self.duplicate()
    }
}

impl ToPng for [u8] {
    open spec fn png_convertible(&self) -> bool {
        self@.len() > 0
    }

    open spec fn png_view(&self) -> PngModel {
        unstructured_png(self@)
    }

    /// The bytes as unstructured image data (see
    /// [`Png::from_unstructured_bytes`]).
    fn to_png(&self) -> (png: Png) {
        Png::from_unstructured_bytes(self)
    }
}

/// The rows of a two-dimensional array, one after the other.
pub open spec fn flatten_rows<const WIDTH: usize>(rows: Seq<[u8; WIDTH]>) -> Seq<u8>
    decreases rows.len(),
{
    if rows.len() == 0 {
        Seq::empty()
    } else {
        flatten_rows(rows.drop_last()) + rows.last()@
    }
}

impl<const WIDTH: usize, const HEIGHT: usize> ToPng for [[u8; WIDTH]; HEIGHT] {
    open spec fn png_convertible(&self) -> bool {
        true
    }

    open spec fn png_view(&self) -> PngModel {
        PngModel {
            pixel_data: flatten_rows(self@),
            width: WIDTH,
            height: HEIGHT,
            bit_depth: BitDepth::EightBit,
            color_type: ColorType::Luminance,
            palette_data: None,
            transparency_data: None,
        }
    }

    /// Create a [`Png`] from a 2D array of `u8` luminance pixels.
    fn to_png(&self) -> (png: Png) {
        let mut pixel_data: Vec<u8> = Vec::new();
        let mut row: usize = 0;
        while row < HEIGHT
            invariant
                row <= HEIGHT,
                self@.len() == HEIGHT,
                pixel_data@ == flatten_rows(self@.take(row as int)),
            decreases HEIGHT - row,
        {
            push_bytes(&mut pixel_data, self[row].as_slice());
            assert(self@.take(row + 1).drop_last() =~= self@.take(row as int));
            row = row + 1;
        }
        assert(self@.take(HEIGHT as int) =~= self@);
        Png::from_parts(pixel_data, WIDTH, HEIGHT, BitDepth::EightBit, ColorType::Luminance)
    }
}

} // verus!
