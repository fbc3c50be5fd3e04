//! Conversions of archives and images into [`Zipng`] contents.

use vstd::prelude::*;

use crate::png::data::{empty_png, Png};
use crate::zip::data::Zip;
use crate::zipng::data::{empty_zip, Zipng, ZipngModel};

verus! {

/// A [`Zipng`], a [`Zip`], or a [`Png`].
pub trait ToZipng {
    /// The contents that [`ToZipng::to_zipng`] makes of this value.
    spec fn zipng_view(&self) -> ZipngModel;

    /// Create [`Zipng`] contents from this value.
    fn to_zipng(&self) -> (zipng: Zipng)
        ensures
            zipng@ == self.zipng_view(),
    ;
}

impl ToZipng for Zipng {
    open spec fn zipng_view(&self) -> ZipngModel {
        self@
    }

    /// A copy of these contents.
    fn to_zipng(&self) -> (zipng: Zipng) {
        self.duplicate()
    }
}

impl ToZipng for Png {
    open spec fn zipng_view(&self) -> ZipngModel {
        ZipngModel { zip: empty_zip(), png: self@ }
    }

    /// This image, with an empty archive.
    fn to_zipng(&self) -> (zipng: Zipng) {
        Zipng { zip: Zip::default(), png: self.duplicate() }
    }
}

impl ToZipng for Zip {
    open spec fn zipng_view(&self) -> ZipngModel {
        ZipngModel { zip: self@, png: empty_png() }
    }

    /// This archive, with an empty image.
    fn to_zipng(&self) -> (zipng: Zipng) {
        Zipng { zip: self.duplicate(), png: Png::default() }
    }
}

} // verus!
