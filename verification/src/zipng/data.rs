//! In-memory representation of a ZIP/PNG polyglot's contents.

use vstd::prelude::*;

use crate::generic::WriteError;
use crate::png::data::{empty_png, Png, PngModel};
use crate::zip::configuration::default_configuration;
use crate::zip::data::{file_slices, Zip, ZipModel};
use crate::zip::write_zip::zip_archive;
use crate::zipng::to_zipng::ToZipng;
use crate::zipng::writing::{polyglot_archive_at, polyglot_file, polyglot_fits, write_polyglot};

verus! {

/// In-memory representation of a ZIP file's archive contents and a PNG file's
/// image contents.
#[derive(Debug)]
pub struct Zipng {
    pub zip: Zip,
    pub png: Png,
}

/// The contents of a [`Zipng`], as mathematical values.
pub struct ZipngModel {
    pub zip: ZipModel,
    pub png: PngModel,
}

impl View for Zipng {
    type V = ZipngModel;

    open spec fn view(&self) -> ZipngModel {
        ZipngModel { zip: self.zip@, png: self.png@ }
    }
}

/// An empty archive with the default configuration.
pub open spec fn empty_zip() -> ZipModel {
    ZipModel { configuration: default_configuration(), files: Seq::empty() }
}

impl Default for Zipng {
    fn default() -> (zipng: Self)
        ensures
            zipng@ == (ZipngModel { zip: empty_zip(), png: empty_png() }),
    {
        Zipng { zip: Zip::default(), png: Png::default() }
    }
}

impl Zipng {
    /// A copy of these contents.
    pub fn duplicate(&self) -> (copy: Zipng)
        ensures
            copy@ == self@,
    {
        Zipng { zip: self.zip.duplicate(), png: self.png.duplicate() }
    }

    /// Creates a new [`Zipng`] from the given data.
    pub fn new<T: ToZipng>(data: &T) -> (zipng: Self)
        ensures
            zipng@ == data.zipng_view(),
    {
        data.to_zipng()
    }
}

impl Zip {
    /// Serializes this [`Zip`] as a ZIP/PNG polyglot file, appended to
    /// `output`: a PNG image whose private chunk holds the archive, the
    /// archive's comment running to the end of the file (see
    /// [`write_polyglot`]). Returns the number of bytes written, or
    /// [`WriteError::Overflow`], writing nothing, where the archive does not
    /// fit (see [`polyglot_fits`]).
    pub fn write_zipng(&self, output: &mut Vec<u8>) -> (result: Result<usize, WriteError>)
        ensures
            ({
                let pos = old(output)@.len() as int;
                if polyglot_fits(pos, self@.files) {
                    &&& result == Ok::<usize, WriteError>(polyglot_file(pos, self@.files).len() as usize)
                    &&& final(output)@ == old(output)@ + polyglot_file(pos, self@.files)
                    &&& final(output)@.subrange(polyglot_archive_at(pos), final(output)@.len() as int)
                        == zip_archive(
                        polyglot_archive_at(pos),
                        self@.files,
                        final(output)@.subrange(final(output)@.len() - 16, final(output)@.len() as int),
                    )
                } else {
                    &&& result == Err::<usize, WriteError>(WriteError::Overflow)
                    &&& final(output)@ == old(output)@
                }
            }),
    {
        let slices = file_slices(&self.files);
        write_polyglot(output, slices.as_slice())
    }
}

} // verus!
