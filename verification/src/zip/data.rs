//! In-memory representation of a ZIP archive.

use vstd::prelude::*;

use crate::encoding::push_bytes;
use crate::generic::{ReadError, WriteError};
use crate::zip::reading::{parse_zip, read_zip};
use crate::zip::configuration::{default_configuration, ZipConfiguration, ZipEntryComparison};
use crate::zip::order::{entries_sorted, entry_views, sort_entries, stable_arrangement, AsEntry, EntryView};
use crate::io::buffer::{output_buffer, OutputBuffer};
use crate::zip::write_zip::{archive_fits, files_view, write_zip, zip_archive, zip_fits, zip_marks};

verus! {

/// In-memory representation of a ZIP file's essential archive contents.
#[derive(Debug)]
pub struct Zip {
    pub configuration: ZipConfiguration,
    pub files: Vec<(Vec<u8>, Vec<u8>)>,
}

/// The contents of a [`Zip`], as mathematical values.
#[verifier::ext_equal]
pub struct ZipModel {
    pub configuration: ZipConfiguration,
    pub files: Seq<EntryView>,
}

impl View for Zip {
    type V = ZipModel;

    open spec fn view(&self) -> ZipModel {
        ZipModel { configuration: self.configuration, files: entry_views(self.files@) }
    }
}

impl Default for Zip {
    fn default() -> (zip: Self)
        ensures
            zip@ == (ZipModel { configuration: default_configuration(), files: Seq::empty() }),
    {
        let zip = Zip { configuration: ZipConfiguration::default(), files: Vec::new() };
        assert(zip@.files =~= Seq::<EntryView>::empty());
        zip
    }
}

/// A [`Zip`] or input that can be converted to one.
pub trait ToZip {
    /// The archive that [`ToZip::to_zip`] makes of this input.
    spec fn zip_view(&self) -> ZipModel;

    /// Create a [`Zip`] from this input.
    fn to_zip(&self) -> (zip: Zip)
        ensures
            zip@ == self.zip_view(),
    ;
}

impl ToZip for Zip {
    open spec fn zip_view(&self) -> ZipModel {
        self@
    }

    fn to_zip(&self) -> (zip: Zip) {
        self.duplicate()
    }
}

fn copy_bytes(bytes: &[u8]) -> (copy: Vec<u8>)
    ensures
        copy@ == bytes@,
{
    let mut copy: Vec<u8> = Vec::new();
    push_bytes(&mut copy, bytes);
    copy
}

/// The file list of an archive, as the byte slices [`write_zip`] takes.
pub(crate) fn file_slices(files: &Vec<(Vec<u8>, Vec<u8>)>) -> (slices: Vec<(&[u8], &[u8])>)
    ensures
        files_view(slices@) == entry_views(files@),
{
    let mut slices: Vec<(&[u8], &[u8])> = Vec::new();
    let mut i: usize = 0;
    while i < files.len()
        invariant
            i <= files@.len(),
            slices@.len() == i,
            files_view(slices@) == entry_views(files@).take(i as int),
        decreases files@.len() - i,
    {
        let ghost before = slices@;
        let name = files[i].0.as_slice();
        let body = files[i].1.as_slice();
        slices.push((name, body));
        proof {
            assert(slices@ == before.push((name, body)));
            assert(slices@.len() == i + 1);
            assert(files_view(slices@)[i as int] == (name@, body@));
            assert(files@[i as int].entry_view() == (files@[i as int].0@, files@[i as int].1@));
            assert(entry_views(files@)[i as int] == (name@, body@));
            assert forall|k: int| 0 <= k <= i implies files_view(slices@)[k] == entry_views(
                files@,
            )[k] by {
                if k < i {
                    assert(files_view(before)[k] == entry_views(files@).take(i as int)[k]);
                }
            }
        }
        i = i + 1;
        assert(files_view(slices@) =~= entry_views(files@).take(i as int));
    }
    assert(entry_views(files@).take(files@.len() as int) =~= entry_views(files@));
    slices
}

impl Zip {
    /// A copy of this archive.
    pub fn duplicate(&self) -> (copy: Zip)
        ensures
            copy@ == self@,
    {
        let mut files: Vec<(Vec<u8>, Vec<u8>)> = Vec::new();
        let mut i: usize = 0;
        while i < self.files.len()
            invariant
                i <= self.files@.len(),
                files@.len() == i,
                entry_views(files@) == entry_views(self.files@).take(i as int),
            decreases self.files@.len() - i,
        {
            let name = copy_bytes(self.files[i].0.as_slice());
            let body = copy_bytes(self.files[i].1.as_slice());
            let ghost before = files@;
            files.push((name, body));
            proof {
                assert(files@ == before.push((name, body)));
                assert forall|k: int| 0 <= k <= i implies entry_views(files@)[k] == entry_views(
                    self.files@,
                )[k] by {
                    if k < i {
                        assert(entry_views(before)[k] == entry_views(self.files@).take(i as int)[k]);
                    }
                }
            }
            i = i + 1;
            assert(entry_views(files@) =~= entry_views(self.files@).take(i as int));
        }
        assert(entry_views(self.files@).take(self.files@.len() as int) =~= entry_views(
            self.files@,
        ));
        Zip { configuration: self.configuration, files }
    }

    /// Creates a new [`Zip`] from the given data.
    pub fn new<T: ToZip>(data: &T) -> (zip: Self)
        ensures
            zip@ == data.zip_view(),
    {
        data.to_zip()
    }

    /// Creates a new [`Zip`] holding `files`, with the default configuration.
    pub fn new_with_files(files: Vec<(Vec<u8>, Vec<u8>)>) -> (zip: Self)
        ensures
            zip.files == files,
            zip.configuration == default_configuration(),
    {
        Zip { configuration: ZipConfiguration::default(), files }
    }

    /// Sorts the files with `comparison`, stably, keeping the same files.
    pub fn sort_by(&mut self, comparison: ZipEntryComparison)
        ensures
            final(self).configuration == old(self).configuration,
            final(self).files@.to_multiset() == old(self).files@.to_multiset(),
            entries_sorted(final(self)@.files, comparison.entry_order()),
            exists|positions: Seq<int>|
                stable_arrangement(old(self).files@, final(self).files@, positions, comparison.entry_order()),
    {
        let mut files: Vec<(Vec<u8>, Vec<u8>)> = Vec::new();
        std::mem::swap(&mut files, &mut self.files);
        self.files = sort_entries(files, comparison.order());
    }

    /// Configures this archive to store file contents contiguously, aligned
    /// and padded to 1024-byte blocks.
    pub fn blocks(&mut self)
        ensures
            final(self).files == old(self).files,
            final(self).configuration == (ZipConfiguration {
                body_contiguous: true,
                body_alignment: 1024,
                ..old(self).configuration
            }),
    {
        self.configuration.body_contiguous = true;
        self.configuration.body_alignment = 1024;
    }

    /// Serializes this [`Zip`] as a ZIP archive file, appending it to
    /// `output` and marking its parts (see [`zip_marks`]). Returns the number
    /// of bytes written.
    pub fn write(&self, output: &mut OutputBuffer) -> (written: Result<usize, WriteError>)
        requires
            old(output).wf(),
            zip_fits(old(output).content().len() as int, self@.files, Seq::empty()),
        ensures
            final(output).wf(),
            final(output).content() == old(output).content() + zip_archive(
                old(output).content().len() as int,
                self@.files,
                Seq::empty(),
            ),
            (final(output).complete(), final(output).open_tags()) == zip_marks(
                (old(output).complete(), old(output).open_tags()),
                old(output).content().len() as int,
                self@.files,
                Seq::empty(),
            ),
            written == Ok::<usize, WriteError>(
                zip_archive(old(output).content().len() as int, self@.files, Seq::empty()).len() as usize,
            ),
    {
        let slices = file_slices(&self.files);
        let empty: [u8; 0] = [];
        assert(empty@ =~= Seq::<u8>::empty());
        assert(!crate::zip::write_zip::contains_end_signature(empty@));
        write_zip(output, slices.as_slice(), empty.as_slice())
    }

    /// Whether [`Zip::write`] can write this archive after `offset` bytes of
    /// output (see [`zip_fits`]).
    pub fn fits(&self, offset: usize) -> (fits: bool)
        ensures
            fits == zip_fits(offset as int, self@.files, Seq::empty()),
    {
        let slices = file_slices(&self.files);
        let empty: [u8; 0] = [];
        assert(empty@ =~= Seq::<u8>::empty());
        archive_fits(slices.as_slice(), empty.as_slice(), offset)
    }

    /// Deserializes a ZIP archive file, as this crate writes them, into a
    /// [`Zip`] with the default configuration: stored files found through
    /// the central directory, and no archive comment (see [`parse_zip`]).
    /// Anything else is [`ReadError::Malformed`].
    pub fn read(input: &[u8]) -> (result: Result<Zip, ReadError>)
        ensures
            match parse_zip(input@) {
                Some(files) => result matches Ok(zip) && zip@ == (ZipModel {
                    configuration: default_configuration(),
                    files,
                }),
                None => result == Err::<Zip, ReadError>(ReadError::Malformed),
            },
    {
        match read_zip(input) {
            Some(files) => Ok(Zip { configuration: ZipConfiguration::default(), files }),
            None => Err(ReadError::Malformed),
        }
    }

    /// Deserializes a ZIP archive file held in a byte slice into a [`Zip`],
    /// as [`Zip::read`] does.
    pub fn read_slice(input: &[u8]) -> (result: Result<Zip, ReadError>)
        ensures
            match parse_zip(input@) {
                Some(files) => result matches Ok(zip) && zip@ == (ZipModel {
                    configuration: default_configuration(),
                    files,
                }),
                None => result == Err::<Zip, ReadError>(ReadError::Malformed),
            },
    {
        Zip::read(input)
    }

    /// Serializes this [`Zip`] into a byte vector as a ZIP archive file.
    pub fn write_vec(&self) -> (result: Result<Vec<u8>, WriteError>)
        requires
            zip_fits(0, self@.files, Seq::empty()),
        ensures
            result matches Ok(bytes) && bytes@ == zip_archive(0, self@.files, Seq::empty()),
    {
        let mut output = output_buffer();
        match self.write(&mut output) {
            Ok(_) => Ok(output.into_bytes()),
            Err(e) => Err(e),
        }
    }
}

} // verus!
