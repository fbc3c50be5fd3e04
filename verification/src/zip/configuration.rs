//! How a [`Zip`](crate::zip::data::Zip) archive is laid out and ordered.

use vstd::prelude::*;

use std::cmp::Ordering;

use crate::zip::order::{bytes_eq, entry_le, entry_le_exec, EntryOrder, EntryView};
use crate::zip::write_zip::mimetype_name;

verus! {

/// A reference to an entry in a [`Zip`](crate::zip::data::Zip) archive.
#[non_exhaustive]
pub struct ZipEntry<'name, 'body> {
    pub name: &'name [u8],
    pub body: &'body [u8],
}

impl<'name, 'body> ZipEntry<'name, 'body> {
    /// The entry's name and body as mathematical values.
    pub open spec fn view_entry(&self) -> EntryView {
        (self.name@, self.body@)
    }

    /// Refers to the entry with this name and body.
    pub fn new(name: &'name [u8], body: &'body [u8]) -> (entry: Self)
        ensures
            entry.name == name,
            entry.body == body,
    {
        ZipEntry { name, body }
    }
}

/// A comparison used for ordering entries in a [`Zip`](crate::zip::data::Zip)
/// archive.
#[derive(Debug, Clone, Copy, PartialEq, Eq)]
pub enum ZipEntryComparison {
    /// See [`SORT_BY_NAME`].
    SortByName,
    /// See [`SORT_BY_BODY`].
    SortByBody,
}

/// A predicate used for selecting entries in a
/// [`Zip`](crate::zip::data::Zip) archive.
#[derive(Debug, Clone, Copy, PartialEq, Eq)]
pub enum ZipEntryPredicate {
    /// See [`PIN_MIMETYPE`].
    PinMimetype,
}

/// Sort file by name, first based on the number of slash `/` path separator
/// characters, then lexicographically.
pub const SORT_BY_NAME: ZipEntryComparison = ZipEntryComparison::SortByName;

/// Sorts files lexicographically based on their content, then by name.
pub const SORT_BY_BODY: ZipEntryComparison = ZipEntryComparison::SortByBody;

/// Pins the `mimetype` magic header file used by EPUB and OpenDocument.
pub const PIN_MIMETYPE: ZipEntryPredicate = ZipEntryPredicate::PinMimetype;

/// Whether every byte is ASCII (below `0x80`).
pub open spec fn all_ascii(bytes: Seq<u8>) -> bool {
    forall|i: int| 0 <= i < bytes.len() ==> bytes[i] < 0x80
}

/// Whether `predicate` selects the entry `(name, body)`.
pub open spec fn selects(predicate: ZipEntryPredicate, entry: EntryView) -> bool {
    match predicate {
        ZipEntryPredicate::PinMimetype => entry.0 == mimetype_name() && all_ascii(entry.1)
            && entry.1.len() <= 0xFF,
    }
}

impl ZipEntryComparison {
    /// The entry order that this comparison sorts by.
    pub open spec fn entry_order(self) -> EntryOrder {
        match self {
            ZipEntryComparison::SortByName => EntryOrder::Name,
            ZipEntryComparison::SortByBody => EntryOrder::Body,
        }
    }

    /// The order sorted by, as an [`EntryOrder`].
    pub fn order(&self) -> (order: EntryOrder)
        ensures
            order == self.entry_order(),
    {
        match self {
            ZipEntryComparison::SortByName => EntryOrder::Name,
            ZipEntryComparison::SortByBody => EntryOrder::Body,
        }
    }

    /// Compares two entries: `Less` when `a` sorts strictly before `b`,
    /// `Greater` when strictly after, `Equal` when neither.
    pub fn compare(&self, a: &ZipEntry, b: &ZipEntry) -> (result: Ordering)
        ensures
            result == Ordering::Less <==> entry_le(self.entry_order(), a.view_entry(), b.view_entry())
                && !entry_le(self.entry_order(), b.view_entry(), a.view_entry()),
            result == Ordering::Greater <==> !entry_le(
                self.entry_order(),
                a.view_entry(),
                b.view_entry(),
            ),
            result == Ordering::Equal <==> entry_le(self.entry_order(), a.view_entry(), b.view_entry())
                && entry_le(self.entry_order(), b.view_entry(), a.view_entry()),
    {
        let order = self.order();
        let forward = entry_le_exec(order, a.name, a.body, b.name, b.body);
        let backward = entry_le_exec(order, b.name, b.body, a.name, a.body);
        if forward && !backward {
            Ordering::Less
        } else if forward {
            Ordering::Equal
        } else {
            Ordering::Greater
        }
    }
}

fn bytes_ascii(bytes: &[u8]) -> (result: bool)
    ensures
        result == all_ascii(bytes@),
{
    let mut i: usize = 0;
    while i < bytes.len()
        invariant
            i <= bytes@.len(),
            forall|k: int| 0 <= k < i ==> bytes@[k] < 0x80,
        decreases bytes@.len() - i,
    {
        if bytes[i] >= 0x80 {
            return false;
        }
        i = i + 1;
    }
    true
}

impl ZipEntryPredicate {
    /// Whether this predicate selects `entry`.
    pub fn test(&self, entry: &ZipEntry) -> (result: bool)
        ensures
            result == selects(*self, entry.view_entry()),
    {
        match self {
            ZipEntryPredicate::PinMimetype => {
                let expected: [u8; 8] = [0x6D, 0x69, 0x6D, 0x65, 0x74, 0x79, 0x70, 0x65];
                assert(expected@ == mimetype_name());
                bytes_eq(entry.name, expected.as_slice()) && bytes_ascii(entry.body)
                    && entry.body.len() <= 0xFF
            },
        }
    }
}

/// Configuration determining how the [`Zip`](crate::zip::data::Zip) archive
/// is serialized.
#[derive(Debug, Clone, Copy, PartialEq, Eq)]
#[non_exhaustive]
pub struct ZipConfiguration {
    /// Whether all body data must be stored contiguously.
    pub body_contiguous: bool,
    /// Align and pad all body data into blocks of this many bytes.
    pub body_alignment: usize,
    /// Comparison used to determine file body ordering.
    pub sort_body_by: Option<ZipEntryComparison>,
    /// Comparison used to determine file metadata ordering.
    pub sort_meta_by: Option<ZipEntryComparison>,
    /// Predicate used to determine files that should be pinned to the top of
    /// the archive without alignment or padding.
    pub pin_header_with: Option<ZipEntryPredicate>,
}

/// The default configuration: contiguous bodies in 1024-byte blocks, bodies
/// sorted by [`SORT_BY_BODY`], metadata by [`SORT_BY_NAME`], and the
/// `mimetype` file pinned with [`PIN_MIMETYPE`].
pub open spec fn default_configuration() -> ZipConfiguration {
    ZipConfiguration {
        body_contiguous: true,
        body_alignment: 1024,
        sort_body_by: Some(ZipEntryComparison::SortByBody),
        sort_meta_by: Some(ZipEntryComparison::SortByName),
        pin_header_with: Some(ZipEntryPredicate::PinMimetype),
    }
}

impl Default for ZipConfiguration {
    fn default() -> (configuration: Self)
        ensures
            configuration == default_configuration(),
    {
        ZipConfiguration {
            body_contiguous: true,
            body_alignment: 1024,
            sort_body_by: Some(SORT_BY_BODY),
            sort_meta_by: Some(SORT_BY_NAME),
            pin_header_with: Some(PIN_MIMETYPE),
        }
    }
}

impl ZipConfiguration {
    /// The default configuration, as adjusted by `f`.
    pub fn new<F: FnOnce(ZipConfiguration) -> ZipConfiguration>(f: F) -> (configuration: Self)
        requires
            f.requires((default_configuration(),)),
        ensures
            f.ensures((default_configuration(),), configuration),
    {
        f(ZipConfiguration::default())
    }
}

} // verus!
