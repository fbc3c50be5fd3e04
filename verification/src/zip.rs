//! ZIP archives of stored (uncompressed) files.

pub mod configuration;
pub mod data;
pub mod order;
pub mod reading;
pub mod sizes;
pub mod write_zip;

use vstd::prelude::*;

use crate::zip::order::{entries_sorted, entry_views, law_archive_order, lex_lt, slash_count, sort_entries, EntryOrder};
use crate::io::buffer::output_buffer;
use crate::zip::write_zip::{
    contains_end_signature, files_view, header_offset, law_header_order, mimetype_name, write_zip, zip_archive,
    zip_fits,
};

verus! {

broadcast use vstd::seq_lib::group_to_multiset_ensures;

/// Writes `files` as a ZIP archive, after ordering them the way packages
/// expect: the file named `mimetype` first (for EPUB and OpenDocument), then
/// empty files (they have no data to align, so they pack together), then
/// files before directories, then by path, and only then by body.
pub fn zip(files: &[(&[u8], &[u8])]) -> (archive: Vec<u8>)
    requires
        forall|s: Seq<(&[u8], &[u8])>|
            s.to_multiset() == files@.to_multiset() ==> zip_fits(
                0,
                #[trigger] files_view(s),
                Seq::empty(),
            ),
    ensures
        exists|s: Seq<(&[u8], &[u8])>|
            s.to_multiset() == files@.to_multiset() && entries_sorted(
                #[trigger] files_view(s),
                EntryOrder::Archive,
            ) && archive@ == zip_archive(0, files_view(s), Seq::empty()),
{
    let mut list: Vec<(&[u8], &[u8])> = Vec::new();
    let mut i: usize = 0;
    while i < files.len()
        invariant
            i <= files@.len(),
            list@ == files@.take(i as int),
        decreases files@.len() - i,
    {
        list.push(files[i]);
        i = i + 1;
        assert(list@ =~= files@.take(i as int));
    }
    assert(files@.take(files@.len() as int) =~= files@);
    let sorted = sort_entries(list, EntryOrder::Archive);
    assert(entry_views(sorted@) =~= files_view(sorted@));
    let mut buffer = output_buffer();
    let empty: [u8; 0] = [];
    assert(empty@ =~= Seq::<u8>::empty());
    assert(!contains_end_signature(empty@));
    assert(zip_fits(0, files_view(sorted@), Seq::empty()));
    let _ = write_zip(&mut buffer, sorted.as_slice(), empty.as_slice());
    buffer.into_bytes()
}

/// In an archive that [`zip`] writes, among files alike in being named
/// `mimetype` or not and in being empty or not, the local header of a file
/// with fewer `/` separators in its name (a file before a directory) comes
/// before that of a file with more, and among those with as many, in the
/// lexicographic order of their names. The `mimetype` file's header comes
/// before every other, and empty files' before those of files with a body.
pub proof fn law_zip_entry_placement(files: Seq<(Seq<u8>, Seq<u8>)>, i: int, j: int)
    requires
        entries_sorted(files, EntryOrder::Archive),
        0 <= i < files.len(),
        0 <= j < files.len(),
    ensures
        files[i].0 == mimetype_name() && files[j].0 != mimetype_name() ==> header_offset(0, files, i)
            < header_offset(0, files, j),
        (files[i].0 == mimetype_name()) == (files[j].0 == mimetype_name()) && files[i].1.len() == 0
            && files[j].1.len() > 0 ==> header_offset(0, files, i) < header_offset(0, files, j),
        (files[i].0 == mimetype_name()) == (files[j].0 == mimetype_name()) && (files[i].1.len() == 0)
            == (files[j].1.len() == 0) && slash_count(files[i].0) < slash_count(files[j].0) ==> header_offset(
            0,
            files,
            i,
        ) < header_offset(0, files, j),
        (files[i].0 == mimetype_name()) == (files[j].0 == mimetype_name()) && (files[i].1.len() == 0)
            == (files[j].1.len() == 0) && slash_count(files[i].0) == slash_count(files[j].0) && lex_lt(
            files[i].0,
            files[j].0,
        ) ==> header_offset(0, files, i) < header_offset(0, files, j),
{
    law_archive_order(files, i, j);
    if i < j {
        law_header_order(0, files, i, j);
    }
}

} // verus!
