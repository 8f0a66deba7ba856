//! Reading a ZIP archive held in memory, through the `zip` crate.
use vstd::prelude::*;
use crate::error::LoaderError;
use std::io::Read;

verus! {

/// `std::io::Cursor`, carried opaque.
#[verifier::external_type_specification]
#[verifier::external_body]
#[verifier::reject_recursive_types(T)]
pub struct ExCursor<T>(std::io::Cursor<T>);

/// `zip::ZipArchive`, carried opaque.
#[verifier::external_type_specification]
#[verifier::external_body]
#[verifier::reject_recursive_types(R)]
pub struct ExZipArchive<R>(zip::ZipArchive<R>);

/// A ZIP archive read from bytes in memory.
pub type Archive<'a> = zip::ZipArchive<std::io::Cursor<&'a [u8]>>;

/// The entries of an archive, in the order of its central directory: each
/// entry's decoded name and its decompressed contents.
pub uninterp spec fn archive_entries(archive: zip::ZipArchive<std::io::Cursor<&[u8]>>) -> Seq<
    (Seq<char>, Seq<u8>),
>;

/// Entry `i` of the archive can be read: it opens (`ZipArchive::by_index`),
/// its name decodes, and its whole contents decompress without error. For
/// an archive held in memory this depends on the archive's bytes alone.
pub uninterp spec fn entry_readable(archive: zip::ZipArchive<std::io::Cursor<&[u8]>>, i: int) -> bool;

/// Every entry of the archive can be read.
pub open spec fn all_readable(archive: zip::ZipArchive<std::io::Cursor<&[u8]>>) -> bool {
    forall|i: int| 0 <= i < archive_entries(archive).len() ==> #[trigger] entry_readable(archive, i)
}

/// Two states of an archive have the same entries readable.
pub open spec fn readable_as(
    a: zip::ZipArchive<std::io::Cursor<&[u8]>>,
    b: zip::ZipArchive<std::io::Cursor<&[u8]>>,
) -> bool {
    forall|i: int| #[trigger] entry_readable(a, i) == entry_readable(b, i)
}

/// An entry names a directory: its name ends in `/` or `\`.
pub open spec fn names_directory(name: Seq<char>) -> bool {
    name.len() > 0 && (name.last() == '/' || name.last() == '\\')
}

/// The first `limit` bytes of `data` (all of it when shorter).
pub open spec fn prefix_upto(data: Seq<u8>, limit: u64) -> Seq<u8> {
    if data.len() <= limit {
        data
    } else {
        data.take(limit as int)
    }
}

/// The name and directory flag of a successful entry lookup.
pub open spec fn looked_up_name(r: Result<(String, bool), LoaderError>) -> Seq<char> {
    match r {
        Ok((n, _)) => n@,
        Err(_) => Seq::empty(),
    }
}

/// The directory flag of a successful entry lookup.
pub open spec fn looked_up_dir(r: Result<(String, bool), LoaderError>) -> bool {
    match r {
        Ok((_, d)) => d,
        Err(_) => false,
    }
}

/// The bytes of a successful read.
pub open spec fn read_bytes(r: Result<Vec<u8>, LoaderError>) -> Seq<u8> {
    match r {
        Ok(d) => d@,
        Err(_) => Seq::empty(),
    }
}

/// The error of a failed call.
pub open spec fn failure<T>(r: Result<T, LoaderError>) -> Option<LoaderError> {
    match r {
        Ok(_) => None,
        Err(e) => Some(e),
    }
}

/// Calls `ZipArchive::len`: the number of entries.
#[verifier::external_body]
pub(crate) fn archive_len(archive: &Archive) -> (n: usize)
    ensures
        n == archive_entries(*archive).len(),
{
    archive.len()
}

/// Calls `ZipArchive::by_index`, then `ZipFile::is_dir` and `ZipFile::name`
/// on the entry. The contract states that a success gives the entry's
/// decoded name and whether that name ends in `/` or `\` (the source of zip
/// 9.2 tests the raw name's last byte, which decoding keeps), and that the
/// archive's entries are unchanged. A failure is a `ZipError`, and an
/// entry that can be read (`entry_readable`) gives none: opening it and
/// decoding its name are part of reading it.
#[verifier::external_body]
pub(crate) fn entry_name(archive: &mut Archive, index: usize) -> (r: Result<(String, bool), LoaderError>)
    requires
        index < archive_entries(*old(archive)).len(),
    ensures
        archive_entries(*final(archive)) == archive_entries(*old(archive)),
        readable_as(*final(archive), *old(archive)),
        entry_readable(*old(archive), index as int) ==> r is Ok,
        r is Ok ==> looked_up_name(r) == archive_entries(*old(archive))[index as int].0,
        r is Ok ==> looked_up_dir(r) == names_directory(looked_up_name(r)),
        r is Err ==> failure(r) matches Some(LoaderError::Zip(_)),
{
    let f = match archive.by_index(index) {
        Ok(f) => f,
        Err(e) => return Err(LoaderError::Zip(e)),
    };
    let dir = f.is_dir();
    match f.name() {
        Ok(n) => Ok((n.into_owned(), dir)),
        Err(e) => Err(LoaderError::Zip(e)),
    }
}

/// Calls `ZipArchive::by_index`, then reads the entry through
/// `Read::take(limit)` and `Read::read_to_end`. A success gives the first
/// `limit` bytes of the entry's contents; the entries are unchanged. A
/// failure to open the entry is a `ZipError`, a failure while decompressing
/// an I/O error; an entry that can be read whole (`entry_readable`) gives
/// neither when only a first part of it is read.
#[verifier::external_body]
pub(crate) fn entry_data(archive: &mut Archive, index: usize, limit: u64) -> (r: Result<
    Vec<u8>,
    LoaderError,
>)
    requires
        index < archive_entries(*old(archive)).len(),
    ensures
        archive_entries(*final(archive)) == archive_entries(*old(archive)),
        readable_as(*final(archive), *old(archive)),
        entry_readable(*old(archive), index as int) ==> r is Ok,
        r is Ok ==> read_bytes(r) == prefix_upto(archive_entries(*old(archive))[index as int].1, limit),
        r is Err ==> failure(r) matches Some(LoaderError::Zip(_)) || failure(r) matches Some(
            LoaderError::Io(_),
        ),
{
    let f = match archive.by_index(index) {
        Ok(f) => f,
        Err(e) => return Err(LoaderError::Zip(e)),
    };
    let mut data = Vec::new();
    match f.take(limit).read_to_end(&mut data) {
        Ok(_) => Ok(data),
        Err(e) => Err(LoaderError::Io(e)),
    }
}

/// Calls `ZipArchive::by_name`, then reads the entry through
/// `Read::take(limit)` and `Read::read_to_end`. A success gives the first
/// `limit` bytes of an entry with that decoded name (zip 9.2 looks the name
/// up among raw names, then among decoded ones); the entries are unchanged.
/// Failures are as for `entry_data`, and a missing name is one of them;
/// when every entry can be read and one has that name, there is none.
#[verifier::external_body]
pub(crate) fn named_entry_data(archive: &mut Archive, name: &str, limit: u64) -> (r: Result<
    Vec<u8>,
    LoaderError,
>)
    ensures
        archive_entries(*final(archive)) == archive_entries(*old(archive)),
        readable_as(*final(archive), *old(archive)),
        all_readable(*old(archive)) && (exists|i: int|
            0 <= i < archive_entries(*old(archive)).len() && (#[trigger] archive_entries(
                *old(archive),
            )[i]).0 == name@) ==> r is Ok,
        r is Ok ==> exists|i: int|
            0 <= i < archive_entries(*old(archive)).len() && (#[trigger] archive_entries(
                *old(archive),
            )[i]).0 == name@ && read_bytes(r) == prefix_upto(
                archive_entries(*old(archive))[i].1,
                limit,
            ),
        r is Err ==> failure(r) matches Some(LoaderError::Zip(_)) || failure(r) matches Some(
            LoaderError::Io(_),
        ),
{
    let f = match archive.by_name(name) {
        Ok(f) => f,
        Err(e) => return Err(LoaderError::Zip(e)),
    };
    let mut data = Vec::new();
    match f.take(limit).read_to_end(&mut data) {
        Ok(_) => Ok(data),
        Err(e) => Err(LoaderError::Io(e)),
    }
}

} // verus!
