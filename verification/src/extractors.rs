//! Extraction for formats whose library is a set of files picked out of
//! the archive by path.
use vstd::prelude::*;
use crate::archive::{
    all_readable, archive_entries, archive_len, entry_name, names_directory, readable_as, Archive,
};
use crate::error::LoaderError;
use crate::format::{Files, Format};
use crate::kicad::{read_entry, MAX_EXTRACTED_FILE_BYTES};
use crate::path::{file_name, file_name_of};
use crate::text::{chars_of, contains_chars, contains_seq, string_of};

verus! {

/// Unicode lower-casing of a text (`str::to_lowercase`).
pub uninterp spec fn unicode_lowercase(s: Seq<char>) -> Seq<char>;

/// Calls `str::to_lowercase`. Its result, the Unicode lower case of the
/// text, is a function of the text alone; it takes Unicode's case tables
/// to state, so it is named and not spelled out.
#[verifier::external_body]
pub(crate) fn to_lowercase(s: &str) -> (r: String)
    ensures
        r@ == unicode_lowercase(s@),
{
    s.to_lowercase()
}

/// The lower-cased ignore patterns of a format.
pub open spec fn lowered_ignores(format: Format) -> Seq<Seq<char>> {
    format.ignore@.map_values(|i: String| unicode_lowercase(i@))
}

/// Whether a lower-cased entry path is taken: it holds no ignore pattern
/// and holds the match path (all lower-cased).
pub open spec fn path_selected(lower: Seq<char>, ignores: Seq<Seq<char>>, match_path: Seq<char>) -> bool {
    &&& forall|i: int| 0 <= i < ignores.len() ==> !contains_seq(lower, #[trigger] ignores[i])
    &&& contains_seq(lower, match_path)
}

/// Whether a lower-cased entry path is taken (see `path_selected`).
pub fn select_path(lower: &Vec<char>, ignores: &Vec<Vec<char>>, match_path: &Vec<char>) -> (r: bool)
    ensures
        r == path_selected(lower@, ignores.deep_view(), match_path@),
{
    let mut i: usize = 0;
    while i < ignores.len()
        invariant
            i <= ignores.len(),
            forall|j: int| 0 <= j < i ==> !contains_seq(lower@, #[trigger] ignores.deep_view()[j]),
        decreases ignores.len() - i,
    {
        assert(ignores.deep_view()[i as int] == ignores[i as int]@);
        if contains_chars(lower, &ignores[i]) {
            return false;
        }
        i += 1;
    }
    contains_chars(lower, match_path)
}

/// The file name an entry is stored under, when it is taken.
pub open spec fn generic_placement(format: Format, entry: Seq<char>) -> Option<Seq<char>> {
    if names_directory(entry) {
        None
    } else if path_selected(
        unicode_lowercase(entry),
        lowered_ignores(format),
        unicode_lowercase(format.match_path@),
    ) {
        file_name(entry)
    } else {
        None
    }
}

/// An entry is taken exactly when it is no directory, has a file name, and
/// its path, lower-cased, holds the format's match path, lower-cased, and
/// none of its ignore patterns, lower-cased; it is then stored under its
/// file name.
pub proof fn law_taken_entries(format: Format, entry: Seq<char>)
    ensures
        generic_placement(format, entry) is Some <==> {
            &&& !names_directory(entry)
            &&& file_name(entry) is Some
            &&& contains_seq(unicode_lowercase(entry), unicode_lowercase(format.match_path@))
            &&& forall|i: int|
                0 <= i < format.ignore@.len() ==> !contains_seq(
                    unicode_lowercase(entry),
                    unicode_lowercase((#[trigger] format.ignore@[i])@),
                )
        },
        generic_placement(format, entry) is Some ==> generic_placement(format, entry) == file_name(entry),
{
    let ig = lowered_ignores(format);
    assert forall|i: int| 0 <= i < format.ignore@.len() implies ig[i] == unicode_lowercase(
        (#[trigger] format.ignore@[i])@,
    ) by {}
    if path_selected(unicode_lowercase(entry), ig, unicode_lowercase(format.match_path@)) {
        assert forall|i: int| 0 <= i < format.ignore@.len() implies !contains_seq(
            unicode_lowercase(entry),
            unicode_lowercase((#[trigger] format.ignore@[i])@),
        ) by {
            assert(!contains_seq(unicode_lowercase(entry), ig[i]));
        }
    }
    if forall|i: int|
        0 <= i < format.ignore@.len() ==> !contains_seq(
            unicode_lowercase(entry),
            unicode_lowercase((#[trigger] format.ignore@[i])@),
        ) {
        assert forall|i: int| 0 <= i < ig.len() implies !contains_seq(
            unicode_lowercase(entry),
            #[trigger] ig[i],
        ) by {
            assert(ig[i] == unicode_lowercase(format.ignore@[i]@));
        }
    }
}

/// Which entries are taken, and where they go, does not depend on the
/// letter case of the match path or of the ignore patterns: two formats
/// whose match paths agree once lower-cased, and whose ignore patterns
/// agree one by one once lower-cased, take the same entries to the same
/// file names.
pub proof fn law_selection_ignores_case(f1: Format, f2: Format, entry: Seq<char>)
    requires
        unicode_lowercase(f1.match_path@) == unicode_lowercase(f2.match_path@),
        f1.ignore@.len() == f2.ignore@.len(),
        forall|i: int|
            0 <= i < f1.ignore@.len() ==> unicode_lowercase((#[trigger] f1.ignore@[i])@)
                == unicode_lowercase(f2.ignore@[i]@),
    ensures
        generic_placement(f1, entry) == generic_placement(f2, entry),
{
    assert(lowered_ignores(f1) =~= lowered_ignores(f2)) by {
        assert forall|i: int| 0 <= i < lowered_ignores(f1).len() implies #[trigger] lowered_ignores(f1)[i]
            == lowered_ignores(f2)[i] by {
            assert(unicode_lowercase(f1.ignore@[i]@) == unicode_lowercase(f2.ignore@[i]@));
        }
    }
}

/// The files the entries give, by file name; a later one replaces an
/// earlier one of the same name.
pub open spec fn generic_extracted(format: Format, entries: Seq<(Seq<char>, Seq<u8>)>) -> Map<
    Seq<char>,
    Seq<u8>,
>
    decreases entries.len(),
{
    if entries.len() == 0 {
        Map::empty()
    } else {
        let m = generic_extracted(format, entries.drop_last());
        match generic_placement(format, entries.last().0) {
            Some(base) => m.insert(base, entries.last().1),
            None => m,
        }
    }
}

/// The files extracted hold, under each file name, the contents of the
/// last entry taken to that name, and nothing under a name that no taken
/// entry gives.
pub proof fn law_generic_last_entry_wins(format: Format, entries: Seq<(Seq<char>, Seq<u8>)>, i: int, k: Seq<char>)
    ensures
        (0 <= i < entries.len() && generic_placement(format, entries[i].0) == Some(k) && forall|j: int|
            i < j < entries.len() ==> generic_placement(format, (#[trigger] entries[j]).0) != Some(k))
            ==> generic_extracted(format, entries).dom().contains(k) && generic_extracted(format, entries)[k]
            == entries[i].1,
        generic_extracted(format, entries).dom().contains(k) ==> exists|j: int|
            0 <= j < entries.len() && generic_placement(format, (#[trigger] entries[j]).0) == Some(k),
    decreases entries.len(),
{
    if entries.len() > 0 {
        let d = entries.drop_last();
        let last = entries.len() - 1;
        law_generic_last_entry_wins(format, d, i, k);
        if 0 <= i < last && generic_placement(format, entries[i].0) == Some(k) && forall|j: int|
            i < j < entries.len() ==> generic_placement(format, (#[trigger] entries[j]).0) != Some(k) {
            assert(d[i] == entries[i]);
            assert forall|j: int| i < j < d.len() implies generic_placement(format, (#[trigger] d[j]).0) != Some(k) by {
                assert(d[j] == entries[j]);
            }
            assert(generic_placement(format, entries[last].0) != Some(k));
        }
        if generic_extracted(format, d).dom().contains(k) {
            let j = choose|j: int| 0 <= j < d.len() && generic_placement(format, (#[trigger] d[j]).0) == Some(k);
            assert(d[j] == entries[j]);
        }
        if generic_extracted(format, entries).dom().contains(k) && !generic_extracted(format, d).dom().contains(k) {
            assert(generic_placement(format, entries[last].0) == Some(k));
        }
    }
}

/// Every entry that is taken holds at most `MAX_EXTRACTED_FILE_BYTES`.
pub open spec fn generic_entries_fit(format: Format, entries: Seq<(Seq<char>, Seq<u8>)>) -> bool {
    forall|i: int|
        0 <= i < entries.len() && generic_placement(format, (#[trigger] entries[i]).0) is Some
            ==> entries[i].1.len() <= MAX_EXTRACTED_FILE_BYTES
}

/// Entry `i` is the first, in archive order, that is taken and holds more
/// than `MAX_EXTRACTED_FILE_BYTES`.
pub open spec fn first_taken_too_large(format: Format, entries: Seq<(Seq<char>, Seq<u8>)>, i: int) -> bool {
    &&& 0 <= i < entries.len()
    &&& generic_placement(format, entries[i].0) is Some
    &&& entries[i].1.len() > MAX_EXTRACTED_FILE_BYTES
    &&& forall|j: int|
        0 <= j < i ==> !(generic_placement(format, (#[trigger] entries[j]).0) is Some && entries[j].1.len()
            > MAX_EXTRACTED_FILE_BYTES)
}

/// Takes the files of a format out of an archive: every entry whose path,
/// ignoring case, holds the format's match path and none of its ignore
/// patterns, stored under its file name. An entry taken that is too large
/// ends it, naming the first such entry.
pub fn generic_extractor(format: &Format, archive: &mut Archive) -> (r: Result<Files, LoaderError>)
    ensures
        archive_entries(*final(archive)) == archive_entries(*old(archive)),
        r matches Ok(files) ==> files@ == generic_extracted(*format, archive_entries(*old(archive)))
            && generic_entries_fit(*format, archive_entries(*old(archive))),
        r matches Err(LoaderError::ZipEntryTooLarge(b, n)) ==> n == MAX_EXTRACTED_FILE_BYTES + 1
            && exists|i: int|
            #![trigger first_taken_too_large(*format, archive_entries(*old(archive)), i)]
            first_taken_too_large(*format, archive_entries(*old(archive)), i) && generic_placement(
                *format,
                archive_entries(*old(archive))[i].0,
            ) == Some(b@),
        r matches Err(e) ==> e is Zip || e is Io || e is ZipEntryTooLarge,
        readable_as(*final(archive), *old(archive)),
        all_readable(*old(archive)) && generic_entries_fit(*format, archive_entries(*old(archive)))
            ==> r is Ok,
        all_readable(*old(archive)) && !generic_entries_fit(*format, archive_entries(*old(archive)))
            ==> (r matches Err(LoaderError::ZipEntryTooLarge(_, _))),
{
    let ghost entries = archive_entries(*archive);
    let mut ignores: Vec<Vec<char>> = Vec::new();
    let mut k: usize = 0;
    while k < format.ignore.len()
        invariant
            k <= format.ignore@.len(),
            ignores.deep_view() == lowered_ignores(*format).take(k as int),
        decreases format.ignore@.len() - k,
    {
        let l = chars_of(to_lowercase(format.ignore[k].as_str()).as_str());
        let ghost before = ignores.deep_view();
        let ghost lv = l@;
        assert(l.deep_view() =~= l@);
        ignores.push(l);
        assert(ignores.deep_view() =~= before.push(lv));
        assert(lowered_ignores(*format)[k as int] == lv);
        assert(ignores.deep_view() =~= lowered_ignores(*format).take(k + 1));
        k += 1;
    }
    assert(lowered_ignores(*format).take(format.ignore@.len() as int) =~= lowered_ignores(*format));
    let match_path = chars_of(to_lowercase(format.match_path.as_str()).as_str());
    let mut files = Files::new();
    let n = archive_len(archive);
    let mut i: usize = 0;
    while i < n
        invariant
            n == entries.len(),
            i <= n,
            archive_entries(*archive) == entries,
            entries == archive_entries(*old(archive)),
            readable_as(*archive, *old(archive)),
            ignores.deep_view() == lowered_ignores(*format),
            match_path@ == unicode_lowercase(format.match_path@),
            files@ == generic_extracted(*format, entries.take(i as int)),
            generic_entries_fit(*format, entries.take(i as int)),
        decreases n - i,
    {
        assert(entries.take(i + 1).drop_last() =~= entries.take(i as int));
        assert(entries.take(i + 1).last() == entries[i as int]);
        let (name, is_dir) = match entry_name(archive, i) {
            Ok(found) => found,
            Err(e) => {
                return Err(e);
            },
        };
        if !is_dir {
            let lower = chars_of(to_lowercase(name.as_str()).as_str());
            if select_path(&lower, &ignores, &match_path) {
                match file_name_of(&chars_of(name.as_str())) {
                    None => {},
                    Some(base) => {
                        let data = match read_entry(archive, i, &base) {
                            Ok(d) => d,
                            Err(e) => {
                                proof {
                                    if e is ZipEntryTooLarge {
                                        assert forall|j: int| 0 <= j < i implies !(generic_placement(
                                            *format,
                                            (#[trigger] entries[j]).0,
                                        ) is Some && entries[j].1.len() > MAX_EXTRACTED_FILE_BYTES) by {
                                            assert(entries.take(i as int)[j] == entries[j]);
                                        }
                                        assert(first_taken_too_large(*format, entries, i as int));
                                    }
                                }
                                return Err(e);
                            },
                        };
                        files.insert(string_of(base.as_slice()), data);
                    },
                }
            }
        }
        proof {
            assert forall|j: int|
                0 <= j < entries.take(i + 1).len() && generic_placement(
                    *format,
                    (#[trigger] entries.take(i + 1)[j]).0,
                ) is Some implies entries.take(i + 1)[j].1.len() <= MAX_EXTRACTED_FILE_BYTES by {
                if j < i {
                    assert(entries.take(i + 1)[j] == entries.take(i as int)[j]);
                }
            }
        }
        i += 1;
    }
    assert(entries.take(n as int) =~= entries);
    Ok(files)
}

} // verus!
