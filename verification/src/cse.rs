//! A downloaded library: the files of one output format and where they go.
use vstd::prelude::*;
use crate::error::LoaderError;
use crate::path::{has_parent_component, has_parent_component_of, is_absolute, is_absolute_path, join, join_paths};
use crate::text::{chars_of, starts_with, string_of};

verus! {

/// The files of one output format, by file name, and the directory they
/// are saved under.
pub struct Result {
    pub output_path: String,
    pub files: Vec<(String, Vec<u8>)>,
}

/// Where a file named `filename` is written: an absolute name as it is; a
/// relative one under the output directory, unless it has a `..` component.
pub open spec fn output_target(output_path: Seq<char>, filename: Seq<char>) -> Option<Seq<char>> {
    if is_absolute(filename) {
        Some(filename)
    } else if has_parent_component(filename) {
        None
    } else {
        Some(join(output_path, filename))
    }
}

/// What to do about a file that may already exist.
#[derive(Debug, PartialEq, Eq, Structural)]
pub enum WriteAction {
    /// The file holds these bytes already.
    Keep,
    /// The file does not exist: create its directory and write it.
    Create,
}

impl Result {
    /// Where the file named `filename` is written; a relative name that
    /// climbs out of the output directory is refused.
    pub fn output_file_path(&self, filename: &str) -> (r: core::result::Result<String, LoaderError>)
        ensures
            output_target(self.output_path@, filename@) matches Some(t) ==> (r matches Ok(p)
                && p@ == t),
            output_target(self.output_path@, filename@) is None ==> (r matches Err(
                LoaderError::Other(m),
            ) && m@ == "Refusing to write outside output directory"@),
    {
        let path = chars_of(filename);
        if is_absolute_path(&path) {
            return Ok(string_of(path.as_slice()));
        }
        if has_parent_component_of(&path) {
            return Err(LoaderError::Other("Refusing to write outside output directory"));
        }
        let base = chars_of(self.output_path.as_str());
        Ok(string_of(join_paths(&base, &path).as_slice()))
    }

    /// The targets of all files, in order, once it is known that there are
    /// files: a library without files is an error.
    pub fn target_paths(&self) -> (r: core::result::Result<Vec<core::result::Result<String, LoaderError>>, LoaderError>)
        ensures
            self.files@.len() == 0 ==> (r matches Err(e) && e is NoFilesInLibrary),
            self.files@.len() > 0 ==> (r matches Ok(v) && v@.len() == self.files@.len()
                && forall|i: int|
                0 <= i < v@.len() ==> match output_target(
                    self.output_path@,
                    self.files@[i].0@,
                ) {
                    Some(t) => #[trigger] v@[i] matches Ok(p) && p@ == t,
                    None => v@[i] matches Err(LoaderError::Other(_)),
                }),
    {
        if self.files.len() == 0 {
            return Err(LoaderError::NoFilesInLibrary);
        }
        let mut out: Vec<core::result::Result<String, LoaderError>> = Vec::new();
        let mut i: usize = 0;
        while i < self.files.len()
            invariant
                i <= self.files@.len(),
                out@.len() == i,
                forall|j: int|
                    0 <= j < i ==> match output_target(self.output_path@, self.files@[j].0@) {
                        Some(t) => #[trigger] out@[j] matches Ok(p) && p@ == t,
                        None => out@[j] matches Err(LoaderError::Other(_)),
                    },
            decreases self.files@.len() - i,
        {
            let t = self.output_file_path(self.files[i].0.as_str());
            let ghost before = out@;
            out.push(t);
            assert forall|j: int| 0 <= j < i + 1 implies match output_target(
                self.output_path@,
                self.files@[j].0@,
            ) {
                Some(t) => #[trigger] out@[j] matches Ok(p) && p@ == t,
                None => out@[j] matches Err(LoaderError::Other(_)),
            } by {
                if j < i {
                    assert(out@[j] == before[j]);
                }
            }
            i += 1;
        }
        Ok(out)
    }

    /// Whether writing `data` where `existing` is found is allowed: an absent
    /// file is created, one holding the same bytes is kept, and one holding
    /// other bytes would be overwritten, which is refused.
    pub fn write_decision(existing: Option<&[u8]>, data: &[u8]) -> (r: core::result::Result<
        WriteAction,
        LoaderError,
    >)
        ensures
            existing is None ==> r == core::result::Result::<WriteAction, LoaderError>::Ok(
                WriteAction::Create,
            ),
            existing matches Some(e) && e@ == data@ ==> r == core::result::Result::<
                WriteAction,
                LoaderError,
            >::Ok(WriteAction::Keep),
            existing matches Some(e) && e@ != data@ ==> (r matches Err(e) && e is WouldOverwrite),
    {
        match existing {
            None => Ok(WriteAction::Create),
            Some(e) => {
                if bytes_eq(e, data) {
                    Ok(WriteAction::Keep)
                } else {
                    Err(LoaderError::WouldOverwrite)
                }
            },
        }
    }
}

/// Whether two byte strings are equal.
pub fn bytes_eq(a: &[u8], b: &[u8]) -> (r: bool)
    ensures
        r == (a@ == b@),
{
    if a.len() != b.len() {
        return false;
    }
    let mut i: usize = 0;
    while i < a.len()
        invariant
            i <= a.len(),
            a@.len() == b@.len(),
            forall|j: int| 0 <= j < i ==> a@[j] == b@[j],
        decreases a.len() - i,
    {
        if a[i] != b[i] {
            return false;
        }
        i += 1;
    }
    assert(a@ =~= b@);
    true
}

/// A relative file name never leads out of the output directory: one with
/// a `..` component is refused, and any other is written at a path that
/// begins with the output directory.
pub proof fn law_relative_names_stay_inside(output_path: Seq<char>, filename: Seq<char>)
    requires
        !is_absolute(filename),
    ensures
        has_parent_component(filename) ==> output_target(output_path, filename) is None,
        !has_parent_component(filename) ==> (output_target(output_path, filename) matches Some(t)
            && starts_with(t, output_path)),
{
    if !has_parent_component(filename) {
        let t = join(output_path, filename);
        assert(t.subrange(0, output_path.len() as int) =~= output_path);
    }
}

} // verus!
