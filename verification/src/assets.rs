//! The offline check of a part's local CAD assets: which directories are
//! searched for each requirement, and which files count.
use vstd::prelude::*;
use crate::config::{
    expand_full, model_outcome_known, normalize_extensions, normalized_extensions, ok_expansion,
    opt_view, ECAD, Format,
};
use crate::error::ExpandFailure;
use crate::matching::{matches_part, part_matches};
use crate::order::{insert_sorted, strictly_sorted};
use crate::path::{
    file_name, file_name_of, is_absolute, is_absolute_path, join, join_paths, law_join_keeps_both, path_extension,
    path_extension_of,
};
use crate::requirements::Requirement;
use crate::text::{append_chars, chars_of, ends_with, eq_str, lower_chars, lower_seq, owned, starts_with, string_of};

verus! {

/// Deepest directory level the scan enters.
pub const MAX_SCAN_DEPTH: usize = 8;

/// Number of file-system entries after which the scan stops.
pub const MAX_SCAN_ENTRIES: usize = 30000;

/// Number of matching files after which the scan stops.
pub const MAX_MATCHES: usize = 100;

/// Largest file, in bytes, whose text is searched for the part number.
pub const MAX_TEXT_FILE_BYTES: u64 = 16 * 1024 * 1024;

/// Whether a file of `len` bytes is small enough for its text to be searched.
pub fn text_size_ok(len: u64) -> (r: bool)
    ensures
        r == (len <= MAX_TEXT_FILE_BYTES),
{
    len <= MAX_TEXT_FILE_BYTES
}

// ---------------------------------------------------------------------------
// Model extensions
// ---------------------------------------------------------------------------

/// The model extensions searched when a format configures none.
pub open spec fn default_model_extensions() -> Seq<Seq<char>> {
    seq!["stp"@, "step"@, "wrl"@, "stl"@]
}

/// The model extensions a format asks for: its normalised non-empty
/// configured extensions, or the defaults when it configures none.
pub open spec fn configured_model_extensions(format: Format) -> Seq<Seq<char>> {
    if format.model_formats@.len() == 0 {
        default_model_extensions()
    } else {
        normalized_extensions(format.model_formats.deep_view())
    }
}

/// The model extensions of a format, sorted and each once.
pub fn model_extensions(format: &Format) -> (r: Vec<String>)
    ensures
        strictly_sorted(r.deep_view()),
        r.deep_view().to_set() == configured_model_extensions(*format).to_set(),
{
    let list: Vec<String> = if format.model_formats.len() == 0 {
        let mut d: Vec<String> = Vec::new();
        d.push(owned("stp"));
        d.push(owned("step"));
        d.push(owned("wrl"));
        d.push(owned("stl"));
        assert(d.deep_view() =~= default_model_extensions());
        d
    } else {
        normalize_extensions(&format.model_formats)
    };
    let ghost want = list.deep_view();
    let mut sorted: Vec<Vec<char>> = Vec::new();
    let mut i: usize = 0;
    assert(sorted.deep_view().to_set() =~= want.take(0).to_set());
    while i < list.len()
        invariant
            i <= list.len(),
            want == list.deep_view(),
            strictly_sorted(sorted.deep_view()),
            sorted.deep_view().to_set() == want.take(i as int).to_set(),
        decreases list.len() - i,
    {
        assert(want[i as int] == list[i as int]@);
        insert_sorted(&mut sorted, chars_of(list[i].as_str()));
        assert(want.take(i + 1) =~= want.take(i as int).push(want[i as int]));
        proof {
            want.take(i as int).lemma_push_to_set_commute(want[i as int]);
        }
        assert(want.take(i as int).push(want[i as int]).to_set() =~= want.take(i as int).to_set().insert(want[i as int]));
        i += 1;
    }
    assert(want.take(list.len() as int) =~= want);
    let mut out: Vec<String> = Vec::new();
    let mut j: usize = 0;
    while j < sorted.len()
        invariant
            j <= sorted.len(),
            out.deep_view() == sorted.deep_view().take(j as int),
        decreases sorted.len() - j,
    {
        assert(sorted.deep_view()[j as int] == sorted[j as int]@);
        let ghost before = out.deep_view();
        let item = string_of(sorted[j].as_slice());
        out.push(item);
        assert(out.deep_view() =~= before.push(sorted.deep_view()[j as int]));
        assert(out.deep_view() =~= sorted.deep_view().take(j + 1));
        j += 1;
    }
    assert(sorted.deep_view().take(sorted.len() as int) =~= sorted.deep_view());
    out
}

// ---------------------------------------------------------------------------
// Removing repeated paths
// ---------------------------------------------------------------------------

/// The texts of `s`, each at its first occurrence only.
pub open spec fn dedupe(s: Seq<Seq<char>>) -> Seq<Seq<char>>
    decreases s.len(),
{
    if s.len() == 0 {
        Seq::empty()
    } else {
        let d = dedupe(s.drop_last());
        if d.contains(s.last()) {
            d
        } else {
            d.push(s.last())
        }
    }
}

/// The paths, each at its first occurrence only.
pub fn dedupe_paths(paths: Vec<String>) -> (r: Vec<String>)
    ensures
        r.deep_view() == dedupe(paths.deep_view()),
{
    let mut out: Vec<String> = Vec::new();
    let mut i: usize = 0;
    while i < paths.len()
        invariant
            i <= paths.len(),
            out.deep_view() == dedupe(paths.deep_view().take(i as int)),
        decreases paths.len() - i,
    {
        assert(paths.deep_view().take(i + 1).drop_last() =~= paths.deep_view().take(i as int));
        assert(paths.deep_view()[i as int] == paths[i as int]@);
        let mut seen = false;
        let mut j: usize = 0;
        while j < out.len()
            invariant
                i < paths.len(),
                j <= out.len(),
                seen == (exists|k: int| 0 <= k < j && out.deep_view()[k] == paths[i as int]@),
            decreases out.len() - j,
        {
            assert(out.deep_view()[j as int] == out[j as int]@);
            if out[j] == paths[i] {
                seen = true;
            }
            j += 1;
        }
        if !seen {
            let p = owned(paths[i].as_str());
            let ghost before = out.deep_view();
            out.push(p);
            assert(out.deep_view() =~= before.push(paths.deep_view()[i as int]));
        }
        i += 1;
    }
    assert(paths.deep_view().take(paths.len() as int) =~= paths.deep_view());
    out
}

/// No path is repeated after removing repeats, and none is lost.
pub proof fn law_dedupe_keeps_each_once(s: Seq<Seq<char>>)
    ensures
        dedupe(s).no_duplicates(),
        dedupe(s).to_set() == s.to_set(),
    decreases s.len(),
{
    if s.len() > 0 {
        law_dedupe_keeps_each_once(s.drop_last());
        let d = dedupe(s.drop_last());
        assert(s =~= s.drop_last().push(s.last()));
        s.drop_last().lemma_push_to_set_commute(s.last());
        if d.contains(s.last()) {
            assert(s.to_set() =~= s.drop_last().to_set());
        } else {
            d.lemma_push_to_set_commute(s.last());
        }
    } else {
        assert(s.to_set() =~= Set::<Seq<char>>::empty());
        assert(dedupe(s).to_set() =~= Set::<Seq<char>>::empty());
    }
}

/// Removing repeats keeps each path where it first occurs: what the paths
/// of `s` give is the start of what `s` followed by more paths gives.
pub proof fn law_dedupe_keeps_first_order(s: Seq<Seq<char>>, t: Seq<Seq<char>>)
    ensures
        dedupe(s).len() <= dedupe(s + t).len(),
        dedupe(s + t).take(dedupe(s).len() as int) == dedupe(s),
    decreases t.len(),
{
    if t.len() == 0 {
        assert(s + t =~= s);
        assert(dedupe(s).take(dedupe(s).len() as int) =~= dedupe(s));
    } else {
        law_dedupe_keeps_first_order(s, t.drop_last());
        let u = s + t;
        assert(u.drop_last() =~= s + t.drop_last());
        let d = dedupe(u.drop_last());
        let n = dedupe(s).len() as int;
        if !d.contains(u.last()) {
            assert(d.push(u.last()).take(n) =~= d.take(n));
        }
    }
}

// ---------------------------------------------------------------------------
// Where each requirement is searched
// ---------------------------------------------------------------------------

/// Where a format's 3D models are searched: its model directory (absolute
/// once expanded, or under the output directory; as written when expansion
/// failed), else its footprint directory.
pub open spec fn model_root_of(
    name: Seq<char>,
    output_path: Seq<char>,
    model_output_path: Option<Seq<char>>,
    expanded: Option<Seq<char>>,
) -> Seq<char> {
    match model_output_path {
        Some(p) => match expanded {
            Some(e) => if is_absolute(e) {
                e
            } else {
                join(output_path, e)
            },
            None => p,
        },
        None => join(output_path, name + ".pretty"@),
    }
}

/// The directories and files searched for a requirement, before repeats are
/// removed. A KiCad format keeps symbols in `<name>.kicad_sym` and
/// `<name>.legacy`, footprints in `<name>.pretty`, models in its model
/// directory and `<name>.pretty`, legacy files in `<name>.legacy`, and no
/// archives; any other format keeps everything in its output directory,
/// and archives only when it is the `zip` format.
pub open spec fn requirement_roots(
    name: Seq<char>,
    output_path: Seq<char>,
    ecad: ECAD,
    model_root: Seq<char>,
    requirement: Requirement,
) -> Seq<Seq<char>> {
    if ecad == ECAD::KiCad {
        match requirement {
            Requirement::Symbol => seq![
                join(output_path, name + ".kicad_sym"@),
                join(output_path, name + ".legacy"@),
            ],
            Requirement::Footprint => seq![join(output_path, name + ".pretty"@)],
            Requirement::Model3d => seq![model_root, join(output_path, name + ".pretty"@)],
            Requirement::Legacy => seq![join(output_path, name + ".legacy"@)],
            Requirement::Zip => Seq::empty(),
        }
    } else {
        match requirement {
            Requirement::Zip => if ecad == ECAD::Zip {
                seq![output_path]
            } else {
                Seq::empty()
            },
            _ => seq![output_path],
        }
    }
}

/// A name and a suffix that starts with `.`, joined to a directory, give a
/// path that starts with the directory and ends with the suffix.
proof fn lemma_child_root(dir: Seq<char>, name: Seq<char>, suffix: Seq<char>)
    requires
        !is_absolute(name),
        suffix.len() > 0,
        suffix[0] == '.',
    ensures
        starts_with(join(dir, name + suffix), dir),
        ends_with(join(dir, name + suffix), suffix),
{
    let r = name + suffix;
    assert(!is_absolute(r)) by {
        if name.len() > 0 {
            assert(r[0] == name[0]);
        } else {
            assert(r[0] == suffix[0]);
        }
    }
    law_join_keeps_both(dir, r);
    let j = join(dir, r);
    let tail = j.subrange(j.len() - r.len(), j.len() as int);
    assert(tail == r);
    assert(j.subrange(j.len() - suffix.len(), j.len() as int) =~= suffix) by {
        assert forall|k: int| 0 <= k < suffix.len() implies j.subrange(
            j.len() - suffix.len(),
            j.len() as int,
        )[k] == suffix[k] by {
            assert(tail[name.len() + k] == r[name.len() + k]);
        }
    }
}

/// Every place searched for a requirement lies in the format's output
/// directory, save the model directory. A KiCad format searches
/// `<name>.kicad_sym` and then `<name>.legacy` for symbols, `<name>.pretty`
/// for footprints, its model directory and then `<name>.pretty` for models,
/// `<name>.legacy` for legacy files, and nothing for archives; any other
/// format searches its output directory alone, and for archives only when
/// it is the zip format.
pub proof fn law_search_roots(
    name: Seq<char>,
    output_path: Seq<char>,
    ecad: ECAD,
    model_root: Seq<char>,
    requirement: Requirement,
)
    requires
        !is_absolute(name),
    ensures
        ({
            let roots = requirement_roots(name, output_path, ecad, model_root, requirement);
            &&& forall|k: int|
                0 <= k < roots.len() ==> #[trigger] roots[k] == model_root || starts_with(roots[k], output_path)
            &&& ecad == ECAD::KiCad && requirement == Requirement::Symbol ==> roots.len() == 2 && ends_with(
                roots[0],
                ".kicad_sym"@,
            ) && ends_with(roots[1], ".legacy"@)
            &&& ecad == ECAD::KiCad && requirement == Requirement::Footprint ==> roots.len() == 1 && ends_with(
                roots[0],
                ".pretty"@,
            )
            &&& ecad == ECAD::KiCad && requirement == Requirement::Model3d ==> roots.len() == 2 && roots[0]
                == model_root && ends_with(roots[1], ".pretty"@)
            &&& ecad == ECAD::KiCad && requirement == Requirement::Legacy ==> roots.len() == 1 && ends_with(
                roots[0],
                ".legacy"@,
            )
            &&& ecad == ECAD::KiCad && requirement == Requirement::Zip ==> roots.len() == 0
            &&& ecad != ECAD::KiCad && (requirement != Requirement::Zip || ecad == ECAD::Zip) ==> roots
                == seq![output_path]
            &&& ecad != ECAD::KiCad && requirement == Requirement::Zip && ecad != ECAD::Zip ==> roots.len()
                == 0
        }),
{
    reveal_strlit(".kicad_sym");
    reveal_strlit(".legacy");
    reveal_strlit(".pretty");
    lemma_child_root(output_path, name, ".kicad_sym"@);
    lemma_child_root(output_path, name, ".legacy"@);
    lemma_child_root(output_path, name, ".pretty"@);
    assert(starts_with(output_path, output_path)) by {
        assert(output_path.subrange(0, output_path.len() as int) =~= output_path);
    }
}

/// The model directory searched lies in the output directory unless the
/// configured one expands to an absolute path, which is then searched as
/// it is, or cannot be expanded, when it is searched as written; without a
/// configured one it is `<name>.pretty` in the output directory.
pub proof fn law_model_root(
    name: Seq<char>,
    output_path: Seq<char>,
    model_output_path: Option<Seq<char>>,
    expanded: Option<Seq<char>>,
)
    requires
        !is_absolute(name),
    ensures
        model_output_path is None ==> starts_with(
            model_root_of(name, output_path, model_output_path, expanded),
            output_path,
        ) && ends_with(model_root_of(name, output_path, model_output_path, expanded), ".pretty"@),
        (model_output_path is Some && expanded is Some && !is_absolute(expanded.unwrap())) ==> starts_with(
            model_root_of(name, output_path, model_output_path, expanded),
            output_path,
        ) && ends_with(model_root_of(name, output_path, model_output_path, expanded), expanded.unwrap()),
        (model_output_path is Some && expanded is Some && is_absolute(expanded.unwrap())) ==> model_root_of(
            name,
            output_path,
            model_output_path,
            expanded,
        ) == expanded.unwrap(),
        (model_output_path is Some && expanded is None) ==> model_root_of(
            name,
            output_path,
            model_output_path,
            expanded,
        ) == model_output_path.unwrap(),
{
    reveal_strlit(".pretty");
    lemma_child_root(output_path, name, ".pretty"@);
    if let Some(e) = expanded {
        law_join_keeps_both(output_path, e);
    }
}

/// `dir` joined with `name` followed by `suffix`.
fn child_path(dir: &Vec<char>, name: &str, suffix: &str) -> (r: String)
    ensures
        r@ == join(dir@, name@ + suffix@),
{
    let mut file = chars_of(name);
    append_chars(&mut file, &chars_of(suffix));
    string_of(join_paths(dir, &file).as_slice())
}

/// Where a format's 3D models are searched, given the outcome of expanding
/// its model directory (`None` when it has none).
pub fn model_root_from(
    name: &str,
    output_path: &str,
    model_output_path: &Option<String>,
    expanded: Option<Result<String, ExpandFailure>>,
) -> (r: String)
    requires
        model_output_path is Some <==> expanded is Some,
    ensures
        r@ == model_root_of(name@, output_path@, opt_view(*model_output_path), ok_expansion(expanded)),
{
    match model_output_path {
        Some(p) => match expanded {
            Some(Ok(e)) => {
                let ev = chars_of(e.as_str());
                if is_absolute_path(&ev) {
                    e
                } else {
                    string_of(join_paths(&chars_of(output_path), &ev).as_slice())
                }
            },
            _ => owned(p.as_str()),
        },
        None => child_path(&chars_of(output_path), name, ".pretty"),
    }
}

/// Where a format's 3D models are searched; the model directory is
/// expanded through the environment.
pub fn model_root(name: &str, output_path: &str, format: &Format) -> (r: String)
    ensures
        exists|x: Option<Result<String, ExpandFailure>>|
            #![trigger model_outcome_known(format.model_output_path, x)]
            model_outcome_known(format.model_output_path, x) && r@ == model_root_of(
                name@,
                output_path@,
                opt_view(format.model_output_path),
                ok_expansion(x),
            ),
{
    let expanded = match &format.model_output_path {
        Some(p) => Some(expand_full(p.as_str())),
        None => None,
    };
    let ghost x = expanded;
    assert(model_outcome_known(format.model_output_path, x));
    model_root_from(name, output_path, &format.model_output_path, expanded)
}

/// The directories and files searched for a requirement, given the
/// format's model root; each once.
pub fn roots_for(name: &str, output_path: &str, ecad: ECAD, model_root: String, requirement: Requirement) -> (r: Vec<String>)
    ensures
        r.deep_view() == dedupe(requirement_roots(name@, output_path@, ecad, model_root@, requirement)),
{
    let out_chars = chars_of(output_path);
    let mut roots: Vec<String> = Vec::new();
    if ecad == ECAD::KiCad {
        match requirement {
            Requirement::Symbol => {
                roots.push(child_path(&out_chars, name, ".kicad_sym"));
                roots.push(child_path(&out_chars, name, ".legacy"));
            },
            Requirement::Footprint => {
                roots.push(child_path(&out_chars, name, ".pretty"));
            },
            Requirement::Model3d => {
                roots.push(model_root);
                roots.push(child_path(&out_chars, name, ".pretty"));
            },
            Requirement::Legacy => {
                roots.push(child_path(&out_chars, name, ".legacy"));
            },
            Requirement::Zip => {},
        }
    } else {
        match requirement {
            Requirement::Zip => {
                if ecad == ECAD::Zip {
                    roots.push(owned(output_path));
                }
            },
            _ => {
                roots.push(owned(output_path));
            },
        }
    }
    assert(roots.deep_view() =~= requirement_roots(name@, output_path@, ecad, model_root@, requirement));
    dedupe_paths(roots)
}

/// The directories and files searched for a requirement of a format named
/// `name` whose output directory expanded to `output_path`; each once.
pub fn roots_for_requirement(name: &str, output_path: &str, format: &Format, requirement: Requirement) -> (r: Vec<String>)
    ensures
        exists|x: Option<Result<String, ExpandFailure>>|
            #![trigger model_outcome_known(format.model_output_path, x)]
            model_outcome_known(format.model_output_path, x) && r.deep_view() == dedupe(
                requirement_roots(
                    name@,
                    output_path@,
                    format.format,
                    model_root_of(name@, output_path@, opt_view(format.model_output_path), ok_expansion(x)),
                    requirement,
                ),
            ),
{
    let mr = model_root(name, output_path, format);
    roots_for(name, output_path, format.format, mr, requirement)
}

// ---------------------------------------------------------------------------
// Which files count
// ---------------------------------------------------------------------------

/// The file name of a path names the part.
pub open spec fn path_names_part(path: Seq<char>, mpn: Seq<char>) -> bool {
    match file_name(path) {
        Some(n) => part_matches(n, mpn),
        None => false,
    }
}

/// Whether the file name of `path` names the part `mpn`.
pub fn path_matches_part(path: &str, mpn: &str) -> (r: bool)
    ensures
        r == path_names_part(path@, mpn@),
{
    match file_name_of(&chars_of(path)) {
        Some(n) => matches_part(string_of(n.as_slice()).as_str(), mpn),
        None => false,
    }
}

/// Directories the scan does not enter: `.git`, `.history`, `node_modules`
/// and `target`.
pub open spec fn skipped_dir(path: Seq<char>) -> bool {
    match file_name(path) {
        Some(n) => n == ".git"@ || n == ".history"@ || n == "node_modules"@ || n == "target"@,
        None => false,
    }
}

/// Whether the scan leaves the directory `path` out.
pub fn should_skip_dir(path: &str) -> (r: bool)
    ensures
        r == skipped_dir(path@),
{
    match file_name_of(&chars_of(path)) {
        Some(n) => eq_str(&n, ".git") || eq_str(&n, ".history") || eq_str(&n, "node_modules")
            || eq_str(&n, "target"),
        None => false,
    }
}

/// Whether a file counts for a requirement.
#[derive(Debug, PartialEq, Eq, Structural)]
pub enum FileCheck {
    /// The file counts.
    Match,
    /// The file does not count.
    NoMatch,
    /// The file counts when its text names the part.
    ReadContents,
}

/// The extension of a path in ASCII lower case, empty when it has none.
pub open spec fn lower_extension(path: Seq<char>) -> Seq<char> {
    match path_extension(path) {
        Some(e) => lower_seq(e),
        None => Seq::empty(),
    }
}

/// Whether a file counts for a requirement: symbol files (`kicad_sym`,
/// `lib`, `dcm`), footprints (`kicad_mod`) and legacy files (`lib`, `dcm`)
/// whose name or text names the part; models with a model extension and
/// archives (`zip`) whose name names the part.
pub open spec fn file_check(path: Seq<char>, requirement: Requirement, mpn: Seq<char>, exts: Seq<Seq<char>>) -> FileCheck {
    let ext = lower_extension(path);
    let named = path_names_part(path, mpn);
    let by_name_or_text = |ok: bool|
        if !ok {
            FileCheck::NoMatch
        } else if named {
            FileCheck::Match
        } else {
            FileCheck::ReadContents
        };
    match requirement {
        Requirement::Symbol => by_name_or_text(ext == "kicad_sym"@ || ext == "lib"@ || ext == "dcm"@),
        Requirement::Footprint => by_name_or_text(ext == "kicad_mod"@),
        Requirement::Legacy => by_name_or_text(ext == "lib"@ || ext == "dcm"@),
        Requirement::Model3d => if exts.contains(ext) && named {
            FileCheck::Match
        } else {
            FileCheck::NoMatch
        },
        Requirement::Zip => if ext == "zip"@ && named {
            FileCheck::Match
        } else {
            FileCheck::NoMatch
        },
    }
}

/// Whether `ext` is among `exts`.
fn contains_text(exts: &Vec<String>, ext: &Vec<char>) -> (r: bool)
    ensures
        r == exts.deep_view().contains(ext@),
{
    let mut i: usize = 0;
    while i < exts.len()
        invariant
            i <= exts.len(),
            forall|j: int| 0 <= j < i ==> exts.deep_view()[j] != ext@,
        decreases exts.len() - i,
    {
        assert(exts.deep_view()[i as int] == exts[i as int]@);
        if eq_str(ext, exts[i].as_str()) {
            return true;
        }
        i += 1;
    }
    false
}

/// Whether the file at `path` counts for a requirement of part `mpn`
/// (see `file_check`).
pub fn file_matches_requirement(path: &str, requirement: Requirement, mpn: &str, model_extensions: &Vec<String>) -> (r: FileCheck)
    ensures
        r == file_check(path@, requirement, mpn@, model_extensions.deep_view()),
{
    let p = chars_of(path);
    let ext = match path_extension_of(&p) {
        Some(e) => lower_chars(&e),
        None => Vec::new(),
    };
    assert(ext@ == lower_extension(path@));
    let named = path_matches_part(path, mpn);
    let ok = match requirement {
        Requirement::Symbol => eq_str(&ext, "kicad_sym") || eq_str(&ext, "lib") || eq_str(&ext, "dcm"),
        Requirement::Footprint => eq_str(&ext, "kicad_mod"),
        Requirement::Legacy => eq_str(&ext, "lib") || eq_str(&ext, "dcm"),
        Requirement::Model3d => {
            return if contains_text(model_extensions, &ext) && named {
                FileCheck::Match
            } else {
                FileCheck::NoMatch
            };
        },
        Requirement::Zip => {
            return if eq_str(&ext, "zip") && named {
                FileCheck::Match
            } else {
                FileCheck::NoMatch
            };
        },
    };
    if !ok {
        FileCheck::NoMatch
    } else if named {
        FileCheck::Match
    } else {
        FileCheck::ReadContents
    }
}

/// A file counts outright only when its own file name names the part, for
/// every requirement; one whose name does not is at most read for the part
/// number. Models and archives are never read: an archive counts exactly
/// when its extension is `zip` in any case and its file name names the part,
/// and is otherwise reported missing.
pub proof fn law_counted_files_name_the_part(
    path: Seq<char>,
    requirement: Requirement,
    mpn: Seq<char>,
    exts: Seq<Seq<char>>,
)
    ensures
        file_check(path, requirement, mpn, exts) == FileCheck::Match ==> (match file_name(path) {
            Some(n) => part_matches(n, mpn),
            None => false,
        }),
        file_check(path, requirement, mpn, exts) == FileCheck::ReadContents ==> !(match file_name(path) {
            Some(n) => part_matches(n, mpn),
            None => false,
        }),
        requirement == Requirement::Zip || requirement == Requirement::Model3d
            ==> file_check(path, requirement, mpn, exts) != FileCheck::ReadContents,
        file_check(path, Requirement::Zip, mpn, exts) == FileCheck::Match <==> (lower_extension(path) == "zip"@
            && (match file_name(path) {
            Some(n) => part_matches(n, mpn),
            None => false,
        })),
{
}

/// Which files a requirement looks at goes by the extension alone, in ASCII
/// lower case: symbols by `kicad_sym`, `lib` and `dcm`; footprints by
/// `kicad_mod`; legacy libraries by `lib` and `dcm`; those files count when
/// their name names the part and are otherwise read. A model counts exactly
/// when its extension is a configured model extension and its name names
/// the part.
pub proof fn law_files_looked_at_by_extension(path: Seq<char>, mpn: Seq<char>, exts: Seq<Seq<char>>)
    ensures
        file_check(path, Requirement::Symbol, mpn, exts) != FileCheck::NoMatch <==> (lower_extension(path)
            == "kicad_sym"@ || lower_extension(path) == "lib"@ || lower_extension(path) == "dcm"@),
        file_check(path, Requirement::Footprint, mpn, exts) != FileCheck::NoMatch <==> lower_extension(path)
            == "kicad_mod"@,
        file_check(path, Requirement::Legacy, mpn, exts) != FileCheck::NoMatch <==> (lower_extension(path)
            == "lib"@ || lower_extension(path) == "dcm"@),
        file_check(path, Requirement::Model3d, mpn, exts) == FileCheck::Match <==> (exts.contains(
            lower_extension(path),
        ) && (match file_name(path) {
            Some(n) => part_matches(n, mpn),
            None => false,
        })),
        (match file_name(path) {
            Some(n) => part_matches(n, mpn),
            None => false,
        }) && file_check(path, Requirement::Symbol, mpn, exts) != FileCheck::NoMatch ==> file_check(
            path,
            Requirement::Symbol,
            mpn,
            exts,
        ) == FileCheck::Match,
        (match file_name(path) {
            Some(n) => part_matches(n, mpn),
            None => false,
        }) && file_check(path, Requirement::Footprint, mpn, exts) != FileCheck::NoMatch ==> file_check(
            path,
            Requirement::Footprint,
            mpn,
            exts,
        ) == FileCheck::Match,
        (match file_name(path) {
            Some(n) => part_matches(n, mpn),
            None => false,
        }) && file_check(path, Requirement::Legacy, mpn, exts) != FileCheck::NoMatch ==> file_check(
            path,
            Requirement::Legacy,
            mpn,
            exts,
        ) == FileCheck::Match,
{
}

/// Decoding of bytes as UTF-8 with every invalid sequence replaced by
/// U+FFFD (`String::from_utf8_lossy`).
pub uninterp spec fn utf8_lossy(bytes: Seq<u8>) -> Seq<char>;

/// Calls `String::from_utf8_lossy`. Its result depends on the bytes alone
/// and is named; std documents that valid UTF-8 decodes as itself.
#[verifier::external_body]
fn decode_lossy(bytes: &[u8]) -> (r: String)
    ensures
        r@ == utf8_lossy(bytes@),
        vstd::utf8::valid_utf8(bytes@) ==> r@ == vstd::utf8::decode_utf8(bytes@),
{
    String::from_utf8_lossy(bytes).into_owned()
}

/// Whether the text of a file names the part: the file decoded as UTF-8,
/// invalid sequences replaced, matched against the part number.
pub fn text_matches_part(data: &[u8], mpn: &str) -> (r: bool)
    ensures
        r == part_matches(utf8_lossy(data@), mpn@),
{
    let text = decode_lossy(data);
    matches_part(text.as_str(), mpn)
}

/// Whether a file counts for a requirement, given its check and, where its
/// text decides, its bytes (`None` when it was too large or unreadable).
pub fn file_counts(check: FileCheck, contents: Option<&[u8]>, mpn: &str) -> (r: bool)
    ensures
        r == match check {
            FileCheck::Match => true,
            FileCheck::NoMatch => false,
            FileCheck::ReadContents => match contents {
                Some(d) => part_matches(utf8_lossy(d@), mpn@),
                None => false,
            },
        },
{
    match check {
        FileCheck::Match => true,
        FileCheck::NoMatch => false,
        FileCheck::ReadContents => match contents {
            Some(d) => text_matches_part(d, mpn),
            None => false,
        },
    }
}

} // verus!
