//! KiCad libraries: where the files of a downloaded archive go, how
//! footprints are pointed at their 3D models, and how symbol libraries are
//! merged into one.
use vstd::prelude::*;
use crate::archive::{
    all_readable, archive_entries, archive_len, entry_data, entry_name, entry_readable,
    names_directory, readable_as, Archive,
};
use crate::error::LoaderError;
use crate::format::{Files, Format, ModelUris};
use crate::path::{
    dot, dot_dot, extension_of, extension_of_name, file_name, file_name_of, join, join_paths,
    last_index_of, lemma_last_index_of, lemma_last_index_of_unique, path_extension,
    path_extension_of,
};
use crate::text::{
    append_chars, char_is_whitespace, chars_of, copy_range, eq_str, find_char_from, find_first,
    find_first_of, first_occurrence_from, is_white_space, leading_ws, leading_ws_len,
    lemma_first_occurrence_unique, lemma_leading_ws_at, lemma_leading_ws_bound, lemma_span,
    lemma_span_facts, occurs_at, lines, lines_of, lower_chars, lower_seq, not_char, span, strip_cr, string_into_bytes,
    string_of, utf8_string,
};

verus! {

// ---------------------------------------------------------------------------
// Pointing footprints at their models
// ---------------------------------------------------------------------------

/// Characters that may stand in an unquoted model path.
pub open spec fn value_chars() -> spec_fn(char) -> bool {
    |c: char| !(is_white_space(c) || c == ')')
}

/// The path after `(model `: where it starts (after white space), the path
/// itself and where it ends, all counted from the start of `rest`. A quoted
/// path runs to the next quote, which must be there; an unquoted one up to
/// white space or `)`.
pub open spec fn model_value(rest: Seq<char>) -> Option<(int, Seq<char>, int)> {
    let lw = leading_ws(rest) as int;
    let t = rest.skip(lw);
    if t.len() > 0 && t[0] == '"' {
        let st = t.skip(1);
        let e = span(st, not_char('"')) as int;
        if e < st.len() {
            Some((lw, st.take(e), lw + 1 + e + 1))
        } else {
            None
        }
    } else {
        let e = span(t, value_chars()) as int;
        Some((lw, t.take(e), lw + e))
    }
}

/// The line with the path of its first `(model ` replaced by the quoted URI
/// known for the path's file name; `None` when there is no such reference
/// or no URI for it.
pub open spec fn rewritten_model_line(line: Seq<char>, uris: Map<Seq<char>, Seq<char>>) -> Option<
    Seq<char>,
> {
    match find_first(line, "(model "@) {
        None => None,
        Some(m) => {
            let vs0 = m + "(model "@.len();
            match model_value(line.skip(vs0)) {
                None => None,
                Some((lw, value, ve)) => match file_name(value) {
                    None => None,
                    Some(base) => if uris.dom().contains(base) {
                        Some(
                            line.take(vs0 + lw) + seq!['"'] + uris[base] + seq!['"'] + line.skip(
                                vs0 + ve,
                            ),
                        )
                    } else {
                        None
                    },
                },
            }
        },
    }
}

/// A line as it is written out: rewritten when a model URI applies.
pub open spec fn output_line(line: Seq<char>, uris: Map<Seq<char>, Seq<char>>) -> Seq<char> {
    match rewritten_model_line(line, uris) {
        Some(r) => r,
        None => line,
    }
}

/// Lines written out, each followed by `\n`.
pub open spec fn output_lines(ls: Seq<Seq<char>>, uris: Map<Seq<char>, Seq<char>>) -> Seq<char>
    decreases ls.len(),
{
    if ls.len() == 0 {
        Seq::empty()
    } else {
        output_lines(ls.drop_last(), uris) + output_line(ls.last(), uris) + seq!['\n']
    }
}

/// A footprint file with its model references pointed at the known URIs.
/// Nothing changes when no URI is known or the file is not UTF-8 text;
/// otherwise every line is written out, followed by `\n`.
pub open spec fn rewritten_model_paths(data: Seq<u8>, uris: Map<Seq<char>, Seq<char>>) -> Seq<u8> {
    if uris.dom() =~= Set::<Seq<char>>::empty() {
        data
    } else if !vstd::utf8::valid_utf8(data) {
        data
    } else {
        vstd::utf8::encode_utf8(output_lines(lines(vstd::utf8::decode_utf8(data)), uris))
    }
}

/// The view of an optional text.
pub open spec fn opt_chars(o: Option<Vec<char>>) -> Option<Seq<char>> {
    match o {
        Some(v) => Some(v@),
        None => None,
    }
}

/// Rewrites the first model reference of a line, when a URI is known for it.
pub fn rewrite_model_chars(line: &Vec<char>, model_uris: &ModelUris) -> (r: Option<Vec<char>>)
    ensures
        opt_chars(r) == rewritten_model_line(line@, model_uris@),
{
    let key = chars_of("(model ");
    let m = match find_first_of(line, &key) {
        Some(m) => m,
        None => {
            return None;
        },
    };
    assert(crate::text::occurs_at(line@, key@, m as int));
    let line_len = line.len();
    assert(m + key@.len() <= line_len);
    let vs0 = m + key.len();
    let rest = copy_range(line, vs0, line.len());
    let lw = leading_ws_len(&rest);
    let t = copy_range(&rest, lw, rest.len());
    assert(t@ =~= rest@.skip(lw as int));
    let ghost st = t@.skip(1);
    let value: Vec<char>;
    let ve: usize;
    if t.len() > 0 && t[0] == '"' {
        match find_char_from(&t, '"', 1) {
            None => {
                proof {
                    assert forall|j: int| 0 <= j < st.len() implies not_char('"')(#[trigger] st[j]) by {
                        assert(st[j] == t@[j + 1]);
                    }
                    lemma_span(st, not_char('"'), st.len() as int);
                }
                return None;
            },
            Some(q) => {
                proof {
                    assert forall|j: int| 0 <= j < q - 1 implies not_char('"')(#[trigger] st[j]) by {
                        assert(st[j] == t@[j + 1]);
                    }
                    assert(st[q - 1] == t@[q as int]);
                    lemma_span(st, not_char('"'), q - 1);
                }
                value = copy_range(&t, 1, q);
                assert(value@ =~= st.take(q - 1));
                ve = lw + q + 1;
            },
        }
    } else {
        let mut e: usize = 0;
        while e < t.len() && !(char_is_whitespace(t[e]) || t[e] == ')')
            invariant
                e <= t.len(),
                forall|j: int| 0 <= j < e ==> value_chars()(#[trigger] t@[j]),
            decreases t.len() - e,
        {
            e += 1;
        }
        proof {
            lemma_span(t@, value_chars(), e as int);
        }
        value = copy_range(&t, 0, e);
        assert(value@ =~= t@.take(e as int));
        ve = lw + e;
    }
    assert(model_value(line@.skip(vs0 as int)) == Some((lw as int, value@, ve as int)));
    let base = match file_name_of(&value) {
        Some(b) => b,
        None => {
            return None;
        },
    };
    let base_s = string_of(base.as_slice());
    let uri = match model_uris.get(base_s.as_str()) {
        Some(u) => u,
        None => {
            return None;
        },
    };
    let mut out = copy_range(line, 0, vs0 + lw);
    out.push('"');
    append_chars(&mut out, &chars_of(uri.as_str()));
    out.push('"');
    append_chars(&mut out, &copy_range(line, vs0 + ve, line.len()));
    proof {
        assert(line@.subrange(0, vs0 + lw) =~= line@.take(vs0 + lw));
        assert(line@.subrange(vs0 + ve, line.len() as int) =~= line@.skip(vs0 + ve));
        assert(out@ =~= line@.take(vs0 + lw) + seq!['"'] + model_uris@[base@] + seq!['"']
            + line@.skip(vs0 + ve));
    }
    Some(out)
}

/// The line with the path of its first model reference replaced by the
/// quoted URI known for the path's file name (`None` when that does not
/// apply).
pub fn rewrite_model_line(line: &str, model_uris: &ModelUris) -> (r: Option<String>)
    ensures
        match r {
            Some(s) => rewritten_model_line(line@, model_uris@) == Some(s@),
            None => rewritten_model_line(line@, model_uris@) is None,
        },
{
    match rewrite_model_chars(&chars_of(line), model_uris) {
        Some(v) => Some(string_of(v.as_slice())),
        None => None,
    }
}

/// Points the model references of a footprint file at the known URIs.
pub fn rewrite_model_paths(data: Vec<u8>, model_uris: &ModelUris) -> (r: Vec<u8>)
    ensures
        r@ == rewritten_model_paths(data@, model_uris@),
{
    if model_uris.is_empty() {
        return data;
    }
    let text = match utf8_string(data) {
        Ok(t) => t,
        Err(bytes) => {
            return bytes;
        },
    };
    let chars = chars_of(text.as_str());
    let ls = lines_of(&chars);
    let mut out: Vec<char> = Vec::new();
    let mut i: usize = 0;
    while i < ls.len()
        invariant
            i <= ls.len(),
            out@ == output_lines(ls.deep_view().take(i as int), model_uris@),
        decreases ls.len() - i,
    {
        assert(ls.deep_view().take(i + 1).drop_last() =~= ls.deep_view().take(i as int));
        assert(ls.deep_view()[i as int] == ls[i as int]@);
        match rewrite_model_chars(&ls[i], model_uris) {
            Some(rewritten) => append_chars(&mut out, &rewritten),
            None => append_chars(&mut out, &ls[i]),
        }
        out.push('\n');
        i += 1;
    }
    assert(ls.deep_view().take(ls.len() as int) =~= ls.deep_view());
    string_into_bytes(string_of(out.as_slice()))
}

// ---------------------------------------------------------------------------
// Where extracted files go
// ---------------------------------------------------------------------------

/// Where a 3D model file goes: under the configured model directory when
/// there is one, else beside the footprints.
pub open spec fn model_key(model_output_path: Option<Seq<char>>, fp_folder: Seq<char>, base: Seq<
    char,
>) -> Seq<char> {
    match model_output_path {
        Some(p) => join(p, base),
        None => fp_folder + seq!['/'] + base,
    }
}

/// Where a 3D model file named `base_name` goes.
pub fn model_output_key(format: &Format, fp_folder: &str, base_name: &str) -> (r: String)
    ensures
        r@ == model_key(crate::config::opt_view(format.model_output_path), fp_folder@, base_name@),
{
    match &format.model_output_path {
        Some(p) => string_of(join_paths(&chars_of(p.as_str()), &chars_of(base_name)).as_slice()),
        None => {
            let mut out = chars_of(fp_folder);
            out.push('/');
            append_chars(&mut out, &chars_of(base_name));
            string_of(out.as_slice())
        },
    }
}

// ---------------------------------------------------------------------------
// Model URIs of an archive
// ---------------------------------------------------------------------------

/// Number of `c` that close `s`.
pub open spec fn trailing_count(s: Seq<char>, c: char) -> nat
    decreases s.len(),
{
    if s.len() > 0 && s.last() == c {
        1 + trailing_count(s.drop_last(), c)
    } else {
        0
    }
}

/// `str::trim_end_matches('/')`: `u` without the slashes that close it.
pub open spec fn without_trailing_slashes(u: Seq<char>) -> Seq<char> {
    u.take(u.len() - trailing_count(u, '/'))
}

/// The views of the configured model extensions.
pub open spec fn model_exts(format: Format) -> Seq<Seq<char>> {
    format.model_extensions.deep_view()
}

/// The URI an archive entry's model file is known under: an entry that is
/// no directory, whose extension (in ASCII lower case) is a model
/// extension, while the format has a model URI, maps its file name to the
/// URI, without closing slashes, followed by `/` and the file name.
pub open spec fn model_uri_for(format: Format, entry: Seq<char>) -> Option<(Seq<char>, Seq<char>)> {
    if names_directory(entry) {
        None
    } else {
        match path_extension(entry) {
            None => None,
            Some(e) => if !model_exts(format).contains(lower_seq(e)) {
                None
            } else {
                match file_name(entry) {
                    None => None,
                    Some(base) => match format.model_uri {
                        None => None,
                        Some(u) => Some((base, without_trailing_slashes(u@) + seq!['/'] + base)),
                    },
                }
            },
        }
    }
}

/// The model URIs of all entries, a later entry replacing an earlier one of
/// the same file name.
pub open spec fn collected_uris(format: Format, entries: Seq<(Seq<char>, Seq<u8>)>) -> Map<
    Seq<char>,
    Seq<char>,
>
    decreases entries.len(),
{
    if entries.len() == 0 {
        Map::empty()
    } else {
        let m = collected_uris(format, entries.drop_last());
        match model_uri_for(format, entries.last().0) {
            Some((k, v)) => m.insert(k, v),
            None => m,
        }
    }
}

/// Whether `ext` is one of the format's model extensions.
pub fn is_model_extension(format: &Format, ext: &Vec<char>) -> (r: bool)
    ensures
        r == model_exts(*format).contains(ext@),
{
    let mut i: usize = 0;
    while i < format.model_extensions.len()
        invariant
            i <= format.model_extensions@.len(),
            forall|j: int| 0 <= j < i ==> model_exts(*format)[j] != ext@,
        decreases format.model_extensions@.len() - i,
    {
        assert(model_exts(*format)[i as int] == format.model_extensions@[i as int]@);
        if eq_str(ext, format.model_extensions[i].as_str()) {
            assert(model_exts(*format)[i as int] == ext@);
            return true;
        }
        i += 1;
    }
    false
}

/// The model URI of one entry, as `model_uri_for` gives it.
pub fn model_uri_of(format: &Format, name: &Vec<char>, is_dir: bool) -> (r: Option<(String, String)>)
    requires
        is_dir == names_directory(name@),
    ensures
        match r {
            Some((k, v)) => model_uri_for(*format, name@) == Some((k@, v@)),
            None => model_uri_for(*format, name@) is None,
        },
{
    if is_dir {
        return None;
    }
    let ext = match path_extension_of(name) {
        Some(e) => e,
        None => {
            return None;
        },
    };
    if !is_model_extension(format, &lower_chars(&ext)) {
        return None;
    }
    let base = match file_name_of(name) {
        Some(b) => b,
        None => {
            return None;
        },
    };
    let uri = match &format.model_uri {
        Some(u) => chars_of(u.as_str()),
        None => {
            return None;
        },
    };
    let mut n: usize = 0;
    proof {
        assert(uri@.take(uri.len() as int) =~= uri@);
    }
    while n < uri.len() && uri[uri.len() - 1 - n] == '/'
        invariant
            n <= uri.len(),
            trailing_count(uri@, '/') == n + trailing_count(uri@.take(uri.len() - n), '/'),
        decreases uri.len() - n,
    {
        assert(uri@.take(uri.len() - n).drop_last() =~= uri@.take(uri.len() - n - 1));
        n += 1;
    }
    proof {
        if n < uri.len() {
            assert(uri@.take(uri.len() - n).last() == uri@[uri.len() - 1 - n]);
        }
    }
    let mut value = copy_range(&uri, 0, uri.len() - n);
    value.push('/');
    append_chars(&mut value, &base);
    assert(value@ =~= without_trailing_slashes(uri@) + seq!['/'] + base@);
    Some((string_of(base.as_slice()), string_of(value.as_slice())))
}

/// The model URIs of the archive's entries, by model file name.
pub fn collect_model_uris(format: &Format, archive: &mut Archive) -> (r: Result<ModelUris, LoaderError>)
    ensures
        archive_entries(*final(archive)) == archive_entries(*old(archive)),
        readable_as(*final(archive), *old(archive)),
        all_readable(*old(archive)) ==> r is Ok,
        r matches Ok(m) ==> m@ == collected_uris(*format, archive_entries(*old(archive))),
        r matches Err(e) ==> e is Zip,
{
    let ghost entries = archive_entries(*archive);
    let mut models = ModelUris::new();
    let n = archive_len(archive);
    let mut i: usize = 0;
    while i < n
        invariant
            n == entries.len(),
            i <= n,
            archive_entries(*archive) == entries,
            entries == archive_entries(*old(archive)),
            readable_as(*archive, *old(archive)),
            models@ == collected_uris(*format, entries.take(i as int)),
        decreases n - i,
    {
        assert(entries.take(i + 1).drop_last() =~= entries.take(i as int));
        let looked = entry_name(archive, i);
        let (name, is_dir) = match looked {
            Ok(found) => found,
            Err(e) => {
                assert(!entry_readable(*old(archive), i as int));
                return Err(e);
            },
        };
        let name_chars = chars_of(name.as_str());
        match model_uri_of(format, &name_chars, is_dir) {
            Some((k, v)) => models.insert(k, v),
            None => {},
        }
        i += 1;
    }
    assert(entries.take(n as int) =~= entries);
    Ok(models)
}

// ---------------------------------------------------------------------------
// Where the files of an archive go
// ---------------------------------------------------------------------------

/// Largest entry, in bytes, that extraction reads.
pub const MAX_EXTRACTED_FILE_BYTES: u64 = 64 * 1024 * 1024;

/// What becomes of an archive entry in a KiCad library.
pub enum Placement {
    Skip,
    /// A footprint, stored under this key after its model paths are rewritten.
    Footprint(Seq<char>),
    /// A 3D model, stored under this key.
    Model(Seq<char>),
    /// A symbol library, merged later.
    Symbol,
    /// A legacy symbol library or its documentation, stored under this key.
    Legacy(Seq<char>),
}

/// What becomes of the entry named `entry`: directories and names without a
/// file name or extension are skipped; by extension (in ASCII lower case)
/// `kicad_mod` files go to `<name>.pretty/`, model files to the model
/// directory, `kicad_sym` files are merged, and `lib` and `dcm` files go to
/// `<name>.legacy/`.
pub open spec fn placement(format: Format, entry: Seq<char>) -> Placement {
    if names_directory(entry) {
        Placement::Skip
    } else {
        match file_name(entry) {
            None => Placement::Skip,
            Some(base) => match extension_of(base) {
                None => Placement::Skip,
                Some(e) => {
                    let le = lower_seq(e);
                    let fp = format.name@ + ".pretty"@;
                    if le == "kicad_mod"@ {
                        Placement::Footprint(fp + seq!['/'] + base)
                    } else if model_exts(format).contains(le) {
                        Placement::Model(
                            model_key(crate::config::opt_view(format.model_output_path), fp, base),
                        )
                    } else if le == "kicad_sym"@ {
                        Placement::Symbol
                    } else if le == "lib"@ || le == "dcm"@ {
                        Placement::Legacy(format.name@ + ".legacy/"@ + base)
                    } else {
                        Placement::Skip
                    }
                },
            },
        }
    }
}

/// Directories, and entries whose path has no file name or whose file name
/// has no extension, are left out of the library.
pub proof fn law_unnamed_entries_skipped(format: Format, entry: Seq<char>)
    ensures
        names_directory(entry) ==> placement(format, entry) == Placement::Skip,
        file_name(entry) is None ==> placement(format, entry) == Placement::Skip,
        (file_name(entry) matches Some(base) && extension_of(base) is None) ==> placement(format, entry)
            == Placement::Skip,
{
}

/// Where a file of the archive goes follows from its file name: one whose
/// extension, in ASCII lower case, is `lib` or `dcm` (and is no model
/// extension) is kept under `<name>.legacy/<file name>`; one whose extension
/// is `kicad_mod` under `<name>.pretty/<file name>`; one whose extension is
/// `kicad_sym` (and is no model extension) is merged into the symbol library.
pub proof fn law_placement_by_extension(format: Format, entry: Seq<char>, base: Seq<char>, e: Seq<char>)
    requires
        !names_directory(entry),
        file_name(entry) == Some(base),
        extension_of(base) == Some(e),
    ensures
        (lower_seq(e) == "lib"@ || lower_seq(e) == "dcm"@) && !model_exts(format).contains(lower_seq(e))
            ==> placement(format, entry) == Placement::Legacy(format.name@ + ".legacy/"@ + base),
        lower_seq(e) == "kicad_mod"@ ==> placement(format, entry) == Placement::Footprint(
            format.name@ + ".pretty/"@ + base,
        ),
        lower_seq(e) == "kicad_sym"@ && !model_exts(format).contains(lower_seq(e)) ==> placement(
            format,
            entry,
        ) == Placement::Symbol,
        lower_seq(e) != "kicad_mod"@ && lower_seq(e) != "kicad_sym"@ && lower_seq(e) != "lib"@ && lower_seq(e)
            != "dcm"@ && !model_exts(format).contains(lower_seq(e)) ==> placement(format, entry)
            == Placement::Skip,
{
    reveal_strlit("lib");
    reveal_strlit("dcm");
    reveal_strlit("kicad_mod");
    reveal_strlit("kicad_sym");
    reveal_strlit(".pretty");
    reveal_strlit(".pretty/");
    let le = lower_seq(e);
    if le == "lib"@ || le == "dcm"@ {
        assert(le != "kicad_mod"@ && le != "kicad_sym"@) by {
            assert(le.len() == 3);
        }
    }
    if le == "kicad_sym"@ {
        assert(le != "kicad_mod"@) by {
            assert(le[6] == 's');
        }
    }
    assert(format.name@ + ".pretty"@ + seq!['/'] + base =~= format.name@ + ".pretty/"@ + base);
}

/// The entry's contents are read: it is a footprint, model or legacy file.
pub open spec fn is_read(p: Placement) -> bool {
    p is Footprint || p is Model || p is Legacy
}

/// The files and symbol libraries that the entries give, in order; a later
/// file under a key replaces an earlier one.
pub open spec fn extracted(
    format: Format,
    entries: Seq<(Seq<char>, Seq<u8>)>,
    uris: Map<Seq<char>, Seq<char>>,
) -> (Map<Seq<char>, Seq<u8>>, Seq<Seq<char>>)
    decreases entries.len(),
{
    if entries.len() == 0 {
        (Map::empty(), Seq::empty())
    } else {
        let (files, symbols) = extracted(format, entries.drop_last(), uris);
        let (name, data) = entries.last();
        match placement(format, name) {
            Placement::Skip => (files, symbols),
            Placement::Footprint(k) => (files.insert(k, rewritten_model_paths(data, uris)), symbols),
            Placement::Model(k) => (files.insert(k, data), symbols),
            Placement::Symbol => (files, symbols.push(name)),
            Placement::Legacy(k) => (files.insert(k, data), symbols),
        }
    }
}

/// The key a placement stores its file under, if it stores one.
pub open spec fn placed_key(p: Placement) -> Option<Seq<char>> {
    match p {
        Placement::Footprint(k) => Some(k),
        Placement::Model(k) => Some(k),
        Placement::Legacy(k) => Some(k),
        _ => None,
    }
}

/// The files extracted hold, under each key, what the last entry placed
/// under that key gives: a footprint with its model paths rewritten, any
/// other file as it is; nothing stands under a key no entry is placed
/// under; and the symbol libraries to merge are the entries placed as
/// symbols, in archive order.
pub proof fn law_extracted_last_entry_wins(
    format: Format,
    entries: Seq<(Seq<char>, Seq<u8>)>,
    uris: Map<Seq<char>, Seq<char>>,
    i: int,
    k: Seq<char>,
)
    ensures
        (0 <= i < entries.len() && placed_key(placement(format, entries[i].0)) == Some(k) && forall|j: int|
            i < j < entries.len() ==> placed_key(placement(format, (#[trigger] entries[j]).0)) != Some(k))
            ==> extracted(format, entries, uris).0.dom().contains(k) && extracted(format, entries, uris).0[k]
            == (if placement(format, entries[i].0) is Footprint {
            rewritten_model_paths(entries[i].1, uris)
        } else {
            entries[i].1
        }),
        extracted(format, entries, uris).0.dom().contains(k) ==> exists|j: int|
            0 <= j < entries.len() && placed_key(placement(format, (#[trigger] entries[j]).0)) == Some(k),
        extracted(format, entries, uris).1 == entries.map_values(|e: (Seq<char>, Seq<u8>)| e.0).filter(
            |n: Seq<char>| placement(format, n) is Symbol,
        ),
    decreases entries.len(),
{
    reveal_with_fuel(Seq::filter, 1);
    if entries.len() > 0 {
        let d = entries.drop_last();
        let last = entries.len() - 1;
        law_extracted_last_entry_wins(format, d, uris, i, k);
        let names = entries.map_values(|e: (Seq<char>, Seq<u8>)| e.0);
        assert(names.drop_last() =~= d.map_values(|e: (Seq<char>, Seq<u8>)| e.0));
        assert(names.last() == entries.last().0);
        if 0 <= i < last && placed_key(placement(format, entries[i].0)) == Some(k) && forall|j: int|
            i < j < entries.len() ==> placed_key(placement(format, (#[trigger] entries[j]).0)) != Some(k) {
            assert(d[i] == entries[i]);
            assert forall|j: int| i < j < d.len() implies placed_key(placement(format, (#[trigger] d[j]).0))
                != Some(k) by {
                assert(d[j] == entries[j]);
            }
            assert(placed_key(placement(format, entries[last].0)) != Some(k));
        }
        if extracted(format, d, uris).0.dom().contains(k) {
            let j = choose|j: int|
                0 <= j < d.len() && placed_key(placement(format, (#[trigger] d[j]).0)) == Some(k);
            assert(d[j] == entries[j]);
        }
        if extracted(format, entries, uris).0.dom().contains(k) && !extracted(format, d, uris).0.dom().contains(k) {
            assert(placed_key(placement(format, entries[last].0)) == Some(k));
        }
    } else {
        assert(entries.map_values(|e: (Seq<char>, Seq<u8>)| e.0) =~= Seq::<Seq<char>>::empty());
    }
}

/// Every entry that is read holds at most `MAX_EXTRACTED_FILE_BYTES`.
pub open spec fn entries_fit(format: Format, entries: Seq<(Seq<char>, Seq<u8>)>) -> bool {
    forall|i: int|
        0 <= i < entries.len() && is_read(placement(format, (#[trigger] entries[i]).0))
            ==> entries[i].1.len() <= MAX_EXTRACTED_FILE_BYTES
}

/// Entry `i` is the first, in archive order, whose contents are read and
/// hold more than `MAX_EXTRACTED_FILE_BYTES`.
pub open spec fn first_too_large(format: Format, entries: Seq<(Seq<char>, Seq<u8>)>, i: int) -> bool {
    &&& 0 <= i < entries.len()
    &&& is_read(placement(format, entries[i].0))
    &&& entries[i].1.len() > MAX_EXTRACTED_FILE_BYTES
    &&& forall|j: int|
        0 <= j < i ==> !(is_read(placement(format, (#[trigger] entries[j]).0)) && entries[j].1.len()
            > MAX_EXTRACTED_FILE_BYTES)
}

proof fn lemma_first_too_large(format: Format, entries: Seq<(Seq<char>, Seq<u8>)>, i: int)
    requires
        0 <= i < entries.len(),
        entries_fit(format, entries.take(i)),
        is_read(placement(format, entries[i].0)),
        entries[i].1.len() > MAX_EXTRACTED_FILE_BYTES,
    ensures
        first_too_large(format, entries, i),
{
    assert forall|j: int| 0 <= j < i implies !(is_read(placement(format, (#[trigger] entries[j]).0))
        && entries[j].1.len() > MAX_EXTRACTED_FILE_BYTES) by {
        assert(entries.take(i)[j] == entries[j]);
    }
}

/// The placement of an entry, computed.
pub enum KicadPlacement {
    Skip,
    Footprint(String),
    Model(String),
    Symbol,
    Legacy(String),
}

/// The view of a computed placement.
pub open spec fn placement_view(p: KicadPlacement) -> Placement {
    match p {
        KicadPlacement::Skip => Placement::Skip,
        KicadPlacement::Footprint(k) => Placement::Footprint(k@),
        KicadPlacement::Model(k) => Placement::Model(k@),
        KicadPlacement::Symbol => Placement::Symbol,
        KicadPlacement::Legacy(k) => Placement::Legacy(k@),
    }
}

/// What becomes of the entry named `name`, with its file name.
pub fn place_entry(format: &Format, name: &Vec<char>, is_dir: bool) -> (r: (KicadPlacement, Vec<char>))
    requires
        is_dir == names_directory(name@),
    ensures
        placement_view(r.0) == placement(*format, name@),
        !(r.0 is Skip) ==> file_name(name@) == Some(r.1@),
{
    let empty: Vec<char> = Vec::new();
    if is_dir {
        return (KicadPlacement::Skip, empty);
    }
    let base = match file_name_of(name) {
        Some(b) => b,
        None => {
            return (KicadPlacement::Skip, empty);
        },
    };
    let ext = match extension_of_name(&base) {
        Some(e) => e,
        None => {
            return (KicadPlacement::Skip, base);
        },
    };
    let le = lower_chars(&ext);
    let mut fp = chars_of(format.name.as_str());
    append_chars(&mut fp, &chars_of(".pretty"));
    let p = if eq_str(&le, "kicad_mod") {
        let mut key = copy_range(&fp, 0, fp.len());
        key.push('/');
        append_chars(&mut key, &base);
        assert(key@ =~= fp@ + seq!['/'] + base@);
        KicadPlacement::Footprint(string_of(key.as_slice()))
    } else if is_model_extension(format, &le) {
        let fp_s = string_of(fp.as_slice());
        let base_s = string_of(base.as_slice());
        KicadPlacement::Model(model_output_key(format, fp_s.as_str(), base_s.as_str()))
    } else if eq_str(&le, "kicad_sym") {
        KicadPlacement::Symbol
    } else if eq_str(&le, "lib") || eq_str(&le, "dcm") {
        let mut key = chars_of(format.name.as_str());
        append_chars(&mut key, &chars_of(".legacy/"));
        append_chars(&mut key, &base);
        KicadPlacement::Legacy(string_of(key.as_slice()))
    } else {
        KicadPlacement::Skip
    };
    (p, base)
}

/// Reads entry `index` whole, refusing one larger than
/// `MAX_EXTRACTED_FILE_BYTES`.
pub fn read_entry(archive: &mut Archive, index: usize, base_name: &Vec<char>) -> (r: Result<
    Vec<u8>,
    LoaderError,
>)
    requires
        index < archive_entries(*old(archive)).len(),
    ensures
        archive_entries(*final(archive)) == archive_entries(*old(archive)),
        readable_as(*final(archive), *old(archive)),
        entry_readable(*old(archive), index as int) && archive_entries(*old(archive))[index as int].1.len()
            <= MAX_EXTRACTED_FILE_BYTES ==> r is Ok,
        entry_readable(*old(archive), index as int) && archive_entries(*old(archive))[index as int].1.len()
            > MAX_EXTRACTED_FILE_BYTES ==> (r matches Err(LoaderError::ZipEntryTooLarge(_, _))),
        r matches Ok(d) ==> d@ == archive_entries(*old(archive))[index as int].1 && d@.len()
            <= MAX_EXTRACTED_FILE_BYTES,
        r matches Err(LoaderError::ZipEntryTooLarge(b, n)) ==> b@ == base_name@ && n
            == MAX_EXTRACTED_FILE_BYTES + 1 && archive_entries(*old(archive))[index as int].1.len()
            > MAX_EXTRACTED_FILE_BYTES,
        r matches Err(e) ==> e is Zip || e is Io || e is ZipEntryTooLarge,
{
    let data = match entry_data(archive, index, MAX_EXTRACTED_FILE_BYTES + 1) {
        Ok(d) => d,
        Err(e) => {
            return Err(e);
        },
    };
    let len = data.len();
    if len as u64 > MAX_EXTRACTED_FILE_BYTES {
        return Err(LoaderError::ZipEntryTooLarge(string_of(base_name.as_slice()), len as u64));
    }
    Ok(data)
}

/// The files and symbol libraries taken out of an archive for a KiCad
/// library: the files by key, and the names of the symbol libraries to
/// merge, in archive order.
pub struct Extracted {
    pub files: Files,
    pub symbols: Vec<String>,
}

/// Takes the KiCad library of `format` out of an archive: footprints (with
/// their model paths pointed at the format's model URI), 3D models and
/// legacy files, by key, and the names of the symbol libraries to merge. An
/// entry to be read that is too large ends it, naming the first such entry.
pub fn extract(format: &Format, archive: &mut Archive) -> (r: Result<Extracted, LoaderError>)
    ensures
        archive_entries(*final(archive)) == archive_entries(*old(archive)),
        r matches Ok(x) ==> x.files@ == extracted(
            *format,
            archive_entries(*old(archive)),
            collected_uris(*format, archive_entries(*old(archive))),
        ).0 && x.symbols.deep_view() == extracted(
            *format,
            archive_entries(*old(archive)),
            collected_uris(*format, archive_entries(*old(archive))),
        ).1 && entries_fit(*format, archive_entries(*old(archive))),
        r matches Err(LoaderError::ZipEntryTooLarge(b, n)) ==> n == MAX_EXTRACTED_FILE_BYTES + 1
            && exists|i: int|
            #![trigger first_too_large(*format, archive_entries(*old(archive)), i)]
            first_too_large(*format, archive_entries(*old(archive)), i) && file_name(
                archive_entries(*old(archive))[i].0,
            ) == Some(b@),
        r matches Err(e) ==> e is Zip || e is Io || e is ZipEntryTooLarge,
        readable_as(*final(archive), *old(archive)),
        all_readable(*old(archive)) && entries_fit(*format, archive_entries(*old(archive))) ==> r is Ok,
        all_readable(*old(archive)) && !entries_fit(*format, archive_entries(*old(archive))) ==> (r matches Err(
            LoaderError::ZipEntryTooLarge(_, _),
        )),
{
    let ghost entries = archive_entries(*archive);
    let model_uris = match collect_model_uris(format, archive) {
        Ok(m) => m,
        Err(e) => {
            return Err(e);
        },
    };
    let ghost uris = model_uris@;
    let mut files = Files::new();
    let mut symbols: Vec<String> = Vec::new();
    let n = archive_len(archive);
    let mut i: usize = 0;
    while i < n
        invariant
            n == entries.len(),
            i <= n,
            archive_entries(*archive) == entries,
            entries == archive_entries(*old(archive)),
            readable_as(*archive, *old(archive)),
            uris == collected_uris(*format, entries),
            model_uris@ == uris,
            files@ == extracted(*format, entries.take(i as int), uris).0,
            symbols.deep_view() == extracted(*format, entries.take(i as int), uris).1,
            entries_fit(*format, entries.take(i as int)),
        decreases n - i,
    {
        assert(entries.take(i + 1).drop_last() =~= entries.take(i as int));
        assert(entries.take(i + 1).last() == entries[i as int]);
        let (name, is_dir) = match entry_name(archive, i) {
            Ok(found) => found,
            Err(e) => {
                return Err(e);
            },
        };
        let name_chars = chars_of(name.as_str());
        let (p, base) = place_entry(format, &name_chars, is_dir);
        let ghost before_syms = symbols.deep_view();
        match p {
            KicadPlacement::Skip => {},
            KicadPlacement::Symbol => {
                symbols.push(name);
                assert(symbols.deep_view() =~= before_syms.push(name_chars@));
            },
            KicadPlacement::Footprint(key) => {
                let data = match read_entry(archive, i, &base) {
                    Ok(d) => d,
                    Err(e) => {
                        proof {
                            if e is ZipEntryTooLarge {
                                lemma_first_too_large(*format, entries, i as int);
                            }
                        }
                        return Err(e);
                    },
                };
                files.insert(key, rewrite_model_paths(data, &model_uris));
            },
            KicadPlacement::Model(key) => {
                let data = match read_entry(archive, i, &base) {
                    Ok(d) => d,
                    Err(e) => {
                        proof {
                            if e is ZipEntryTooLarge {
                                lemma_first_too_large(*format, entries, i as int);
                            }
                        }
                        return Err(e);
                    },
                };
                files.insert(key, data);
            },
            KicadPlacement::Legacy(key) => {
                let data = match read_entry(archive, i, &base) {
                    Ok(d) => d,
                    Err(e) => {
                        proof {
                            if e is ZipEntryTooLarge {
                                lemma_first_too_large(*format, entries, i as int);
                            }
                        }
                        return Err(e);
                    },
                };
                files.insert(key, data);
            },
        }
        proof {
            assert forall|j: int|
                0 <= j < entries.take(i + 1).len() && is_read(
                    placement(*format, (#[trigger] entries.take(i + 1)[j]).0),
                ) implies entries.take(i + 1)[j].1.len() <= MAX_EXTRACTED_FILE_BYTES by {
                if j < i {
                    assert(entries.take(i + 1)[j] == entries.take(i as int)[j]);
                }
            }
        }
        i += 1;
    }
    assert(entries.take(n as int) =~= entries);
    Ok(Extracted { files, symbols })
}

// ---------------------------------------------------------------------------
// Rewriting twice
// ---------------------------------------------------------------------------

/// Every URI has its key as its file name and holds no quote, as the URIs
/// gathered from an archive do.
pub open spec fn uris_name_their_files(uris: Map<Seq<char>, Seq<char>>) -> bool {
    forall|k: Seq<char>|
        #[trigger] uris.dom().contains(k) ==> file_name(uris[k]) == Some(k) && !uris[k].contains('"')
}

/// A file name is a non-empty component made of characters of its path:
/// no `/`, and neither `.` nor `..`.
pub proof fn lemma_file_name_facts(p: Seq<char>)
    ensures
        file_name(p) matches Some(b) ==> b.len() > 0 && !b.contains('/') && b != dot() && b != dot_dot()
            && forall|c: char| b.contains(c) ==> p.contains(c),
    decreases p.len(),
{
    if p.len() == 0 {
    } else if p.last() == '/' {
        lemma_file_name_facts(p.drop_last());
        if file_name(p) is Some {
            let b = file_name(p).unwrap();
            assert forall|c: char| b.contains(c) implies p.contains(c) by {
                let i = choose|i: int| 0 <= i < p.drop_last().len() && p.drop_last()[i] == c;
                assert(p[i] == c);
            }
        }
    } else {
        let k = last_index_of(p, '/');
        lemma_last_index_of(p, '/');
        let seg = p.subrange(k + 1, p.len() as int);
        if seg == dot() {
            if k >= 0 {
                lemma_file_name_facts(p.subrange(0, k));
                if file_name(p) is Some {
                    let b = file_name(p).unwrap();
                    assert forall|c: char| b.contains(c) implies p.contains(c) by {
                        let i = choose|i: int| 0 <= i < p.subrange(0, k).len() && p.subrange(0, k)[i] == c;
                        assert(p[i] == c);
                    }
                }
            }
        } else if seg == dot_dot() {
        } else {
            assert(seg.len() > 0) by {
                assert(seg[seg.len() - 1] == p.last());
            }
            assert(!seg.contains('/')) by {
                if seg.contains('/') {
                    let i = choose|i: int| 0 <= i < seg.len() && seg[i] == '/';
                    assert(p[k + 1 + i] == '/');
                }
            }
            assert forall|c: char| seg.contains(c) implies p.contains(c) by {
                let i = choose|i: int| 0 <= i < seg.len() && seg[i] == c;
                assert(p[k + 1 + i] == c);
            }
        }
    }
}

proof fn lemma_trailing_count_bound(s: Seq<char>, c: char)
    ensures
        trailing_count(s, c) <= s.len(),
    decreases s.len(),
{
    if s.len() > 0 && s.last() == c {
        lemma_trailing_count_bound(s.drop_last(), c);
    }
}

/// A plain component after a `/` is the file name of the path.
pub proof fn lemma_file_name_of_child(w: Seq<char>, b: Seq<char>)
    requires
        b.len() > 0,
        !b.contains('/'),
        b != dot(),
        b != dot_dot(),
    ensures
        file_name(w + seq!['/'] + b) == Some(b),
{
    let p = w + seq!['/'] + b;
    assert(p.last() == b.last());
    assert(b.last() != '/') by {
        if b.last() == '/' {
            assert(b.contains('/'));
        }
    }
    assert forall|j: int| w.len() < j < p.len() implies p[j] != '/' by {
        assert(p[j] == b[j - w.len() - 1]);
        if p[j] == '/' {
            assert(b.contains('/'));
        }
    }
    lemma_last_index_of_unique(p, '/', w.len() as int);
    assert(p.subrange(w.len() + 1 as int, p.len() as int) =~= b);
}

/// The URIs gathered from an archive have their keys as file names, and
/// hold no quote when neither the configured URI nor any entry name does.
proof fn lemma_collected_uris_name_their_files(format: Format, entries: Seq<(Seq<char>, Seq<u8>)>)
    requires
        format.model_uri matches Some(u) ==> !u@.contains('"'),
        forall|i: int| 0 <= i < entries.len() ==> !(#[trigger] entries[i]).0.contains('"'),
    ensures
        uris_name_their_files(collected_uris(format, entries)),
    decreases entries.len(),
{
    if entries.len() > 0 {
        assert forall|i: int| 0 <= i < entries.drop_last().len() implies !(
        #[trigger] entries.drop_last()[i]).0.contains('"') by {
            assert(entries.drop_last()[i] == entries[i]);
        }
        lemma_collected_uris_name_their_files(format, entries.drop_last());
        let m = collected_uris(format, entries.drop_last());
        let e = entries.last().0;
        assert(!entries[entries.len() - 1].0.contains('"'));
        match model_uri_for(format, e) {
            Some((k, v)) => {
                lemma_file_name_facts(e);
                let base = file_name(e).unwrap();
                let u = format.model_uri.unwrap()@;
                let w = without_trailing_slashes(u);
                lemma_file_name_of_child(w, base);
                lemma_trailing_count_bound(u, '/');
                assert(v == w + seq!['/'] + base);
                assert(!v.contains('"')) by {
                    if v.contains('"') {
                        let i = choose|i: int| 0 <= i < v.len() && v[i] == '"';
                        if i < w.len() {
                            assert(v[i] == w[i]);
                            assert(u[i] == '"');
                            assert(u.contains('"'));
                        } else if i > w.len() {
                            assert(base[i - w.len() - 1] == '"');
                            assert(base.contains('"'));
                        }
                    }
                }
                let n = m.insert(k, v);
                assert forall|x: Seq<char>| #[trigger] n.dom().contains(x) implies file_name(n[x]) == Some(x)
                    && !n[x].contains('"') by {
                    if x != k {
                        assert(m.dom().contains(x));
                    }
                }
            },
            None => {},
        }
    }
}

/// Rewriting a line whose model reference was already rewritten changes
/// nothing, when every URI has its key as its file name and holds no quote.
pub proof fn law_rewrite_line_twice(line: Seq<char>, uris: Map<Seq<char>, Seq<char>>)
    requires
        uris_name_their_files(uris),
    ensures
        output_line(output_line(line, uris), uris) == output_line(line, uris),
{
    match rewritten_model_line(line, uris) {
        None => {},
        Some(r) => {
            lemma_rewritten_line_again(line, uris);
        },
    }
}

/// With the URIs gathered from an archive, rewriting a line a second time
/// changes nothing, when neither the configured URI nor any entry name
/// holds a quote.
pub proof fn law_gathered_uris_rewrite_once(format: Format, entries: Seq<(Seq<char>, Seq<u8>)>, line: Seq<char>)
    requires
        format.model_uri matches Some(u) ==> !u@.contains('"'),
        forall|i: int| 0 <= i < entries.len() ==> !(#[trigger] entries[i]).0.contains('"'),
    ensures
        output_line(output_line(line, collected_uris(format, entries)), collected_uris(format, entries))
            == output_line(line, collected_uris(format, entries)),
{
    lemma_collected_uris_name_their_files(format, entries);
    law_rewrite_line_twice(line, collected_uris(format, entries));
}

/// A footprint line whose first `(model ` is followed by a quoted path is
/// written out with that path replaced by the URI known for its file name,
/// quoted, and everything before and after the path kept.
pub proof fn law_model_path_replaced(
    pre: Seq<char>,
    value: Seq<char>,
    rest: Seq<char>,
    uris: Map<Seq<char>, Seq<char>>,
    base: Seq<char>,
)
    requires
        forall|j: int|
            0 <= j < pre.len() ==> !occurs_at(
                pre + "(model \""@ + value + "\""@ + rest,
                "(model "@,
                j,
            ),
        !value.contains('"'),
        file_name(value) == Some(base),
        uris.dom().contains(base),
    ensures
        output_line(pre + "(model \""@ + value + "\""@ + rest, uris) == pre + "(model \""@ + uris[base]
            + "\""@ + rest,
{
    reveal_strlit("(model \"");
    reveal_strlit("\"");
    reveal_strlit("(model ");
    let needle = "(model "@;
    let line = pre + "(model \""@ + value + "\""@ + rest;
    let m = pre.len() as int;
    assert(line.subrange(m, m + needle.len()) =~= needle);
    assert(first_occurrence_from(line, needle, 0, m));
    let k = choose|i: int| first_occurrence_from(line, needle, 0, i);
    lemma_first_occurrence_unique(line, needle, k, m);
    assert(find_first(line, needle) == Some(m));
    let vs0 = m + needle.len();
    let after = line.skip(vs0);
    assert(after =~= seq!['"'] + value + seq!['"'] + rest);
    lemma_leading_ws_at(after, 0);
    assert(after.skip(0) =~= after);
    let st = after.skip(1);
    assert(st =~= value + seq!['"'] + rest);
    assert forall|j: int| 0 <= j < value.len() implies (#[trigger] not_char('"')(st[j])) by {
        assert(st[j] == value[j]);
        if st[j] == '"' {
            assert(value.contains('"'));
        }
    }
    assert(st[value.len() as int] == '"');
    lemma_span(st, not_char('"'), value.len() as int);
    assert(st.take(value.len() as int) =~= value);
    assert(model_value(after) == Some((0int, value, value.len() + 2int)));
    assert(line.take(vs0) =~= pre + needle);
    assert(line.skip(vs0 + value.len() + 2) =~= rest);
    assert(line.take(vs0) + seq!['"'] + uris[base] + seq!['"'] + line.skip(vs0 + value.len() + 2)
        =~= pre + "(model \""@ + uris[base] + "\""@ + rest);
}

#[verifier::spinoff_prover]
#[verifier::rlimit(40)]
proof fn lemma_rewritten_line_again(line: Seq<char>, uris: Map<Seq<char>, Seq<char>>)
    requires
        uris_name_their_files(uris),
        rewritten_model_line(line, uris) is Some,
    ensures
        rewritten_model_line(rewritten_model_line(line, uris).unwrap(), uris) == rewritten_model_line(
            line,
            uris,
        ),
{
    let key = "(model "@;
    let r = rewritten_model_line(line, uris).unwrap();
    let m = find_first(line, key).unwrap();
    assert(exists|i: int| first_occurrence_from(line, key, 0, i));
    assert(first_occurrence_from(line, key, 0, m));
    let vs0 = m + key.len();
    let rest = line.skip(vs0);
    let (lw, value, ve) = model_value(rest).unwrap();
    lemma_leading_ws_bound(rest);
    let t = rest.skip(lw);
    let base = file_name(value).unwrap();
    let u = uris[base];
    assert(uris.dom().contains(base));
    let st = t.skip(1);
    if t.len() > 0 && t[0] == '"' {
        lemma_span_facts(st, not_char('"'));
    } else {
        lemma_span_facts(t, value_chars());
    }
    assert(0 <= lw <= ve <= rest.len());
    let pre = line.take(vs0 + lw);
    let post = line.skip(vs0 + ve);
    assert(r == pre + seq!['"'] + u + seq!['"'] + post);
    // The first reference stays where it was.
    assert(occurs_at(r, key, m)) by {
        assert(r.subrange(m, m + key.len()) =~= line.subrange(m, m + key.len()));
    }
    assert forall|j: int| 0 <= j < m implies !occurs_at(r, key, j) by {
        if occurs_at(r, key, j) {
            assert(r.subrange(j, j + key.len()) =~= line.subrange(j, j + key.len()));
            assert(occurs_at(line, key, j));
        }
    }
    assert(first_occurrence_from(r, key, 0, m));
    let m2 = find_first(r, key).unwrap();
    lemma_first_occurrence_unique(r, key, m, m2);
    // After it come the same white space and then the quoted URI.
    let rest2 = r.skip(vs0);
    assert(rest2 =~= rest.take(lw) + seq!['"'] + u + seq!['"'] + post);
    assert forall|j: int| 0 <= j < lw implies is_white_space(#[trigger] rest2[j]) by {
        assert(rest2[j] == rest[j]);
    }
    assert(rest2[lw] == '"');
    lemma_leading_ws_at(rest2, lw);
    let t2 = rest2.skip(lw);
    assert(t2 =~= seq!['"'] + u + seq!['"'] + post);
    let st2 = t2.skip(1);
    assert(st2 =~= u + seq!['"'] + post);
    assert forall|j: int| 0 <= j < u.len() implies (not_char('"'))(#[trigger] st2[j]) by {
        assert(st2[j] == u[j]);
        if u[j] == '"' {
            assert(u.contains('"'));
        }
    }
    lemma_span(st2, not_char('"'), u.len() as int);
    assert(st2.take(u.len() as int) =~= u);
    assert(file_name(u) == Some(base));
    let ve2 = lw + 1 + u.len() + 1;
    assert(r.take(vs0 + lw) =~= pre);
    assert(r.skip(vs0 + ve2) =~= post);
}

/// A text that ends with a carriage return.
pub open spec fn ends_in_cr(l: Seq<char>) -> bool {
    l.len() > 0 && l.last() == '\r'
}

/// No line of a text, as `str::lines` cuts it, still ends with a carriage
/// return.
pub open spec fn no_line_ends_in_cr(text: Seq<char>) -> bool {
    forall|i: int| 0 <= i < lines(text).len() ==> !ends_in_cr(#[trigger] lines(text)[i])
}

/// No URI holds a line break.
pub open spec fn uris_on_one_line(uris: Map<Seq<char>, Seq<char>>) -> bool {
    forall|k: Seq<char>| #[trigger] uris.dom().contains(k) ==> !uris[k].contains('\n')
}

/// The lines of a text hold no line break.
proof fn lemma_lines_single(s: Seq<char>)
    ensures
        forall|i: int| 0 <= i < lines(s).len() ==> !(#[trigger] lines(s)[i]).contains('\n'),
    decreases s.len(),
{
    if s.len() > 0 {
        let k = span(s, not_char('\n'));
        lemma_span_facts(s, not_char('\n'));
        if k >= s.len() {
            assert forall|i: int| 0 <= i < lines(s).len() implies !(#[trigger] lines(s)[i]).contains('\n') by {
                if s.contains('\n') {
                    let j = choose|j: int| 0 <= j < s.len() && s[j] == '\n';
                    assert((not_char('\n'))(s[j]));
                }
            }
        } else {
            lemma_lines_single(s.skip(k as int + 1));
            let head = strip_cr(s.take(k as int));
            assert(!head.contains('\n')) by {
                if head.contains('\n') {
                    let j = choose|j: int| 0 <= j < head.len() && head[j] == '\n';
                    assert(s.take(k as int)[j] == '\n');
                    assert((not_char('\n'))(s[j]));
                }
            }
            let rest = lines(s.skip(k as int + 1));
            assert(lines(s) == seq![head] + rest);
            assert forall|i: int| 0 <= i < lines(s).len() implies !(#[trigger] lines(s)[i]).contains('\n') by {
                if i > 0 {
                    assert(lines(s)[i] == rest[i - 1]);
                }
            }
        }
    }
}

/// A line followed by `\n` is cut off as that line.
proof fn lemma_lines_cons(a: Seq<char>, rest: Seq<char>)
    requires
        !a.contains('\n'),
    ensures
        lines(a + seq!['\n'] + rest) == seq![strip_cr(a)] + lines(rest),
{
    let s = a + seq!['\n'] + rest;
    assert forall|j: int| 0 <= j < a.len() implies (not_char('\n'))(#[trigger] s[j]) by {
        assert(s[j] == a[j]);
        if a[j] == '\n' {
            assert(a.contains('\n'));
        }
    }
    assert(s[a.len() as int] == '\n');
    lemma_span(s, not_char('\n'), a.len() as int);
    assert(s.take(a.len() as int) =~= a);
    assert(s.skip(a.len() as int + 1) =~= rest);
}

/// Written-out lines, read from the front.
proof fn lemma_output_lines_first(ls: Seq<Seq<char>>, uris: Map<Seq<char>, Seq<char>>)
    requires
        ls.len() > 0,
    ensures
        output_lines(ls, uris) == output_line(ls[0], uris) + seq!['\n'] + output_lines(ls.drop_first(), uris),
    decreases ls.len(),
{
    if ls.len() == 1 {
        assert(ls.drop_last() =~= Seq::<Seq<char>>::empty());
        assert(ls.drop_first() =~= Seq::<Seq<char>>::empty());
        assert(output_lines(ls.drop_last(), uris) == Seq::<char>::empty());
        assert(output_lines(ls.drop_first(), uris) == Seq::<char>::empty());
        assert(ls.last() == ls[0]);
        assert(output_lines(ls, uris) =~= output_line(ls[0], uris) + seq!['\n']);
    } else {
        lemma_output_lines_first(ls.drop_last(), uris);
        assert(ls.drop_last().drop_first() =~= ls.drop_first().drop_last());
        assert(ls.drop_first().last() == ls.last());
        assert(ls.drop_last()[0] == ls[0]);
        assert(output_lines(ls, uris) =~= output_line(ls[0], uris) + seq!['\n'] + output_lines(
            ls.drop_first(),
            uris,
        ));
    }
}

/// A line written out holds no line break and does not end with a carriage
/// return when the line did not, nor any URI holds a line break.
proof fn lemma_output_line_shape(line: Seq<char>, uris: Map<Seq<char>, Seq<char>>)
    requires
        !line.contains('\n'),
        !ends_in_cr(line),
        uris_on_one_line(uris),
    ensures
        !output_line(line, uris).contains('\n'),
        !ends_in_cr(output_line(line, uris)),
{
    if rewritten_model_line(line, uris) is Some {
        let key = "(model "@;
        let r = rewritten_model_line(line, uris).unwrap();
        let m = find_first(line, key).unwrap();
        assert(exists|i: int| first_occurrence_from(line, key, 0, i));
        assert(first_occurrence_from(line, key, 0, m));
        let vs0 = m + key.len();
        let rest = line.skip(vs0);
        let (lw, value, ve) = model_value(rest).unwrap();
        lemma_leading_ws_bound(rest);
        let t = rest.skip(lw);
        let st = t.skip(1);
        if t.len() > 0 && t[0] == '"' {
            lemma_span_facts(st, not_char('"'));
        } else {
            lemma_span_facts(t, value_chars());
        }
        let base = file_name(value).unwrap();
        let u = uris[base];
        assert(uris.dom().contains(base));
        let pre = line.take(vs0 + lw);
        let post = line.skip(vs0 + ve);
        assert(r == pre + seq!['"'] + u + seq!['"'] + post);
        assert(!r.contains('\n')) by {
            if r.contains('\n') {
                let j = choose|j: int| 0 <= j < r.len() && r[j] == '\n';
                if j < pre.len() {
                    assert(line[j] == '\n');
                    assert(line.contains('\n'));
                } else if pre.len() < j < pre.len() + 1 + u.len() {
                    assert(u[j - pre.len() - 1] == '\n');
                    assert(u.contains('\n'));
                } else if j >= pre.len() + 2 + u.len() {
                    assert(line[vs0 + ve + (j - pre.len() - 2 - u.len())] == '\n');
                    assert(line.contains('\n'));
                }
            }
        }
        if post.len() > 0 {
            assert(r.last() == line.last());
        }
    }
}

/// Reading back written-out lines gives them again, when none holds a line
/// break or ends with a carriage return.
proof fn lemma_lines_of_output(ls: Seq<Seq<char>>, uris: Map<Seq<char>, Seq<char>>)
    requires
        forall|i: int|
            0 <= i < ls.len() ==> !(#[trigger] output_line(ls[i], uris)).contains('\n') && !ends_in_cr(
                output_line(ls[i], uris),
            ),
    ensures
        lines(output_lines(ls, uris)) == ls.map_values(|l: Seq<char>| output_line(l, uris)),
    decreases ls.len(),
{
    if ls.len() == 0 {
        assert(ls.map_values(|l: Seq<char>| output_line(l, uris)) =~= Seq::<Seq<char>>::empty());
    } else {
        lemma_output_lines_first(ls, uris);
        let first = output_line(ls[0], uris);
        assert(!output_line(ls[0], uris).contains('\n'));
        lemma_lines_cons(first, output_lines(ls.drop_first(), uris));
        assert forall|i: int|
            0 <= i < ls.drop_first().len() implies !(#[trigger] output_line(ls.drop_first()[i], uris)).contains('\n')
            && !ends_in_cr(output_line(ls.drop_first()[i], uris)) by {
            assert(ls.drop_first()[i] == ls[i + 1]);
            assert(!output_line(ls[i + 1], uris).contains('\n'));
        }
        lemma_lines_of_output(ls.drop_first(), uris);
        assert(strip_cr(first) == first);
        assert(ls.map_values(|l: Seq<char>| output_line(l, uris)) =~= seq![first] + ls.drop_first().map_values(
            |l: Seq<char>| output_line(l, uris),
        ));
    }
}

/// Writing out lines already written out gives the same text.
proof fn lemma_output_lines_again(ls: Seq<Seq<char>>, uris: Map<Seq<char>, Seq<char>>)
    requires
        uris_name_their_files(uris),
    ensures
        output_lines(ls.map_values(|l: Seq<char>| output_line(l, uris)), uris) == output_lines(ls, uris),
    decreases ls.len(),
{
    if ls.len() > 0 {
        let mapped = ls.map_values(|l: Seq<char>| output_line(l, uris));
        assert(mapped.drop_last() =~= ls.drop_last().map_values(|l: Seq<char>| output_line(l, uris)));
        lemma_output_lines_again(ls.drop_last(), uris);
        law_rewrite_line_twice(ls.last(), uris);
        assert(mapped.last() == output_line(ls.last(), uris));
    }
}

/// Rewriting a footprint file a second time changes nothing, when every
/// URI has its key as its file name and holds neither a quote nor a line
/// break, and no line of the file still ends with a carriage return once
/// cut (a line ending in two carriage returns loses one more each time).
pub proof fn law_rewrite_file_twice(data: Seq<u8>, uris: Map<Seq<char>, Seq<char>>)
    requires
        uris_name_their_files(uris),
        uris_on_one_line(uris),
        vstd::utf8::valid_utf8(data) ==> no_line_ends_in_cr(vstd::utf8::decode_utf8(data)),
    ensures
        rewritten_model_paths(rewritten_model_paths(data, uris), uris) == rewritten_model_paths(data, uris),
{
    if !(uris.dom() =~= Set::<Seq<char>>::empty()) && vstd::utf8::valid_utf8(data) {
        let text = vstd::utf8::decode_utf8(data);
        let ls = lines(text);
        lemma_lines_single(text);
        assert forall|i: int|
            0 <= i < ls.len() implies !(#[trigger] output_line(ls[i], uris)).contains('\n') && !ends_in_cr(
                output_line(ls[i], uris),
            ) by {
            assert(!ls[i].contains('\n'));
            assert(!ends_in_cr(ls[i]));
            lemma_output_line_shape(ls[i], uris);
        }
        let out = output_lines(ls, uris);
        vstd::utf8::encode_utf8_valid_utf8(out);
        vstd::utf8::encode_utf8_decode_utf8(out);
        lemma_lines_of_output(ls, uris);
        lemma_output_lines_again(ls, uris);
    }
}

} // verus!
