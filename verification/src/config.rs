//! The loader's configuration: output formats, watch settings and the
//! account profile, and how the configuration file is located.
use vstd::prelude::*;
use crate::error::{ExpandFailure, LoaderError};
use crate::path::join;
use crate::text::{
    chars_of, copy_range, ends_with, is_white_space, lemma_leading_ws_at, lemma_trailing_ws_at,
    lower_chars, lower_seq, not_char, occurs_at, span, starts_with, string_of, trim, trim_chars,
};

verus! {

/// Name of the configuration file.
pub const LL_CONFIG: &'static str = "LibraryLoader.toml";

/// An ECAD program whose library format the loader can produce.
#[derive(Clone, Copy, Debug, PartialEq, Eq, Structural)]
pub enum ECAD {
    D3,
    DesignSpark,
    Eagle,
    EasyEDA,
    KiCad,
    Zip,
}

impl ECAD {
    /// The name of the format in configuration files.
    pub fn name(self) -> (r: &'static str)
        ensures
            self == ECAD::KiCad ==> r@ == "kicad"@,
            self == ECAD::Zip ==> r@ == "zip"@,
    {
        match self {
            ECAD::D3 => "d3",
            ECAD::DesignSpark => "designspark",
            ECAD::Eagle => "eagle",
            ECAD::EasyEDA => "easyeda",
            ECAD::KiCad => "kicad",
            ECAD::Zip => "zip",
        }
    }
}

/// One configured output format, as written in the configuration file.
#[derive(Debug)]
pub struct Format {
    pub format: ECAD,
    pub output_path: String,
    pub model_output_path: Option<String>,
    pub model_uri: Option<String>,
    pub model_formats: Vec<String>,
    pub create_folder: Option<bool>,
}

/// Watch settings.
#[derive(Debug)]
pub struct Settings {
    pub watch_path: String,
    pub recursive: bool,
}

/// Account used with the component search service.
#[derive(Debug)]
pub struct Profile {
    pub username: String,
    pub password: String,
}

/// The whole configuration: settings, the named output formats and the
/// profile, with the file it was read from. A configuration read from a
/// file names each format once (`names_unique`).
#[derive(Debug)]
pub struct Config {
    /// The file the configuration was read from.
    pub self_path: Option<String>,
    pub settings: Settings,
    pub formats: Vec<(String, Format)>,
    pub profile: Profile,
}

/// The names of the formats, in order.
pub open spec fn format_names(formats: Seq<(String, Format)>) -> Seq<Seq<char>> {
    formats.map_values(|p: (String, Format)| p.0@)
}

impl Config {
    /// No two formats have the same name, as in the table of formats of a
    /// configuration file.
    pub open spec fn names_unique(&self) -> bool {
        format_names(self.formats@).no_duplicates()
    }
}

/// The view of an optional string.
pub open spec fn opt_view(o: Option<String>) -> Option<Seq<char>> {
    match o {
        Some(s) => Some(s@),
        None => None,
    }
}

/// The views of a list of strings.
pub open spec fn views(v: Seq<String>) -> Seq<Seq<char>> {
    v.map_values(|s: String| s@)
}

// ---------------------------------------------------------------------------
// Calls into outside crates
// ---------------------------------------------------------------------------

/// Shell-style expansion would leave `s` unchanged: it names no variable
/// (`$`) and does not open with `~`.
pub open spec fn expands_to_itself(s: Seq<char>) -> bool {
    !s.contains('$') && !(s.len() > 0 && s[0] == '~')
}

/// The text of a successful expansion.
pub open spec fn ok_text(r: Result<String, ExpandFailure>) -> Option<Seq<char>> {
    match r {
        Ok(s) => Some(s@),
        Err(_) => None,
    }
}

/// Where the first `$` of a text stands (its length when there is none).
pub open spec fn first_dollar(s: Seq<char>) -> int {
    span(s, not_char('$')) as int
}

/// `v` stands in `s` right after a `$` or a `${`: it is what the text names
/// as a variable there.
pub open spec fn names_variable(s: Seq<char>, v: Seq<char>) -> bool {
    exists|p: int|
        #![trigger occurs_at(s, v, p)]
        occurs_at(s, v, p) && p >= 1 && (s[p - 1] == '$' || (p >= 2 && s[p - 1] == '{' && s[p - 2]
            == '$'))
}

/// What every outcome of shell-style expansion of `input` shows, whatever
/// the environment: a text without `$` cannot fail, and one that also does
/// not open with `~` comes back unchanged; a text that does not open with
/// `~` keeps what stands before its first `$`; and a failure names a
/// variable that follows a `$` or `${` of the text.
pub open spec fn expansion_of(input: Seq<char>, r: Result<String, ExpandFailure>) -> bool {
    &&& (!input.contains('$') ==> r is Ok)
    &&& (expands_to_itself(input) ==> ok_text(r) == Some(input))
    &&& (!(input.len() > 0 && input[0] == '~') && r is Ok ==> starts_with(
        r->Ok_0@,
        input.take(first_dollar(input)),
    ))
    &&& (r matches Err(f) ==> names_variable(input, f.var_name@))
}

/// Calls `shellexpand::full`: expands `~` to the home directory and `$VAR`
/// / `${VAR}` to environment variables. What it gives back depends on the
/// environment and is left open; the contract states what the source of
/// shellexpand 3.1 shows for every environment (`expansion_of`): variable
/// expansion copies the text up to the first `$` before anything else, `~`
/// is replaced only at the start of the text, and a lookup error carries
/// the variable name cut from the text after `$` or `${`.
#[verifier::external_body]
pub(crate) fn expand_full(input: &str) -> (r: Result<String, ExpandFailure>)
    ensures
        expansion_of(input@, r),
{
    match shellexpand::full(input) {
        Ok(s) => Ok(s.into_owned()),
        Err(e) => {
            let message = e.to_string();
            Err(ExpandFailure { var_name: e.var_name, cause: e.cause.to_string(), message })
        },
    }
}

/// Calls `dirs::config_dir`: the user's configuration directory, which
/// depends on the environment; nothing is stated of it.
#[verifier::external_body]
fn config_dir() -> (r: Option<String>) {
    match dirs::config_dir() {
        Some(d) => Some(d.to_string_lossy().into_owned()),
        None => None,
    }
}

/// Calls `dirs::download_dir`: the user's download directory, which depends
/// on the environment; nothing is stated of it.
#[verifier::external_body]
fn download_dir() -> (r: Option<String>) {
    match dirs::download_dir() {
        Some(d) => Some(d.to_string_lossy().into_owned()),
        None => None,
    }
}

// ---------------------------------------------------------------------------
// Locating the configuration file
// ---------------------------------------------------------------------------

/// The configuration file inside a directory, if there is a directory.
pub open spec fn config_file_in(dir: Option<Seq<char>>) -> Option<Seq<char>> {
    match dir {
        Some(d) => Some(join(d, LL_CONFIG@)),
        None => None,
    }
}

/// The configuration file inside `dir`, when there is a directory.
pub fn config_file_in_dir(dir: Option<String>) -> (r: Option<String>)
    ensures
        opt_view(r) == config_file_in(opt_view(dir)),
{
    match dir {
        Some(d) => {
            let j = crate::path::join_paths(&chars_of(d.as_str()), &chars_of(LL_CONFIG));
            Some(string_of(j.as_slice()))
        },
        None => None,
    }
}

/// The configuration file found for a directory lies in that directory:
/// its path starts with the directory's, ends with `LibraryLoader.toml`,
/// and between the two stands one `/`, or none where the directory is
/// empty or already ends with one. Without a directory there is none.
pub proof fn law_config_file_lies_in_directory(d: Seq<char>)
    ensures
        config_file_in(Some(d)) is Some,
        starts_with(config_file_in(Some(d)).unwrap(), d),
        ends_with(config_file_in(Some(d)).unwrap(), LL_CONFIG@),
        config_file_in(Some(d)).unwrap() == d + "/"@ + LL_CONFIG@ || ((d.len() == 0 || d.last() == '/')
            && config_file_in(Some(d)).unwrap() == d + LL_CONFIG@),
        config_file_in(None) is None,
{
    reveal_strlit("LibraryLoader.toml");
    reveal_strlit("/");
    let n = LL_CONFIG@;
    let p = config_file_in(Some(d)).unwrap();
    assert(!crate::path::is_absolute(n));
    if d.len() > 0 && d.last() != '/' {
        assert(p =~= d + "/"@ + n);
    } else {
        assert(p =~= d + n);
    }
    assert(p.subrange(0, d.len() as int) =~= d);
    assert(p.subrange(p.len() - n.len(), p.len() as int) =~= n);
}

/// An explicitly given path, else the default one.
pub fn path_or_default(path: Option<String>, default: Option<String>) -> (r: Result<
    String,
    LoaderError,
>)
    ensures
        path matches Some(p) ==> (r matches Ok(q) && q == p),
        path is None && default is Some ==> r == Ok::<String, LoaderError>(default.unwrap()),
        path is None && default is None ==> (r matches Err(LoaderError::Other(m)) && m@
            == "Could not find config dir"@),
{
    match path {
        Some(p) => Ok(p),
        None => match default {
            Some(d) => Ok(d),
            None => Err(LoaderError::Other("Could not find config dir")),
        },
    }
}

/// What the configuration lookup found in the working directory: nothing,
/// or the canonical form of the local configuration file (or the error of
/// forming it).
pub enum LocalConfig {
    Absent,
    Present(Result<String, LoaderError>),
}

impl Config {
    /// A configuration with no formats, an empty profile, and the given
    /// directory watched without recursion.
    pub fn with_watch_path(watch_path: String) -> (r: Config)
        ensures
            r.self_path is None,
            r.settings.watch_path == watch_path,
            !r.settings.recursive,
            r.formats@.len() == 0,
            r.profile.username@.len() == 0,
            r.profile.password@.len() == 0,
            r.names_unique(),
    {
        Config {
            self_path: None,
            settings: Settings { watch_path, recursive: false },
            formats: Vec::new(),
            profile: Profile { username: String::new(), password: String::new() },
        }
    }

    /// The configuration used when none is written: no formats, an empty
    /// profile, and the user's download directory watched without
    /// recursion; `None` when the system names no download directory.
    pub fn default_config() -> (r: Option<Config>)
        ensures
            r matches Some(c) ==> c.self_path is None && !c.settings.recursive && c.formats@.len() == 0
                && c.profile.username@.len() == 0 && c.profile.password@.len() == 0
                && c.names_unique(),
    {
        match download_dir() {
            Some(d) => Some(Self::with_watch_path(d)),
            None => None,
        }
    }

    /// The default location of the configuration file: `LibraryLoader.toml`
    /// in the user's configuration directory, when there is one.
    pub fn default_path() -> (r: Option<String>)
        ensures
            r matches Some(p) ==> ends_with(p@, LL_CONFIG@),
    {
        let dir = config_dir();
        let r = config_file_in_dir(dir);
        proof {
            if r is Some {
                let p = r.unwrap();
                let d = opt_view(dir).unwrap();
                reveal_strlit("LibraryLoader.toml");
                let n = LL_CONFIG@;
                if d.len() > 0 && d.last() != '/' {
                    assert(p@.subrange(p@.len() - n.len(), p@.len() as int) =~= n);
                } else {
                    assert(p@.subrange(p@.len() - n.len(), p@.len() as int) =~= n);
                }
            }
        }
        r
    }

    /// The configuration file to use: the given one, else the default
    /// location.
    pub fn path(path: Option<String>) -> (r: Result<String, LoaderError>)
        ensures
            path matches Some(p) ==> (r matches Ok(q) && q == p),
            path is None ==> (r is Ok || (r matches Err(LoaderError::Other(m)) && m@
                == "Could not find config dir"@)),
            path is None && r is Ok ==> ends_with(r->Ok_0@, LL_CONFIG@),
    {
        let default = Self::default_path();
        path_or_default(path, default)
    }

    /// The file a configuration is saved to: the given one, else the file it
    /// was read from, else the default location.
    pub fn save_path(&self, path: Option<String>) -> (r: Result<String, LoaderError>)
        ensures
            path matches Some(p) ==> (r matches Ok(q) && q == p),
            path is None && self.self_path is Some ==> r == Ok::<String, LoaderError>(
                self.self_path.unwrap(),
            ),
            path is None && self.self_path is None ==> (r is Ok || (r matches Err(
                LoaderError::Other(m),
            ) && m@ == "Could not find config dir"@)),
            path is None && self.self_path is None && r is Ok ==> ends_with(r->Ok_0@, LL_CONFIG@),
    {
        let chosen = match path {
            Some(p) => Some(p),
            None => self.self_path.clone(),
        };
        Self::path(chosen)
    }

    /// Which configuration file exists: the one in the working directory
    /// comes first, then the one at the default location; none is `None`.
    pub fn get_path(local: LocalConfig, global: Option<String>, global_exists: bool) -> (r: Result<
        Option<String>,
        LoaderError,
    >)
        ensures
            local matches LocalConfig::Present(Ok(p)) ==> r == Ok::<Option<String>, LoaderError>(
                Some(p),
            ),
            local matches LocalConfig::Present(Err(e)) ==> r == Err::<Option<String>, LoaderError>(
                e,
            ),
            local is Absent && global is Some && global_exists ==> r == Ok::<
                Option<String>,
                LoaderError,
            >(global),
            local is Absent && !(global is Some && global_exists) ==> r == Ok::<
                Option<String>,
                LoaderError,
            >(None),
    {
        match local {
            LocalConfig::Present(found) => match found {
                Ok(p) => Ok(Some(p)),
                Err(e) => Err(e),
            },
            LocalConfig::Absent => {
                if global.is_some() && global_exists {
                    Ok(global)
                } else {
                    Ok(None)
                }
            },
        }
    }
}

// ---------------------------------------------------------------------------
// Resolving the configured formats
// ---------------------------------------------------------------------------

/// Number of `c` that open `s`.
pub open spec fn leading_count(s: Seq<char>, c: char) -> nat
    decreases s.len(),
{
    if s.len() > 0 && s[0] == c {
        1 + leading_count(s.drop_first(), c)
    } else {
        0
    }
}

/// A configured model extension, normalised: without surrounding white
/// space and leading dots, in ASCII lower case.
pub open spec fn normalize_extension(ext: Seq<char>) -> Seq<char> {
    let t = trim(ext);
    lower_seq(t.skip(leading_count(t, '.') as int))
}

/// The normalised extensions that are not empty, in order.
pub open spec fn normalized_extensions(exts: Seq<Seq<char>>) -> Seq<Seq<char>>
    decreases exts.len(),
{
    if exts.len() == 0 {
        Seq::empty()
    } else {
        let p = normalized_extensions(exts.drop_last());
        let e = normalize_extension(exts.last());
        if e.len() == 0 {
            p
        } else {
            p.push(e)
        }
    }
}

/// `leading_count` is where the first character other than `c` stands.
proof fn lemma_leading_count_at(s: Seq<char>, c: char, k: int)
    requires
        0 <= k <= s.len(),
        forall|j: int| 0 <= j < k ==> #[trigger] s[j] == c,
        k == s.len() || s[k] != c,
    ensures
        leading_count(s, c) == k,
    decreases k,
{
    if k > 0 {
        assert forall|j: int| 0 <= j < k - 1 implies #[trigger] s.drop_first()[j] == c by {
            assert(s.drop_first()[j] == s[j + 1]);
        }
        if k < s.len() {
            assert(s.drop_first()[k - 1] == s[k]);
        }
        lemma_leading_count_at(s.drop_first(), c, k - 1);
    }
}

/// A configured model extension is read without the white space around it
/// and the dots before it, in ASCII lower case: white space, dots, then a
/// word that starts with no dot and neither starts nor ends with white
/// space, then white space, is read as the word in lower case.
pub proof fn law_model_extension_read(before: Seq<char>, dots: Seq<char>, word: Seq<char>, after: Seq<char>)
    requires
        forall|i: int| 0 <= i < before.len() ==> is_white_space(#[trigger] before[i]),
        forall|i: int| 0 <= i < dots.len() ==> #[trigger] dots[i] == '.',
        forall|i: int| 0 <= i < after.len() ==> is_white_space(#[trigger] after[i]),
        word.len() > 0,
        word[0] != '.',
        !is_white_space(word[0]),
        !is_white_space(word.last()),
    ensures
        normalize_extension(before + dots + word + after) == lower_seq(word),
{
    let m = dots + word;
    let s = before + m + after;
    assert(before + dots + word + after =~= s);
    assert forall|j: int| 0 <= j < before.len() implies is_white_space(#[trigger] s[j]) by {
        assert(s[j] == before[j]);
    }
    assert(!is_white_space(s[before.len() as int])) by {
        if dots.len() > 0 {
            assert(s[before.len() as int] == dots[0]);
        } else {
            assert(s[before.len() as int] == word[0]);
        }
    }
    lemma_leading_ws_at(s, before.len() as int);
    let t = s.skip(before.len() as int);
    assert(t =~= m + after);
    assert forall|j: int| t.len() - after.len() <= j < t.len() implies is_white_space(#[trigger] t[j]) by {
        assert(t[j] == after[j - m.len()]);
    }
    assert(t[t.len() - after.len() - 1] == word.last());
    lemma_trailing_ws_at(t, after.len() as int);
    assert(trim(s) =~= m);
    assert forall|j: int| 0 <= j < dots.len() implies #[trigger] m[j] == '.' by {
        assert(m[j] == dots[j]);
    }
    assert(m[dots.len() as int] == word[0]);
    lemma_leading_count_at(m, '.', dots.len() as int);
    assert(m.skip(dots.len() as int) =~= word);
}

/// The configured model extensions are kept in order, each normalised,
/// save those that normalise to nothing.
pub proof fn law_model_extensions_in_order(exts: Seq<Seq<char>>)
    ensures
        normalized_extensions(exts) == exts.map_values(|e: Seq<char>| normalize_extension(e)).filter(
            |e: Seq<char>| e.len() > 0,
        ),
    decreases exts.len(),
{
    reveal_with_fuel(Seq::filter, 1);
    if exts.len() > 0 {
        law_model_extensions_in_order(exts.drop_last());
        let mapped = exts.map_values(|e: Seq<char>| normalize_extension(e));
        assert(mapped.drop_last() =~= exts.drop_last().map_values(|e: Seq<char>| normalize_extension(e)));
    } else {
        assert(exts.map_values(|e: Seq<char>| normalize_extension(e)) =~= Seq::<Seq<char>>::empty());
    }
}

/// Normalises one configured model extension.
pub fn normalize_extension_of(ext: &str) -> (r: Vec<char>)
    ensures
        r@ == normalize_extension(ext@),
{
    let t = trim_chars(&chars_of(ext));
    let mut k: usize = 0;
    proof {
        assert(t@.skip(0) =~= t@);
    }
    while k < t.len() && t[k] == '.'
        invariant
            k <= t.len(),
            leading_count(t@, '.') == k + leading_count(t@.skip(k as int), '.'),
        decreases t.len() - k,
    {
        assert(t@.skip(k as int).drop_first() =~= t@.skip(k + 1));
        k += 1;
    }
    proof {
        if k < t.len() {
            assert(t@.skip(k as int)[0] == t@[k as int]);
        }
    }
    lower_chars(&copy_range(&t, k, t.len()))
}

/// Normalises a list of configured model extensions, dropping empty ones.
pub fn normalize_extensions(exts: &Vec<String>) -> (r: Vec<String>)
    ensures
        r.deep_view() == normalized_extensions(exts.deep_view()),
{
    let mut out: Vec<String> = Vec::new();
    let mut i: usize = 0;
    while i < exts.len()
        invariant
            i <= exts.len(),
            out.deep_view() == normalized_extensions(exts.deep_view().take(i as int)),
        decreases exts.len() - i,
    {
        assert(exts.deep_view().take(i + 1).drop_last() =~= exts.deep_view().take(i as int));
        assert(exts.deep_view()[i as int] == exts[i as int]@);
        let e = normalize_extension_of(exts[i].as_str());
        if e.len() > 0 {
            out.push(string_of(e.as_slice()));
            assert(out.deep_view() =~= normalized_extensions(exts.deep_view().take(i as int)).push(
                e@,
            ));
        }
        i += 1;
    }
    assert(exts.deep_view().take(exts.len() as int) =~= exts.deep_view());
    out
}

/// What a configured format sets on top of the defaults of its ECAD
/// program: the expanded output directories, a model URI, the model
/// extensions and whether to create a folder.
#[derive(Debug)]
pub struct ResolvedFormat {
    pub name: String,
    pub ecad: ECAD,
    pub output_path: String,
    /// Replaces the default model directory when set.
    pub model_output_path: Option<String>,
    /// Replaces the default model URI when set.
    pub model_uri: Option<String>,
    /// Replaces the default model extensions when set.
    pub model_extensions: Option<Vec<String>>,
    /// Replaces the default of folder creation when set.
    pub create_folder: Option<bool>,
}

/// The model URI a format sets: its configured URI without surrounding
/// white space, unless that leaves nothing.
pub open spec fn uri_override(uri: Option<Seq<char>>) -> Option<Seq<char>> {
    match uri {
        Some(u) => if trim(u).len() > 0 {
            Some(trim(u))
        } else {
            None
        },
        None => None,
    }
}

/// The model extensions a format sets: the normalised non-empty ones,
/// whenever any are configured.
pub open spec fn extensions_override(exts: Seq<Seq<char>>) -> Option<Seq<Seq<char>>> {
    if exts.len() > 0 {
        Some(normalized_extensions(exts))
    } else {
        None
    }
}

/// `rf` is the resolution of format `f` named `name`, with the expanded
/// output directory `out` and expanded model directory `model_out`.
pub open spec fn resolves_to(
    rf: ResolvedFormat,
    name: Seq<char>,
    f: Format,
    out: Seq<char>,
    model_out: Option<Seq<char>>,
) -> bool {
    &&& rf.name@ == name
    &&& rf.ecad == f.format
    &&& rf.output_path@ == out
    &&& opt_view(rf.model_output_path) == model_out
    &&& opt_view(rf.model_uri) == uri_override(opt_view(f.model_uri))
    &&& match rf.model_extensions {
        Some(v) => extensions_override(f.model_formats.deep_view()) == Some(v.deep_view()),
        None => extensions_override(f.model_formats.deep_view()) is None,
    }
    &&& rf.create_folder == f.create_folder
}

/// Resolves one format once its directories are expanded.
pub fn resolve_format(name: &String, f: &Format, output_path: String, model_output_path: Option<
    String,
>) -> (r: ResolvedFormat)
    ensures
        resolves_to(r, name@, *f, output_path@, opt_view(model_output_path)),
{
    let model_uri = match &f.model_uri {
        Some(u) => {
            let t = trim_chars(&chars_of(u.as_str()));
            if t.len() > 0 {
                Some(string_of(t.as_slice()))
            } else {
                None
            }
        },
        None => None,
    };
    let model_extensions = if f.model_formats.len() > 0 {
        Some(normalize_extensions(&f.model_formats))
    } else {
        None
    };
    let r = ResolvedFormat {
        name: name.clone(),
        ecad: f.format,
        output_path,
        model_output_path,
        model_uri,
        model_extensions,
        create_folder: f.create_folder,
    };
    r
}

/// The expanded form of a directory as resolution may give it: itself when
/// expansion leaves it unchanged.
pub open spec fn may_expand_to(s: Seq<char>, e: Seq<char>) -> bool {
    expands_to_itself(s) ==> e == s
}

/// Model directories as resolution may give them.
pub open spec fn model_dir_may_expand_to(p: Option<String>, e: Option<Seq<char>>) -> bool {
    match (p, e) {
        (Some(p), Some(e)) => may_expand_to(p@, e),
        (None, None) => true,
        _ => false,
    }
}

/// `rf` resolves format `f` named `name` for some expansion of its
/// directories consistent with what is known of expansion.
pub open spec fn format_resolved(rf: ResolvedFormat, name: Seq<char>, f: Format) -> bool {
    exists|out: Seq<char>, model_out: Option<Seq<char>>|
        #![trigger resolves_to(rf, name, f, out, model_out)]
        resolves_to(rf, name, f, out, model_out) && may_expand_to(f.output_path@, out)
            && model_dir_may_expand_to(f.model_output_path, model_out)
}

/// No directory of the format names an environment variable.
pub open spec fn format_expands_without_lookup(f: Format) -> bool {
    &&& !f.output_path@.contains('$')
    &&& match f.model_output_path {
        Some(p) => !p@.contains('$'),
        None => true,
    }
}

/// How one format's directories expanded: the output directory, and the
/// model directory once the output directory expanded, if the format has one.
#[derive(Debug)]
pub struct FormatExpansion {
    pub output: Result<String, ExpandFailure>,
    pub model: Option<Result<String, ExpandFailure>>,
}

/// The text of a successful expansion of a model directory.
pub open spec fn ok_expansion(e: Option<Result<String, ExpandFailure>>) -> Option<Seq<char>> {
    match e {
        Some(Ok(s)) => Some(s@),
        _ => None,
    }
}

/// One of the format's directories failed to expand.
pub open spec fn expansion_fails(e: FormatExpansion) -> bool {
    e.output is Err || e.model matches Some(Err(_))
}

/// The failure of a format's expansion: the output directory's, else the
/// model directory's.
pub open spec fn expansion_failure(e: FormatExpansion) -> Option<ExpandFailure> {
    match e.output {
        Err(f) => Some(f),
        Ok(_) => match e.model {
            Some(Err(f)) => Some(f),
            _ => None,
        },
    }
}

/// After the output directory expanded, the model directory was expanded
/// exactly when the format has one.
pub open spec fn expansion_fits(f: Format, e: FormatExpansion) -> bool {
    e.output is Ok ==> (f.model_output_path is Some <==> e.model is Some)
}

/// Expansions of the formats in order, up to the first that failed or to
/// the last format.
pub open spec fn expansions_cover(formats: Seq<(String, Format)>, outs: Seq<FormatExpansion>) -> bool {
    &&& outs.len() <= formats.len()
    &&& (outs.len() < formats.len() ==> exists|i: int|
        0 <= i < outs.len() && #[trigger] expansion_fails(outs[i]))
    &&& forall|i: int| 0 <= i < outs.len() ==> expansion_fits(formats[i].1, #[trigger] outs[i])
}

/// What is known of a format's expansions whatever the environment: each
/// is an expansion of its directory (`expansion_of`).
pub open spec fn expansion_known(f: Format, e: FormatExpansion) -> bool {
    &&& expansion_of(f.output_path@, e.output)
    &&& match (f.model_output_path, e.model) {
        (Some(p), Some(m)) => expansion_of(p@, m),
        _ => true,
    }
}

/// An outcome of expanding an optional model directory: one exactly when
/// there is a directory, and an expansion of it.
pub open spec fn model_outcome_known(p: Option<String>, x: Option<Result<String, ExpandFailure>>) -> bool {
    match (p, x) {
        (Some(p), Some(o)) => expansion_of(p@, o),
        (None, None) => true,
        _ => false,
    }
}

/// Expansions of the formats as resolution makes them.
pub open spec fn expansions_known(formats: Seq<(String, Format)>, outs: Seq<FormatExpansion>) -> bool {
    &&& expansions_cover(formats, outs)
    &&& forall|i: int| 0 <= i < outs.len() ==> expansion_known(formats[i].1, #[trigger] outs[i])
}

/// The resolution of the formats with these expansions: the first failed
/// expansion, in order, as a `Shellexpand` error; when none failed, every
/// format resolved with its expanded directories.
pub open spec fn resolved_by(
    formats: Seq<(String, Format)>,
    outs: Seq<FormatExpansion>,
    r: Result<Vec<ResolvedFormat>, LoaderError>,
) -> bool {
    if exists|i: int| 0 <= i < outs.len() && #[trigger] expansion_fails(outs[i]) {
        exists|k: int|
            #![trigger outs[k]]
            0 <= k < outs.len() && expansion_fails(outs[k]) && (forall|j: int|
                0 <= j < k ==> !expansion_fails(#[trigger] outs[j])) && (r matches Err(
                LoaderError::Shellexpand(f),
            ) && Some(f) == expansion_failure(outs[k]))
    } else {
        r matches Ok(v) && v@.len() == formats.len() && forall|i: int|
            0 <= i < v@.len() ==> resolves_to(
                #[trigger] v@[i],
                formats[i].0@,
                formats[i].1,
                outs[i].output->Ok_0@,
                ok_expansion(outs[i].model),
            )
    }
}

proof fn lemma_first_failure(
    formats: Seq<(String, Format)>,
    outs: Seq<FormatExpansion>,
    k: int,
    r: Result<Vec<ResolvedFormat>, LoaderError>,
)
    requires
        0 <= k < outs.len(),
        expansion_fails(outs[k]),
        forall|j: int| 0 <= j < k ==> !expansion_fails(#[trigger] outs[j]),
        r matches Err(LoaderError::Shellexpand(f)) && Some(f) == expansion_failure(outs[k]),
    ensures
        resolved_by(formats, outs, r),
{
    assert(exists|i: int| 0 <= i < outs.len() && #[trigger] expansion_fails(outs[i]));
}

/// Resolves the formats, in order, with the given expansions of their
/// directories; the first expansion that failed ends it with its error.
pub fn resolve_formats(formats: &Vec<(String, Format)>, outcomes: Vec<FormatExpansion>) -> (r: Result<
    Vec<ResolvedFormat>,
    LoaderError,
>)
    requires
        expansions_cover(formats@, outcomes@),
    ensures
        resolved_by(formats@, outcomes@, r),
{
    let ghost outs = outcomes@;
    let mut rest = outcomes;
    let n = rest.len();
    let mut out: Vec<ResolvedFormat> = Vec::new();
    let mut i: usize = 0;
    assert(rest@ =~= outs.skip(0));
    while i < n
        invariant
            n == outs.len(),
            outs == outcomes@,
            i <= n,
            n <= formats@.len(),
            expansions_cover(formats@, outs),
            rest@ == outs.skip(i as int),
            out@.len() == i,
            forall|j: int| 0 <= j < i ==> !expansion_fails(#[trigger] outs[j]),
            forall|j: int|
                0 <= j < i ==> resolves_to(
                    #[trigger] out@[j],
                    formats@[j].0@,
                    formats@[j].1,
                    outs[j].output->Ok_0@,
                    ok_expansion(outs[j].model),
                ),
        decreases n - i,
    {
        let e = rest.remove(0);
        assert(e == outs[i as int]);
        assert(rest@ =~= outs.skip(i + 1));
        assert(expansion_fits(formats@[i as int].1, outs[i as int]));
        let name = &formats[i].0;
        let f = &formats[i].1;
        match e.output {
            Err(x) => {
                let r = Err(LoaderError::Shellexpand(x));
                proof {
                    lemma_first_failure(formats@, outs, i as int, r);
                }
                return r;
            },
            Ok(o) => {
                let ghost ov = o@;
                let model = match e.model {
                    Some(Err(x)) => {
                        let r = Err(LoaderError::Shellexpand(x));
                        proof {
                            lemma_first_failure(formats@, outs, i as int, r);
                        }
                        return r;
                    },
                    Some(Ok(m)) => Some(m),
                    None => None,
                };
                assert(!expansion_fails(outs[i as int]));
                assert(opt_view(model) == ok_expansion(outs[i as int].model));
                let rf = resolve_format(name, f, o, model);
                let ghost before = out@;
                out.push(rf);
                assert forall|j: int| 0 <= j < i + 1 implies resolves_to(
                    #[trigger] out@[j],
                    formats@[j].0@,
                    formats@[j].1,
                    outs[j].output->Ok_0@,
                    ok_expansion(outs[j].model),
                ) by {
                    if j < i {
                        assert(out@[j] == before[j]);
                    }
                }
            },
        }
        i += 1;
    }
    assert(!(exists|k: int| 0 <= k < outs.len() && #[trigger] expansion_fails(outs[k])));
    Ok(out)
}

impl Config {
    /// Resolves every configured format, in order, expanding its output
    /// and model directories through the environment; the first expansion
    /// that fails ends it with its error.
    pub fn formats(&self) -> (r: Result<Vec<ResolvedFormat>, LoaderError>)
        ensures
            exists|outs: Seq<FormatExpansion>|
                #![trigger resolved_by(self.formats@, outs, r)]
                expansions_known(self.formats@, outs) && resolved_by(self.formats@, outs, r),
            r matches Ok(v) ==> v@.len() == self.formats@.len() && forall|i: int|
                0 <= i < v@.len() ==> format_resolved(
                    #[trigger] v@[i],
                    self.formats@[i].0@,
                    self.formats@[i].1,
                ),
            r matches Err(e) ==> e is Shellexpand,
            (forall|i: int|
                0 <= i < self.formats@.len() ==> format_expands_without_lookup(
                    #[trigger] self.formats@[i].1,
                )) ==> r is Ok,
    {
        let mut outs: Vec<FormatExpansion> = Vec::new();
        let mut failed = false;
        let mut i: usize = 0;
        while i < self.formats.len() && !failed
            invariant
                i <= self.formats@.len(),
                outs@.len() == i,
                forall|j: int|
                    0 <= j < i ==> expansion_fits(self.formats@[j].1, #[trigger] outs@[j])
                        && expansion_known(self.formats@[j].1, outs@[j]),
                failed == (exists|j: int| 0 <= j < i && #[trigger] expansion_fails(outs@[j])),
            decreases self.formats@.len() - i,
        {
            let f = &self.formats[i].1;
            let output = expand_full(f.output_path.as_str());
            let model = match (&output, &f.model_output_path) {
                (Ok(_), Some(p)) => Some(expand_full(p.as_str())),
                _ => None,
            };
            let fails = match (&output, &model) {
                (Err(_), _) => true,
                (Ok(_), Some(Err(_))) => true,
                _ => false,
            };
            let e = FormatExpansion { output, model };
            assert(fails == expansion_fails(e));
            assert(expansion_fits(self.formats@[i as int].1, e));
            assert(expansion_known(self.formats@[i as int].1, e));
            let ghost before = outs@;
            outs.push(e);
            assert forall|j: int|
                0 <= j < i + 1 implies expansion_fits(self.formats@[j].1, #[trigger] outs@[j])
                && expansion_known(self.formats@[j].1, outs@[j]) by {
                if j < i {
                    assert(outs@[j] == before[j]);
                }
            }
            proof {
                if failed {
                    let j = choose|j: int| 0 <= j < i && #[trigger] expansion_fails(before[j]);
                    assert(outs@[j] == before[j]);
                }
                if fails {
                    assert(expansion_fails(outs@[i as int]));
                }
                if exists|j: int| 0 <= j < i + 1 && #[trigger] expansion_fails(outs@[j]) {
                    let j = choose|j: int| 0 <= j < i + 1 && #[trigger] expansion_fails(outs@[j]);
                    if j < i {
                        assert(outs@[j] == before[j]);
                    }
                }
            }
            failed = failed || fails;
            i += 1;
        }
        let ghost g = outs@;
        assert(expansions_known(self.formats@, g));
        let r = resolve_formats(&self.formats, outs);
        proof {
            let fs = self.formats@;
            if r is Ok {
                let v = r->Ok_0;
                assert(!(exists|k: int| 0 <= k < g.len() && #[trigger] expansion_fails(g[k])));
                assert forall|i: int| 0 <= i < v@.len() implies format_resolved(
                    #[trigger] v@[i],
                    fs[i].0@,
                    fs[i].1,
                ) by {
                    assert(!expansion_fails(g[i]));
                    assert(expansion_fits(fs[i].1, g[i]));
                    assert(expansion_known(fs[i].1, g[i]));
                    let o = g[i].output->Ok_0@;
                    let mo = ok_expansion(g[i].model);
                    assert(resolves_to(v@[i], fs[i].0@, fs[i].1, o, mo));
                    assert(model_dir_may_expand_to(fs[i].1.model_output_path, mo));
                }
            }
            if forall|i: int| 0 <= i < fs.len() ==> format_expands_without_lookup(#[trigger] fs[i].1) {
                assert forall|k: int| 0 <= k < g.len() implies !expansion_fails(#[trigger] g[k]) by {
                    assert(format_expands_without_lookup(fs[k].1));
                    assert(expansion_known(fs[k].1, g[k]));
                    assert(expansion_fits(fs[k].1, g[k]));
                }
            }
        }
        r
    }
}

} // verus!
