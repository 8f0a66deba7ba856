//! Merging the symbol libraries of downloaded parts into one KiCad symbol
//! library.
use vstd::prelude::*;
use crate::archive::{named_entry_data, Archive};
use crate::error::LoaderError;
use crate::format::Format;
use crate::kicad::MAX_EXTRACTED_FILE_BYTES;
use crate::path::join;
use crate::text::{
    append_chars, char_is_whitespace, chars_of, contains_chars, contains_seq, copy_range, eq_str,
    is_white_space, leading_ws, leading_ws_len, lemma_leading_ws_bound, lemma_span,
    lemma_span_facts, lines, lines_of, matches_at, not_char, occurs_at, span, starts_with,
    starts_with_chars, string_of, trim, trim_chars, trim_end, trim_end_chars,
    utf8_string,
};

verus! {

/// The library written when none exists yet.
pub const EMPTY_SYMBOL_LIBRARY: &'static str =
    "(kicad_symbol_lib (version 20211014) (generator library-loader)\n)\n";

// ---------------------------------------------------------------------------
// Words and replacement
// ---------------------------------------------------------------------------

/// Characters other than white space.
pub open spec fn non_ws() -> spec_fn(char) -> bool {
    |c: char| !is_white_space(c)
}

/// `str::split_whitespace`: the maximal runs of characters other than
/// white space, in order.
pub open spec fn words(s: Seq<char>) -> Seq<Seq<char>>
    decreases s.len(),
{
    let lw = leading_ws(s) as int;
    if lw >= s.len() {
        Seq::empty()
    } else {
        let t = s.skip(lw);
        let k = span(t, non_ws()) as int;
        proof {
            lemma_leading_ws_bound(s);
            assert(t[0] == s[lw]);
            lemma_span_facts(t, non_ws());
        }
        if k >= 1 {
            seq![t.take(k)] + words(t.skip(k))
        } else {
            Seq::empty()
        }
    }
}

/// Cuts a text into its words (`str::split_whitespace`).
pub fn words_of(v: &Vec<char>) -> (r: Vec<Vec<char>>)
    ensures
        r.deep_view() == words(v@),
{
    let mut out: Vec<Vec<char>> = Vec::new();
    let mut rest = copy_range(v, 0, v.len());
    assert(rest@ =~= v@);
    while rest.len() > 0
        invariant
            out.deep_view() + words(rest@) == words(v@),
        decreases rest.len(),
    {
        let lw = leading_ws_len(&rest);
        proof {
            lemma_leading_ws_bound(rest@);
        }
        if lw >= rest.len() {
            assert(words(rest@) =~= Seq::<Seq<char>>::empty());
            assert(out.deep_view() + words(rest@) =~= out.deep_view());
            proof {
                let e: Seq<char> = Seq::empty();
                assert(words(e) =~= Seq::<Seq<char>>::empty());
            }
            rest = Vec::new();
            assert(out.deep_view() + words(rest@) =~= out.deep_view());
        } else {
            let t = copy_range(&rest, lw, rest.len());
            assert(t@ =~= rest@.skip(lw as int));
            let mut k: usize = 0;
            while k < t.len() && !char_is_whitespace(t[k])
                invariant
                    k <= t.len(),
                    forall|j: int| 0 <= j < k ==> non_ws()(#[trigger] t@[j]),
                decreases t.len() - k,
            {
                k += 1;
            }
            proof {
                lemma_span(t@, non_ws(), k as int);
            }
            assert(k >= 1);
            let w = copy_range(&t, 0, k);
            let ghost before = out.deep_view();
            let ghost wv = w@;
            assert(w.deep_view() =~= w@);
            out.push(w);
            assert(out.deep_view() =~= before.push(wv));
            let next = copy_range(&t, k, t.len());
            assert(next@ =~= t@.skip(k as int));
            assert(words(rest@) =~= seq![t@.take(k as int)] + words(next@));
            assert(out.deep_view() + words(next@) =~= before + words(rest@));
            rest = next;
        }
    }
    proof {
        let e: Seq<char> = Seq::empty();
        assert(rest@ =~= e);
        assert(words(e) =~= Seq::<Seq<char>>::empty());
        assert(out.deep_view() + words(rest@) =~= out.deep_view());
    }
    out
}

/// `str::replace` with an empty pattern: `to` before every character and
/// at the end.
pub open spec fn replaced_empty(s: Seq<char>, to: Seq<char>) -> Seq<char>
    decreases s.len(),
{
    if s.len() == 0 {
        to
    } else {
        to + seq![s[0]] + replaced_empty(s.drop_first(), to)
    }
}

/// `str::replace`: the matches of `from`, taken from the left without
/// overlap, replaced by `to`.
pub open spec fn replaced(s: Seq<char>, from: Seq<char>, to: Seq<char>) -> Seq<char>
    decreases s.len(),
{
    if from.len() == 0 {
        replaced_empty(s, to)
    } else if s.len() == 0 {
        Seq::empty()
    } else if starts_with(s, from) {
        to + replaced(s.skip(from.len() as int), from, to)
    } else {
        seq![s[0]] + replaced(s.drop_first(), from, to)
    }
}

/// Replaces every match of `from` in `s` by `to` (`str::replace`).
pub fn replace_chars(s: &Vec<char>, from: &Vec<char>, to: &Vec<char>) -> (r: Vec<char>)
    ensures
        r@ == replaced(s@, from@, to@),
{
    let mut out: Vec<char> = Vec::new();
    let mut i: usize = 0;
    proof {
        assert(s@.skip(0) =~= s@);
    }
    if from.len() == 0 {
        while i < s.len()
            invariant
                i <= s.len(),
                from@.len() == 0,
                out@ + replaced_empty(s@.skip(i as int), to@) == replaced(s@, from@, to@),
            decreases s.len() - i,
        {
            let ghost before = out@;
            append_chars(&mut out, to);
            out.push(s[i]);
            assert(s@.skip(i as int).drop_first() =~= s@.skip(i + 1));
            assert(s@.skip(i as int)[0] == s@[i as int]);
            assert(out@ + replaced_empty(s@.skip(i + 1), to@) =~= before + replaced_empty(
                s@.skip(i as int),
                to@,
            ));
            i += 1;
        }
        append_chars(&mut out, to);
        assert(s@.skip(i as int) =~= Seq::<char>::empty());
        return out;
    }
    while i < s.len()
        invariant
            i <= s.len(),
            from@.len() > 0,
            out@ + replaced(s@.skip(i as int), from@, to@) == replaced(s@, from@, to@),
        decreases s.len() - i,
    {
        let ghost before = out@;
        let ghost rest = s@.skip(i as int);
        if matches_at(s, from, i) {
            assert(rest.subrange(0, from@.len() as int) =~= s@.subrange(i as int, i + from@.len()));
            assert(starts_with(rest, from@));
            append_chars(&mut out, to);
            assert(rest.skip(from@.len() as int) =~= s@.skip(i + from@.len()));
            i += from.len();
        } else {
            proof {
                if starts_with(rest, from@) {
                    assert(rest.subrange(0, from@.len() as int) =~= s@.subrange(
                        i as int,
                        i + from@.len(),
                    ));
                }
            }
            out.push(s[i]);
            assert(rest.drop_first() =~= s@.skip(i + 1));
            assert(rest[0] == s@[i as int]);
            i += 1;
        }
        assert(out@ + replaced(s@.skip(i as int), from@, to@) =~= before + replaced(rest, from@, to@));
    }
    assert(s@.skip(i as int) =~= Seq::<char>::empty());
    assert(out@ + replaced(s@.skip(i as int), from@, to@) =~= out@);
    out
}

// ---------------------------------------------------------------------------
// Footprint references in symbol files
// ---------------------------------------------------------------------------

/// An ASCII character (one byte in UTF-8).
pub open spec fn is_ascii_char(c: char) -> bool {
    (c as u32) < 128
}

/// The words open a footprint property: `(property "Footprint" ...`.
pub open spec fn is_footprint_property(w: Seq<Seq<char>>) -> bool {
    w.len() >= 2 && w[0] == "(property"@ && w[1] == "\"Footprint\""@
}

/// The footprint name inside its quotes: the third word without its first
/// and last character.
pub open spec fn footprint_name(w2: Seq<char>) -> Seq<char> {
    w2.subrange(1, w2.len() - 1)
}

/// A footprint property line has a third word of at least two characters
/// whose first and last are ASCII, so that the name between them can be
/// cut out by byte position; other lines need nothing.
pub open spec fn footprint_line_ok(line: Seq<char>) -> bool {
    let w = words(line);
    is_footprint_property(w) ==> (w.len() >= 3 && w[2].len() >= 2 && is_ascii_char(w[2][0])
        && is_ascii_char(w[2].last()))
}

/// A footprint property line with its footprint name prefixed by the
/// library name and `:` wherever the name occurs in the line; other lines
/// as they are.
pub open spec fn fixed_line(lib: Seq<char>, line: Seq<char>) -> Seq<char> {
    let w = words(line);
    if is_footprint_property(w) {
        let f = footprint_name(w[2]);
        replaced(line, f, lib + seq![':'] + f)
    } else {
        line
    }
}

/// Lines joined with `\n` between them.
pub open spec fn join_lines(ls: Seq<Seq<char>>) -> Seq<char>
    decreases ls.len(),
{
    if ls.len() == 0 {
        Seq::empty()
    } else if ls.len() == 1 {
        ls[0]
    } else {
        join_lines(ls.drop_last()) + seq!['\n'] + ls.last()
    }
}

/// The body of a symbol file: its lines but the first and the last, with
/// footprint names prefixed by the library name, joined with `\n`; a file
/// of fewer than two lines has none.
pub open spec fn symbol_body(lib: Seq<char>, text: Seq<char>) -> Option<Seq<char>> {
    let ls = lines(text);
    if ls.len() < 2 {
        None
    } else {
        Some(join_lines(ls.subrange(1, ls.len() - 1).map_values(|l: Seq<char>| fixed_line(lib, l))))
    }
}

/// Reading a symbol file cannot fail on a footprint property: every line
/// but the last is fine.
pub open spec fn symbol_text_ok(text: Seq<char>) -> bool {
    let ls = lines(text);
    ls.len() >= 2 ==> forall|j: int| 0 <= j < ls.len() - 1 ==> footprint_line_ok(#[trigger] ls[j])
}

/// A symbol file is fine when it is not UTF-8 (it is skipped) or its text is.
pub open spec fn symbol_file_ok(bytes: Seq<u8>) -> bool {
    vstd::utf8::valid_utf8(bytes) ==> symbol_text_ok(vstd::utf8::decode_utf8(bytes))
}

/// Prefixes the footprint name of a footprint property line.
pub fn fix_footprint_line(lib: &Vec<char>, line: &Vec<char>) -> (r: Vec<char>)
    requires
        footprint_line_ok(line@),
    ensures
        r@ == fixed_line(lib@, line@),
{
    let w = words_of(line);
    if w.len() >= 2 && eq_str(&w[0], "(property") && eq_str(&w[1], "\"Footprint\"") {
        assert(w.deep_view()[0] == w[0]@ && w.deep_view()[1] == w[1]@);
        assert(w.deep_view()[2] == w[2]@);
        let w2 = &w[2];
        let f = copy_range(w2, 1, w2.len() - 1);
        let mut to = copy_range(lib, 0, lib.len());
        to.push(':');
        append_chars(&mut to, &f);
        assert(to@ =~= lib@ + seq![':'] + f@);
        replace_chars(line, &f, &to)
    } else {
        proof {
            if is_footprint_property(words(line@)) {
                assert(w.deep_view()[0] == w[0]@ && w.deep_view()[1] == w[1]@);
            }
        }
        copy_range(line, 0, line.len())
    }
}

/// Joins lines `from..to` of `ls`, each passed through `fixed_line`, with
/// `\n` between them.
pub fn join_fixed_lines(lib: &Vec<char>, ls: &Vec<Vec<char>>, from: usize, to: usize) -> (r: Vec<
    char,
>)
    requires
        from <= to <= ls.len(),
        forall|j: int| from <= j < to ==> footprint_line_ok(#[trigger] ls.deep_view()[j]),
    ensures
        r@ == join_lines(
            ls.deep_view().subrange(from as int, to as int).map_values(
                |l: Seq<char>| fixed_line(lib@, l),
            ),
        ),
{
    let mut out: Vec<char> = Vec::new();
    let mut i = from;
    while i < to
        invariant
            from <= i <= to <= ls.len(),
            forall|j: int| from <= j < to ==> footprint_line_ok(#[trigger] ls.deep_view()[j]),
            out@ == join_lines(
                ls.deep_view().subrange(from as int, i as int).map_values(
                    |l: Seq<char>| fixed_line(lib@, l),
                ),
            ),
        decreases to - i,
    {
        assert(ls.deep_view()[i as int] == ls[i as int]@);
        let fixed = fix_footprint_line(lib, &ls[i]);
        let ghost prev = ls.deep_view().subrange(from as int, i as int).map_values(
            |l: Seq<char>| fixed_line(lib@, l),
        );
        let ghost next = ls.deep_view().subrange(from as int, i + 1).map_values(
            |l: Seq<char>| fixed_line(lib@, l),
        );
        assert(next.drop_last() =~= prev);
        assert(next.last() == fixed@);
        if i > from {
            out.push('\n');
        }
        append_chars(&mut out, &fixed);
        proof {
            if i == from {
                assert(next.len() == 1);
                assert(out@ =~= join_lines(next));
            } else {
                assert(out@ =~= join_lines(next));
            }
        }
        i += 1;
    }
    out
}

/// The body of a symbol file (see `symbol_body`).
pub fn symbol_body_of(lib: &Vec<char>, text: &Vec<char>) -> (r: Option<Vec<char>>)
    requires
        symbol_text_ok(text@),
    ensures
        opt_seq(r) == symbol_body(lib@, text@),
{
    let ls = lines_of(text);
    if ls.len() < 2 {
        return None;
    }
    Some(join_fixed_lines(lib, &ls, 1, ls.len() - 1))
}

/// The view of an optional text.
pub open spec fn opt_seq(o: Option<Vec<char>>) -> Option<Seq<char>> {
    match o {
        Some(v) => Some(v@),
        None => None,
    }
}

// ---------------------------------------------------------------------------
// Symbols already present
// ---------------------------------------------------------------------------

/// The text that opens a symbol's definition: `(symbol "`.
pub open spec fn symbol_open() -> Seq<char> {
    "(symbol \""@
}

/// The symbol a line defines: after white space, `(symbol "` and the name
/// up to the next quote (or the end of the line).
pub open spec fn symbol_name_of_line(line: Seq<char>) -> Option<Seq<char>> {
    let t = crate::text::trim_start(line);
    if starts_with(t, symbol_open()) {
        let rest = t.skip(symbol_open().len() as int);
        Some(rest.take(span(rest, not_char('"')) as int))
    } else {
        None
    }
}

/// The symbol defined by the first line that defines one.
pub open spec fn first_symbol_name(ls: Seq<Seq<char>>) -> Option<Seq<char>>
    decreases ls.len(),
{
    if ls.len() == 0 {
        None
    } else {
        match symbol_name_of_line(ls[0]) {
            Some(n) => Some(n),
            None => first_symbol_name(ls.drop_first()),
        }
    }
}

/// The first symbol that `body` defines is already defined in `existing`:
/// `existing` holds `(symbol "<name>"`.
pub open spec fn symbol_already_in(existing: Seq<char>, body: Seq<char>) -> bool {
    match first_symbol_name(lines(body)) {
        Some(n) => contains_seq(existing, symbol_open() + n + seq!['"']),
        None => false,
    }
}

/// The symbol a line defines, if it defines one.
pub fn symbol_name_in_line(line: &Vec<char>) -> (r: Option<Vec<char>>)
    ensures
        opt_seq(r) == symbol_name_of_line(line@),
{
    let open = chars_of("(symbol \"");
    let lw = leading_ws_len(line);
    let t = copy_range(line, lw, line.len());
    assert(t@ =~= crate::text::trim_start(line@));
    if !starts_with_chars(&t, &open) {
        return None;
    }
    let rest = copy_range(&t, open.len(), t.len());
    let mut k: usize = 0;
    while k < rest.len() && rest[k] != '"'
        invariant
            k <= rest.len(),
            forall|j: int| 0 <= j < k ==> not_char('"')(#[trigger] rest@[j]),
        decreases rest.len() - k,
    {
        k += 1;
    }
    proof {
        lemma_span(rest@, not_char('"'), k as int);
        assert(rest@ =~= t@.skip(open@.len() as int));
    }
    let name = copy_range(&rest, 0, k);
    assert(name@ =~= rest@.take(k as int));
    Some(name)
}

/// Whether the first symbol that `body` defines is already defined in
/// `existing`.
pub fn symbol_already_present(existing: &str, body: &str) -> (r: bool)
    ensures
        r == symbol_already_in(existing@, body@),
{
    let ls = lines_of(&chars_of(body));
    let mut i: usize = 0;
    proof {
        assert(ls.deep_view().skip(0) =~= ls.deep_view());
    }
    while i < ls.len()
        invariant
            i <= ls.len(),
            first_symbol_name(ls.deep_view().skip(i as int)) == first_symbol_name(lines(body@)),
            ls.deep_view() == lines(body@),
        decreases ls.len() - i,
    {
        assert(ls.deep_view().skip(i as int)[0] == ls[i as int]@);
        assert(ls.deep_view().skip(i as int).drop_first() =~= ls.deep_view().skip(i + 1));
        match symbol_name_in_line(&ls[i]) {
            Some(name) => {
                let mut pattern = chars_of("(symbol \"");
                append_chars(&mut pattern, &name);
                pattern.push('"');
                assert(pattern@ =~= symbol_open() + name@ + seq!['"']);
                assert(first_symbol_name(ls.deep_view().skip(i as int)) == Some(name@));
                return contains_chars(&chars_of(existing), &pattern);
            },
            None => {},
        }
        i += 1;
    }
    assert(ls.deep_view().skip(i as int) =~= Seq::<Seq<char>>::empty());
    false
}

// ---------------------------------------------------------------------------
// Merging
// ---------------------------------------------------------------------------

/// What a symbol file adds to the library: its body, when it is UTF-8,
/// has one, holds more than white space and defines no symbol already
/// there.
pub open spec fn symbol_addition(lib: Seq<char>, existing: Seq<char>, bytes: Seq<u8>) -> Option<
    Seq<char>,
> {
    if !vstd::utf8::valid_utf8(bytes) {
        None
    } else {
        match symbol_body(lib, vstd::utf8::decode_utf8(bytes)) {
            None => None,
            Some(b) => if trim(b).len() == 0 || symbol_already_in(existing, b) {
                None
            } else {
                Some(b)
            },
        }
    }
}

/// What the symbol files add, in order.
pub open spec fn symbol_additions(lib: Seq<char>, existing: Seq<char>, files: Seq<Seq<u8>>) -> Seq<
    Seq<char>,
>
    decreases files.len(),
{
    if files.len() == 0 {
        Seq::empty()
    } else {
        let a = symbol_additions(lib, existing, files.drop_last());
        match symbol_addition(lib, existing, files.last()) {
            Some(b) => a.push(b),
            None => a,
        }
    }
}

/// The existing library up to its closing parenthesis: without trailing
/// white space, then without one `)` and the white space before it.
pub open spec fn library_head(existing: Seq<char>) -> Seq<char> {
    let t = trim_end(existing);
    if t.len() > 0 && t.last() == ')' {
        trim_end(t.drop_last())
    } else {
        t
    }
}

/// The library with the additions appended before a new closing `)`.
pub open spec fn merged_library(existing: Seq<char>, adds: Seq<Seq<char>>) -> Seq<char> {
    library_head(existing) + seq!['\n'] + join_lines(adds) + seq!['\n', ')', '\n']
}

/// The library after merging: `None` when nothing is added.
pub open spec fn merge_result(lib: Seq<char>, existing: Seq<char>, files: Seq<Seq<u8>>) -> Option<
    Seq<char>,
> {
    let adds = symbol_additions(lib, existing, files);
    if adds.len() == 0 {
        None
    } else {
        Some(merged_library(existing, adds))
    }
}

/// Copies a byte string.
pub fn copy_bytes(v: &Vec<u8>) -> (r: Vec<u8>)
    ensures
        r@ == v@,
{
    let mut out: Vec<u8> = Vec::new();
    let mut i: usize = 0;
    while i < v.len()
        invariant
            i <= v.len(),
            out@ == v@.take(i as int),
        decreases v.len() - i,
    {
        out.push(v[i]);
        i += 1;
        assert(out@ =~= v@.take(i as int));
    }
    assert(v@.take(v.len() as int) =~= v@);
    out
}

/// Whether a symbol file can be merged without failing on a footprint
/// property (see `symbol_file_ok`).
pub fn symbol_file_is_ok(bytes: &Vec<u8>) -> (r: bool)
    ensures
        r == symbol_file_ok(bytes@),
{
    let text = match utf8_string(copy_bytes(bytes)) {
        Ok(t) => t,
        Err(_) => {
            return true;
        },
    };
    let ls = lines_of(&chars_of(text.as_str()));
    if ls.len() < 2 {
        return true;
    }
    let mut j: usize = 0;
    while j < ls.len() - 1
        invariant
            ls.len() >= 2,
            j <= ls.len() - 1,
            vstd::utf8::valid_utf8(bytes@),
            ls.deep_view() == lines(vstd::utf8::decode_utf8(bytes@)),
            forall|k: int| 0 <= k < j ==> footprint_line_ok(#[trigger] ls.deep_view()[k]),
        decreases ls.len() - 1 - j,
    {
        assert(ls.deep_view()[j as int] == ls[j as int]@);
        let w = words_of(&ls[j]);
        if w.len() >= 2 && eq_str(&w[0], "(property") && eq_str(&w[1], "\"Footprint\"") {
            assert(w.deep_view()[0] == w[0]@ && w.deep_view()[1] == w[1]@);
            if w.len() < 3 {
                assert(!footprint_line_ok(ls.deep_view()[j as int]));
                return false;
            }
            assert(w.deep_view()[2] == w[2]@);
            let w2 = &w[2];
            if w2.len() < 2 || (w2[0] as u32) >= 128 || (w2[w2.len() - 1] as u32) >= 128 {
                assert(!footprint_line_ok(ls.deep_view()[j as int]));
                return false;
            }
        } else {
            proof {
                if is_footprint_property(words(ls.deep_view()[j as int])) {
                    assert(w.deep_view()[0] == w[0]@ && w.deep_view()[1] == w[1]@);
                }
            }
        }
        j += 1;
    }
    true
}

/// Whether every symbol file can be merged (see `symbol_file_ok`).
pub fn symbol_files_are_ok(files: &Vec<Vec<u8>>) -> (r: bool)
    ensures
        r == forall|i: int| 0 <= i < files.len() ==> symbol_file_ok(#[trigger] files@[i]@),
{
    let mut i: usize = 0;
    while i < files.len()
        invariant
            i <= files.len(),
            forall|k: int| 0 <= k < i ==> symbol_file_ok(#[trigger] files@[k]@),
        decreases files.len() - i,
    {
        if !symbol_file_is_ok(&files[i]) {
            return false;
        }
        i += 1;
    }
    true
}

/// Merges the symbol files into the library `existing` of library `lib`:
/// the library with their new symbol bodies appended, or `None` when they
/// add nothing.
pub fn merge_symbol_libraries(lib: &str, existing: &str, symbol_files: &Vec<Vec<u8>>) -> (r: Option<
    String,
>)
    requires
        forall|i: int| 0 <= i < symbol_files.len() ==> symbol_file_ok(#[trigger] symbol_files@[i]@),
    ensures
        match r {
            Some(s) => merge_result(lib@, existing@, symbol_files.deep_view()) == Some(s@),
            None => merge_result(lib@, existing@, symbol_files.deep_view()) is None,
        },
{
    let lib_chars = chars_of(lib);
    let mut additions: Vec<Vec<char>> = Vec::new();
    let mut i: usize = 0;
    while i < symbol_files.len()
        invariant
            i <= symbol_files.len(),
            forall|k: int| 0 <= k < symbol_files.len() ==> symbol_file_ok(#[trigger] symbol_files@[k]@),
            lib_chars@ == lib@,
            additions.deep_view() == symbol_additions(
                lib@,
                existing@,
                symbol_files.deep_view().take(i as int),
            ),
        decreases symbol_files.len() - i,
    {
        assert(symbol_files.deep_view().take(i + 1).drop_last() =~= symbol_files.deep_view().take(
            i as int,
        ));
        assert(symbol_files.deep_view().take(i + 1).last() == symbol_files@[i as int]@);
        assert(symbol_file_ok(symbol_files@[i as int]@));
        match utf8_string(copy_bytes(&symbol_files[i])) {
            Err(_) => {},
            Ok(text) => {
                let text_chars = chars_of(text.as_str());
                match symbol_body_of(&lib_chars, &text_chars) {
                    None => {},
                    Some(body) => {
                        let body_s = string_of(body.as_slice());
                        if trim_chars(&body).len() > 0 && !symbol_already_present(
                            existing,
                            body_s.as_str(),
                        ) {
                            let ghost before = additions.deep_view();
                            let ghost bv = body@;
                            assert(body.deep_view() =~= body@);
                            additions.push(body);
                            assert(additions.deep_view() =~= before.push(bv));
                        }
                    },
                }
            },
        }
        i += 1;
    }
    assert(symbol_files.deep_view().take(symbol_files.len() as int) =~= symbol_files.deep_view());
    if additions.len() == 0 {
        return None;
    }
    let t = trim_end_chars(&chars_of(existing));
    let mut merged = if t.len() > 0 && t[t.len() - 1] == ')' {
        let dropped = copy_range(&t, 0, t.len() - 1);
        assert(dropped@ =~= t@.drop_last());
        trim_end_chars(&dropped)
    } else {
        t
    };
    merged.push('\n');
    let ghost head = merged@;
    let mut j: usize = 0;
    while j < additions.len()
        invariant
            j <= additions.len(),
            merged@ == head + join_lines(additions.deep_view().take(j as int)),
        decreases additions.len() - j,
    {
        let ghost prev = additions.deep_view().take(j as int);
        let ghost next = additions.deep_view().take(j + 1);
        assert(next.drop_last() =~= prev);
        assert(next.last() == additions[j as int]@);
        if j > 0 {
            merged.push('\n');
        }
        append_chars(&mut merged, &additions[j]);
        proof {
            if j == 0 {
                assert(join_lines(next) == next[0]);
                assert(merged@ =~= head + join_lines(next));
            } else {
                assert(merged@ =~= head + join_lines(next));
            }
        }
        j += 1;
    }
    assert(additions.deep_view().take(additions.len() as int) =~= additions.deep_view());
    merged.push('\n');
    merged.push(')');
    merged.push('\n');
    assert(merged@ =~= merged_library(existing@, additions.deep_view()));
    Some(string_of(merged.as_slice()))
}

/// Where a format's merged symbol library is kept: `<name>.kicad_sym` in
/// its output directory.
pub fn symbol_library_path(format: &Format) -> (r: String)
    ensures
        r@ == join(format.output_path@, format.name@ + ".kicad_sym"@),
{
    let mut file = chars_of(format.name.as_str());
    append_chars(&mut file, &chars_of(".kicad_sym"));
    string_of(crate::path::join_paths(&chars_of(format.output_path.as_str()), &file).as_slice())
}

/// Every name is the name of an entry.
pub open spec fn names_in_archive(entries: Seq<(Seq<char>, Seq<u8>)>, names: Seq<Seq<char>>) -> bool {
    forall|i: int|
        0 <= i < names.len() ==> exists|k: int| 0 <= k < entries.len() && (#[trigger] entries[k]).0 == #[trigger] names[i]
}

/// `data` is the whole contents of an entry named `name`.
pub open spec fn read_from_entry(entries: Seq<(Seq<char>, Seq<u8>)>, name: Seq<char>, data: Seq<u8>) -> bool {
    exists|k: int| 0 <= k < entries.len() && (#[trigger] entries[k]).0 == name && entries[k].1 == data
}

/// Reads the named symbol files from the archive, in order, refusing one
/// larger than `MAX_EXTRACTED_FILE_BYTES`.
pub fn read_symbol_files(archive: &mut Archive, names: &Vec<String>) -> (r: Result<
    Vec<Vec<u8>>,
    LoaderError,
>)
    ensures
        crate::archive::archive_entries(*final(archive)) == crate::archive::archive_entries(
            *old(archive),
        ),
        r matches Ok(v) ==> v@.len() == names@.len() && forall|i: int|
            0 <= i < v@.len() ==> read_from_entry(
                crate::archive::archive_entries(*old(archive)),
                names@[i]@,
                (#[trigger] v@[i])@,
            ) && v@[i]@.len() <= MAX_EXTRACTED_FILE_BYTES,
        r matches Err(LoaderError::ZipEntryTooLarge(name, n)) ==> n == MAX_EXTRACTED_FILE_BYTES + 1
            && exists|i: int| 0 <= i < names@.len() && (#[trigger] names@[i])@ == name@,
        r matches Err(e) ==> e is Zip || e is Io || e is ZipEntryTooLarge,
        crate::archive::readable_as(*final(archive), *old(archive)),
        crate::archive::all_readable(*old(archive)) && names_in_archive(
            crate::archive::archive_entries(*old(archive)),
            names.deep_view(),
        ) ==> r is Ok || (r matches Err(LoaderError::ZipEntryTooLarge(_, _))),
        crate::archive::all_readable(*old(archive)) && names_in_archive(
            crate::archive::archive_entries(*old(archive)),
            names.deep_view(),
        ) && (forall|k: int|
            0 <= k < crate::archive::archive_entries(*old(archive)).len() ==> (
            #[trigger] crate::archive::archive_entries(*old(archive))[k]).1.len()
                <= MAX_EXTRACTED_FILE_BYTES) ==> r is Ok,
{
    let ghost entries = crate::archive::archive_entries(*archive);
    let mut out: Vec<Vec<u8>> = Vec::new();
    let mut i: usize = 0;
    while i < names.len()
        invariant
            i <= names@.len(),
            crate::archive::archive_entries(*archive) == entries,
            entries == crate::archive::archive_entries(*old(archive)),
            crate::archive::readable_as(*archive, *old(archive)),
            out@.len() == i,
            forall|j: int|
                0 <= j < i ==> read_from_entry(entries, names@[j]@, (#[trigger] out@[j])@)
                    && out@[j]@.len() <= MAX_EXTRACTED_FILE_BYTES,
        decreases names@.len() - i,
    {
        proof {
            if crate::archive::all_readable(*old(archive)) {
                assert forall|k: int| 0 <= k < entries.len() implies #[trigger] crate::archive::entry_readable(
                    *archive,
                    k,
                ) by {
                    assert(crate::archive::entry_readable(*old(archive), k));
                }
            }
            if names_in_archive(entries, names.deep_view()) {
                assert(names.deep_view()[i as int] == names@[i as int]@);
            }
        }
        let data = match named_entry_data(archive, names[i].as_str(), MAX_EXTRACTED_FILE_BYTES + 1) {
            Ok(d) => d,
            Err(e) => {
                return Err(e);
            },
        };
        let len = data.len();
        if len as u64 > MAX_EXTRACTED_FILE_BYTES {
            let name = crate::text::owned(names[i].as_str());
            assert(names@[i as int]@ == name@);
            return Err(LoaderError::ZipEntryTooLarge(name, len as u64));
        }
        let ghost before = out@;
        proof {
            let k = choose|k: int|
                0 <= k < entries.len() && (#[trigger] entries[k]).0 == names@[i as int]@
                    && crate::archive::read_bytes(Ok::<Vec<u8>, LoaderError>(data))
                    == crate::archive::prefix_upto(entries[k].1, (MAX_EXTRACTED_FILE_BYTES + 1) as u64);
            assert(data@ == entries[k].1);
            assert(read_from_entry(entries, names@[i as int]@, data@));
        }
        out.push(data);
        assert forall|j: int| 0 <= j < i + 1 implies read_from_entry(
            entries,
            names@[j]@,
            (#[trigger] out@[j])@,
        ) && out@[j]@.len() <= MAX_EXTRACTED_FILE_BYTES by {
            if j < i {
                assert(out@[j] == before[j]);
            }
        }
        i += 1;
    }
    Ok(out)
}

// ---------------------------------------------------------------------------
// Merging twice
// ---------------------------------------------------------------------------

/// The first line that defines a symbol closes the symbol's name with a
/// quote.
pub open spec fn first_symbol_closed(ls: Seq<Seq<char>>) -> bool
    decreases ls.len(),
{
    if ls.len() == 0 {
        true
    } else if symbol_name_of_line(ls[0]) is Some {
        let t = crate::text::trim_start(ls[0]);
        let rest = t.skip(symbol_open().len() as int);
        span(rest, not_char('"')) < rest.len()
    } else {
        first_symbol_closed(ls.drop_first())
    }
}

/// Every symbol body of the files defines a symbol, on a line that closes
/// the symbol's name with a quote.
pub open spec fn bodies_name_their_symbols(lib: Seq<char>, files: Seq<Seq<u8>>) -> bool {
    forall|i: int|
        #![trigger files[i]]
        0 <= i < files.len() && vstd::utf8::valid_utf8(files[i]) ==> match symbol_body(
            lib,
            vstd::utf8::decode_utf8(files[i]),
        ) {
            Some(b) => first_symbol_name(lines(b)) is Some && first_symbol_closed(lines(b)),
            None => true,
        }
}

proof fn lemma_contains_trans(a: Seq<char>, b: Seq<char>, c: Seq<char>)
    requires
        contains_seq(a, b),
        contains_seq(b, c),
    ensures
        contains_seq(a, c),
{
    let i = choose|i: int| occurs_at(a, b, i);
    let j = choose|j: int| occurs_at(b, c, j);
    assert(a.subrange(i + j, i + j + c.len()) =~= b.subrange(j, j + c.len()));
    assert(occurs_at(a, c, i + j));
}

proof fn lemma_contains_part(a: Seq<char>, o: int, len: int)
    requires
        0 <= o,
        0 <= len,
        o + len <= a.len(),
    ensures
        contains_seq(a, a.subrange(o, o + len)),
{
    assert(occurs_at(a, a.subrange(o, o + len), o));
}

/// Each line of a text is a part of it.
proof fn lemma_line_in_text(s: Seq<char>, j: int)
    requires
        0 <= j < lines(s).len(),
    ensures
        contains_seq(s, lines(s)[j]),
    decreases s.len(),
{
    let k = span(s, not_char('\n')) as int;
    lemma_span_facts(s, not_char('\n'));
    if k >= s.len() {
        assert(s.subrange(0, s.len() as int) =~= s);
        lemma_contains_part(s, 0, s.len() as int);
    } else if j == 0 {
        let l = s.take(k);
        if l.len() > 0 && l.last() == '\r' {
            assert(l.drop_last() =~= s.subrange(0, k - 1));
            lemma_contains_part(s, 0, k - 1);
        } else {
            assert(l =~= s.subrange(0, k));
            lemma_contains_part(s, 0, k);
        }
    } else {
        let rest = s.skip(k + 1);
        assert(lines(s)[j] == lines(rest)[j - 1]);
        lemma_line_in_text(rest, j - 1);
        assert(rest =~= s.subrange(k + 1, s.len() as int));
        lemma_contains_part(s, k + 1, s.len() - k - 1);
        lemma_contains_trans(s, rest, lines(s)[j]);
    }
}

/// A line whose symbol name is closed holds `(symbol "<name>"`.
proof fn lemma_first_symbol_occurs(ls: Seq<Seq<char>>) -> (j: int)
    requires
        first_symbol_name(ls) is Some,
        first_symbol_closed(ls),
    ensures
        0 <= j < ls.len(),
        contains_seq(ls[j], symbol_open() + first_symbol_name(ls)->0 + seq!['"']),
    decreases ls.len(),
{
    if symbol_name_of_line(ls[0]) is Some {
        let l = ls[0];
        let lw = leading_ws(l) as int;
        lemma_leading_ws_bound(l);
        let t = l.skip(lw);
        let p = symbol_open();
        let rest = t.skip(p.len() as int);
        let e = span(rest, not_char('"')) as int;
        lemma_span_facts(rest, not_char('"'));
        let n = rest.take(e);
        let pat = p + n + seq!['"'];
        assert(t.subrange(0, p.len() as int) == p);
        assert(l.subrange(lw, lw + p.len() + e + 1) =~= pat);
        assert(occurs_at(l, pat, lw));
        0
    } else {
        let j = lemma_first_symbol_occurs(ls.drop_first());
        assert(ls.drop_first()[j] == ls[j + 1]);
        j + 1
    }
}

/// Each addition is part of the joined additions.
proof fn lemma_join_holds(ls: Seq<Seq<char>>, k: int)
    requires
        0 <= k < ls.len(),
    ensures
        contains_seq(join_lines(ls), ls[k]),
    decreases ls.len(),
{
    if ls.len() == 1 {
        assert(join_lines(ls) == ls[0]);
        assert(ls[0].subrange(0, ls[0].len() as int) =~= ls[0]);
        assert(occurs_at(ls[0], ls[0], 0));
    } else {
        let j = join_lines(ls);
        let front = join_lines(ls.drop_last());
        if k == ls.len() - 1 {
            assert(j.subrange(front.len() as int + 1, j.len() as int) =~= ls.last());
            lemma_contains_part(j, front.len() as int + 1, ls.last().len() as int);
        } else {
            lemma_join_holds(ls.drop_last(), k);
            assert(ls.drop_last()[k] == ls[k]);
            assert(j.subrange(0, front.len() as int) =~= front);
            lemma_contains_part(j, 0, front.len() as int);
            lemma_contains_trans(j, front, ls[k]);
        }
    }
}

/// What follows the head of a library is white space and `)` only.
proof fn lemma_library_head(existing: Seq<char>)
    ensures
        library_head(existing).len() <= existing.len(),
        library_head(existing) == existing.take(library_head(existing).len() as int),
        forall|i: int|
            library_head(existing).len() <= i < existing.len() ==> is_white_space(
                #[trigger] existing[i],
            ) || existing[i] == ')',
{
    let t = trim_end(existing);
    crate::text::lemma_trailing_ws_bound(existing);
    assert(t =~= existing.take(t.len() as int));
    if t.len() > 0 && t.last() == ')' {
        let d = t.drop_last();
        crate::text::lemma_trailing_ws_bound(d);
        let h = trim_end(d);
        assert(h =~= existing.take(h.len() as int));
        assert forall|i: int| h.len() <= i < existing.len() implies is_white_space(
            #[trigger] existing[i],
        ) || existing[i] == ')' by {
            if i < d.len() {
                assert(existing[i] == d[i]);
            }
        }
    }
}

/// A symbol defined in a library is still defined after merging into it.
proof fn lemma_defined_symbol_kept(existing: Seq<char>, adds: Seq<Seq<char>>, n: Seq<char>)
    requires
        contains_seq(existing, symbol_open() + n + seq!['"']),
    ensures
        contains_seq(merged_library(existing, adds), symbol_open() + n + seq!['"']),
{
    let pat = symbol_open() + n + seq!['"'];
    let i = choose|i: int| occurs_at(existing, pat, i);
    lemma_library_head(existing);
    let h = library_head(existing);
    assert(existing[i + pat.len() - 1] == existing.subrange(i, i + pat.len())[pat.len() - 1]);
    assert(pat[pat.len() - 1] == '"');
    assert(!is_white_space('"'));
    assert(i + pat.len() <= h.len());
    let m = merged_library(existing, adds);
    assert(m.subrange(i, i + pat.len()) =~= existing.subrange(i, i + pat.len()));
    assert(occurs_at(m, pat, i));
}

/// A merged body is part of the merged library.
proof fn lemma_added_body_kept(existing: Seq<char>, adds: Seq<Seq<char>>, k: int)
    requires
        0 <= k < adds.len(),
    ensures
        contains_seq(merged_library(existing, adds), adds[k]),
{
    let m = merged_library(existing, adds);
    let h = library_head(existing);
    let j = join_lines(adds);
    lemma_join_holds(adds, k);
    assert(m.subrange(h.len() as int + 1, h.len() as int + 1 + j.len()) =~= j);
    lemma_contains_part(m, h.len() as int + 1, j.len() as int);
    lemma_contains_trans(m, j, adds[k]);
}

/// Every file's addition is among the additions.
proof fn lemma_addition_listed(lib: Seq<char>, existing: Seq<char>, files: Seq<Seq<u8>>, i: int)
    requires
        0 <= i < files.len(),
        symbol_addition(lib, existing, files[i]) is Some,
    ensures
        symbol_additions(lib, existing, files).contains(symbol_addition(lib, existing, files[i])->0),
    decreases files.len(),
{
    let a = symbol_additions(lib, existing, files.drop_last());
    let b = symbol_addition(lib, existing, files[i])->0;
    if i == files.len() - 1 {
        assert(a.push(b)[a.len() as int] == b);
    } else {
        assert(files.drop_last()[i] == files[i]);
        lemma_addition_listed(lib, existing, files.drop_last(), i);
        let k = choose|k: int| 0 <= k < a.len() && a[k] == b;
        match symbol_addition(lib, existing, files.last()) {
            Some(c) => {
                assert(a.push(c)[k] == b);
            },
            None => {},
        }
    }
}

/// Files that add nothing give no additions.
proof fn lemma_no_additions(lib: Seq<char>, existing: Seq<char>, files: Seq<Seq<u8>>)
    requires
        forall|i: int| 0 <= i < files.len() ==> symbol_addition(lib, existing, #[trigger] files[i]) is None,
    ensures
        symbol_additions(lib, existing, files).len() == 0,
    decreases files.len(),
{
    if files.len() > 0 {
        assert forall|i: int| 0 <= i < files.drop_last().len() implies symbol_addition(
            lib,
            existing,
            #[trigger] files.drop_last()[i],
        ) is None by {
            assert(files.drop_last()[i] == files[i]);
        }
        lemma_no_additions(lib, existing, files.drop_last());
        assert(symbol_addition(lib, existing, files[files.len() - 1]) is None);
    }
}

/// A merge keeps what the library defined and takes in what the files add:
/// every body a file adds stands in the merged library, every symbol the
/// library defined is still defined there, and nothing is written only when
/// no file adds anything.
pub proof fn law_merge_keeps_and_adds(
    lib: Seq<char>,
    existing: Seq<char>,
    files: Seq<Seq<u8>>,
    i: int,
    n: Seq<char>,
)
    requires
        0 <= i < files.len(),
    ensures
        symbol_addition(lib, existing, files[i]) is Some ==> (merge_result(lib, existing, files) matches Some(m)
            && contains_seq(m, symbol_addition(lib, existing, files[i])->0)),
        (merge_result(lib, existing, files) is Some && contains_seq(existing, symbol_open() + n + seq!['"']))
            ==> contains_seq(merge_result(lib, existing, files)->0, symbol_open() + n + seq!['"']),
        merge_result(lib, existing, files) is None <==> forall|j: int|
            0 <= j < files.len() ==> symbol_addition(lib, existing, #[trigger] files[j]) is None,
{
    let adds = symbol_additions(lib, existing, files);
    if symbol_addition(lib, existing, files[i]) is Some {
        lemma_addition_listed(lib, existing, files, i);
        let k = choose|k: int| 0 <= k < adds.len() && adds[k] == symbol_addition(lib, existing, files[i])->0;
        lemma_added_body_kept(existing, adds, k);
    }
    if contains_seq(existing, symbol_open() + n + seq!['"']) {
        lemma_defined_symbol_kept(existing, adds, n);
    }
    if forall|j: int| 0 <= j < files.len() ==> symbol_addition(lib, existing, #[trigger] files[j]) is None {
        lemma_no_additions(lib, existing, files);
    } else {
        let j = choose|j: int| 0 <= j < files.len() && symbol_addition(lib, existing, #[trigger] files[j]) is Some;
        lemma_addition_listed(lib, existing, files, j);
    }
}

/// Merging the same symbol files into a library a second time adds
/// nothing: each symbol they define is then present, either because it was
/// there before or because the first merge appended it.
pub proof fn law_merge_twice_adds_nothing(lib: Seq<char>, existing: Seq<char>, files: Seq<Seq<u8>>)
    requires
        bodies_name_their_symbols(lib, files),
    ensures
        merge_result(lib, existing, files) matches Some(m) ==> merge_result(lib, m, files) is None,
{
    let adds = symbol_additions(lib, existing, files);
    if adds.len() > 0 {
        let m = merged_library(existing, adds);
        assert forall|i: int| 0 <= i < files.len() implies symbol_addition(
            lib,
            m,
            #[trigger] files[i],
        ) is None by {
            if vstd::utf8::valid_utf8(files[i]) {
                match symbol_body(lib, vstd::utf8::decode_utf8(files[i])) {
                    None => {},
                    Some(b) => {
                        if trim(b).len() > 0 {
                            let n = first_symbol_name(lines(b))->0;
                            if symbol_already_in(existing, b) {
                                lemma_defined_symbol_kept(existing, adds, n);
                            } else {
                                lemma_addition_listed(lib, existing, files, i);
                                let k = choose|k: int| 0 <= k < adds.len() && adds[k] == b;
                                lemma_added_body_kept(existing, adds, k);
                                let j = lemma_first_symbol_occurs(lines(b));
                                lemma_line_in_text(b, j);
                                lemma_contains_trans(b, lines(b)[j], symbol_open() + n + seq!['"']);
                                lemma_contains_trans(m, b, symbol_open() + n + seq!['"']);
                            }
                        }
                    },
                }
            }
        }
        lemma_no_additions(lib, m, files);
    }
}

} // verus!
