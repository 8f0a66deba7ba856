//! Asset classes a part must have locally, and how a request for them is read.
use vstd::prelude::*;
use crate::text::{
    ascii_lower, chars_of, eq_str, is_white_space, lemma_leading_ws_at, lemma_trailing_ws_at,
    lower_chars, lower_seq, owned, string_of, trim, trim_chars,
};

verus! {

/// A class of CAD asset.
#[derive(Clone, Copy, Debug, PartialEq, Eq, Structural)]
pub enum Requirement {
    Symbol,
    Footprint,
    Model3d,
    Legacy,
    Zip,
}

/// The requirement that a lower-case word names.
pub open spec fn requirement_named(w: Seq<char>) -> Option<Requirement> {
    if w == "symbol"@ || w == "symbols"@ || w == "schematic"@ {
        Some(Requirement::Symbol)
    } else if w == "footprint"@ || w == "footprints"@ || w == "pcb"@ {
        Some(Requirement::Footprint)
    } else if w == "3d"@ || w == "model"@ || w == "models"@ || w == "3d_model"@ || w
        == "3d_models"@ {
        Some(Requirement::Model3d)
    } else if w == "legacy"@ || w == "legacy_symbol"@ || w == "legacy_symbols"@ {
        Some(Requirement::Legacy)
    } else if w == "zip"@ || w == "archive"@ {
        Some(Requirement::Zip)
    } else {
        None
    }
}

/// A request word, read without surrounding white space and ignoring ASCII case.
pub open spec fn parse_requirement(input: Seq<char>) -> Option<Requirement> {
    requirement_named(lower_seq(trim(input)))
}

/// The canonical name of a requirement.
pub open spec fn requirement_name(r: Requirement) -> Seq<char> {
    match r {
        Requirement::Symbol => "symbol"@,
        Requirement::Footprint => "footprint"@,
        Requirement::Model3d => "3d"@,
        Requirement::Legacy => "legacy"@,
        Requirement::Zip => "zip"@,
    }
}

impl Requirement {
    /// Reads a requirement from a request word.
    pub fn parse(input: &str) -> (r: Option<Requirement>)
        ensures
            r == parse_requirement(input@),
    {
        let w = lower_chars(&trim_chars(&chars_of(input)));
        if eq_str(&w, "symbol") || eq_str(&w, "symbols") || eq_str(&w, "schematic") {
            Some(Requirement::Symbol)
        } else if eq_str(&w, "footprint") || eq_str(&w, "footprints") || eq_str(&w, "pcb") {
            Some(Requirement::Footprint)
        } else if eq_str(&w, "3d") || eq_str(&w, "model") || eq_str(&w, "models") || eq_str(
            &w,
            "3d_model",
        ) || eq_str(&w, "3d_models") {
            Some(Requirement::Model3d)
        } else if eq_str(&w, "legacy") || eq_str(&w, "legacy_symbol") || eq_str(
            &w,
            "legacy_symbols",
        ) {
            Some(Requirement::Legacy)
        } else if eq_str(&w, "zip") || eq_str(&w, "archive") {
            Some(Requirement::Zip)
        } else {
            None
        }
    }

    /// The canonical name of the requirement.
    pub fn as_str(self) -> (r: &'static str)
        ensures
            r@ == requirement_name(self),
    {
        match self {
            Requirement::Symbol => "symbol",
            Requirement::Footprint => "footprint",
            Requirement::Model3d => "3d",
            Requirement::Legacy => "legacy",
            Requirement::Zip => "zip",
        }
    }
}

/// Facts about the canonical names: each names its requirement, is not
/// empty, neither starts nor ends with white space, and is in lower case.
proof fn lemma_canonical_name(r: Requirement)
    ensures
        requirement_named(requirement_name(r)) == Some(r),
        requirement_name(r).len() > 0,
        !is_white_space(requirement_name(r)[0]),
        !is_white_space(requirement_name(r).last()),
        lower_seq(requirement_name(r)) == requirement_name(r),
{
    reveal_strlit("symbol");
    reveal_strlit("symbols");
    reveal_strlit("schematic");
    reveal_strlit("footprint");
    reveal_strlit("footprints");
    reveal_strlit("pcb");
    reveal_strlit("3d");
    reveal_strlit("model");
    reveal_strlit("models");
    reveal_strlit("3d_model");
    reveal_strlit("3d_models");
    reveal_strlit("legacy");
    reveal_strlit("legacy_symbol");
    reveal_strlit("legacy_symbols");
    reveal_strlit("zip");
    reveal_strlit("archive");
    let n = requirement_name(r);
    assert(lower_seq(n) =~= n);
    match r {
        Requirement::Symbol => {},
        Requirement::Footprint => {
            assert(n[0] != "schematic"@[0]);
            assert(n[0] != "symbol"@[0]);
        },
        Requirement::Model3d => {},
        Requirement::Legacy => {
            assert(n[0] != "symbol"@[0]);
        },
        Requirement::Zip => {
            assert(n[0] != "pcb"@[0]);
        },
    }
}

/// Reading the canonical name of a requirement gives that requirement back.
pub proof fn law_parse_name_round_trip(r: Requirement)
    ensures
        parse_requirement(requirement_name(r)) == Some(r),
{
    lemma_canonical_name(r);
    law_parse_ignores_padding_and_case(r, Seq::empty(), requirement_name(r), Seq::empty());
    assert(Seq::<char>::empty() + requirement_name(r) + Seq::<char>::empty() =~= requirement_name(r));
}

/// A word between white space is read as the requirement that its ASCII
/// lower case names, when that lower case neither starts nor ends with
/// white space.
proof fn lemma_padded_word_reads(before: Seq<char>, word: Seq<char>, after: Seq<char>)
    requires
        forall|i: int| 0 <= i < before.len() ==> is_white_space(#[trigger] before[i]),
        forall|i: int| 0 <= i < after.len() ==> is_white_space(#[trigger] after[i]),
        word.len() > 0,
        !is_white_space(lower_seq(word)[0]),
        !is_white_space(lower_seq(word).last()),
    ensures
        parse_requirement(before + word + after) == requirement_named(lower_seq(word)),
{
    // White space is no ASCII letter, so lower-casing keeps it.
    assert(!is_white_space(word[0])) by {
        assert(lower_seq(word)[0] == ascii_lower(word[0]));
    }
    assert(!is_white_space(word.last())) by {
        assert(lower_seq(word)[word.len() - 1] == ascii_lower(word[word.len() - 1]));
    }
    let s = before + word + after;
    assert forall|j: int| 0 <= j < before.len() implies is_white_space(#[trigger] s[j]) by {
        assert(s[j] == before[j]);
    }
    assert(s[before.len() as int] == word[0]);
    lemma_leading_ws_at(s, before.len() as int);
    let t = s.skip(before.len() as int);
    assert(t =~= word + after);
    assert forall|j: int| t.len() - after.len() <= j < t.len() implies is_white_space(#[trigger] t[j]) by {
        assert(t[j] == after[j - word.len()]);
    }
    assert(t[t.len() - after.len() - 1] == word.last());
    lemma_trailing_ws_at(t, after.len() as int);
    assert(trim(s) =~= word);
}

/// A request word names a requirement whatever white space surrounds it and
/// whatever ASCII case its letters are in: white space, then a word whose
/// ASCII lower case is the requirement's name, then white space, reads as
/// that requirement.
pub proof fn law_parse_ignores_padding_and_case(
    r: Requirement,
    before: Seq<char>,
    word: Seq<char>,
    after: Seq<char>,
)
    requires
        forall|i: int| 0 <= i < before.len() ==> is_white_space(#[trigger] before[i]),
        forall|i: int| 0 <= i < after.len() ==> is_white_space(#[trigger] after[i]),
        lower_seq(word) == requirement_name(r),
    ensures
        parse_requirement(before + word + after) == Some(r),
{
    lemma_canonical_name(r);
    lemma_padded_word_reads(before, word, after);
}

/// Every word that a request accepts reads as its requirement, whatever
/// white space surrounds it and whatever ASCII case its letters are in:
/// `symbol`, `symbols` and `schematic` ask for symbols; `footprint`,
/// `footprints` and `pcb` for footprints; `3d`, `model`, `models`,
/// `3d_model` and `3d_models` for 3D models; `legacy`, `legacy_symbol` and
/// `legacy_symbols` for legacy symbol libraries; `zip` and `archive` for
/// the archive.
pub proof fn law_every_alias_reads(before: Seq<char>, word: Seq<char>, after: Seq<char>)
    requires
        forall|i: int| 0 <= i < before.len() ==> is_white_space(#[trigger] before[i]),
        forall|i: int| 0 <= i < after.len() ==> is_white_space(#[trigger] after[i]),
    ensures
        lower_seq(word) == "symbol"@ || lower_seq(word) == "symbols"@ || lower_seq(word) == "schematic"@
            ==> parse_requirement(before + word + after) == Some(Requirement::Symbol),
        lower_seq(word) == "footprint"@ || lower_seq(word) == "footprints"@ || lower_seq(word) == "pcb"@
            ==> parse_requirement(before + word + after) == Some(Requirement::Footprint),
        lower_seq(word) == "3d"@ || lower_seq(word) == "model"@ || lower_seq(word) == "models"@
            || lower_seq(word) == "3d_model"@ || lower_seq(word) == "3d_models"@
            ==> parse_requirement(before + word + after) == Some(Requirement::Model3d),
        lower_seq(word) == "legacy"@ || lower_seq(word) == "legacy_symbol"@ || lower_seq(word)
            == "legacy_symbols"@ ==> parse_requirement(before + word + after) == Some(Requirement::Legacy),
        lower_seq(word) == "zip"@ || lower_seq(word) == "archive"@
            ==> parse_requirement(before + word + after) == Some(Requirement::Zip),
{
    reveal_strlit("symbol");
    reveal_strlit("symbols");
    reveal_strlit("schematic");
    reveal_strlit("footprint");
    reveal_strlit("footprints");
    reveal_strlit("pcb");
    reveal_strlit("3d");
    reveal_strlit("model");
    reveal_strlit("models");
    reveal_strlit("3d_model");
    reveal_strlit("3d_models");
    reveal_strlit("legacy");
    reveal_strlit("legacy_symbol");
    reveal_strlit("legacy_symbols");
    reveal_strlit("zip");
    reveal_strlit("archive");
    let w = lower_seq(word);
    if w.len() > 0 && !is_white_space(w[0]) && !is_white_space(w.last()) {
        lemma_padded_word_reads(before, word, after);
    }
    if w == "symbol"@ || w == "symbols"@ || w == "schematic"@ {
        assert(w.len() > 0 && !is_white_space(w[0]) && !is_white_space(w.last()));
    } else if w == "footprint"@ || w == "footprints"@ || w == "pcb"@ {
        assert(w[0] != 's');
        assert(w.len() > 0 && !is_white_space(w[0]) && !is_white_space(w.last()));
    } else if w == "model"@ || w == "models"@ || w == "3d"@ || w == "3d_model"@ || w == "3d_models"@ {
        assert(w[0] != 's' && w[0] != 'f' && w[0] != 'p');
        assert(w.len() > 0 && !is_white_space(w[0]) && !is_white_space(w.last()));
    } else if w == "legacy"@ || w == "legacy_symbol"@ || w == "legacy_symbols"@ {
        assert(w[0] != 's' && w[0] != 'f' && w[0] != 'p' && w[0] != '3' && w[0] != 'm');
        assert(w.len() > 0 && !is_white_space(w[0]) && !is_white_space(w.last()));
    } else if w == "zip"@ || w == "archive"@ {
        assert(w[0] != 's' && w[0] != 'f' && w[0] != 'p' && w[0] != '3' && w[0] != 'm' && w[0] != 'l');
        assert(w.len() > 0 && !is_white_space(w[0]) && !is_white_space(w.last()));
    }
}

/// A request word names a requirement only when, without surrounding white
/// space and in ASCII lower case, it is one of that requirement's words; a
/// word that is none of them names no requirement.
pub proof fn law_only_aliases_read(input: Seq<char>)
    ensures
        parse_requirement(input) == Some(Requirement::Symbol) ==> (lower_seq(trim(input)) == "symbol"@
            || lower_seq(trim(input)) == "symbols"@ || lower_seq(trim(input)) == "schematic"@),
        parse_requirement(input) == Some(Requirement::Footprint) ==> (lower_seq(trim(input)) == "footprint"@
            || lower_seq(trim(input)) == "footprints"@ || lower_seq(trim(input)) == "pcb"@),
        parse_requirement(input) == Some(Requirement::Model3d) ==> (lower_seq(trim(input)) == "3d"@
            || lower_seq(trim(input)) == "model"@ || lower_seq(trim(input)) == "models"@ || lower_seq(
            trim(input),
        ) == "3d_model"@ || lower_seq(trim(input)) == "3d_models"@),
        parse_requirement(input) == Some(Requirement::Legacy) ==> (lower_seq(trim(input)) == "legacy"@
            || lower_seq(trim(input)) == "legacy_symbol"@ || lower_seq(trim(input)) == "legacy_symbols"@),
        parse_requirement(input) == Some(Requirement::Zip) ==> (lower_seq(trim(input)) == "zip"@
            || lower_seq(trim(input)) == "archive"@),
{
}

// ---------------------------------------------------------------------------
// Reading a list of requested requirements
// ---------------------------------------------------------------------------

/// The requested words read in order: the requirements, each once, in the
/// order of their first request, and the words that name none.
pub open spec fn sort_requests(requested: Seq<Seq<char>>) -> (Seq<Requirement>, Seq<Seq<char>>)
    decreases requested.len(),
{
    if requested.len() == 0 {
        (Seq::empty(), Seq::empty())
    } else {
        let (reqs, unknown) = sort_requests(requested.drop_last());
        match parse_requirement(requested.last()) {
            Some(r) => if reqs.contains(r) {
                (reqs, unknown)
            } else {
                (reqs.push(r), unknown)
            },
            None => (reqs, unknown.push(requested.last())),
        }
    }
}

/// A part number and the requirements to check for it.
pub struct RequirementPlan {
    /// The part number without surrounding white space.
    pub mpn: String,
    /// The requirements, each once, in the order first requested.
    pub requirements: Vec<Requirement>,
    /// The requested words that name no requirement, in order.
    pub unknown: Vec<String>,
}

/// Reads a part number and the requirements requested for it. The part
/// number must hold more than white space, and at least one word must name
/// a requirement.
pub fn plan_requirements(mpn: &str, requested: &Vec<String>) -> (r: Result<RequirementPlan, String>)
    ensures
        trim(mpn@).len() == 0 ==> (r matches Err(m) && m@ == "mpn must not be empty"@),
        trim(mpn@).len() > 0 && sort_requests(requested.deep_view()).0.len() == 0 ==> (r matches Err(
            m,
        ) && m@ == "At least one valid requirement is required"@),
        trim(mpn@).len() > 0 && sort_requests(requested.deep_view()).0.len() > 0 ==> (r matches Ok(
            plan,
        ) && plan.mpn@ == trim(mpn@) && plan.requirements@ == sort_requests(
            requested.deep_view(),
        ).0 && plan.unknown.deep_view() == sort_requests(requested.deep_view()).1),
{
    let clean = trim_chars(&chars_of(mpn));
    if clean.len() == 0 {
        return Err(owned("mpn must not be empty"));
    }
    let mut requirements: Vec<Requirement> = Vec::new();
    let mut unknown: Vec<String> = Vec::new();
    let mut i: usize = 0;
    while i < requested.len()
        invariant
            i <= requested.len(),
            (requirements@, unknown.deep_view()) == sort_requests(requested.deep_view().take(i as int)),
        decreases requested.len() - i,
    {
        let ghost prefix = requested.deep_view().take(i as int);
        assert(requested.deep_view().take(i + 1).drop_last() =~= prefix);
        assert(requested.deep_view()[i as int] == requested[i as int]@);
        match Requirement::parse(requested[i].as_str()) {
            Some(r) => {
                let mut seen = false;
                let mut j: usize = 0;
                while j < requirements.len()
                    invariant
                        j <= requirements.len(),
                        seen == (exists|k: int| 0 <= k < j && requirements@[k] == r),
                    decreases requirements.len() - j,
                {
                    if requirements[j] == r {
                        seen = true;
                    }
                    j += 1;
                }
                if !seen {
                    requirements.push(r);
                }
            },
            None => {
                let w = owned(requested[i].as_str());
                unknown.push(w);
                assert(unknown.deep_view() =~= sort_requests(prefix).1.push(requested.deep_view()[i as int]));
            },
        }
        i += 1;
    }
    assert(requested.deep_view().take(requested.len() as int) =~= requested.deep_view());
    if requirements.len() == 0 {
        return Err(owned("At least one valid requirement is required"));
    }
    Ok(RequirementPlan { mpn: string_of(clean.as_slice()), requirements, unknown })
}

/// No requirement is listed twice in a plan.
pub proof fn law_planned_requirements_distinct(requested: Seq<Seq<char>>)
    ensures
        sort_requests(requested).0.no_duplicates(),
    decreases requested.len(),
{
    if requested.len() > 0 {
        law_planned_requirements_distinct(requested.drop_last());
    }
}

/// Every requested word is either read as a planned requirement or kept
/// among the unknown words.
pub proof fn law_every_request_accounted(requested: Seq<Seq<char>>, i: int)
    requires
        0 <= i < requested.len(),
    ensures
        match parse_requirement(requested[i]) {
            Some(r) => sort_requests(requested).0.contains(r),
            None => sort_requests(requested).1.contains(requested[i]),
        },
    decreases requested.len(),
{
    let last = requested.len() - 1;
    let (reqs, unknown) = sort_requests(requested.drop_last());
    if i < last {
        law_every_request_accounted(requested.drop_last(), i);
        assert(requested.drop_last()[i] == requested[i]);
        match parse_requirement(requested[i]) {
            Some(r) => {
                let k = choose|k: int| 0 <= k < reqs.len() && reqs[k] == r;
                match parse_requirement(requested.last()) {
                    Some(r2) => {
                        if !reqs.contains(r2) {
                            assert(reqs.push(r2)[k] == r);
                        }
                    },
                    None => {},
                }
            },
            None => {
                let k = choose|k: int| 0 <= k < unknown.len() && unknown[k] == requested[i];
                match parse_requirement(requested.last()) {
                    Some(r2) => {},
                    None => {
                        assert(unknown.push(requested.last())[k] == requested[i]);
                    },
                }
            },
        }
    } else {
        match parse_requirement(requested[i]) {
            Some(r) => {
                if !reqs.contains(r) {
                    assert(reqs.push(r)[reqs.len() as int] == r);
                }
            },
            None => {
                assert(unknown.push(requested[i])[unknown.len() as int] == requested[i]);
            },
        }
    }
}

/// Every planned requirement was asked for by some requested word.
pub proof fn law_planned_requirements_requested(requested: Seq<Seq<char>>, k: int)
    requires
        0 <= k < sort_requests(requested).0.len(),
    ensures
        exists|i: int|
            0 <= i < requested.len() && parse_requirement(#[trigger] requested[i]) == Some(
                sort_requests(requested).0[k],
            ),
    decreases requested.len(),
{
    let prev = sort_requests(requested.drop_last()).0;
    if k < prev.len() {
        law_planned_requirements_requested(requested.drop_last(), k);
        let i = choose|i: int|
            0 <= i < requested.drop_last().len() && parse_requirement(#[trigger] requested.drop_last()[i])
                == Some(prev[k]);
        assert(requested.drop_last()[i] == requested[i]);
        match parse_requirement(requested.last()) {
            Some(r) => if !prev.contains(r) {
                assert(prev.push(r)[k] == prev[k]);
            },
            None => {},
        }
    } else {
        let last = requested.len() - 1;
        assert(parse_requirement(requested[last]) == Some(sort_requests(requested).0[k]));
    }
}

/// The words that name no requirement are kept in the order requested,
/// repeats included, and no other word is among them.
pub proof fn law_unknown_words_in_order(requested: Seq<Seq<char>>)
    ensures
        sort_requests(requested).1 == requested.filter(|w: Seq<char>| parse_requirement(w) is None),
    decreases requested.len(),
{
    reveal_with_fuel(Seq::filter, 1);
    if requested.len() > 0 {
        law_unknown_words_in_order(requested.drop_last());
    }
}

/// A requirement first requested before another is planned before it.
pub proof fn law_plan_keeps_first_request_order(
    requested: Seq<Seq<char>>,
    i: int,
    j: int,
    x: Requirement,
    y: Requirement,
)
    requires
        0 <= i < j < requested.len(),
        parse_requirement(requested[i]) == Some(x),
        parse_requirement(requested[j]) == Some(y),
        x != y,
        forall|k: int| 0 <= k < j ==> parse_requirement(#[trigger] requested[k]) != Some(y),
    ensures
        exists|a: int, b: int|
            #![trigger sort_requests(requested).0[a], sort_requests(requested).0[b]]
            0 <= a < b < sort_requests(requested).0.len() && sort_requests(requested).0[a] == x
                && sort_requests(requested).0[b] == y,
    decreases requested.len(),
{
    let d = requested.drop_last();
    let prev = sort_requests(d).0;
    let last = requested.len() - 1;
    if j == last {
        law_every_request_accounted(d, i);
        assert(d[i] == requested[i]);
        let a = choose|a: int| 0 <= a < prev.len() && prev[a] == x;
        assert(!prev.contains(y)) by {
            if prev.contains(y) {
                let b = choose|b: int| 0 <= b < prev.len() && prev[b] == y;
                law_planned_requirements_requested(d, b);
                let k = choose|k: int| 0 <= k < d.len() && parse_requirement(#[trigger] d[k]) == Some(prev[b]);
                assert(d[k] == requested[k]);
                assert(parse_requirement(requested[k]) != Some(y));
            }
        }
        let reqs = prev.push(y);
        assert(requested.last() == requested[j]);
        assert(sort_requests(requested).0 == reqs);
        assert(sort_requests(requested).0[a] == x && sort_requests(requested).0[prev.len() as int] == y);
    } else {
        assert forall|k: int| 0 <= k < j implies parse_requirement(#[trigger] d[k]) != Some(y) by {
            assert(d[k] == requested[k]);
        }
        assert(d[i] == requested[i]);
        assert(d[j] == requested[j]);
        law_plan_keeps_first_request_order(d, i, j, x, y);
        let (a, b) = choose|a: int, b: int|
            #![trigger prev[a], prev[b]]
            0 <= a < b < prev.len() && prev[a] == x && prev[b] == y;
        match parse_requirement(requested.last()) {
            Some(r) => if !prev.contains(r) {
                assert(sort_requests(requested).0 == prev.push(r));
                assert(prev.push(r)[a] == x && prev.push(r)[b] == y);
            } else {
                assert(sort_requests(requested).0 == prev);
            },
            None => {
                assert(sort_requests(requested).0 == prev);
            },
        }
        assert(sort_requests(requested).0[a] == x && sort_requests(requested).0[b] == y);
    }
}

// ---------------------------------------------------------------------------
// Outcome of a check
// ---------------------------------------------------------------------------

/// Whether one requirement was found locally.
#[derive(Clone, Copy, Debug)]
pub struct RequirementStatus {
    pub requirement: Requirement,
    pub present: bool,
}

/// The requirements not found, in order.
pub open spec fn missing_of(statuses: Seq<RequirementStatus>) -> Seq<Requirement>
    decreases statuses.len(),
{
    if statuses.len() == 0 {
        Seq::empty()
    } else {
        let m = missing_of(statuses.drop_last());
        if statuses.last().present {
            m
        } else {
            m.push(statuses.last().requirement)
        }
    }
}

/// Whether every requirement was found.
pub fn all_required_present(statuses: &Vec<RequirementStatus>) -> (r: bool)
    ensures
        r == forall|i: int| 0 <= i < statuses.len() ==> (#[trigger] statuses@[i]).present,
{
    let mut i: usize = 0;
    while i < statuses.len()
        invariant
            i <= statuses.len(),
            forall|j: int| 0 <= j < i ==> (#[trigger] statuses@[j]).present,
        decreases statuses.len() - i,
    {
        if !statuses[i].present {
            return false;
        }
        i += 1;
    }
    true
}

/// The requirements that were not found, in order.
pub fn missing_requirements(statuses: &Vec<RequirementStatus>) -> (r: Vec<Requirement>)
    ensures
        r@ == missing_of(statuses@),
{
    let mut out: Vec<Requirement> = Vec::new();
    let mut i: usize = 0;
    while i < statuses.len()
        invariant
            i <= statuses.len(),
            out@ == missing_of(statuses@.take(i as int)),
        decreases statuses.len() - i,
    {
        assert(statuses@.take(i + 1).drop_last() =~= statuses@.take(i as int));
        if !statuses[i].present {
            out.push(statuses[i].requirement);
        }
        i += 1;
    }
    assert(statuses@.take(statuses.len() as int) =~= statuses@);
    out
}

/// Nothing is missing exactly when every requirement was found.
pub proof fn law_missing_empty_iff_all_present(statuses: Seq<RequirementStatus>)
    ensures
        (missing_of(statuses).len() == 0) == (forall|i: int|
            0 <= i < statuses.len() ==> (#[trigger] statuses[i]).present),
    decreases statuses.len(),
{
    if statuses.len() > 0 {
        law_missing_empty_iff_all_present(statuses.drop_last());
        if forall|i: int| 0 <= i < statuses.drop_last().len() ==> (#[trigger] statuses.drop_last()[i]).present {
            assert forall|i: int| 0 <= i < statuses.len() - 1 implies (#[trigger] statuses[i]).present by {
                assert(statuses.drop_last()[i] == statuses[i]);
            }
        } else {
            let i = choose|i: int| 0 <= i < statuses.drop_last().len() && !(#[trigger] statuses.drop_last()[i]).present;
            assert(statuses.drop_last()[i] == statuses[i]);
        }
    }
}

/// The advice for a part: `ready` when nothing is missing, else `missing_assets`.
pub fn recommendation(statuses: &Vec<RequirementStatus>) -> (r: &'static str)
    ensures
        missing_of(statuses@).len() == 0 ==> r@ == "ready"@,
        missing_of(statuses@).len() > 0 ==> r@ == "missing_assets"@,
{
    let missing = missing_requirements(statuses);
    if missing.len() == 0 {
        "ready"
    } else {
        "missing_assets"
    }
}

/// The requirements checked when a request names none: symbol, footprint
/// and 3D model.
pub fn default_requirements() -> (r: Vec<String>)
    ensures
        r.deep_view() == seq!["symbol"@, "footprint"@, "3d"@],
{
    let mut v: Vec<String> = Vec::new();
    v.push(owned("symbol"));
    v.push(owned("footprint"));
    v.push(owned("3d"));
    assert(v.deep_view() =~= seq!["symbol"@, "footprint"@, "3d"@]);
    v
}

} // verus!
