//! The walk through the output directories during an offline asset check:
//! what it has found so far, and what it does at each path it reaches. The
//! file system itself is read by the caller, who reports each path here.
use vstd::prelude::*;
use crate::assets::{
    configured_model_extensions, dedupe, model_extensions, model_root_from, model_root_of,
    requirement_roots, roots_for, should_skip_dir, skipped_dir, MAX_MATCHES, MAX_SCAN_DEPTH,
    MAX_SCAN_ENTRIES,
};
use crate::error::ExpandFailure;
use crate::config::{expand_full, expansion_of, model_outcome_known, ok_expansion, opt_view, Format};
use crate::order::{insert_text, strictly_sorted};
use crate::requirements::{Requirement, RequirementStatus};
use crate::text::{append_chars, chars_of, owned, string_of};

verus! {

/// What the walk for one requirement has found so far.
pub struct ScanState {
    /// The matching files, sorted, each once.
    pub matches: Vec<String>,
    /// The search roots that existed, sorted, each once.
    pub roots_checked: Vec<String>,
    /// What could not be read, in order.
    pub errors: Vec<String>,
    /// The file-system entries looked at.
    pub entries_seen: usize,
}

/// A path met while listing a directory.
pub enum Entry {
    /// The entry could not be read; the message says why.
    Unreadable(String),
    /// A directory.
    Dir(String),
    /// A file, and whether it counts for the requirement.
    File(String, bool),
}

/// What the walk does after an entry of a listing.
#[derive(Debug)]
pub enum EntryStep {
    /// The walk has found enough; it stops.
    Stop,
    /// On to the next entry.
    Next,
    /// Walk into this directory, one level deeper.
    Descend(String),
}

/// Going from `a` to `b` the walk stayed within its limits, looked at no
/// fewer entries, lost no match, only added errors after the earlier ones,
/// and left the search roots alone.
pub open spec fn walk_keeps(a: ScanState, b: ScanState) -> bool {
    &&& b.wf()
    &&& a.entries_seen <= b.entries_seen
    &&& a.matches.deep_view().to_set().subset_of(b.matches.deep_view().to_set())
    &&& a.errors.deep_view().len() <= b.errors.deep_view().len()
    &&& b.errors.deep_view().take(a.errors.deep_view().len() as int) == a.errors.deep_view()
    &&& b.roots_checked == a.roots_checked
}

/// A whole walk through a directory tree, made of the steps `arrive`,
/// `entry`, `note_error` and `finish`, each of which keeps the walk (see
/// `walk_keeps`), keeps it from its first state to its last: the limits
/// hold, the count of entries never falls, matches are never lost, errors
/// are only appended, and the search roots stay as they were.
pub proof fn law_walk_keeps(states: Seq<ScanState>)
    requires
        states.len() > 0,
        states[0].wf(),
        forall|i: int| 0 <= i < states.len() - 1 ==> walk_keeps(#[trigger] states[i], states[i + 1]),
    ensures
        walk_keeps(states[0], states.last()),
    decreases states.len(),
{
    if states.len() == 1 {
        assert(states[0].errors.deep_view().take(states[0].errors.deep_view().len() as int)
            =~= states[0].errors.deep_view());
    } else {
        let front = states.drop_last();
        assert forall|i: int| 0 <= i < front.len() - 1 implies walk_keeps(#[trigger] front[i], front[i + 1]) by {
            assert(front[i] == states[i] && front[i + 1] == states[i + 1]);
            assert(walk_keeps(states[i], states[i + 1]));
        }
        law_walk_keeps(front);
        let a = states[0];
        let m = front.last();
        let b = states.last();
        assert(m == states[states.len() - 2]);
        assert(walk_keeps(states[states.len() - 2], states[states.len() - 2 + 1]));
        let ea = a.errors.deep_view();
        let em = m.errors.deep_view();
        let eb = b.errors.deep_view();
        assert(eb.take(ea.len() as int) =~= em.take(ea.len() as int)) by {
            assert forall|k: int| 0 <= k < ea.len() implies eb.take(ea.len() as int)[k] == em.take(
                ea.len() as int,
            )[k] by {
                assert(eb.take(em.len() as int)[k] == em[k]);
            }
        }
    }
}

broadcast use crate::text::lemma_take_whole, crate::text::lemma_take_before_push;

impl ScanState {
    /// The found files and roots are sorted sets, and neither count has
    /// passed its limit.
    pub open spec fn wf(&self) -> bool {
        &&& strictly_sorted(self.matches.deep_view())
        &&& strictly_sorted(self.roots_checked.deep_view())
        &&& self.entries_seen <= MAX_SCAN_ENTRIES
        &&& self.matches.len() <= MAX_MATCHES
    }

    /// The walk has found enough matches or looked at enough entries.
    pub open spec fn stopped(&self) -> bool {
        self.matches.len() >= MAX_MATCHES || self.entries_seen >= MAX_SCAN_ENTRIES
    }

    /// Nothing found yet.
    pub fn new() -> (r: ScanState)
        ensures
            r.wf(),
            r.matches@.len() == 0,
            r.roots_checked@.len() == 0,
            r.errors@.len() == 0,
            r.entries_seen == 0,
    {
        ScanState { matches: Vec::new(), roots_checked: Vec::new(), errors: Vec::new(), entries_seen: 0 }
    }

    /// Whether the walk stops here.
    pub fn limit_reached(&self) -> (r: bool)
        ensures
            r == self.stopped(),
    {
        self.matches.len() >= MAX_MATCHES || self.entries_seen >= MAX_SCAN_ENTRIES
    }

    /// A search root exists and is about to be walked.
    pub fn note_root(&mut self, root: String)
        requires
            old(self).wf(),
        ensures
            final(self).wf(),
            final(self).roots_checked.deep_view().to_set() == old(self).roots_checked.deep_view().to_set().insert(root@),
            final(self).matches == old(self).matches,
            final(self).errors == old(self).errors,
            final(self).entries_seen == old(self).entries_seen,
    {
        insert_text(&mut self.roots_checked, root);
    }

    /// Something could not be read.
    pub fn note_error(&mut self, message: String)
        requires
            old(self).wf(),
        ensures
            final(self).wf(),
            walk_keeps(*old(self), *final(self)),
            final(self).errors.deep_view() == old(self).errors.deep_view().push(message@),
            final(self).matches == old(self).matches,
            final(self).roots_checked == old(self).roots_checked,
            final(self).entries_seen == old(self).entries_seen,
    {
        let ghost before = self.errors.deep_view();
        self.errors.push(message);
        assert(self.errors.deep_view() =~= before.push(message@));
    }

    /// The walk reaches `path` at `depth` levels below its root. Once it
    /// has found enough, nothing happens. A file is one more entry, and is
    /// recorded when `matched`; a directory is listed when it lies less
    /// than the depth limit down. Returns whether to list `path`.
    pub fn arrive(&mut self, path: String, is_file: bool, matched: bool, depth: usize) -> (list: bool)
        requires
            old(self).wf(),
        ensures
            final(self).wf(),
            walk_keeps(*old(self), *final(self)),
            final(self).roots_checked == old(self).roots_checked,
            final(self).errors == old(self).errors,
            old(self).stopped() ==> !list && final(self).matches == old(self).matches
                && final(self).entries_seen == old(self).entries_seen,
            !old(self).stopped() && is_file ==> !list && final(self).entries_seen == old(self).entries_seen + 1
                && final(self).matches.deep_view().to_set() == (if matched {
                old(self).matches.deep_view().to_set().insert(path@)
            } else {
                old(self).matches.deep_view().to_set()
            }),
            !old(self).stopped() && !is_file ==> list == (depth < MAX_SCAN_DEPTH) && final(self).matches
                == old(self).matches && final(self).entries_seen == old(self).entries_seen,
    {
        if self.limit_reached() {
            return false;
        }
        if is_file {
            self.entries_seen = self.entries_seen + 1;
            if matched {
                insert_text(&mut self.matches, path);
            }
            return false;
        }
        depth < MAX_SCAN_DEPTH
    }

    /// The walk meets an entry while listing a directory. Once it has found
    /// enough, it stops. An unreadable entry is noted and passed over; any
    /// other is one more entry: a file is recorded when it counts, and a
    /// directory is walked into unless it is one the walk leaves out.
    pub fn entry(&mut self, e: Entry) -> (r: EntryStep)
        requires
            old(self).wf(),
        ensures
            final(self).wf(),
            walk_keeps(*old(self), *final(self)),
            final(self).roots_checked == old(self).roots_checked,
            old(self).stopped() ==> r is Stop && final(self).matches == old(self).matches
                && final(self).errors == old(self).errors && final(self).entries_seen == old(self).entries_seen,
            !old(self).stopped() ==> match e {
                Entry::Unreadable(m) => r is Next && final(self).errors.deep_view() == old(
                    self,
                ).errors.deep_view().push(m@) && final(self).matches == old(self).matches
                    && final(self).entries_seen == old(self).entries_seen,
                Entry::Dir(p) => final(self).entries_seen == old(self).entries_seen + 1
                    && final(self).matches == old(self).matches && final(self).errors == old(self).errors
                    && (if skipped_dir(p@) {
                    r is Next
                } else {
                    r matches EntryStep::Descend(d) && d@ == p@
                }),
                Entry::File(p, matched) => r is Next && final(self).entries_seen == old(self).entries_seen + 1
                    && final(self).errors == old(self).errors
                    && final(self).matches.deep_view().to_set() == (if matched {
                    old(self).matches.deep_view().to_set().insert(p@)
                } else {
                    old(self).matches.deep_view().to_set()
                }),
            },
    {
        if self.limit_reached() {
            return EntryStep::Stop;
        }
        match e {
            Entry::Unreadable(m) => {
                self.note_error(m);
                EntryStep::Next
            },
            Entry::Dir(p) => {
                self.entries_seen = self.entries_seen + 1;
                if should_skip_dir(p.as_str()) {
                    EntryStep::Next
                } else {
                    EntryStep::Descend(p)
                }
            },
            Entry::File(p, matched) => {
                self.entries_seen = self.entries_seen + 1;
                if matched {
                    insert_text(&mut self.matches, p);
                }
                EntryStep::Next
            },
        }
    }

    /// The walk is over: when it stopped for the number of entries, that is
    /// noted among the errors.
    pub fn finish(&mut self)
        requires
            old(self).wf(),
        ensures
            final(self).wf(),
            walk_keeps(*old(self), *final(self)),
            final(self).matches == old(self).matches,
            final(self).roots_checked == old(self).roots_checked,
            final(self).entries_seen == old(self).entries_seen,
            final(self).errors.deep_view() == (if old(self).entries_seen >= MAX_SCAN_ENTRIES {
                old(self).errors.deep_view().push("scan stopped after 30000 filesystem entries"@)
            } else {
                old(self).errors.deep_view()
            }),
    {
        if self.entries_seen >= MAX_SCAN_ENTRIES {
            self.note_error(owned("scan stopped after 30000 filesystem entries"));
        }
    }

    /// Whether the requirement was found: some file matched.
    pub fn status(&self, requirement: Requirement) -> (r: RequirementStatus)
        ensures
            r.requirement == requirement,
            r.present == (self.matches@.len() > 0),
    {
        RequirementStatus { requirement, present: self.matches.len() > 0 }
    }
}

/// Where and for which model extensions a format is searched.
pub struct FormatScan {
    /// The search roots, each once.
    pub roots: Vec<String>,
    /// The model extensions, sorted, each once.
    pub model_extensions: Vec<String>,
}

/// The search of a format for a requirement with the given expansions of
/// its directories: when the output directory did not expand, the message
/// `<name>.output_path: <error>`; otherwise the roots as
/// `roots_for_requirement` gives them for the expanded directories, and the
/// format's model extensions, sorted, each once.
pub open spec fn scanned_by(
    name: Seq<char>,
    format: Format,
    requirement: Requirement,
    output: Result<String, ExpandFailure>,
    model: Option<Result<String, ExpandFailure>>,
    r: Result<FormatScan, String>,
) -> bool {
    &&& (output matches Err(f) ==> (r matches Err(m) && m@ == name + ".output_path: "@ + f.message@))
    &&& (output is Ok ==> (r matches Ok(fs) && fs.roots.deep_view() == dedupe(
        requirement_roots(
            name,
            output->Ok_0@,
            format.format,
            model_root_of(name, output->Ok_0@, opt_view(format.model_output_path), ok_expansion(model)),
            requirement,
        ),
    )))
    &&& (r matches Ok(fs) ==> strictly_sorted(fs.model_extensions.deep_view())
        && fs.model_extensions.deep_view().to_set() == configured_model_extensions(format).to_set())
}

/// How a format named `name` is searched for a requirement, given how its
/// output directory expanded and, when that succeeded and the format has a
/// model directory, how that expanded (see `scanned_by`).
pub fn format_scan_from(
    name: &str,
    format: &Format,
    requirement: Requirement,
    output: Result<String, ExpandFailure>,
    model: Option<Result<String, ExpandFailure>>,
) -> (r: Result<FormatScan, String>)
    requires
        output is Ok ==> (format.model_output_path is Some <==> model is Some),
    ensures
        scanned_by(name@, *format, requirement, output, model, r),
{
    let ghost out0 = output;
    let ghost model0 = model;
    match output {
        Ok(out) => {
            let mr = model_root_from(name, out.as_str(), &format.model_output_path, model);
            let roots = roots_for(name, out.as_str(), format.format, mr, requirement);
            let exts = model_extensions(format);
            let r = Ok(FormatScan { roots, model_extensions: exts });
            assert(scanned_by(name@, *format, requirement, out0, model0, r));
            r
        },
        Err(f) => {
            let mut m = chars_of(name);
            append_chars(&mut m, &chars_of(".output_path: "));
            append_chars(&mut m, &chars_of(f.message.as_str()));
            let msg = string_of(m.as_slice());
            assert(msg@ == name@ + ".output_path: "@ + f.message@);
            Err(msg)
        },
    }
}

/// How a format named `name` is searched for a requirement: its output
/// directory (and then its model directory) is expanded through the
/// environment, and the search is `format_scan_from` for those expansions.
pub fn format_scan(name: &str, format: &Format, requirement: Requirement) -> (r: Result<FormatScan, String>)
    ensures
        !format.output_path@.contains('$') ==> r is Ok,
        exists|o: Result<String, ExpandFailure>, x: Option<Result<String, ExpandFailure>>|
            #![trigger scanned_by(name@, *format, requirement, o, x, r)]
            expansion_of(format.output_path@, o) && (o is Ok ==> model_outcome_known(
                format.model_output_path,
                x,
            )) && scanned_by(name@, *format, requirement, o, x, r),
{
    let output = expand_full(format.output_path.as_str());
    let model = match (&output, &format.model_output_path) {
        (Ok(_), Some(p)) => Some(expand_full(p.as_str())),
        _ => None,
    };
    let ghost o = output;
    let ghost x = model;
    assert(output is Ok ==> model_outcome_known(format.model_output_path, x));
    let r = format_scan_from(name, format, requirement, output, model);
    assert(scanned_by(name@, *format, requirement, o, x, r));
    r
}

} // verus!
