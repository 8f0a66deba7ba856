//! Paths as texts, with the Unix meaning that `std::path` gives them:
//! `/` separates components, a leading `/` makes a path absolute, empty and
//! `.` components are skipped and `..` names the parent directory.
use vstd::prelude::*;
use crate::text::{append_chars, copy_range, ends_with, occurs_at, starts_with};

verus! {

/// Position of the last `c` in `s`, or -1 when there is none.
pub open spec fn last_index_of(s: Seq<char>, c: char) -> int
    decreases s.len(),
{
    if s.len() == 0 {
        -1
    } else if s.last() == c {
        s.len() - 1
    } else {
        last_index_of(s.drop_last(), c)
    }
}

pub proof fn lemma_last_index_of(s: Seq<char>, c: char)
    ensures
        -1 <= last_index_of(s, c) < s.len(),
        last_index_of(s, c) >= 0 ==> s[last_index_of(s, c)] == c,
        forall|j: int| last_index_of(s, c) < j < s.len() ==> s[j] != c,
    decreases s.len(),
{
    if s.len() > 0 && s.last() != c {
        lemma_last_index_of(s.drop_last(), c);
        assert forall|j: int| last_index_of(s, c) < j < s.len() implies s[j] != c by {
            if j < s.len() - 1 {
                assert(s[j] == s.drop_last()[j]);
            }
        }
    }
}

/// The last position of `c` is characterised by its two properties.
pub proof fn lemma_last_index_of_unique(s: Seq<char>, c: char, k: int)
    requires
        -1 <= k < s.len(),
        k >= 0 ==> s[k] == c,
        forall|j: int| k < j < s.len() ==> s[j] != c,
    ensures
        last_index_of(s, c) == k,
    decreases s.len(),
{
    if s.len() > 0 && s.last() != c {
        assert forall|j: int| k < j < s.drop_last().len() implies s.drop_last()[j] != c by {
            assert(s.drop_last()[j] == s[j]);
        }
        lemma_last_index_of_unique(s.drop_last(), c, k);
    }
}

/// The text `.`.
pub open spec fn dot() -> Seq<char> {
    seq!['.']
}

/// The text `..`.
pub open spec fn dot_dot() -> Seq<char> {
    seq!['.', '.']
}

/// `Path::file_name`: the last component when it is a normal one.
pub open spec fn file_name(p: Seq<char>) -> Option<Seq<char>>
    decreases p.len(),
{
    if p.len() == 0 {
        None
    } else if p.last() == '/' {
        file_name(p.drop_last())
    } else {
        let k = last_index_of(p, '/');
        let seg = p.subrange(k + 1, p.len() as int);
        if seg == dot() {
            if k < 0 {
                None
            } else {
                proof {
                    lemma_last_index_of(p, '/');
                }
                file_name(p.subrange(0, k))
            }
        } else if seg == dot_dot() {
            None
        } else {
            Some(seg)
        }
    }
}

/// The extension of a file name: what follows its last `.`, unless that
/// dot opens the name or there is none (`Path::extension`).
pub open spec fn extension_of(name: Seq<char>) -> Option<Seq<char>> {
    let k = last_index_of(name, '.');
    if k <= 0 {
        None
    } else {
        Some(name.subrange(k + 1, name.len() as int))
    }
}

/// `Path::extension` of a whole path.
pub open spec fn path_extension(p: Seq<char>) -> Option<Seq<char>> {
    match file_name(p) {
        Some(f) => extension_of(f),
        None => None,
    }
}

/// `Path::is_absolute`.
pub open spec fn is_absolute(p: Seq<char>) -> bool {
    p.len() > 0 && p[0] == '/'
}

/// `Path::join`: an absolute `rel` replaces `base`; otherwise `rel` is
/// appended, with a `/` between them unless `base` is empty or ends in one.
pub open spec fn join(base: Seq<char>, rel: Seq<char>) -> Seq<char> {
    if is_absolute(rel) {
        rel
    } else if base.len() > 0 && base.last() != '/' {
        base + seq!['/'] + rel
    } else {
        base + rel
    }
}

/// Joining a relative path to a directory gives a path that starts with the
/// directory and ends with the relative path; an absolute path joined to
/// anything is itself.
pub proof fn law_join_keeps_both(base: Seq<char>, rel: Seq<char>)
    ensures
        !is_absolute(rel) ==> starts_with(join(base, rel), base) && ends_with(join(base, rel), rel),
        is_absolute(rel) ==> join(base, rel) == rel,
{
    let j = join(base, rel);
    if !is_absolute(rel) {
        assert(j.subrange(0, base.len() as int) =~= base);
        assert(j.subrange(j.len() - rel.len(), j.len() as int) =~= rel);
    }
}

/// `p` has a `..` component.
pub open spec fn has_parent_component(p: Seq<char>) -> bool {
    exists|i: int|
        #![trigger occurs_at(p, dot_dot(), i)]
        occurs_at(p, dot_dot(), i) && (i == 0 || p[i - 1] == '/') && (i + 2 == p.len() || p[i + 2]
            == '/')
}

// ---------------------------------------------------------------------------

/// Position of the last `c` among the first `end` characters of `v`.
pub fn last_index_before(v: &Vec<char>, c: char, end: usize) -> (r: Option<usize>)
    requires
        end <= v.len(),
    ensures
        match r {
            Some(k) => k < end && last_index_of(v@.take(end as int), c) == k,
            None => last_index_of(v@.take(end as int), c) == -1,
        },
{
    let ghost s = v@.take(end as int);
    let mut i = end;
    while i > 0
        invariant
            i <= end <= v.len(),
            s == v@.take(end as int),
            forall|j: int| i <= j < end ==> s[j] != c,
        decreases i,
    {
        if v[i - 1] == c {
            proof {
                lemma_last_index_of_unique(s, c, i - 1);
            }
            return Some(i - 1);
        }
        i -= 1;
    }
    proof {
        lemma_last_index_of_unique(s, c, -1);
    }
    None
}

/// `Path::file_name` over a vector of characters.
pub fn file_name_of(p: &Vec<char>) -> (r: Option<Vec<char>>)
    ensures
        match r {
            Some(f) => file_name(p@) == Some(f@),
            None => file_name(p@) is None,
        },
{
    let mut end = p.len();
    proof {
        assert(p@.take(end as int) =~= p@);
    }
    while end > 0
        invariant
            end <= p.len(),
            file_name(p@) == file_name(p@.take(end as int)),
        decreases end,
    {
        let ghost s = p@.take(end as int);
        if p[end - 1] == '/' {
            assert(s.drop_last() =~= p@.take(end - 1));
            end -= 1;
        } else {
            let k = last_index_before(p, '/', end);
            let start = match k {
                Some(k) => k + 1,
                None => 0,
            };
            let seg = copy_range(p, start, end);
            assert(seg@ =~= s.subrange(last_index_of(s, '/') + 1, s.len() as int));
            if seg.len() == 1 && seg[0] == '.' {
                assert(seg@ =~= dot());
                match k {
                    None => {
                        return None;
                    },
                    Some(k) => {
                        assert(s.subrange(0, k as int) =~= p@.take(k as int));
                        end = k;
                    },
                }
            } else if seg.len() == 2 && seg[0] == '.' && seg[1] == '.' {
                assert(seg@ =~= dot_dot());
                return None;
            } else {
                proof {
                    if seg@ == dot() {
                        assert(seg@[0] == '.');
                    }
                    if seg@ == dot_dot() {
                        assert(seg@[0] == '.' && seg@[1] == '.');
                    }
                }
                return Some(seg);
            }
        }
    }
    None
}

/// The extension of a file name (`Path::extension` after `file_name`).
pub fn extension_of_name(name: &Vec<char>) -> (r: Option<Vec<char>>)
    ensures
        match r {
            Some(e) => extension_of(name@) == Some(e@),
            None => extension_of(name@) is None,
        },
{
    proof {
        assert(name@.take(name.len() as int) =~= name@);
    }
    match last_index_before(name, '.', name.len()) {
        Some(k) => {
            if k == 0 {
                None
            } else {
                Some(copy_range(name, k + 1, name.len()))
            }
        },
        None => None,
    }
}

/// `Path::extension` of a whole path.
pub fn path_extension_of(p: &Vec<char>) -> (r: Option<Vec<char>>)
    ensures
        match r {
            Some(e) => path_extension(p@) == Some(e@),
            None => path_extension(p@) is None,
        },
{
    match file_name_of(p) {
        Some(f) => extension_of_name(&f),
        None => None,
    }
}

/// `Path::is_absolute`.
pub fn is_absolute_path(p: &Vec<char>) -> (r: bool)
    ensures
        r == is_absolute(p@),
{
    p.len() > 0 && p[0] == '/'
}

/// `Path::join`.
pub fn join_paths(base: &Vec<char>, rel: &Vec<char>) -> (r: Vec<char>)
    ensures
        r@ == join(base@, rel@),
{
    if is_absolute_path(rel) {
        return copy_range(rel, 0, rel.len());
    }
    let mut out = copy_range(base, 0, base.len());
    if base.len() > 0 && base[base.len() - 1] != '/' {
        out.push('/');
    }
    append_chars(&mut out, rel);
    proof {
        assert(base@.subrange(0, base.len() as int) =~= base@);
        assert(rel@.subrange(0, rel.len() as int) =~= rel@);
    }
    out
}

/// Whether `p` has a `..` component.
pub fn has_parent_component_of(p: &Vec<char>) -> (r: bool)
    ensures
        r == has_parent_component(p@),
{
    let mut i: usize = 0;
    while i < p.len()
        invariant
            i <= p.len(),
            forall|j: int|
                0 <= j < i ==> !(occurs_at(p@, dot_dot(), j) && (j == 0 || p@[j - 1] == '/') && (j
                    + 2 == p.len() || p@[j + 2] == '/')),
        decreases p.len() - i,
    {
        let at_start = i == 0 || p[i - 1] == '/';
        if at_start && p.len() - i >= 2 && p[i] == '.' && p[i + 1] == '.' && (p.len() - i == 2 || p[i
            + 2] == '/') {
            assert(p@.subrange(i as int, i + 2) =~= dot_dot());
            assert(occurs_at(p@, dot_dot(), i as int));
            return true;
        }
        proof {
            if occurs_at(p@, dot_dot(), i as int) {
                assert(p@.subrange(i as int, i + 2)[0] == p@[i as int]);
                assert(p@.subrange(i as int, i + 2)[1] == p@[i + 1]);
            }
        }
        i += 1;
    }
    proof {
        assert forall|j: int|
            !(#[trigger] occurs_at(p@, dot_dot(), j) && (j == 0 || p@[j - 1] == '/') && (j + 2
                == p.len() || p@[j + 2] == '/')) by {
            if j >= p.len() {
            }
        }
    }
    false
}

} // verus!
