//! Ordering texts as `str` orders them, and keeping sorted lists of
//! distinct texts.
use vstd::prelude::*;

verus! {

/// `a` comes before `b` in the order of `str`: by code point, a proper
/// prefix first (UTF-8 keeps code point order, so this is the byte order).
pub open spec fn text_lt(a: Seq<char>, b: Seq<char>) -> bool
    decreases a.len(),
{
    if a.len() == 0 {
        b.len() > 0
    } else if b.len() == 0 {
        false
    } else if a[0] != b[0] {
        (a[0] as u32) < (b[0] as u32)
    } else {
        text_lt(a.drop_first(), b.drop_first())
    }
}

/// Every text comes before the later ones.
pub open spec fn strictly_sorted(s: Seq<Seq<char>>) -> bool {
    forall|i: int, j: int| 0 <= i < j < s.len() ==> text_lt(#[trigger] s[i], #[trigger] s[j])
}

pub proof fn lemma_text_lt_irreflexive(a: Seq<char>)
    ensures
        !text_lt(a, a),
    decreases a.len(),
{
    if a.len() > 0 {
        lemma_text_lt_irreflexive(a.drop_first());
    }
}

pub proof fn lemma_text_lt_transitive(a: Seq<char>, b: Seq<char>, c: Seq<char>)
    requires
        text_lt(a, b),
        text_lt(b, c),
    ensures
        text_lt(a, c),
    decreases a.len(),
{
    if a.len() > 0 && b.len() > 0 && c.len() > 0 {
        if a[0] == b[0] && b[0] == c[0] {
            lemma_text_lt_transitive(a.drop_first(), b.drop_first(), c.drop_first());
        }
    }
}

pub proof fn lemma_text_lt_total(a: Seq<char>, b: Seq<char>)
    ensures
        a == b || text_lt(a, b) || text_lt(b, a),
    decreases a.len(),
{
    if a.len() > 0 && b.len() > 0 && a[0] == b[0] {
        lemma_text_lt_total(a.drop_first(), b.drop_first());
        if a.drop_first() == b.drop_first() {
            assert(a =~= seq![a[0]] + a.drop_first());
            assert(b =~= seq![b[0]] + b.drop_first());
        }
    } else if a.len() == 0 && b.len() == 0 {
        assert(a =~= b);
    } else if a.len() > 0 && b.len() > 0 {
        if (a[0] as u32) == (b[0] as u32) {
            vstd::utf8::char_u32_cast(a[0], a[0] as u32);
            vstd::utf8::char_u32_cast(b[0], b[0] as u32);
        }
    }
}

pub proof fn lemma_text_lt_asymmetric(a: Seq<char>, b: Seq<char>)
    requires
        text_lt(a, b),
    ensures
        !text_lt(b, a),
{
    if text_lt(b, a) {
        lemma_text_lt_transitive(a, b, a);
        lemma_text_lt_irreflexive(a);
    }
}

/// Whether `a` comes before `b`.
pub fn text_less(a: &Vec<char>, b: &Vec<char>) -> (r: bool)
    ensures
        r == text_lt(a@, b@),
{
    let mut i: usize = 0;
    proof {
        assert(a@.skip(0) =~= a@);
        assert(b@.skip(0) =~= b@);
    }
    while i < a.len() && i < b.len() && a[i] == b[i]
        invariant
            i <= a.len(),
            i <= b.len(),
            text_lt(a@, b@) == text_lt(a@.skip(i as int), b@.skip(i as int)),
        decreases a.len() - i,
    {
        assert(a@.skip(i as int).drop_first() =~= a@.skip(i + 1));
        assert(b@.skip(i as int).drop_first() =~= b@.skip(i + 1));
        i += 1;
    }
    proof {
        if i < a.len() {
            assert(a@.skip(i as int)[0] == a@[i as int]);
        }
        if i < b.len() {
            assert(b@.skip(i as int)[0] == b@[i as int]);
        }
    }
    if i == a.len() {
        i < b.len()
    } else if i == b.len() {
        false
    } else {
        (a[i] as u32) < (b[i] as u32)
    }
}

/// Putting `x` at a place `p` between the texts before it and the text after
/// it keeps a sorted list of distinct texts sorted, and adds `x` to its texts.
pub proof fn lemma_insert_at_place(s: Seq<Seq<char>>, p: int, x: Seq<char>)
    requires
        strictly_sorted(s),
        0 <= p <= s.len(),
        forall|i: int| 0 <= i < p ==> text_lt(#[trigger] s[i], x),
        p < s.len() ==> text_lt(x, s[p]),
    ensures
        strictly_sorted(s.insert(p, x)),
        s.insert(p, x).to_set() == s.to_set().insert(x),
{
    let t = s.insert(p, x);
    assert forall|i: int, j: int| 0 <= i < j < t.len() implies text_lt(#[trigger] t[i], #[trigger] t[j]) by {
        if j < p {
            assert(t[i] == s[i] && t[j] == s[j]);
        } else if j == p {
            assert(t[i] == s[i]);
        } else if i == p {
            assert(t[j] == s[j - 1]);
            if j - 1 > p {
                lemma_text_lt_transitive(x, s[p], s[j - 1]);
            }
        } else if i < p {
            assert(t[i] == s[i] && t[j] == s[j - 1]);
            lemma_text_lt_transitive(s[i], x, s[p]);
            if j - 1 > p {
                lemma_text_lt_transitive(s[i], s[p], s[j - 1]);
            }
        } else {
            assert(t[i] == s[i - 1] && t[j] == s[j - 1]);
        }
    }
    assert forall|y: Seq<char>| t.to_set().contains(y) <==> s.to_set().insert(x).contains(y) by {
        if t.to_set().contains(y) {
            let k = choose|k: int| 0 <= k < t.len() && t[k] == y;
            if k < p {
                assert(s[k] == y);
            } else if k > p {
                assert(s[k - 1] == y);
            }
        }
        if s.to_set().contains(y) {
            let k = choose|k: int| 0 <= k < s.len() && s[k] == y;
            if k < p {
                assert(t[k] == y);
            } else {
                assert(t[k + 1] == y);
            }
        }
        if y == x {
            assert(t[p] == y);
        }
    }
    assert(t.to_set() =~= s.to_set().insert(x));
}

/// Adds `x` to a sorted list of distinct texts, keeping it sorted and
/// distinct.
pub fn insert_sorted(v: &mut Vec<Vec<char>>, x: Vec<char>)
    requires
        strictly_sorted(old(v).deep_view()),
    ensures
        strictly_sorted(final(v).deep_view()),
        final(v).deep_view().to_set() == old(v).deep_view().to_set().insert(x@),
{
    let ghost s = v.deep_view();
    let mut p: usize = 0;
    while p < v.len() && text_less(&v[p], &x)
        invariant
            p <= v.len(),
            v.deep_view() == s,
            forall|i: int| 0 <= i < p ==> text_lt(#[trigger] s[i], x@),
        decreases v.len() - p,
    {
        assert(s[p as int] == v[p as int]@);
        p += 1;
    }
    if p < v.len() && crate::text::chars_eq(&v[p], &x) {
        assert(s[p as int] == x@);
        assert(s.to_set().insert(x@) =~= s.to_set());
        return;
    }
    proof {
        if p < v.len() {
            assert(s[p as int] == v[p as int]@);
            lemma_text_lt_total(s[p as int], x@);
        }
        lemma_insert_at_place(s, p as int, x@);
    }
    let ghost xv = x@;
    assert(x.deep_view() =~= x@);
    v.insert(p, x);
    assert(v.deep_view() =~= s.insert(p as int, xv));
}

/// Adds `x` to a sorted list of distinct strings, keeping it sorted and
/// distinct (a set of strings in its order).
pub fn insert_text(v: &mut Vec<String>, x: String)
    requires
        strictly_sorted(old(v).deep_view()),
    ensures
        strictly_sorted(final(v).deep_view()),
        final(v).deep_view().to_set() == old(v).deep_view().to_set().insert(x@),
        final(v).len() <= old(v).len() + 1,
{
    let ghost s = v.deep_view();
    let xc = crate::text::chars_of(x.as_str());
    let mut p: usize = 0;
    while p < v.len() && text_less(&crate::text::chars_of(v[p].as_str()), &xc)
        invariant
            p <= v.len(),
            v.deep_view() == s,
            xc@ == x@,
            forall|i: int| 0 <= i < p ==> text_lt(#[trigger] s[i], x@),
        decreases v.len() - p,
    {
        assert(s[p as int] == v[p as int]@);
        p += 1;
    }
    if p < v.len() && v[p] == x {
        assert(s[p as int] == x@);
        assert(s.to_set().insert(x@) =~= s.to_set());
        return;
    }
    proof {
        if p < v.len() {
            assert(s[p as int] == v[p as int]@);
            lemma_text_lt_total(s[p as int], x@);
        }
        lemma_insert_at_place(s, p as int, x@);
    }
    let ghost xv = x@;
    v.insert(p, x);
    assert(v.deep_view() =~= s.insert(p as int, xv));
}

/// Two sorted lists of distinct texts with the same texts are the same list.
pub proof fn law_sorted_distinct_unique(a: Seq<Seq<char>>, b: Seq<Seq<char>>)
    requires
        strictly_sorted(a),
        strictly_sorted(b),
        a.to_set() == b.to_set(),
    ensures
        a == b,
    decreases a.len(),
{
    if a.len() == 0 {
        if b.len() > 0 {
            assert(b.to_set().contains(b[0]));
        }
        assert(a =~= b);
    } else if b.len() == 0 {
        assert(a.to_set().contains(a[0]));
    } else {
        // The first elements are each set's least element.
        assert(a.to_set().contains(a[0]));
        assert(b.to_set().contains(b[0]));
        let ka = choose|k: int| 0 <= k < b.len() && b[k] == a[0];
        let kb = choose|k: int| 0 <= k < a.len() && a[k] == b[0];
        if ka > 0 {
            assert(text_lt(b[0], b[ka]));
            if kb > 0 {
                assert(text_lt(a[0], a[kb]));
                lemma_text_lt_asymmetric(a[0], b[0]);
            } else {
                lemma_text_lt_irreflexive(b[0]);
            }
        } else if kb > 0 {
            lemma_text_lt_irreflexive(a[0]);
        }
        assert(a[0] == b[0]);
        let ar = a.drop_first();
        let br = b.drop_first();
        assert forall|y: Seq<char>| ar.to_set().contains(y) <==> br.to_set().contains(y) by {
            if ar.to_set().contains(y) {
                let k = choose|k: int| 0 <= k < ar.len() && ar[k] == y;
                assert(a[k + 1] == y);
                assert(a.to_set().contains(y));
                assert(b.to_set().contains(y));
                let m = choose|m: int| 0 <= m < b.len() && b[m] == y;
                assert(text_lt(a[0], a[k + 1]));
                if m == 0 {
                    lemma_text_lt_irreflexive(y);
                }
                assert(br[m - 1] == y);
            }
            if br.to_set().contains(y) {
                let k = choose|k: int| 0 <= k < br.len() && br[k] == y;
                assert(b[k + 1] == y);
                assert(b.to_set().contains(y));
                assert(a.to_set().contains(y));
                let m = choose|m: int| 0 <= m < a.len() && a[m] == y;
                assert(text_lt(b[0], b[k + 1]));
                if m == 0 {
                    lemma_text_lt_irreflexive(y);
                }
                assert(ar[m - 1] == y);
            }
        }
        assert(ar.to_set() =~= br.to_set());
        assert forall|i: int, j: int| 0 <= i < j < ar.len() implies text_lt(#[trigger] ar[i], #[trigger] ar[j]) by {
            assert(ar[i] == a[i + 1] && ar[j] == a[j + 1]);
        }
        assert forall|i: int, j: int| 0 <= i < j < br.len() implies text_lt(#[trigger] br[i], #[trigger] br[j]) by {
            assert(br[i] == b[i + 1] && br[j] == b[j + 1]);
        }
        law_sorted_distinct_unique(ar, br);
        assert(a =~= seq![a[0]] + ar);
        assert(b =~= seq![b[0]] + br);
    }
}

} // verus!
