//! Matching manufacturer part numbers against file names and file contents.
use vstd::prelude::*;
use crate::text::{
    ascii_alnum_char, ascii_lower, ascii_lower_char, chars_of, contains_chars, contains_seq,
    is_ascii_alnum, lower_chars, lower_seq, occurs_at, string_of,
};

verus! {

/// The ASCII letters and digits of `s`, lower-cased, in order.
pub open spec fn normalized(s: Seq<char>) -> Seq<char>
    decreases s.len(),
{
    if s.len() == 0 {
        Seq::empty()
    } else {
        let p = normalized(s.drop_last());
        if is_ascii_alnum(s.last()) {
            p.push(ascii_lower(s.last()))
        } else {
            p
        }
    }
}

/// A text names a part: ignoring ASCII case, the part number occurs in it
/// as written, or its letters and digits occur among the text's letters
/// and digits.
pub open spec fn part_matches(haystack: Seq<char>, needle: Seq<char>) -> bool {
    let h = lower_seq(haystack);
    let n = lower_seq(needle);
    contains_seq(h, n) || contains_seq(normalized(h), normalized(n))
}

/// Keeps the ASCII letters and digits of `input`, lower-cased.
pub fn normalize_chars(input: &Vec<char>) -> (r: Vec<char>)
    ensures
        r@ == normalized(input@),
{
    let mut out: Vec<char> = Vec::new();
    let mut i: usize = 0;
    while i < input.len()
        invariant
            i <= input.len(),
            out@ == normalized(input@.take(i as int)),
        decreases input.len() - i,
    {
        let c = input[i];
        assert(input@.take(i + 1).drop_last() =~= input@.take(i as int));
        if ascii_alnum_char(c) {
            out.push(ascii_lower_char(c));
        }
        i += 1;
    }
    assert(input@.take(input.len() as int) =~= input@);
    out
}

/// Keeps the ASCII letters and digits of `input`, lower-cased.
pub fn normalize_for_match(input: &str) -> (r: String)
    ensures
        r@ == normalized(input@),
{
    let v = chars_of(input);
    let n = normalize_chars(&v);
    string_of(n.as_slice())
}

/// Whether `haystack` names the part `needle` (see `part_matches`).
pub fn matches_part(haystack: &str, needle: &str) -> (r: bool)
    ensures
        r == part_matches(haystack@, needle@),
{
    let h = lower_chars(&chars_of(haystack));
    let n = lower_chars(&chars_of(needle));
    if contains_chars(&h, &n) {
        return true;
    }
    contains_chars(&normalize_chars(&h), &normalize_chars(&n))
}

// ---------------------------------------------------------------------------
// Laws
// ---------------------------------------------------------------------------

proof fn lemma_lower_idempotent(s: Seq<char>)
    ensures
        lower_seq(lower_seq(s)) == lower_seq(s),
{
    assert(lower_seq(lower_seq(s)) =~= lower_seq(s));
}

proof fn lemma_lower_concat(a: Seq<char>, b: Seq<char>)
    ensures
        lower_seq(a + b) == lower_seq(a) + lower_seq(b),
{
    assert(lower_seq(a + b) =~= lower_seq(a) + lower_seq(b));
}

proof fn lemma_normalized_concat(a: Seq<char>, b: Seq<char>)
    ensures
        normalized(a + b) == normalized(a) + normalized(b),
    decreases b.len(),
{
    if b.len() == 0 {
        assert(a + b =~= a);
        assert(normalized(a) + normalized(b) =~= normalized(a));
    } else {
        assert((a + b).drop_last() =~= a + b.drop_last());
        lemma_normalized_concat(a, b.drop_last());
        assert((a + b).last() == b.last());
        if is_ascii_alnum(b.last()) {
            assert(normalized(a + b) =~= normalized(a) + normalized(b));
        } else {
            assert(normalized(a + b) =~= normalized(a) + normalized(b));
        }
    }
}

proof fn lemma_normalized_of_lower(s: Seq<char>)
    ensures
        normalized(lower_seq(s)) == normalized(s),
    decreases s.len(),
{
    if s.len() > 0 {
        assert(lower_seq(s).drop_last() =~= lower_seq(s.drop_last()));
        lemma_normalized_of_lower(s.drop_last());
    }
}

proof fn lemma_contains_in_middle(a: Seq<char>, h: Seq<char>, b: Seq<char>, n: Seq<char>)
    requires
        contains_seq(h, n),
    ensures
        contains_seq(a + h + b, n),
{
    let i = choose|i: int| occurs_at(h, n, i);
    assert((a + h + b).subrange(a.len() + i, a.len() + i + n.len()) =~= h.subrange(i, i + n.len()));
    assert(occurs_at(a + h + b, n, a.len() + i));
}

/// Every part number names itself.
pub proof fn law_part_matches_itself(s: Seq<char>)
    ensures
        part_matches(s, s),
{
    let h = lower_seq(s);
    assert(h.subrange(0, h.len() as int) =~= h);
    assert(occurs_at(h, h, 0));
}

/// Matching ignores ASCII case on both sides.
pub proof fn law_part_matches_ignores_case(haystack: Seq<char>, needle: Seq<char>)
    ensures
        part_matches(lower_seq(haystack), needle) == part_matches(haystack, needle),
        part_matches(haystack, lower_seq(needle)) == part_matches(haystack, needle),
{
    lemma_lower_idempotent(haystack);
    lemma_lower_idempotent(needle);
}

/// A text that names a part still names it when embedded in a longer text.
pub proof fn law_part_matches_in_longer_text(
    before: Seq<char>,
    haystack: Seq<char>,
    after: Seq<char>,
    needle: Seq<char>,
)
    requires
        part_matches(haystack, needle),
    ensures
        part_matches(before + haystack + after, needle),
{
    let h = lower_seq(haystack);
    let n = lower_seq(needle);
    lemma_lower_concat(before + haystack, after);
    lemma_lower_concat(before, haystack);
    let whole = lower_seq(before + haystack + after);
    assert(whole == lower_seq(before) + h + lower_seq(after));
    if contains_seq(h, n) {
        lemma_contains_in_middle(lower_seq(before), h, lower_seq(after), n);
    } else {
        lemma_normalized_concat(lower_seq(before) + h, lower_seq(after));
        lemma_normalized_concat(lower_seq(before), h);
        lemma_contains_in_middle(
            normalized(lower_seq(before)),
            normalized(h),
            normalized(lower_seq(after)),
            normalized(n),
        );
    }
}

/// A text names a part exactly when its ASCII letters and digits, in lower
/// case, hold those of the part number: case, spaces and punctuation on
/// either side make no difference.
pub proof fn law_part_matches_by_letters_and_digits(haystack: Seq<char>, needle: Seq<char>)
    ensures
        part_matches(haystack, needle) <==> contains_seq(normalized(haystack), normalized(needle)),
{
    lemma_normalized_of_lower(haystack);
    lemma_normalized_of_lower(needle);
    let h = lower_seq(haystack);
    let n = lower_seq(needle);
    if contains_seq(h, n) {
        let i = choose|i: int| occurs_at(h, n, i);
        let a = h.take(i);
        let b = h.skip(i + n.len());
        assert(h =~= a + n + b);
        lemma_normalized_concat(a + n, b);
        lemma_normalized_concat(a, n);
        assert(contains_seq(normalized(n), normalized(n))) by {
            assert(normalized(n).subrange(0, normalized(n).len() as int) =~= normalized(n));
            assert(occurs_at(normalized(n), normalized(n), 0));
        }
        lemma_contains_in_middle(normalized(a), normalized(n), normalized(b), normalized(n));
        assert(normalized(a + n + b) == normalized(a) + normalized(n) + normalized(b));
    }
}

/// Normalising a normalised text changes nothing.
pub proof fn law_normalize_idempotent(s: Seq<char>)
    ensures
        normalized(normalized(s)) == normalized(s),
    decreases s.len(),
{
    if s.len() > 0 {
        law_normalize_idempotent(s.drop_last());
        let p = normalized(s.drop_last());
        if is_ascii_alnum(s.last()) {
            let c = ascii_lower(s.last());
            assert(p.push(c).drop_last() =~= p);
            assert(is_ascii_alnum(c));
            assert(ascii_lower(c) == c);
        }
    }
}

} // verus!
