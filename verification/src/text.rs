//! Character-level groundwork: white space, trimming and searching.

use vstd::prelude::*;

verus! {

/// Taken on trust from the standard library: `String::push` appends the
/// character to the end of the string and leaves the rest as it was.
pub assume_specification[ String::push ](s: &mut String, c: char)
    ensures
        final(s)@ == old(s)@.push(c),
;

/// Whether `c` is white space: a character with the Unicode property
/// `White_Space`.
pub open spec fn is_space(c: char) -> bool {
    ||| '\u{9}' <= c <= '\u{d}'
    ||| c == ' '
    ||| c == '\u{85}'
    ||| c == '\u{a0}'
    ||| c == '\u{1680}'
    ||| '\u{2000}' <= c <= '\u{200a}'
    ||| c == '\u{2028}'
    ||| c == '\u{2029}'
    ||| c == '\u{202f}'
    ||| c == '\u{205f}'
    ||| c == '\u{3000}'
}

/// The number of white-space characters that `s` starts with.
pub open spec fn leading_spaces(s: Seq<char>) -> nat
    decreases s.len(),
{
    if s.len() > 0 && is_space(s[0]) {
        1 + leading_spaces(s.drop_first())
    } else {
        0
    }
}

/// The number of white-space characters that `s` ends with.
pub open spec fn trailing_spaces(s: Seq<char>) -> nat
    decreases s.len(),
{
    if s.len() > 0 && is_space(s.last()) {
        1 + trailing_spaces(s.drop_last())
    } else {
        0
    }
}

/// `s` without the white space at its two ends.
pub open spec fn trim(s: Seq<char>) -> Seq<char> {
    let rest = s.skip(leading_spaces(s) as int);
    rest.take(rest.len() - trailing_spaces(rest))
}

/// The first position of `s` that holds `a` or `b`; the length of `s` where
/// neither occurs.
pub open spec fn first_of(s: Seq<char>, a: char, b: char) -> int
    decreases s.len(),
{
    if s.len() == 0 || s[0] == a || s[0] == b {
        0
    } else {
        1 + first_of(s.drop_first(), a, b)
    }
}

pub proof fn lemma_leading_spaces_bound(s: Seq<char>)
    ensures
        leading_spaces(s) <= s.len(),
    decreases s.len(),
{
    if s.len() > 0 && is_space(s[0]) {
        lemma_leading_spaces_bound(s.drop_first());
    }
}

pub proof fn lemma_trailing_spaces_bound(s: Seq<char>)
    ensures
        trailing_spaces(s) <= s.len(),
    decreases s.len(),
{
    if s.len() > 0 && is_space(s.last()) {
        lemma_trailing_spaces_bound(s.drop_last());
    }
}

/// What `first_of` finds: nothing before it is `a` or `b`, and it is one
/// of them unless it is the end.
pub proof fn lemma_first_of(s: Seq<char>, a: char, b: char)
    ensures
        0 <= first_of(s, a, b) <= s.len(),
        forall|i: int| 0 <= i < first_of(s, a, b) ==> s[i] != a && s[i] != b,
        first_of(s, a, b) < s.len() ==> s[first_of(s, a, b)] == a || s[first_of(s, a, b)] == b,
    decreases s.len(),
{
    if s.len() == 0 || s[0] == a || s[0] == b {
    } else {
        let rest = s.drop_first();
        lemma_first_of(rest, a, b);
        assert forall|i: int| 0 <= i < first_of(s, a, b) implies s[i] != a && s[i] != b by {
            if i > 0 {
                assert(s[i] == rest[i - 1]);
            }
        }
    }
}

/// A trimmed text neither starts nor ends with white space, and trimming
/// only takes white space away.
pub proof fn lemma_trim(s: Seq<char>)
    ensures
        trim(s).len() <= s.len(),
        trim(s).len() > 0 ==> !is_space(trim(s)[0]) && !is_space(trim(s).last()),
        trim(s).len() == 0 <==> forall|i: int| 0 <= i < s.len() ==> is_space(s[i]),
{
    lemma_leading_spaces_bound(s);
    let a = leading_spaces(s) as int;
    let rest = s.skip(a);
    lemma_trailing_spaces_bound(rest);
    lemma_leading_spaces_are(s);
    lemma_trailing_spaces_are(rest);
    let t = trim(s);
    if t.len() > 0 {
        assert(t[0] == rest[0]);
        assert(t.last() == rest[rest.len() - trailing_spaces(rest) - 1]);
        assert(rest[0] == s[a]);
    }
    if t.len() == 0 {
        assert forall|i: int| 0 <= i < s.len() implies is_space(s[i]) by {
            if i >= a {
                assert(rest[i - a] == s[i]);
            }
        }
    } else {
        assert(!is_space(s[a]));
    }
}

pub proof fn lemma_leading_spaces_are(s: Seq<char>)
    ensures
        forall|i: int| 0 <= i < leading_spaces(s) ==> is_space(s[i]),
        leading_spaces(s) < s.len() ==> !is_space(s[leading_spaces(s) as int]),
    decreases s.len(),
{
    if s.len() > 0 && is_space(s[0]) {
        let rest = s.drop_first();
        lemma_leading_spaces_are(rest);
        lemma_leading_spaces_bound(rest);
        assert forall|i: int| 0 <= i < leading_spaces(s) implies is_space(s[i]) by {
            if i > 0 {
                assert(s[i] == rest[i - 1]);
            }
        }
    }
}

pub proof fn lemma_trailing_spaces_are(s: Seq<char>)
    ensures
        forall|i: int| s.len() - trailing_spaces(s) <= i < s.len() ==> is_space(s[i]),
        trailing_spaces(s) < s.len() ==> !is_space(s[s.len() - trailing_spaces(s) - 1]),
    decreases s.len(),
{
    if s.len() > 0 && is_space(s.last()) {
        let rest = s.drop_last();
        lemma_trailing_spaces_are(rest);
        lemma_trailing_spaces_bound(rest);
        assert forall|i: int| s.len() - trailing_spaces(s) <= i < s.len() implies is_space(
            s[i],
        ) by {
            if i < s.len() - 1 {
                assert(s[i] == rest[i]);
            }
        }
    }
}

/// Every character of a trimmed text is a character of the text.
pub proof fn lemma_trim_within(s: Seq<char>, i: int)
    requires
        0 <= i < trim(s).len(),
    ensures
        0 <= leading_spaces(s) + i < s.len(),
        trim(s)[i] == s[leading_spaces(s) + i],
{
    lemma_leading_spaces_bound(s);
    lemma_trailing_spaces_bound(s.skip(leading_spaces(s) as int));
}

/// Whether `c` is white space.
pub(crate) fn char_is_space(c: char) -> (b: bool)
    ensures
        b == is_space(c),
{
    ('\u{9}' <= c && c <= '\u{d}') || c == ' ' || c == '\u{85}' || c == '\u{a0}' || c
        == '\u{1680}' || ('\u{2000}' <= c && c <= '\u{200a}') || c == '\u{2028}' || c
        == '\u{2029}' || c == '\u{202f}' || c == '\u{205f}' || c == '\u{3000}'
}

/// The characters of `s`, in order.
pub(crate) fn chars_of(s: &str) -> (out: Vec<char>)
    ensures
        out@ == s@,
{
    let mut out: Vec<char> = Vec::new();
    for c in it: s.chars()
        invariant
            out@ == it.seq().take(it.index() as int),
            it.seq() == s@,
    {
        out.push(c);
    }
    out
}

/// The text made of the characters `s`.
pub(crate) fn string_of(s: &[char]) -> (out: String)
    ensures
        out@ == s@,
{
    let mut out = String::new();
    let mut i: usize = 0;
    while i < s.len()
        invariant
            i <= s.len(),
            out@ == s@.take(i as int),
        decreases s.len() - i,
    {
        out.push(s[i]);
        i += 1;
    }
    out
}

/// The bounds of `trim(s)` within `s`.
pub(crate) fn trim_bounds(s: &[char]) -> (r: (usize, usize))
    ensures
        r.0 <= r.1 <= s@.len(),
        s@.subrange(r.0 as int, r.1 as int) == trim(s@),
{
    let n = s.len();
    let mut a: usize = 0;
    assert(s@.skip(0) == s@);
    while a < n && char_is_space(s[a])
        invariant
            a <= n == s@.len(),
            leading_spaces(s@) == a + leading_spaces(s@.skip(a as int)),
        decreases n - a,
    {
        assert(s@.skip(a as int).drop_first() == s@.skip(a + 1));
        a += 1;
    }
    let ghost rest = s@.skip(a as int);
    assert(leading_spaces(rest) == 0);
    let mut b: usize = n;
    assert(rest.take(n - a) == rest);
    while b > a && char_is_space(s[b - 1])
        invariant
            a <= b <= n == s@.len(),
            rest == s@.skip(a as int),
            trailing_spaces(rest) == (n - b) + trailing_spaces(rest.take(b - a)),
        decreases b,
    {
        assert(rest.take(b - a).last() == s@[b - 1]);
        assert(rest.take(b - a).drop_last() == rest.take(b - a - 1));
        b -= 1;
    }
    proof {
        assert(rest.take(n - a) == rest);
        if b > a {
            assert(rest.take(b - a).last() == s@[b - 1]);
        }
        assert(trailing_spaces(rest.take(b - a)) == 0);
        assert(s@.subrange(a as int, b as int) == rest.take(b - a));
    }
    (a, b)
}

/// The first position at or after `from` that holds `a` or `b`, or the
/// length of `s`.
pub(crate) fn find_either(s: &[char], from: usize, a: char, b: char) -> (k: usize)
    requires
        from <= s@.len(),
    ensures
        from <= k <= s@.len(),
        k == from + first_of(s@.skip(from as int), a, b),
{
    let n = s.len();
    let mut k: usize = from;
    while k < n && s[k] != a && s[k] != b
        invariant
            from <= k <= n == s@.len(),
            first_of(s@.skip(from as int), a, b) == (k - from) + first_of(s@.skip(k as int), a, b),
        decreases n - k,
    {
        assert(s@.skip(k as int).drop_first() == s@.skip(k + 1));
        k += 1;
    }
    k
}

} // verus!
