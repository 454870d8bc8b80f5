//! Comparisons of strings by their characters.
use vstd::prelude::*;
use vstd::string::*;

verus! {

/// Whether two strings hold the same characters.
pub fn str_eq(a: &str, b: &str) -> (r: bool)
    ensures
        r == (a@ == b@),
{
    let n = a.unicode_len();
    if n != b.unicode_len() {
        return false;
    }
    let mut i: usize = 0;
    while i < n
        invariant
            n == a@.len(),
            n == b@.len(),
            0 <= i <= n,
            a@.subrange(0, i as int) == b@.subrange(0, i as int),
        decreases n - i,
    {
        if a.get_char(i) != b.get_char(i) {
            return false;
        }
        assert(a@.subrange(0, i + 1) == a@.subrange(0, i as int).push(a@[i as int]));
        assert(b@.subrange(0, i + 1) == b@.subrange(0, i as int).push(b@[i as int]));
        i += 1;
    }
    assert(a@ == a@.subrange(0, n as int));
    assert(b@ == b@.subrange(0, n as int));
    true
}

/// Whether some string of `list` holds the same characters as `s`.
pub fn contains_str(list: &[&str], s: &str) -> (r: bool)
    ensures
        r == exists|i: int| 0 <= i < list@.len() && (#[trigger] list@[i])@ == s@,
{
    let mut i: usize = 0;
    while i < list.len()
        invariant
            0 <= i <= list@.len(),
            forall|j: int| 0 <= j < i ==> (#[trigger] list@[j])@ != s@,
        decreases list@.len() - i,
    {
        if str_eq(list[i], s) {
            return true;
        }
        i += 1;
    }
    false
}

/// Whether `c` is white space in Unicode, as `char::is_whitespace` counts it.
pub open spec fn is_ws(c: char) -> bool {
    ('\u{9}' <= c <= '\u{d}') || c == ' ' || c == '\u{85}' || c == '\u{a0}' || c == '\u{1680}'
        || ('\u{2000}' <= c <= '\u{200a}') || c == '\u{2028}' || c == '\u{2029}' || c
        == '\u{202f}' || c == '\u{205f}' || c == '\u{3000}'
}

/// Whether `c` is white space in Unicode.
pub fn is_whitespace(c: char) -> (r: bool)
    ensures
        r == is_ws(c),
{
    ('\u{9}' <= c && c <= '\u{d}') || c == ' ' || c == '\u{85}' || c == '\u{a0}' || c == '\u{1680}'
        || ('\u{2000}' <= c && c <= '\u{200a}') || c == '\u{2028}' || c == '\u{2029}' || c
        == '\u{202f}' || c == '\u{205f}' || c == '\u{3000}'
}

/// `s[p..q]` is a word of `s`: a longest non-empty run without white space.
pub open spec fn word_at(s: Seq<char>, p: int, q: int) -> bool {
    &&& 0 <= p < q <= s.len()
    &&& p == 0 || is_ws(s[p - 1])
    &&& q == s.len() || is_ws(s[q])
    &&& forall|k: int| p <= k < q ==> !is_ws(#[trigger] s[k])
}

/// Whether `w` is one of the words of `s`, as `str::split_whitespace` splits.
pub open spec fn has_word(s: Seq<char>, w: Seq<char>) -> bool {
    exists|p: int, q: int| word_at(s, p, q) && s.subrange(p, q) == w
}

/// Whether `w` is one of the white-space separated words of `s`.
pub fn contains_word(s: &str, w: &str) -> (r: bool)
    ensures
        r == has_word(s@, w@),
{
    let n = s.unicode_len();
    let mut i: usize = 0;
    let mut start: usize = 0;
    let mut in_word = false;
    while i < n
        invariant
            n == s@.len(),
            0 <= i <= n,
            in_word ==> start < i && (start == 0 || is_ws(s@[start - 1])) && forall|k: int|
                start <= k < i ==> !is_ws(#[trigger] s@[k]),
            !in_word ==> i == 0 || is_ws(s@[i - 1]),
            forall|p: int, q: int| word_at(s@, p, q) && q < i ==> s@.subrange(p, q) != w@,
        decreases n - i,
    {
        let c = s.get_char(i);
        if is_whitespace(c) {
            if in_word {
                let word = s.substring_char(start, i);
                if str_eq(word, w) {
                    assert(word_at(s@, start as int, i as int));
                    return true;
                }
                assert forall|p: int, q: int| word_at(s@, p, q) && q == i implies s@.subrange(p, q) != w@ by {
                    if p < start {
                        assert(!is_ws(s@[start - 1]));
                    } else if p > start {
                        assert(!is_ws(s@[p - 1]));
                    }
                }
            } else {
                assert forall|p: int, q: int| word_at(s@, p, q) && q == i implies s@.subrange(p, q) != w@ by {
                    assert(!is_ws(s@[q - 1]));
                }
            }
            in_word = false;
        } else if !in_word {
            in_word = true;
            start = i;
        }
        i += 1;
    }
    if in_word {
        let word = s.substring_char(start, n);
        if str_eq(word, w) {
            assert(word_at(s@, start as int, n as int));
            return true;
        }
        assert forall|p: int, q: int| word_at(s@, p, q) && q == n implies s@.subrange(p, q) != w@ by {
            if p < start {
                assert(!is_ws(s@[start - 1]));
            } else if p > start {
                assert(!is_ws(s@[p - 1]));
            }
        }
    } else {
        assert forall|p: int, q: int| word_at(s@, p, q) && q == n implies s@.subrange(p, q) != w@ by {
            assert(!is_ws(s@[q - 1]));
        }
    }
    false
}

} // verus!
