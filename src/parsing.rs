//! Quoted strings of the stylesheet grammar.
use vstd::prelude::*;
use vstd::string::*;

verus! {

/// Whether `t` may stand between two `q` quotes: no quote, no line break,
/// and each backslash starts one of the escapes `\n` and `\r`, which are
/// kept as written.
pub open spec fn valid_body(t: Seq<char>, q: char) -> bool {
    forall|k: int|
        0 <= k < t.len() ==> #[trigger] t[k] != q && t[k] != '\n' && t[k] != '\r' && (t[k] == '\\'
            ==> k + 1 < t.len() && (t[k + 1] == 'n' || t[k + 1] == 'r'))
}

/// `s` starts with a string quoted by `"` or `'` that ends at `j`.
pub open spec fn quoted_at(s: Seq<char>, j: int) -> bool {
    &&& s.len() > 0
    &&& s[0] == '"' || s[0] == '\''
    &&& 1 <= j < s.len()
    &&& s[j] == s[0]
    &&& valid_body(s.subrange(1, j), s[0])
}

/// Parse a quoted string at the start of `input`: the result is the rest of
/// the input and the text between the quotes.
pub fn string(input: &str) -> (r: Option<(&str, String)>)
    ensures
        match r {
            Some((rest, body)) => exists|j: int|
                quoted_at(input@, j) && rest@ == input@.subrange(j + 1, input@.len() as int)
                    && body@ == input@.subrange(1, j),
            None => forall|j: int| !quoted_at(input@, j),
        },
{
    let n = input.unicode_len();
    if n == 0 {
        return None;
    }
    let q = input.get_char(0);
    if q != '"' && q != '\'' {
        return None;
    }
    let mut i: usize = 1;
    while i < n
        invariant
            n == input@.len(),
            q == input@[0],
            q == '"' || q == '\'',
            1 <= i <= n,
            valid_body(input@.subrange(1, i as int), q),
        decreases n - i,
    {
        let c = input.get_char(i);
        if c == q {
            assert(quoted_at(input@, i as int));
            let body = input.substring_char(1, i).to_owned();
            let rest = input.substring_char(i + 1, n);
            return Some((rest, body));
        }
        if c == '\n' || c == '\r' {
            assert forall|j: int| !quoted_at(input@, j) by {
                if quoted_at(input@, j) {
                    if j > i {
                        assert(input@.subrange(1, j)[i - 1] == c);
                    } else if j < i {
                        assert(input@.subrange(1, i as int)[j - 1] == input@[j]);
                    }
                }
            }
            return None;
        }
        if c == '\\' {
            if i + 1 < n && (input.get_char(i + 1) == 'n' || input.get_char(i + 1) == 'r') {
                assert(valid_body(input@.subrange(1, i + 2), q)) by {
                    assert forall|k: int| 0 <= k < i + 1 implies #[trigger] input@.subrange(1, i + 2)[k] == input@.subrange(1, i as int + 2)[k] by {}
                    assert forall|k: int| 0 <= k < i - 1 implies #[trigger] input@.subrange(1, i + 2)[k] == input@.subrange(1, i as int)[k] by {}
                }
                i += 2;
            } else {
                assert forall|j: int| !quoted_at(input@, j) by {
                    if quoted_at(input@, j) {
                        if j > i {
                            assert(input@.subrange(1, j)[i - 1] == c);
                        } else if j < i {
                            assert(input@.subrange(1, i as int)[j - 1] == input@[j]);
                        }
                    }
                }
                return None;
            }
        } else {
            assert(valid_body(input@.subrange(1, i + 1), q)) by {
                assert forall|k: int| 0 <= k < i - 1 implies #[trigger] input@.subrange(1, i + 1)[k] == input@.subrange(1, i as int)[k] by {}
            }
            i += 1;
        }
    }
    assert forall|j: int| !quoted_at(input@, j) by {
        if quoted_at(input@, j) {
            assert(input@.subrange(1, i as int)[j - 1] == input@[j]);
        }
    }
    None
}

} // verus!
