//! Splitting text into lines as `str::lines` does, and trimming whitespace.

use vstd::prelude::*;
use crate::text::{push_char, views};

verus! {

/// The position of the first newline in `s`, or its length.
pub open spec fn first_nl(s: Seq<char>) -> nat
    decreases s.len(),
{
    if s.len() == 0 || s[0] == '\n' {
        0
    } else {
        1 + first_nl(s.drop_first())
    }
}

/// A line ended by a newline loses a carriage return before it.
pub open spec fn strip_cr(line: Seq<char>) -> Seq<char> {
    if line.len() > 0 && line.last() == '\r' {
        line.drop_last()
    } else {
        line
    }
}

/// The lines of `s`: split at each newline, a carriage return before the
/// newline dropped, and no empty line after a final newline.
pub open spec fn lines_of(s: Seq<char>) -> Seq<Seq<char>>
    decreases s.len(),
{
    if s.len() == 0 {
        seq![]
    } else {
        let i = first_nl(s);
        if i >= s.len() {
            seq![s]
        } else {
            seq![strip_cr(s.take(i as int))] + lines_of(s.skip(i + 1 as int))
        }
    }
}

proof fn lemma_first_nl(s: Seq<char>, j: int)
    requires
        0 <= j <= s.len(),
        forall|k: int| 0 <= k < j ==> s[k] != '\n',
        j == s.len() || s[j] == '\n',
    ensures
        first_nl(s) == j,
    decreases j,
{
    if j > 0 {
        lemma_first_nl(s.drop_first(), j - 1);
    }
}

/// The lines of `text`, as `str::lines` gives them.
pub fn split_lines(text: &str) -> (r: Vec<String>)
    ensures
        views(r@) == lines_of(text@),
{
    let n = text.unicode_len();
    let mut out: Vec<String> = Vec::new();
    let mut pos: usize = 0;
    proof {
        assert(text@.skip(0) =~= text@);
        assert(views(out@) =~= Seq::<Seq<char>>::empty());
    }
    while pos < n
        invariant
            n == text@.len(),
            pos <= n,
            views(out@) + lines_of(text@.skip(pos as int)) == lines_of(text@),
        decreases n - pos,
    {
        let mut line = String::new();
        let mut j = pos;
        while j < n && text.get_char(j) != '\n'
            invariant
                n == text@.len(),
                pos <= j <= n,
                line@ == text@.subrange(pos as int, j as int),
                forall|k: int| pos <= k < j ==> text@[k] != '\n',
            decreases n - j,
        {
            push_char(&mut line, text.get_char(j));
            j = j + 1;
            assert(line@ =~= text@.subrange(pos as int, j as int));
        }
        let ghost rest = text@.skip(pos as int);
        proof {
            lemma_first_nl(rest, j - pos);
            assert(rest.take(j - pos) =~= line@);
        }
        let ghost before = out@;
        if j == n {
            out.push(line);
            proof {
                assert(rest =~= line@);
                assert(views(out@) =~= views(before).push(line@));
                assert(text@.skip(n as int) =~= Seq::<char>::empty());
                assert(views(out@) + lines_of(text@.skip(n as int)) =~= views(before) + lines_of(rest));
            }
            pos = n;
        } else {
            let len = line.as_str().unicode_len();
            let stripped = if len > 0 && line.as_str().get_char(len - 1) == '\r' {
                let mut t = String::new();
                let mut k: usize = 0;
                while k < len - 1
                    invariant
                        len == line@.len(),
                        len > 0,
                        k <= len - 1,
                        t@ == line@.take(k as int),
                    decreases len - 1 - k,
                {
                    push_char(&mut t, line.as_str().get_char(k));
                    k = k + 1;
                    assert(t@ =~= line@.take(k as int));
                }
                assert(t@ =~= line@.drop_last());
                t
            } else {
                line
            };
            proof {
                assert(stripped@ == strip_cr(rest.take(j - pos)));
                assert(rest.skip(j - pos + 1) =~= text@.skip(j + 1));
            }
            out.push(stripped);
            proof {
                assert(views(out@) =~= views(before).push(stripped@));
                assert(views(out@) + lines_of(text@.skip(j + 1)) =~= views(before) + lines_of(rest));
            }
            pos = j + 1;
        }
    }
    proof {
        assert(text@.skip(pos as int) =~= Seq::<char>::empty());
        assert(views(out@) + Seq::<Seq<char>>::empty() =~= views(out@));
    }
    out
}

/// Unicode's White_Space property, which `char::is_whitespace` tests: tab,
/// line feed, vertical tab, form feed, carriage return, space, next line,
/// no-break space, ogham space mark, the spaces U+2000 to U+200A, the line
/// and paragraph separators, the narrow no-break space, the medium
/// mathematical space and the ideographic space.
pub open spec fn white_space(c: char) -> bool {
    ||| '\u{9}' <= c <= '\u{d}'
    ||| c == ' '
    ||| c == '\u{85}'
    ||| c == '\u{a0}'
    ||| c == '\u{1680}'
    ||| '\u{2000}' <= c <= '\u{200a}'
    ||| c == '\u{2028}'
    ||| c == '\u{2029}'
    ||| c == '\u{202f}'
    ||| c == '\u{205f}'
    ||| c == '\u{3000}'
}

/// Whether `c` is whitespace (`char::is_whitespace`).
pub(crate) fn is_white_space(c: char) -> (r: bool)
    ensures
        r == white_space(c),
{
    ('\u{9}' <= c && c <= '\u{d}') || c == ' ' || c == '\u{85}' || c == '\u{a0}' || c == '\u{1680}' || ('\u{2000}'
        <= c && c <= '\u{200a}') || c == '\u{2028}' || c == '\u{2029}' || c == '\u{202f}' || c == '\u{205f}'
        || c == '\u{3000}'
}

/// Leading whitespace characters of `s`.
pub open spec fn ws_prefix(s: Seq<char>) -> nat
    decreases s.len(),
{
    if s.len() == 0 || !white_space(s[0]) {
        0
    } else {
        1 + ws_prefix(s.drop_first())
    }
}

/// Trailing whitespace characters of `s`.
pub open spec fn ws_suffix(s: Seq<char>) -> nat
    decreases s.len(),
{
    if s.len() == 0 || !white_space(s.last()) {
        0
    } else {
        1 + ws_suffix(s.drop_last())
    }
}

/// `s` without leading and trailing whitespace (`str::trim`).
pub open spec fn trimmed(s: Seq<char>) -> Seq<char> {
    if ws_prefix(s) >= s.len() {
        seq![]
    } else {
        s.subrange(ws_prefix(s) as int, s.len() - ws_suffix(s))
    }
}

proof fn lemma_ws_prefix(s: Seq<char>, k: int)
    requires
        0 <= k <= s.len(),
        forall|i: int| 0 <= i < k ==> white_space(#[trigger] s[i]),
        k == s.len() || !white_space(s[k]),
    ensures
        ws_prefix(s) == k,
    decreases k,
{
    if k > 0 {
        lemma_ws_prefix(s.drop_first(), k - 1);
    }
}

proof fn lemma_ws_suffix(s: Seq<char>, k: int)
    requires
        0 <= k <= s.len(),
        forall|i: int| s.len() - k <= i < s.len() ==> white_space(#[trigger] s[i]),
        k == s.len() || !white_space(s[s.len() - 1 - k]),
    ensures
        ws_suffix(s) == k,
    decreases k,
{
    if k > 0 {
        lemma_ws_suffix(s.drop_last(), k - 1);
    }
}

proof fn lemma_ws_bounds(s: Seq<char>)
    ensures
        ws_prefix(s) <= s.len(),
        ws_suffix(s) <= s.len(),
        ws_prefix(s) < s.len() ==> ws_prefix(s) + ws_suffix(s) < s.len(),
    decreases s.len(),
{
    if s.len() > 0 {
        lemma_ws_bounds(s.drop_first());
        lemma_ws_bounds(s.drop_last());
    }
    if ws_prefix(s) < s.len() {
        let p = ws_prefix(s);
        let q = ws_suffix(s);
        lemma_ws_prefix_char(s);
        if p + q >= s.len() {
            lemma_ws_suffix_chars(s, s.len() - 1 - p);
        }
    }
}

proof fn lemma_ws_prefix_char(s: Seq<char>)
    ensures
        ws_prefix(s) < s.len() ==> !white_space(s[ws_prefix(s) as int]),
    decreases s.len(),
{
    if s.len() > 0 && white_space(s[0]) {
        lemma_ws_prefix_char(s.drop_first());
    }
}

proof fn lemma_ws_suffix_le(s: Seq<char>)
    ensures
        ws_suffix(s) <= s.len(),
    decreases s.len(),
{
    if s.len() > 0 {
        lemma_ws_suffix_le(s.drop_last());
    }
}

proof fn lemma_ws_suffix_chars(s: Seq<char>, k: int)
    requires
        0 <= k < ws_suffix(s),
    ensures
        white_space(s[s.len() - 1 - k]),
    decreases s.len(),
{
    lemma_ws_suffix_le(s);
    assert(s.len() > 0 && white_space(s.last()));
    if k > 0 {
        lemma_ws_suffix_le(s.drop_last());
        lemma_ws_suffix_chars(s.drop_last(), k - 1);
        assert(s.drop_last()[s.drop_last().len() - 1 - (k - 1)] == s[s.len() - 1 - k]);
    }
}

/// `s` trimmed of whitespace at both ends.
pub fn trim(s: &str) -> (r: String)
    ensures
        r@ == trimmed(s@),
{
    let n = s.unicode_len();
    let mut a: usize = 0;
    while a < n && is_white_space(s.get_char(a))
        invariant
            n == s@.len(),
            a <= n,
            forall|i: int| 0 <= i < a ==> white_space(#[trigger] s@[i]),
        decreases n - a,
    {
        a = a + 1;
    }
    proof {
        lemma_ws_prefix(s@, a as int);
    }
    if a == n {
        return String::new();
    }
    let mut b: usize = n;
    while b > a && is_white_space(s.get_char(b - 1))
        invariant
            n == s@.len(),
            a < n,
            a <= b <= n,
            !white_space(s@[a as int]),
            forall|i: int| b <= i < n ==> white_space(#[trigger] s@[i]),
        decreases b,
    {
        b = b - 1;
    }
    proof {
        lemma_ws_suffix(s@, (n - b) as int);
    }
    let mut out = String::new();
    let mut i = a;
    while i < b
        invariant
            n == s@.len(),
            a <= i <= b <= n,
            out@ == s@.subrange(a as int, i as int),
        decreases b - i,
    {
        push_char(&mut out, s.get_char(i));
        i = i + 1;
        assert(out@ =~= s@.subrange(a as int, i as int));
    }
    out
}

} // verus!
