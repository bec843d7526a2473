//! Text building blocks: decimal and fixed-point numerals, repetition,
//! comparison, and display width.

use vstd::prelude::*;


verus! {

/// Appends one character (`String::push`).
#[verifier::external_body]
pub(crate) fn push_char(s: &mut String, c: char)
    ensures
        final(s)@ == old(s)@.push(c),
{
    s.push(c);
}

/// The character of a decimal digit.
pub open spec fn digit_char(d: nat) -> char {
    if d == 0 {
        '0'
    } else if d == 1 {
        '1'
    } else if d == 2 {
        '2'
    } else if d == 3 {
        '3'
    } else if d == 4 {
        '4'
    } else if d == 5 {
        '5'
    } else if d == 6 {
        '6'
    } else if d == 7 {
        '7'
    } else if d == 8 {
        '8'
    } else {
        '9'
    }
}

/// The decimal numeral of `n`, without leading zeros.
pub open spec fn decimal(n: nat) -> Seq<char>
    decreases n,
{
    if n < 10 {
        seq![digit_char(n)]
    } else {
        decimal(n / 10).push(digit_char(n % 10))
    }
}

pub fn digit(d: u64) -> (c: char)
    requires
        d < 10,
    ensures
        c == digit_char(d as nat),
{
    if d == 0 {
        '0'
    } else if d == 1 {
        '1'
    } else if d == 2 {
        '2'
    } else if d == 3 {
        '3'
    } else if d == 4 {
        '4'
    } else if d == 5 {
        '5'
    } else if d == 6 {
        '6'
    } else if d == 7 {
        '7'
    } else if d == 8 {
        '8'
    } else {
        '9'
    }
}

/// Appends the decimal numeral of `n`.
pub fn push_decimal(out: &mut String, n: u64)
    ensures
        final(out)@ == old(out)@ + decimal(n as nat),
    decreases n,
{
    if n >= 10 {
        push_decimal(out, n / 10);
    }
    push_char(out, digit(n % 10));
    assert(final(out)@ =~= old(out)@ + decimal(n as nat));
}

/// The decimal numeral of `n` as a string.
pub fn decimal_string(n: u64) -> (r: String)
    ensures
        r@ == decimal(n as nat),
{
    let mut s = String::new();
    push_decimal(&mut s, n);
    assert(s@ =~= decimal(n as nat));
    s
}

/// A value in tenths, written with exactly one decimal (`46.4`).
pub open spec fn fixed1(tenths: nat) -> Seq<char> {
    decimal(tenths / 10) + seq!['.'] + seq![digit_char(tenths % 10)]
}

/// Appends `fixed1(tenths)`.
pub fn push_fixed1(out: &mut String, tenths: u64)
    ensures
        final(out)@ == old(out)@ + fixed1(tenths as nat),
{
    push_decimal(out, tenths / 10);
    push_char(out, '.');
    push_char(out, digit(tenths % 10));
    assert(final(out)@ =~= old(out)@ + fixed1(tenths as nat));
}

/// A value in hundredths, written with exactly two decimals (`1.45`).
pub open spec fn fixed2(hundredths: nat) -> Seq<char> {
    decimal(hundredths / 100) + seq!['.'] + seq![digit_char((hundredths / 10) % 10)] + seq![
        digit_char(hundredths % 10),
    ]
}

/// Appends `fixed2(hundredths)`.
pub fn push_fixed2(out: &mut String, hundredths: u64)
    ensures
        final(out)@ == old(out)@ + fixed2(hundredths as nat),
{
    push_decimal(out, hundredths / 100);
    push_char(out, '.');
    push_char(out, digit((hundredths / 10) % 10));
    push_char(out, digit(hundredths % 10));
    assert(final(out)@ =~= old(out)@ + fixed2(hundredths as nat));
}

/// `n` copies of `c`.
pub open spec fn repeat(c: char, n: nat) -> Seq<char>
    decreases n,
{
    if n == 0 {
        Seq::empty()
    } else {
        repeat(c, (n - 1) as nat).push(c)
    }
}

pub proof fn lemma_repeat_len(c: char, n: nat)
    ensures
        repeat(c, n).len() == n,
        forall|i: int| 0 <= i < n ==> #[trigger] repeat(c, n)[i] == c,
    decreases n,
{
    if n > 0 {
        lemma_repeat_len(c, (n - 1) as nat);
    }
}

/// Appends `n` copies of `c`.
pub fn push_repeat(out: &mut String, c: char, n: usize)
    ensures
        final(out)@ == old(out)@ + repeat(c, n as nat),
{
    let ghost start = out@;
    let mut i: usize = 0;
    while i < n
        invariant
            i <= n,
            out@ == start + repeat(c, i as nat),
        decreases n - i,
    {
        push_char(out, c);
        i = i + 1;
        assert(out@ =~= start + repeat(c, i as nat));
    }
}

/// Character-wise equality of two strings.
pub fn str_eq(a: &str, b: &str) -> (r: bool)
    ensures
        r == (a@ == b@),
{
    let n = a.unicode_len();
    let m = b.unicode_len();
    if n != m {
        return false;
    }
    let mut i: usize = 0;
    while i < n
        invariant
            n == a@.len(),
            m == b@.len(),
            n == m,
            i <= n,
            forall|j: int| 0 <= j < i ==> a@[j] == b@[j],
        decreases n - i,
    {
        if a.get_char(i) != b.get_char(i) {
            return false;
        }
        i = i + 1;
    }
    assert(a@ =~= b@);
    true
}

/// Strict lexicographic order on character sequences. Strings order by
/// their UTF-8 bytes, which is the same as this order on code points.
pub open spec fn seq_lt(a: Seq<char>, b: Seq<char>) -> bool
    decreases a.len(),
{
    if a.len() == 0 {
        b.len() > 0
    } else if b.len() == 0 {
        false
    } else if a[0] != b[0] {
        (a[0] as int) < (b[0] as int)
    } else {
        seq_lt(a.drop_first(), b.drop_first())
    }
}

pub proof fn lemma_seq_lt_irreflexive(a: Seq<char>)
    ensures
        !seq_lt(a, a),
    decreases a.len(),
{
    if a.len() > 0 {
        lemma_seq_lt_irreflexive(a.drop_first());
    }
}

pub proof fn lemma_seq_lt_total(a: Seq<char>, b: Seq<char>)
    ensures
        a != b ==> (seq_lt(a, b) || seq_lt(b, a)),
        !(seq_lt(a, b) && seq_lt(b, a)),
    decreases a.len(),
{
    if a.len() > 0 && b.len() > 0 {
        lemma_seq_lt_total(a.drop_first(), b.drop_first());
        if a[0] != b[0] {
            assert((a[0] as int) != (b[0] as int));
        }
        if a[0] == b[0] && a.drop_first() == b.drop_first() {
            assert forall|i: int| 0 <= i < a.len() implies a[i] == b[i] by {
                if i > 0 {
                    assert(a[i] == a.drop_first()[i - 1]);
                    assert(b[i] == b.drop_first()[i - 1]);
                }
            }
            assert(a =~= b);
        }
    } else if a.len() == 0 && b.len() == 0 {
        assert(a =~= b);
    }
}

pub proof fn lemma_seq_lt_transitive(a: Seq<char>, b: Seq<char>, c: Seq<char>)
    requires
        seq_lt(a, b),
        seq_lt(b, c),
    ensures
        seq_lt(a, c),
    decreases a.len(),
{
    if a.len() > 0 && b.len() > 0 && c.len() > 0 {
        if a[0] == b[0] && b[0] == c[0] {
            lemma_seq_lt_transitive(a.drop_first(), b.drop_first(), c.drop_first());
        }
    }
}

/// Compares two strings in the order `seq_lt` states: -1, 0 or 1.
pub fn str_compare(a: &str, b: &str) -> (r: i8)
    ensures
        r == -1 <==> seq_lt(a@, b@),
        r == 0 <==> a@ == b@,
        r == 1 <==> seq_lt(b@, a@),
{
    let n = a.unicode_len();
    let m = b.unicode_len();
    let mut i: usize = 0;
    assert(a@.skip(0) =~= a@);
    assert(b@.skip(0) =~= b@);
    while i < n && i < m
        invariant
            n == a@.len(),
            m == b@.len(),
            i <= n,
            i <= m,
            a@.take(i as int) == b@.take(i as int),
            seq_lt(a@, b@) == seq_lt(a@.skip(i as int), b@.skip(i as int)),
            seq_lt(b@, a@) == seq_lt(b@.skip(i as int), a@.skip(i as int)),
        decreases n - i,
    {
        let x = a.get_char(i);
        let y = b.get_char(i);
        if x != y {
            proof {
                lemma_seq_lt_total(a@, b@);
                assert(a@.skip(i as int)[0] == x);
                assert(b@.skip(i as int)[0] == y);
                assert(a@[i as int] != b@[i as int]);
            }
            if x < y {
                return -1;
            } else {
                return 1;
            }
        }
        proof {
            assert(a@.skip(i as int).drop_first() =~= a@.skip(i + 1));
            assert(b@.skip(i as int).drop_first() =~= b@.skip(i + 1));
            assert(a@.take(i + 1) =~= a@.take(i as int).push(x));
            assert(b@.take(i + 1) =~= b@.take(i as int).push(y));
        }
        i = i + 1;
    }
    proof {
        lemma_seq_lt_total(a@, b@);
        lemma_seq_lt_irreflexive(a@);
    }
    if n == m {
        assert(a@ =~= a@.take(i as int));
        assert(b@ =~= b@.take(i as int));
        0
    } else if n < m {
        assert(a@.skip(i as int).len() == 0);
        -1
    } else {
        assert(b@.skip(i as int).len() == 0);
        1
    }
}

/// The display width of a character: `None` for a control character.
/// Named for what `UnicodeWidthChar::width` returns.
pub uninterp spec fn char_cols(c: char) -> Option<nat>;

/// The display width of a string, as `UnicodeWidthStr::width` returns it.
pub uninterp spec fn str_cols(s: Seq<char>) -> nat;

/// Printable ASCII: U+0020 up to, not including, U+007F.
pub open spec fn is_printable_ascii(c: char) -> bool {
    0x20 <= (c as u32) < 0x7f
}

pub open spec fn all_printable_ascii(s: Seq<char>) -> bool {
    forall|i: int| 0 <= i < s.len() ==> is_printable_ascii(#[trigger] s[i])
}

/// `UnicodeWidthChar::width`: one column for printable ASCII, `None` for a
/// control character below U+0020; otherwise the crate's tables decide.
#[verifier::external_body]
pub(crate) fn char_width(c: char) -> (r: Option<usize>)
    ensures
        r matches Some(w) ==> char_cols(c) == Some(w as nat) && w <= 3,
        r is None <==> char_cols(c) is None,
        is_printable_ascii(c) ==> r == Some(1usize),
        (c as u32) < 0x20 ==> r is None,
{
    unicode_width::UnicodeWidthChar::width(c)
}

/// `UnicodeWidthStr::width`: the crate documents that outside a list of
/// special sequences, all of which involve a character that is not
/// printable ASCII, a string's width is the sum of its characters' widths;
/// so a printable-ASCII string is as wide as it is long. What it returns
/// for other strings is named, not stated.
#[verifier::external_body]
pub(crate) fn text_width(s: &str) -> (r: usize)
    ensures
        r == str_cols(s@),
        all_printable_ascii(s@) ==> r == s@.len(),
{
    unicode_width::UnicodeWidthStr::width(s)
}

/// The decimal numeral of an integer, with a minus sign when negative.
pub open spec fn int_text(i: int) -> Seq<char> {
    if i < 0 {
        seq!['-'] + decimal((-i) as nat)
    } else {
        decimal(i as nat)
    }
}

/// Appends `int_text(i)`.
pub fn push_int(out: &mut String, i: i64)
    ensures
        final(out)@ == old(out)@ + int_text(i as int),
{
    if i < 0 {
        push_char(out, '-');
        let m: u64 = ((-(i + 1)) as u64) + 1;
        push_decimal(out, m);
        assert(final(out)@ =~= old(out)@ + int_text(i as int));
    } else {
        push_decimal(out, i as u64);
    }
}

/// The texts of a vector of strings.
pub open spec fn views(v: Seq<String>) -> Seq<Seq<char>> {
    v.map_values(|s: String| s@)
}

/// `parts` joined with `sep` between neighbours.
pub open spec fn join(parts: Seq<Seq<char>>, sep: Seq<char>) -> Seq<char>
    decreases parts.len(),
{
    if parts.len() == 0 {
        seq![]
    } else if parts.len() == 1 {
        parts[0]
    } else {
        join(parts.drop_last(), sep) + sep + parts.last()
    }
}

/// Appends `parts` joined with `sep`.
pub fn push_joined(out: &mut String, parts: &Vec<String>, sep: &str)
    ensures
        final(out)@ == old(out)@ + join(views(parts@), sep@),
{
    let ghost start = out@;
    let mut i: usize = 0;
    while i < parts.len()
        invariant
            i <= parts@.len(),
            out@ == start + join(views(parts@.take(i as int)), sep@),
        decreases parts@.len() - i,
    {
        if i > 0 {
            out.append(sep);
        }
        out.append(parts[i].as_str());
        proof {
            let prev = views(parts@.take(i as int));
            let next = views(parts@.take(i + 1));
            assert(next.drop_last() =~= prev);
            assert(next.last() == parts@[i as int]@);
            if i == 0 {
                assert(next.len() == 1);
            }
            assert(out@ =~= start + join(next, sep@));
        }
        i = i + 1;
    }
    assert(parts@.take(i as int) =~= parts@);
}

/// `s` without its spaces.
pub open spec fn nonspace(s: Seq<char>) -> Seq<char>
    decreases s.len(),
{
    if s.len() == 0 {
        seq![]
    } else if s.last() == ' ' {
        nonspace(s.drop_last())
    } else {
        nonspace(s.drop_last()).push(s.last())
    }
}

pub proof fn lemma_nonspace_concat(a: Seq<char>, b: Seq<char>)
    ensures
        nonspace(a + b) == nonspace(a) + nonspace(b),
    decreases b.len(),
{
    if b.len() == 0 {
        assert(a + b =~= a);
        assert(nonspace(b) =~= seq![]);
        assert(nonspace(a) + nonspace(b) =~= nonspace(a));
    } else {
        lemma_nonspace_concat(a, b.drop_last());
        assert((a + b).drop_last() =~= a + b.drop_last());
        assert((a + b).last() == b.last());
        if b.last() != ' ' {
            assert(nonspace(a) + nonspace(b) =~= (nonspace(a) + nonspace(b.drop_last())).push(b.last()));
        }
    }
}

pub proof fn lemma_nonspace_spaces(n: nat)
    ensures
        nonspace(repeat(' ', n)) == Seq::<char>::empty(),
    decreases n,
{
    if n > 0 {
        lemma_nonspace_spaces((n - 1) as nat);
        assert(repeat(' ', n).drop_last() =~= repeat(' ', (n - 1) as nat));
    }
}


/// `s` followed by spaces up to `n` characters, as `{:<n}` writes it.
pub open spec fn pad_end(s: Seq<char>, n: nat) -> Seq<char> {
    if s.len() < n {
        s + repeat(' ', (n - s.len()) as nat)
    } else {
        s
    }
}

/// `s` preceded by spaces up to `n` characters, as `{:>n}` writes it.
pub open spec fn pad_start(s: Seq<char>, n: nat) -> Seq<char> {
    if s.len() < n {
        repeat(' ', (n - s.len()) as nat) + s
    } else {
        s
    }
}

/// Appends `pad_end(s, n)`.
pub fn push_pad_end(out: &mut String, s: &str, n: usize)
    ensures
        final(out)@ == old(out)@ + pad_end(s@, n as nat),
{
    let len = s.unicode_len();
    out.append(s);
    if len < n {
        push_repeat(out, ' ', n - len);
    }
    assert(final(out)@ =~= old(out)@ + pad_end(s@, n as nat));
}

/// Appends `pad_start(s, n)`.
pub fn push_pad_start(out: &mut String, s: &str, n: usize)
    ensures
        final(out)@ == old(out)@ + pad_start(s@, n as nat),
{
    let len = s.unicode_len();
    if len < n {
        push_repeat(out, ' ', n - len);
    }
    out.append(s);
    assert(final(out)@ =~= old(out)@ + pad_start(s@, n as nat));
}

/// `pat` occurs in `s` starting at `i`.
pub open spec fn occurs_at(s: Seq<char>, pat: Seq<char>, i: int) -> bool {
    0 <= i && i + pat.len() <= s.len() && s.subrange(i, i + pat.len()) == pat
}

/// `pat` occurs somewhere in `s`, as `str::contains` finds it.
pub open spec fn is_substring(pat: Seq<char>, s: Seq<char>) -> bool {
    exists|i: int| #[trigger] occurs_at(s, pat, i)
}

/// Whether `pat` occurs in `s`.
pub fn str_contains(s: &str, pat: &str) -> (r: bool)
    ensures
        r == is_substring(pat@, s@),
{
    let n = s.unicode_len();
    let m = pat.unicode_len();
    if m > n {
        assert forall|i: int| !#[trigger] occurs_at(s@, pat@, i) by {}
        return false;
    }
    let mut i: usize = 0;
    while i <= n - m
        invariant
            n == s@.len(),
            m == pat@.len(),
            m <= n,
            i <= n - m + 1,
            forall|k: int| 0 <= k < i ==> !#[trigger] occurs_at(s@, pat@, k),
        decreases n - m + 1 - i,
    {
        let mut j: usize = 0;
        while j < m && s.get_char(i + j) == pat.get_char(j)
            invariant
                n == s@.len(),
                m == pat@.len(),
                i + m <= n,
                j <= m,
                forall|q: int| 0 <= q < j ==> s@[i + q] == pat@[q],
            decreases m - j,
        {
            j = j + 1;
        }
        if j == m {
            assert(s@.subrange(i as int, i + m) =~= pat@);
            assert(occurs_at(s@, pat@, i as int));
            return true;
        }
        assert(!occurs_at(s@, pat@, i as int)) by {
            if s@.subrange(i as int, i + m) == pat@ {
                assert(s@.subrange(i as int, i + m)[j as int] == s@[i + j]);
            }
        }
        i = i + 1;
    }
    assert forall|k: int| !#[trigger] occurs_at(s@, pat@, k) by {
        if 0 <= k && k < i {
        }
    }
    false
}

/// `s` with each `-` read as `_`.
pub open spec fn underscored(s: Seq<char>) -> Seq<char> {
    s.map_values(|c: char| if c == '-' { '_' } else { c })
}

/// Whether `a` and `b` agree once each `-` is read as `_`.
pub fn same_underscored(a: &str, b: &str) -> (r: bool)
    ensures
        r == (underscored(a@) == underscored(b@)),
{
    let n = a.unicode_len();
    if n != b.unicode_len() {
        assert(underscored(a@).len() != underscored(b@).len());
        return false;
    }
    let mut i: usize = 0;
    while i < n
        invariant
            n == a@.len(),
            n == b@.len(),
            i <= n,
            forall|k: int| 0 <= k < i ==> #[trigger] underscored(a@)[k] == underscored(b@)[k],
        decreases n - i,
    {
        let x = a.get_char(i);
        let y = b.get_char(i);
        let x2 = if x == '-' { '_' } else { x };
        let y2 = if y == '-' { '_' } else { y };
        if x2 != y2 {
            assert(underscored(a@)[i as int] != underscored(b@)[i as int]);
            return false;
        }
        i = i + 1;
    }
    assert(underscored(a@) =~= underscored(b@));
    true
}

/// Whether `s` begins with `prefix`.
pub fn str_starts_with(s: &str, prefix: &str) -> (r: bool)
    ensures
        r == (s@.len() >= prefix@.len() && s@.take(prefix@.len() as int) == prefix@),
{
    let n = s.unicode_len();
    let m = prefix.unicode_len();
    if m > n {
        return false;
    }
    let mut i: usize = 0;
    while i < m
        invariant
            n == s@.len(),
            m == prefix@.len(),
            m <= n,
            i <= m,
            forall|k: int| 0 <= k < i ==> s@[k] == prefix@[k],
        decreases m - i,
    {
        if s.get_char(i) != prefix.get_char(i) {
            assert(s@.take(m as int)[i as int] != prefix@[i as int]);
            return false;
        }
        i = i + 1;
    }
    assert(s@.take(m as int) =~= prefix@);
    true
}

} // verus!
