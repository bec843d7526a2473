//! Terminal styling through `colored`. Whether `colored` emits escape codes
//! depends on the process (its override, the environment, the terminal), so
//! each styled text is known only to be either the plain text or the text in
//! the style's escape sequence. For a text holding an escape character
//! `colored` also rewrites embedded reset sequences; nothing is stated of
//! that case.

use vstd::prelude::*;
use colored::Colorize;
use crate::text::{decimal, digit_char};

verus! {

/// The styles the reports use.
#[derive(Debug, Clone, Copy, PartialEq, Eq, Structural)]
pub enum Style {
    RedBold,
    YellowBold,
    Yellow,
    Cyan,
    Green,
    Dimmed,
    Bold,
}

/// The SGR parameters `colored` writes for a style: the text attribute
/// first, then the foreground colour.
pub open spec fn sgr_code(s: Style) -> Seq<char> {
    match s {
        Style::RedBold => "1;31"@,
        Style::YellowBold => "1;33"@,
        Style::Yellow => "33"@,
        Style::Cyan => "36"@,
        Style::Green => "32"@,
        Style::Dimmed => "2"@,
        Style::Bold => "1"@,
    }
}

/// Text free of escape characters.
pub open spec fn plain_text(t: Seq<char>) -> bool {
    forall|i: int| 0 <= i < t.len() ==> t[i] != '\u{1b}'
}

/// `r` is `t` as `colored` renders it in style `s`, colours on or off.
pub open spec fn painted(r: Seq<char>, t: Seq<char>, s: Style) -> bool {
    r == t || r == "\u{1b}["@ + sgr_code(s) + "m"@ + t + "\u{1b}[0m"@
}

/// `t.red().bold()`, rendered.
#[verifier::external_body]
fn red_bold(t: &str) -> (r: String)
    ensures
        plain_text(t@) ==> painted(r@, t@, Style::RedBold),
{
    t.red().bold().to_string()
}

/// `t.yellow().bold()`, rendered.
#[verifier::external_body]
fn yellow_bold(t: &str) -> (r: String)
    ensures
        plain_text(t@) ==> painted(r@, t@, Style::YellowBold),
{
    t.yellow().bold().to_string()
}

/// `t.yellow()`, rendered.
#[verifier::external_body]
fn yellow(t: &str) -> (r: String)
    ensures
        plain_text(t@) ==> painted(r@, t@, Style::Yellow),
{
    t.yellow().to_string()
}

/// `t.cyan()`, rendered.
#[verifier::external_body]
fn cyan(t: &str) -> (r: String)
    ensures
        plain_text(t@) ==> painted(r@, t@, Style::Cyan),
{
    t.cyan().to_string()
}

/// `t.green()`, rendered.
#[verifier::external_body]
fn green(t: &str) -> (r: String)
    ensures
        plain_text(t@) ==> painted(r@, t@, Style::Green),
{
    t.green().to_string()
}

/// `t.dimmed()`, rendered.
#[verifier::external_body]
fn dimmed(t: &str) -> (r: String)
    ensures
        plain_text(t@) ==> painted(r@, t@, Style::Dimmed),
{
    t.dimmed().to_string()
}

/// `t.bold()`, rendered.
#[verifier::external_body]
fn bold(t: &str) -> (r: String)
    ensures
        plain_text(t@) ==> painted(r@, t@, Style::Bold),
{
    t.bold().to_string()
}

/// `t` in style `s`.
pub fn paint(t: &str, s: Style) -> (r: String)
    ensures
        plain_text(t@) ==> painted(r@, t@, s),
{
    match s {
        Style::RedBold => red_bold(t),
        Style::YellowBold => yellow_bold(t),
        Style::Yellow => yellow(t),
        Style::Cyan => cyan(t),
        Style::Green => green(t),
        Style::Dimmed => dimmed(t),
        Style::Bold => bold(t),
    }
}

/// Decimal numerals are plain text.
pub proof fn lemma_decimal_plain(n: nat)
    ensures
        plain_text(decimal(n)),
    decreases n,
{
    if n >= 10 {
        lemma_decimal_plain(n / 10);
    }
    let d = decimal(n);
    assert forall|i: int| 0 <= i < d.len() implies d[i] != '\u{1b}' by {
        if n >= 10 && i < d.len() - 1 {
            assert(d[i] == decimal(n / 10)[i]);
        }
    }
}


/// A piece of output text, plain or in a style.
pub open spec fn piece_views(v: Seq<(String, Option<Style>)>) -> Seq<(Seq<char>, Option<Style>)> {
    v.map_values(|p: (String, Option<Style>)| (p.0@, p.1))
}

/// `r` is how `piece` comes out: as it is when plain; when styled, painted
/// in its style (escape-free text; see the module documentation).
pub open spec fn shown(r: Seq<char>, piece: (Seq<char>, Option<Style>)) -> bool {
    match piece.1 {
        Some(s) => plain_text(piece.0) ==> painted(r, piece.0, s),
        None => r == piece.0,
    }
}

/// The texts of `ps`, one after another.
pub open spec fn concat(ps: Seq<Seq<char>>) -> Seq<char>
    decreases ps.len(),
{
    if ps.len() == 0 {
        Seq::empty()
    } else {
        concat(ps.drop_last()) + ps.last()
    }
}

/// `ps` shows each of `pieces`, and `t` is them one after another.
pub open spec fn shows(t: Seq<char>, pieces: Seq<(Seq<char>, Option<Style>)>, ps: Seq<Seq<char>>) -> bool {
    &&& ps.len() == pieces.len()
    &&& forall|i: int| 0 <= i < ps.len() ==> shown(#[trigger] ps[i], pieces[i])
    &&& t == concat(ps)
}

/// `t` is `pieces` as written out, each in its style.
pub open spec fn rendering(t: Seq<char>, pieces: Seq<(Seq<char>, Option<Style>)>) -> bool {
    exists|ps: Seq<Seq<char>>| #[trigger] shows(t, pieces, ps)
}

pub proof fn lemma_concat_append(a: Seq<Seq<char>>, b: Seq<Seq<char>>)
    ensures
        concat(a + b) == concat(a) + concat(b),
    decreases b.len(),
{
    if b.len() == 0 {
        assert(a + b =~= a);
        assert(concat(a) + concat(b) =~= concat(a));
    } else {
        lemma_concat_append(a, b.drop_last());
        assert((a + b).drop_last() =~= a + b.drop_last());
        assert((a + b).last() == b.last());
        assert(concat(a) + concat(b) =~= concat(a) + concat(b.drop_last()) + b.last());
    }
}

/// Renderings put one after another render the pieces one after another.
pub proof fn lemma_rendering_append(
    t1: Seq<char>,
    p1: Seq<(Seq<char>, Option<Style>)>,
    t2: Seq<char>,
    p2: Seq<(Seq<char>, Option<Style>)>,
)
    requires
        rendering(t1, p1),
        rendering(t2, p2),
    ensures
        rendering(t1 + t2, p1 + p2),
{
    let ps1 = choose|ps: Seq<Seq<char>>| #[trigger] shows(t1, p1, ps);
    let ps2 = choose|ps: Seq<Seq<char>>| #[trigger] shows(t2, p2, ps);
    let ps = ps1 + ps2;
    lemma_concat_append(ps1, ps2);
    assert forall|i: int| 0 <= i < ps.len() implies shown(#[trigger] ps[i], (p1 + p2)[i]) by {
        if i < ps1.len() {
            assert(shown(ps1[i], p1[i]));
        } else {
            assert(shown(ps2[i - ps1.len()], p2[i - ps1.len()]));
        }
    }
    assert(shows(t1 + t2, p1 + p2, ps));
}

/// The empty text renders no pieces.
pub proof fn lemma_rendering_empty()
    ensures
        rendering(Seq::<char>::empty(), Seq::<(Seq<char>, Option<Style>)>::empty()),
{
    assert(shows(Seq::<char>::empty(), Seq::<(Seq<char>, Option<Style>)>::empty(), Seq::<Seq<char>>::empty()));
}

/// Appends each piece, in its style.
pub fn write_pieces(out: &mut String, pieces: &Vec<(String, Option<Style>)>)
    ensures
        exists|t: Seq<char>| #[trigger] rendering(t, piece_views(pieces@)) && final(out)@ == old(out)@ + t,
{
    let ghost start = out@;
    let ghost pv = piece_views(pieces@);
    let ghost mut ps: Seq<Seq<char>> = Seq::empty();
    let mut i: usize = 0;
    while i < pieces.len()
        invariant
            pv == piece_views(pieces@),
            i <= pieces@.len(),
            ps.len() == i,
            forall|k: int| 0 <= k < i ==> shown(#[trigger] ps[k], pv[k]),
            out@ == start + concat(ps),
        decreases pieces@.len() - i,
    {
        let ghost before = out@;
        let text: &str = pieces[i].0.as_str();
        let piece: String = match pieces[i].1 {
            Some(s) => paint(text, s),
            None => text.to_owned(),
        };
        out.append(piece.as_str());
        proof {
            assert(pv[i as int] == (pieces@[i as int].0@, pieces@[i as int].1));
            assert(shown(piece@, pv[i as int]));
            let old_ps = ps;
            ps = ps.push(piece@);
            assert(ps.drop_last() =~= old_ps);
            assert(out@ =~= start + concat(ps));
        }
        i = i + 1;
    }
    proof {
        assert(shows(concat(ps), pv, ps));
        assert(rendering(concat(ps), pv));
    }
}

/// `out` is `start` followed by a rendering of `pieces`.
pub open spec fn rendered_since(out: Seq<char>, start: Seq<char>, pieces: Seq<(Seq<char>, Option<Style>)>) -> bool {
    exists|t: Seq<char>| #[trigger] rendering(t, pieces) && out == start + t
}

pub proof fn lemma_rendered_since_start(start: Seq<char>)
    ensures
        rendered_since(start, start, Seq::empty()),
{
    lemma_rendering_empty();
    assert(start =~= start + Seq::<char>::empty());
    assert(rendering(Seq::<char>::empty(), Seq::<(Seq<char>, Option<Style>)>::empty()));
}

/// Appends the pieces after those already rendered since `start`.
pub fn write_more(
    out: &mut String,
    pieces: &Vec<(String, Option<Style>)>,
    Ghost(start): Ghost<Seq<char>>,
    Ghost(done): Ghost<Seq<(Seq<char>, Option<Style>)>>,
)
    requires
        rendered_since(old(out)@, start, done),
    ensures
        rendered_since(final(out)@, start, done + piece_views(pieces@)),
{
    let ghost t1 = choose|t: Seq<char>| #[trigger] rendering(t, done) && out@ == start + t;
    let ghost before = out@;
    write_pieces(out, pieces);
    proof {
        let t2 = choose|t: Seq<char>| #[trigger] rendering(t, piece_views(pieces@)) && out@ == before + t;
        lemma_rendering_append(t1, done, t2, piece_views(pieces@));
        assert(out@ =~= start + (t1 + t2));
        assert(rendering(t1 + t2, done + piece_views(pieces@)));
    }
}

/// Appends `r`, already rendered as `piece`, after the pieces rendered
/// since `start`.
pub fn write_shown(
    out: &mut String,
    r: &str,
    Ghost(start): Ghost<Seq<char>>,
    Ghost(done): Ghost<Seq<(Seq<char>, Option<Style>)>>,
    Ghost(piece): Ghost<(Seq<char>, Option<Style>)>,
)
    requires
        rendered_since(old(out)@, start, done),
        shown(r@, piece),
    ensures
        rendered_since(final(out)@, start, done.push(piece)),
{
    let ghost t1 = choose|t: Seq<char>| #[trigger] rendering(t, done) && out@ == start + t;
    out.append(r);
    proof {
        let ps = seq![r@];
        assert(ps.drop_last() =~= Seq::<Seq<char>>::empty());
        assert(concat(ps.drop_last()) =~= Seq::<char>::empty());
        assert(ps.last() == r@);
        assert(concat(ps) =~= r@);
        assert(shows(r@, seq![piece], ps));
        assert(rendering(r@, seq![piece]));
        lemma_rendering_append(t1, done, r@, seq![piece]);
        assert(done + seq![piece] =~= done.push(piece));
        assert(out@ =~= start + (t1 + r@));
        assert(rendering(t1 + r@, done.push(piece)));
    }
}

} // verus!
