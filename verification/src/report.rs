//! Summaries and report structures.

use vstd::prelude::*;
use crate::advisory::{advisory_line_text, same_advisory, Advisory};
use crate::baseline::BaselineState;
use crate::graph::{DependencyNode, NodeKind};
use crate::policy::plural;
use crate::registry::{has_name, lookup, MetaMap, Metadata};
use crate::score::{explain_text, lag_components, lag_components_of, tenths, RiskLevel, RiskScore, DEFAULT_THRESHOLD};
use crate::text::{
    all_printable_ascii, char_cols, char_width, decimal, int_text, join, push_char, push_decimal,
    push_int, push_joined, push_repeat, repeat, str_cols, text_width, views,
};
use crate::style::{lemma_decimal_plain, paint, painted, plain_text, Style};
use crate::text::{fixed1, lemma_nonspace_concat, lemma_nonspace_spaces, lemma_repeat_len, nonspace, push_fixed1};
use crate::score::rounded_tenths;
use crate::text::decimal_string;
use crate::version::{version_order, version_text, SemVer};
pub use crate::dups::duplicate_groups;

verus! {

/// Box width when neither the terminal nor `COLUMNS` gives one.
pub const DEFAULT_INNER_WIDTH: usize = 77;
pub const MIN_INNER_WIDTH: usize = 60;
pub const MAX_INNER_WIDTH: usize = 120;
/// Columns taken by the box's own border characters.
pub const BORDER_OVERHEAD: usize = 2;
pub const NAME_FIELD_WIDTH: usize = 41;
/// Columns a finding's header spends on everything but the name field: a
/// space, the 5-column score, a space, the 3-column marker, a space and the
/// 12-column bar.
pub const HEADER_FIXED_WIDTH: usize = 23;
/// How far a wrapped reason line's continuation is indented.
pub const CONTINUATION_INDENT: usize = 5;
/// The version of the JSON report layout.
pub const JSON_SCHEMA_VERSION: u32 = 4;

/// The inner box width for a terminal of `cols` columns (when known):
/// the columns less the border, held between the minimum and maximum.
pub open spec fn inner_width_spec(cols: Option<usize>) -> int {
    match cols {
        None => DEFAULT_INNER_WIDTH as int,
        Some(c) => {
            let w = if c >= BORDER_OVERHEAD { c - BORDER_OVERHEAD } else { 0 };
            if w < MIN_INNER_WIDTH {
                MIN_INNER_WIDTH as int
            } else if w > MAX_INNER_WIDTH {
                MAX_INNER_WIDTH as int
            } else {
                w
            }
        },
    }
}

/// The box width for a terminal of `cols` columns, when that is known.
pub fn inner_width_for(cols: Option<usize>) -> (r: usize)
    ensures
        r == inner_width_spec(cols),
        MIN_INNER_WIDTH <= r <= MAX_INNER_WIDTH,
{
    match cols {
        None => DEFAULT_INNER_WIDTH,
        Some(c) => {
            let w = if c >= BORDER_OVERHEAD { c - BORDER_OVERHEAD } else { 0 };
            if w < MIN_INNER_WIDTH {
                MIN_INNER_WIDTH
            } else if w > MAX_INNER_WIDTH {
                MAX_INNER_WIDTH
            } else {
                w
            }
        },
    }
}

/// A character's columns, a control character counting none.
pub open spec fn cols0(c: char) -> nat {
    match char_cols(c) {
        Some(w) => w,
        None => 0,
    }
}

/// How many leading characters of `s` fit `budget` columns, taken one at a
/// time until the next would overflow.
pub open spec fn fit_len(s: Seq<char>, budget: int) -> nat
    decreases s.len(),
{
    if s.len() == 0 || cols0(s[0]) > budget {
        0
    } else {
        1 + fit_len(s.drop_first(), budget - cols0(s[0]))
    }
}

/// Right-padded to `width` display columns.
pub open spec fn padded(s: Seq<char>, width: nat) -> Seq<char> {
    if str_cols(s) >= width {
        s
    } else {
        s + repeat(' ', (width - str_cols(s)) as nat)
    }
}

/// Right-pads `s` with spaces to `width` display columns.
pub fn pad_to_width(s: &str, width: usize) -> (r: String)
    ensures
        r@ == padded(s@, width as nat),
{
    let visible = text_width(s);
    let mut out = s.to_owned();
    if visible < width {
        push_repeat(&mut out, ' ', width - visible);
    }
    out
}

/// The longest prefix of `s` whose characters fit `width` columns.
pub fn take_columns(s: &str, width: usize) -> (r: String)
    ensures
        r@ == s@.take(fit_len(s@, width as int) as int),
        all_printable_ascii(s@) ==> r@.len() <= width,
{
    let n = s.unicode_len();
    let mut out = String::new();
    let mut used: usize = 0;
    let mut i: usize = 0;
    let mut full = false;
    proof {
        assert(s@.skip(0) =~= s@);
    }
    while !full && i < n
        invariant
            n == s@.len(),
            i <= n,
            used <= width,
            out@ == s@.take(i as int),
            fit_len(s@, width as int) == i + fit_len(s@.skip(i as int), width - used),
            full ==> fit_len(s@.skip(i as int), width - used) == 0,
            all_printable_ascii(s@) ==> used == i,
        decreases n - i + if full { 0int } else { 1int },
    {
        let c = s.get_char(i);
        let cw: usize = match char_width(c) {
            Some(w) => w,
            None => 0,
        };
        proof {
            assert(s@.skip(i as int)[0] == c);
            assert(s@.skip(i as int).drop_first() =~= s@.skip(i + 1));
            assert(cw == cols0(c));
        }
        if cw > width - used {
            full = true;
        } else {
            push_char(&mut out, c);
            used = used + cw;
            i = i + 1;
            proof {
                assert(out@ =~= s@.take(i as int));
            }
        }
    }
    proof {
        if !full {
            assert(s@.skip(i as int).len() == 0);
        }
    }
    out
}

/// `s` cut to `width` display columns, with `…` where it was cut.
pub open spec fn ellipsized(s: Seq<char>, width: nat) -> Seq<char> {
    if str_cols(s) <= width || width == 0 {
        s.take(if width < s.len() { width as int } else { s.len() as int })
    } else {
        s.take(fit_len(s, width - 1) as int) + seq!['…']
    }
}

/// Truncates `s` to `width` display columns, appending `…` if it was cut.
pub fn ellipsize(s: &str, width: usize) -> (r: String)
    ensures
        r@ == ellipsized(s@, width as nat),
{
    if text_width(s) <= width || width == 0 {
        let n = s.unicode_len();
        let k = if width < n { width } else { n };
        let mut out = String::new();
        let mut i: usize = 0;
        while i < k
            invariant
                k <= s@.len(),
                i <= k,
                out@ == s@.take(i as int),
            decreases k - i,
        {
            push_char(&mut out, s.get_char(i));
            i = i + 1;
            assert(out@ =~= s@.take(i as int));
        }
        out
    } else {
        let mut out = take_columns(s, width - 1);
        push_char(&mut out, '…');
        out
    }
}

/// `content` inside the box border, padded from its visible width.
pub open spec fn boxed(content: Seq<char>, visible_width: nat, inner_width: nat) -> Seq<char> {
    let pad: nat = if inner_width >= visible_width { (inner_width - visible_width) as nat } else { 0 };
    seq!['│'] + content + repeat(' ', pad) + seq!['│']
}

/// Wraps styled `content` in the box's border, padding from `visible_width`,
/// the display width of the unstyled text.
pub fn boxed_line(content: &str, visible_width: usize, inner_width: usize) -> (r: String)
    ensures
        r@ == boxed(content@, visible_width as nat, inner_width as nat),
{
    let pad = if inner_width >= visible_width { inner_width - visible_width } else { 0 };
    let mut out = String::new();
    push_char(&mut out, '│');
    out.append(content);
    push_repeat(&mut out, ' ', pad);
    push_char(&mut out, '│');
    assert(out@ =~= boxed(content@, visible_width as nat, inner_width as nat));
    out
}

/// The plain-text tag of a severity band.
pub open spec fn marker_text(level: RiskLevel) -> Seq<char> {
    match level {
        RiskLevel::Critical => "[C]"@,
        RiskLevel::Warn => "[W]"@,
        RiskLevel::Low => "[N]"@,
    }
}

/// The plain-text tag of a severity band, distinct per band.
pub fn severity_marker(level: RiskLevel) -> (r: &'static str)
    ensures
        r@ == marker_text(level),
{
    match level {
        RiskLevel::Critical => "[C]",
        RiskLevel::Warn => "[W]",
        RiskLevel::Low => "[N]",
    }
}

/// Filled cells of a bar of `width` cells for a score in millipoints:
/// the score's share of 100, rounded half up, at most `width`.
pub open spec fn bar_filled(milli: nat, width: nat) -> nat {
    let f = (milli * width * 2 + 100000) / 200000;
    if f > width { width } else { f }
}

pub open spec fn bar_text(milli: nat, width: nat) -> Seq<char> {
    repeat('█', bar_filled(milli, width)) + repeat('░', (width - bar_filled(milli, width)) as nat)
}

/// A bar of `width` cells, filled in proportion to a score out of 100.
pub fn score_bar(milli: u32, width: usize) -> (r: String)
    ensures
        r@ == bar_text(milli as nat, width as nat),
{
    assert((milli as u128) * (width as u128) * 2 + 100000 < 0x1_0000_0000_0000_0000_0000_0000_0000_0000) by (nonlinear_arith)
        requires
            milli < 0x1_0000_0000,
            width < 0x1_0000_0000_0000_0000,
    ;
    let f: u128 = ((milli as u128) * (width as u128) * 2 + 100000) / 200000;
    let filled: usize = if f > width as u128 { width } else { f as usize };
    let mut out = String::new();
    push_repeat(&mut out, '█', filled);
    push_repeat(&mut out, '░', width - filled);
    out
}

/// The reason line for a crate's publish age.
pub open spec fn maintenance_text(days: int) -> Seq<char> {
    if days >= 365 {
        "latest crate release published "@ + decimal((days / 365) as nat) + " "@ + (if days / 365
            == 1 {
            "year"@
        } else {
            "years"@
        }) + " ago"@
    } else {
        "latest crate release published "@ + int_text(days) + " "@ + (if days == 1 {
            "day"@
        } else {
            "days"@
        }) + " ago"@
    }
}

/// Describes a crate's publish age in whole years from a year on, else in days.
pub fn maintenance_line(days: i64) -> (r: String)
    ensures
        r@ == maintenance_text(days as int),
{
    let mut out = "latest crate release published ".to_owned();
    if days >= 365 {
        let years = days / 365;
        push_decimal(&mut out, years as u64);
        out.append(" ");
        out.append(if years == 1 {
            "year"
        } else {
            "years"
        });
        out.append(" ago");
    } else {
        push_int(&mut out, days);
        out.append(" ");
        out.append(if days == 1 {
            "day"
        } else {
            "days"
        });
        out.append(" ago");
    }
    assert(out@ =~= maintenance_text(days as int));
    out
}

/// `(have → latest)`.
pub open spec fn upgrade_pair(have: Seq<char>, latest: Seq<char>) -> Seq<char> {
    " ("@ + have + " → "@ + latest + ")"@
}

/// The version-lag reason line: the most severe tier of lag, or nothing
/// when `have` is not behind in any numeric component.
pub open spec fn lag_text(have: crate::version::VersionSpec, latest: crate::version::VersionSpec) -> Option<Seq<char>> {
    let (b, c, p) = lag_components(have, latest);
    let pair = upgrade_pair(version_text(have), version_text(latest));
    if version_order(have, latest) >= 0 {
        None
    } else if b > 0 {
        Some(decimal(b) + " breaking version(s) behind latest"@ + pair)
    } else if c > 0 {
        Some(decimal(c) + " minor version(s) behind latest"@ + pair)
    } else if p > 0 {
        Some(decimal(p) + " patch version(s) behind latest"@ + pair)
    } else {
        None
    }
}

fn push_pair(out: &mut String, have: &SemVer, latest: &SemVer)
    ensures
        final(out)@ == old(out)@ + upgrade_pair(version_text(have@), version_text(latest@)),
{
    out.append(" (");
    have.push_text(out);
    out.append(" → ");
    latest.push_text(out);
    out.append(")");
    assert(final(out)@ =~= old(out)@ + upgrade_pair(version_text(have@), version_text(latest@)));
}

/// How far `have` is behind `latest`, in the wording of Cargo's rule.
pub fn version_lag_line(have: &SemVer, latest: &SemVer) -> (r: Option<String>)
    ensures
        r matches Some(t) ==> lag_text(have@, latest@) == Some(t@),
        r is None ==> lag_text(have@, latest@) is None,
{
    if have.compare(latest) >= 0 {
        return None;
    }
    let (b, c, p) = lag_components_of(have, latest);
    let mut out = String::new();
    if b > 0 {
        push_decimal(&mut out, b);
        out.append(" breaking version(s) behind latest");
    } else if c > 0 {
        push_decimal(&mut out, c);
        out.append(" minor version(s) behind latest");
    } else if p > 0 {
        push_decimal(&mut out, p);
        out.append(" patch version(s) behind latest");
    } else {
        return None;
    }
    push_pair(&mut out, have, latest);
    Some(out)
}

/// One analysed crate: where it sits, its score, its advisories and, when a
/// baseline is in play, whether it was already known.
pub struct Finding {
    pub node: DependencyNode,
    pub risk: RiskScore,
    pub advisories: Vec<Advisory>,
    pub baseline_state: BaselineState,
}

impl Finding {
    /// A copy of this finding: the same crate entry, score, advisories and
    /// baseline state.
    pub fn duplicate(&self) -> (r: Finding)
        ensures
            r.node.name == self.node.name,
            r.node.version@ == self.node.version@,
            r.node.is_direct == self.node.is_direct,
            r.node.depth == self.node.depth,
            r.node.dependent_count == self.node.dependent_count,
            r.node.transitive_dependent_count == self.node.transitive_dependent_count,
            r.node.is_registry == self.node.is_registry,
            r.node.kind == self.node.kind,
            r.risk == self.risk,
            r.baseline_state == self.baseline_state,
            r.advisories@.len() == self.advisories@.len(),
            forall|i: int|
                0 <= i < r.advisories@.len() ==> same_advisory(#[trigger] r.advisories@[i], self.advisories@[i]),
    {
        let mut advisories: Vec<Advisory> = Vec::new();
        let mut i: usize = 0;
        while i < self.advisories.len()
            invariant
                i <= self.advisories@.len(),
                advisories@.len() == i,
                forall|k: int| 0 <= k < i ==> same_advisory(#[trigger] advisories@[k], self.advisories@[k]),
            decreases self.advisories@.len() - i,
        {
            advisories.push(self.advisories[i].duplicate());
            i = i + 1;
        }
        Finding { node: self.node.duplicate(), risk: self.risk, advisories, baseline_state: self.baseline_state }
    }
}

/// The summary bucket of a finding.
#[derive(Debug, Clone, Copy, PartialEq, Eq, Structural)]
pub enum Bucket {
    Critical,
    Warning,
    Notice,
    Unknown,
    NotApplicable,
    Healthy,
}

/// Severity first; among low findings a registry crate without metadata is
/// unknown, a non-registry crate without advisories is not applicable, and
/// the rest is a notice or healthy by whether its score shows as above 0.0.
pub open spec fn bucket_of(f: Finding, known: bool) -> Bucket {
    match f.risk.level {
        RiskLevel::Critical => Bucket::Critical,
        RiskLevel::Warn => Bucket::Warning,
        RiskLevel::Low => if f.node.is_registry && !known {
            Bucket::Unknown
        } else if !f.node.is_registry && f.advisories@.len() == 0 {
            Bucket::NotApplicable
        } else if tenths(f.risk.total as nat) > 0 {
            Bucket::Notice
        } else {
            Bucket::Healthy
        },
    }
}

/// How many findings fall in bucket `b`.
pub open spec fn bucket_count(fs: Seq<Finding>, meta: Seq<(String, Metadata)>, b: Bucket) -> nat
    decreases fs.len(),
{
    if fs.len() == 0 {
        0
    } else {
        bucket_count(fs.drop_last(), meta, b) + if bucket_of(fs.last(), has_name(meta, fs.last().node.name@)) == b {
            1nat
        } else {
            0nat
        }
    }
}

/// Every finding falls in exactly one bucket.
pub proof fn lemma_buckets_partition(fs: Seq<Finding>, meta: Seq<(String, Metadata)>)
    ensures
        bucket_count(fs, meta, Bucket::Critical) + bucket_count(fs, meta, Bucket::Warning)
            + bucket_count(fs, meta, Bucket::Notice) + bucket_count(fs, meta, Bucket::Unknown)
            + bucket_count(fs, meta, Bucket::NotApplicable) + bucket_count(fs, meta, Bucket::Healthy)
            == fs.len(),
    decreases fs.len(),
{
    if fs.len() > 0 {
        lemma_buckets_partition(fs.drop_last(), meta);
    }
}

fn bucket(f: &Finding, meta_map: &MetaMap) -> (b: Bucket)
    ensures
        b == bucket_of(*f, has_name(meta_map.entries@, f.node.name@)),
{
    match f.risk.level {
        RiskLevel::Critical => Bucket::Critical,
        RiskLevel::Warn => Bucket::Warning,
        RiskLevel::Low => {
            if f.node.is_registry && !meta_map.contains_key(f.node.name.as_str()) {
                Bucket::Unknown
            } else if !f.node.is_registry && f.advisories.len() == 0 {
                Bucket::NotApplicable
            } else if crate::score::rounded_tenths(f.risk.total) > 0 {
                Bucket::Notice
            } else {
                Bucket::Healthy
            }
        },
    }
}

fn push_line(lines: &mut Vec<String>, line: String)
    ensures
        views(final(lines)@) == views(old(lines)@).push(line@),
        final(lines)@ == old(lines)@.push(line),
{
    lines.push(line);
    assert(views(final(lines)@) =~= views(old(lines)@).push(line@));
}

/// Whole days from `then` to `now` (Unix seconds), truncated toward zero.
pub open spec fn days_between(now: int, then: int) -> int {
    let d = now - then;
    if d >= 0 {
        d / 86400
    } else {
        -((-d) / 86400)
    }
}

/// Whole days from `then` to `now`, both Unix seconds.
pub fn whole_days(now: i64, then: i64) -> (r: i64)
    ensures
        r == days_between(now as int, then as int),
{
    let d: i128 = now as i128 - then as i128;
    if d >= 0 {
        (d / 86400) as i64
    } else {
        (-((-d) / 86400)) as i64
    }
}

pub open spec fn kind_lines(kind: NodeKind) -> Seq<Seq<char>> {
    match kind {
        NodeKind::Build => seq!["build-only: runs at build time (build.rs), never shipped in your binary"@],
        NodeKind::Dev => seq!["dev-only: used for tests/examples/benchmarks, never shipped in your binary"@],
        NodeKind::Normal => seq![],
    }
}

/// The version a user should be on: the stable maximum, else the newest.
pub open spec fn latest_stable_of(m: Metadata) -> crate::version::VersionSpec {
    match m.max_stable_version {
        Some(v) => v@,
        None => m.newest_version@,
    }
}

pub open spec fn yanked_in(m: Metadata, v: crate::version::VersionSpec) -> bool {
    exists|i: int| 0 <= i < m.yanked_versions@.len() && #[trigger] m.yanked_versions@[i]@ == v
}

/// The lines that registry metadata, or its absence, contributes.
pub open spec fn meta_lines(
    node: DependencyNode,
    risk: RiskScore,
    advisories: Seq<Advisory>,
    meta: Option<Metadata>,
    now: int,
) -> Seq<Seq<char>> {
    match meta {
        Some(m) => {
            let yanked = if yanked_in(m, node.version@) {
                seq!["yanked: "@ + node.name@ + " "@ + version_text(node.version@) + " was pulled from crates.io"@]
            } else {
                seq![]
            };
            let lag = match lag_text(node.version@, latest_stable_of(m)) {
                Some(t) => seq![t],
                None => seq![],
            };
            let age = if risk.maintenance > 0 {
                seq![maintenance_text(days_between(now, m.updated_at as int))]
            } else {
                seq![]
            };
            yanked + lag + age
        },
        None => if node.is_registry {
            seq!["registry metadata unavailable; version and publish health unchecked"@]
        } else if advisories.len() == 0 {
            seq!["non-registry source; version and publish health not applicable"@]
        } else {
            seq![]
        },
    }
}

pub open spec fn relied_lines(n: nat) -> Seq<Seq<char>> {
    if n > 0 {
        seq!["relied on by "@ + decimal(n) + " "@ + (if n == 1 { "crate"@ } else { "crates"@ })
            + " in your graph, directly or transitively"@]
    } else {
        seq![]
    }
}

/// The reason lines of a finding: how it is pulled in, its advisories, what
/// its metadata shows, and how many crates rely on it; the score breakdown
/// when nothing else applies.
pub open spec fn reasons_text(
    node: DependencyNode,
    risk: RiskScore,
    advisories: Seq<Advisory>,
    meta: Option<Metadata>,
    now: int,
) -> Seq<Seq<char>> {
    let all = kind_lines(node.kind) + advisories.map_values(|a: Advisory| advisory_line_text(a))
        + meta_lines(node, risk, advisories, meta, now) + relied_lines(
        node.transitive_dependent_count as nat,
    );
    if all.len() == 0 {
        seq![explain_text(risk)]
    } else {
        all
    }
}

/// The reason lines of a finding.
#[verifier::rlimit(40)]
pub fn reason_lines(
    node: &DependencyNode,
    risk: &RiskScore,
    advisories: &Vec<Advisory>,
    meta_map: &MetaMap,
    now: i64,
) -> (r: Vec<String>)
    ensures
        views(r@) == reasons_text(*node, *risk, advisories@, lookup(meta_map.entries@, node.name@), now as int),
{
    let mut lines: Vec<String> = Vec::new();
    match node.kind {
        NodeKind::Build => push_line(
            &mut lines,
            "build-only: runs at build time (build.rs), never shipped in your binary".to_owned(),
        ),
        NodeKind::Dev => push_line(
            &mut lines,
            "dev-only: used for tests/examples/benchmarks, never shipped in your binary".to_owned(),
        ),
        NodeKind::Normal => {},
    }
    let ghost head = views(lines@);
    assert(head =~= kind_lines(node.kind));
    let mut i: usize = 0;
    while i < advisories.len()
        invariant
            i <= advisories@.len(),
            views(lines@) == head + advisories@.take(i as int).map_values(|a: Advisory| advisory_line_text(a)),
        decreases advisories@.len() - i,
    {
        push_line(&mut lines, advisories[i].line());
        proof {
            assert(advisories@.take(i + 1).map_values(|a: Advisory| advisory_line_text(a))
                =~= advisories@.take(i as int).map_values(|a: Advisory| advisory_line_text(a)).push(
                advisory_line_text(advisories@[i as int]),
            ));
        }
        i = i + 1;
    }
    proof {
        assert(advisories@.take(i as int) =~= advisories@);
    }
    let ghost before_meta = views(lines@);
    let meta = meta_map.get(node.name.as_str());
    match meta {
        Some(m) => {
            if m.is_yanked(&node.version) {
                let mut t = "yanked: ".to_owned();
                t.append(node.name.as_str());
                t.append(" ");
                node.version.push_text(&mut t);
                t.append(" was pulled from crates.io");
                push_line(&mut lines, t);
            }
            let ghost after_yank = views(lines@);
            match version_lag_line(&node.version, m.latest_stable()) {
                Some(t) => push_line(&mut lines, t),
                None => {},
            }
            let ghost after_lag = views(lines@);
            if risk.maintenance > 0 {
                let days = whole_days(now, m.updated_at);
                push_line(&mut lines, maintenance_line(days));
            }
            proof {
                let mm = lookup(meta_map.entries@, node.name@)->0;
                assert(*m == mm);
                assert(views(lines@) =~= before_meta + meta_lines(*node, *risk, advisories@, Some(mm), now as int));
            }
        },
        None => {
            if node.is_registry {
                push_line(&mut lines, "registry metadata unavailable; version and publish health unchecked".to_owned());
            } else if advisories.len() == 0 {
                push_line(&mut lines, "non-registry source; version and publish health not applicable".to_owned());
            }
            assert(views(lines@) =~= before_meta + meta_lines(*node, *risk, advisories@, None, now as int));
        },
    }
    let ghost before_relied = views(lines@);
    let n = node.transitive_dependent_count;
    if n > 0 {
        let mut t = "relied on by ".to_owned();
        push_decimal(&mut t, n as u64);
        t.append(" ");
        t.append(if n == 1 { "crate" } else { "crates" });
        t.append(" in your graph, directly or transitively");
        push_line(&mut lines, t);
    }
    proof {
        assert(views(lines@) =~= before_relied + relied_lines(n as nat));
    }
    if lines.len() == 0 {
        push_line(&mut lines, risk.explain());
    }
    proof {
        let all = kind_lines(node.kind) + advisories@.map_values(|a: Advisory| advisory_line_text(a))
            + meta_lines(*node, *risk, advisories@, lookup(meta_map.entries@, node.name@), now as int)
            + relied_lines(n as nat);
        assert(before_relied + relied_lines(n as nat) =~= all);
    }
    lines
}

/// Mutually exclusive summary buckets over the complete analysed set.
/// Severity wins over completeness: a crate with an advisory stays a finding
/// even where its registry metadata is missing.
pub fn summarize(findings: &Vec<Finding>, meta_map: &MetaMap, ignored: usize, degraded: bool) -> (r: ReportSummary)
    requires
        findings@.len() + ignored <= usize::MAX,
    ensures
        r.total == findings@.len() + ignored,
        r.critical == bucket_count(findings@, meta_map.entries@, Bucket::Critical),
        r.warnings == bucket_count(findings@, meta_map.entries@, Bucket::Warning),
        r.notices == bucket_count(findings@, meta_map.entries@, Bucket::Notice),
        r.unknown == bucket_count(findings@, meta_map.entries@, Bucket::Unknown),
        r.not_applicable == bucket_count(findings@, meta_map.entries@, Bucket::NotApplicable),
        r.healthy == bucket_count(findings@, meta_map.entries@, Bucket::Healthy),
        r.ignored == ignored,
        r.degraded == degraded,
        r.critical + r.warnings + r.notices + r.unknown + r.not_applicable + r.healthy + r.ignored
            == r.total,
{
    let ghost m = meta_map.entries@;
    let mut summary = ReportSummary {
        total: findings.len() + ignored,
        critical: 0,
        warnings: 0,
        notices: 0,
        unknown: 0,
        not_applicable: 0,
        ignored,
        healthy: 0,
        degraded,
    };
    let mut i: usize = 0;
    while i < findings.len()
        invariant
            i <= findings@.len(),
            m == meta_map.entries@,
            summary.total == findings@.len() + ignored,
            summary.ignored == ignored,
            summary.degraded == degraded,
            summary.critical == bucket_count(findings@.take(i as int), m, Bucket::Critical),
            summary.warnings == bucket_count(findings@.take(i as int), m, Bucket::Warning),
            summary.notices == bucket_count(findings@.take(i as int), m, Bucket::Notice),
            summary.unknown == bucket_count(findings@.take(i as int), m, Bucket::Unknown),
            summary.not_applicable == bucket_count(findings@.take(i as int), m, Bucket::NotApplicable),
            summary.healthy == bucket_count(findings@.take(i as int), m, Bucket::Healthy),
        decreases findings@.len() - i,
    {
        proof {
            lemma_buckets_partition(findings@.take(i as int), m);
            assert(findings@.take(i + 1).drop_last() =~= findings@.take(i as int));
        }
        match bucket(&findings[i], meta_map) {
            Bucket::Critical => summary.critical = summary.critical + 1,
            Bucket::Warning => summary.warnings = summary.warnings + 1,
            Bucket::Notice => summary.notices = summary.notices + 1,
            Bucket::Unknown => summary.unknown = summary.unknown + 1,
            Bucket::NotApplicable => summary.not_applicable = summary.not_applicable + 1,
            Bucket::Healthy => summary.healthy = summary.healthy + 1,
        }
        i = i + 1;
    }
    proof {
        assert(findings@.take(i as int) =~= findings@);
        lemma_buckets_partition(findings@, m);
    }
    summary
}

/// Mutually exclusive summary buckets over the analyzed graph.
#[derive(Debug, Clone, Copy, PartialEq, Eq, Structural)]
pub struct ReportSummary {
    pub total: usize,
    pub critical: usize,
    pub warnings: usize,
    pub notices: usize,
    pub unknown: usize,
    pub not_applicable: usize,
    pub ignored: usize,
    pub healthy: usize,
    pub degraded: bool,
}

/// The analyzed project, for provenance in JSON output.
pub struct JsonProject {
    /// `None` for a virtual workspace manifest.
    pub name: Option<String>,
    pub manifest_path: String,
}

/// A crate resolved at more than one version.
pub struct JsonDuplicate {
    pub name: String,
    pub versions: Vec<String>,
}

/// A crate suppressed by an ignore rule, with its reason if one was given.
pub struct JsonIgnored {
    pub name: String,
    pub reason: Option<String>,
}

/// How a duplicate group reads: the name and its versions.
pub open spec fn dup_entry(d: JsonDuplicate) -> Seq<char> {
    d.name@ + " ("@ + join(views(d.versions@), ", "@) + ")"@
}

pub open spec fn more_suffix(more: nat) -> Seq<char> {
    if more > 0 {
        " (+ "@ + decimal(more) + " more)"@
    } else {
        seq![]
    }
}

/// The duplicates line with `mark` as its warning sign: the count, and
/// the first three groups.
pub open spec fn duplicates_text(dups: Seq<JsonDuplicate>, mark: Seq<char>) -> Seq<char> {
    let n = dups.len();
    let shown = dups.take(if n < 3 { n as int } else { 3 });
    "  "@ + mark + " "@ + decimal(n) + " "@ + (if n == 1 { "crate"@ } else { "crates"@ })
        + " resolve at multiple versions: "@ + join(shown.map_values(|d: JsonDuplicate| dup_entry(d)), ", "@)
        + more_suffix(if n > 3 { (n - 3) as nat } else { 0 })
}

fn push_more(out: &mut String, more: usize)
    ensures
        final(out)@ == old(out)@ + more_suffix(more as nat),
{
    if more > 0 {
        out.append(" (+ ");
        push_decimal(out, more as u64);
        out.append(" more)");
    }
    assert(final(out)@ =~= old(out)@ + more_suffix(more as nat));
}

fn dup_entry_string(d: &JsonDuplicate) -> (r: String)
    ensures
        r@ == dup_entry(*d),
{
    let mut s = d.name.clone();
    s.append(" (");
    push_joined(&mut s, &d.versions, ", ");
    s.append(")");
    s
}

/// The duplicates line with a given warning sign; `None` without duplicates.
pub fn duplicates_line_with(dups: &Vec<JsonDuplicate>, mark: &str) -> (r: Option<String>)
    ensures
        dups@.len() == 0 <==> r is None,
        r matches Some(t) ==> t@ == duplicates_text(dups@, mark@),
{
    let n = dups.len();
    if n == 0 {
        return None;
    }
    let k = if n < 3 { n } else { 3 };
    let mut shown: Vec<String> = Vec::new();
    let mut i: usize = 0;
    while i < k
        invariant
            k <= dups@.len(),
            i <= k,
            views(shown@) == dups@.take(i as int).map_values(|d: JsonDuplicate| dup_entry(d)),
        decreases k - i,
    {
        let e = dup_entry_string(&dups[i]);
        let ghost before = shown@;
        shown.push(e);
        proof {
            assert(views(shown@) =~= views(before).push(e@));
            assert(dups@.take(i + 1).map_values(|d: JsonDuplicate| dup_entry(d)) =~= dups@.take(
                i as int,
            ).map_values(|d: JsonDuplicate| dup_entry(d)).push(dup_entry(dups@[i as int])));
        }
        i = i + 1;
    }
    let mut out = "  ".to_owned();
    out.append(mark);
    out.append(" ");
    push_decimal(&mut out, n as u64);
    out.append(" ");
    out.append(plural(n, "crate", "crates"));
    out.append(" resolve at multiple versions: ");
    push_joined(&mut out, &shown, ", ");
    push_more(&mut out, if n > 3 { n - 3 } else { 0 });
    assert(out@ =~= duplicates_text(dups@, mark@));
    Some(out)
}

/// A single-line summary of duplicate-version groups, capped at three
/// groups; `None` without duplicates. The sign is `⚠` in yellow.
pub fn duplicates_line(dups: &Vec<JsonDuplicate>) -> (r: Option<String>)
    ensures
        dups@.len() == 0 <==> r is None,
        r matches Some(t) ==> exists|mark: Seq<char>|
            painted(mark, "⚠"@, Style::Yellow) && t@ == duplicates_text(dups@, mark),
{
    proof {
        reveal_strlit("⚠");
    }
    let mark = paint("⚠", Style::Yellow);
    duplicates_line_with(dups, mark.as_str())
}

/// The degraded-run warning with its two styled parts given: the sign and
/// the count.
pub open spec fn degraded_text(
    count: nat,
    attempted: nat,
    sample: Seq<Seq<char>>,
    last_error: Option<Seq<char>>,
    mark: Seq<char>,
    shown_count: Seq<char>,
) -> Seq<char> {
    "  "@ + mark + " "@ + shown_count + " of "@ + decimal(attempted) + " "@ + (if count == 1 {
        "crate"@
    } else {
        "crates"@
    }) + " could not be checked (registry metadata unavailable) — results are incomplete"@ + (if sample.len() > 0 {
        "\n     e.g. "@ + join(sample, ", "@) + more_suffix(
            if count > sample.len() { (count - sample.len()) as nat } else { 0 },
        )
    } else {
        seq![]
    }) + match last_error {
        Some(e) => "\n     last error: "@ + e,
        None => seq![],
    }
}

/// The degraded-run warning, its styled parts given.
pub fn degraded_warning_with(
    unchecked_count: usize,
    attempted: usize,
    sample: &Vec<String>,
    last_error: Option<&str>,
    mark: &str,
    shown_count: &str,
) -> (r: String)
    ensures
        r@ == degraded_text(
            unchecked_count as nat,
            attempted as nat,
            views(sample@),
            match last_error {
                Some(e) => Some(e@),
                None => None,
            },
            mark@,
            shown_count@,
        ),
{
    let mut msg = "  ".to_owned();
    msg.append(mark);
    msg.append(" ");
    msg.append(shown_count);
    msg.append(" of ");
    push_decimal(&mut msg, attempted as u64);
    msg.append(" ");
    msg.append(plural(unchecked_count, "crate", "crates"));
    msg.append(" could not be checked (registry metadata unavailable) — results are incomplete");
    let ghost head = msg@;
    if sample.len() > 0 {
        let more = if unchecked_count > sample.len() { unchecked_count - sample.len() } else { 0 };
        msg.append("\n     e.g. ");
        push_joined(&mut msg, sample, ", ");
        push_more(&mut msg, more);
    }
    let ghost mid = msg@;
    match last_error {
        Some(e) => {
            msg.append("\n     last error: ");
            msg.append(e);
        },
        None => {},
    }
    proof {
        assert(views(sample@).len() == sample@.len());
    }
    assert(msg@ =~= degraded_text(
        unchecked_count as nat,
        attempted as nat,
        views(sample@),
        match last_error {
            Some(e) => Some(e@),
            None => None,
        },
        mark@,
        shown_count@,
    ));
    msg
}

/// A prominent warning that registry metadata could not be fetched for some
/// crates, so version and maintenance scoring is incomplete: the sign `⚠`
/// and the count in bold yellow, a sample of names and the last error.
pub fn degraded_warning(
    unchecked_count: usize,
    attempted: usize,
    sample: &Vec<String>,
    last_error: Option<&str>,
) -> (r: String)
    ensures
        exists|mark: Seq<char>, shown: Seq<char>|
            painted(mark, "⚠"@, Style::YellowBold) && painted(shown, decimal(unchecked_count as nat), Style::YellowBold)
                && r@ == degraded_text(
                unchecked_count as nat,
                attempted as nat,
                views(sample@),
                match last_error {
                    Some(e) => Some(e@),
                    None => None,
                },
                mark,
                shown,
            ),
{
    proof {
        reveal_strlit("⚠");
        lemma_decimal_plain(unchecked_count as nat);
    }
    let mark = paint("⚠", Style::YellowBold);
    let count_text = decimal_string(unchecked_count as u64);
    let shown = paint(count_text.as_str(), Style::YellowBold);
    degraded_warning_with(unchecked_count, attempted, sample, last_error, mark.as_str(), shown.as_str())
}

/// The hanging indent of a continuation line: five columns, fewer in a
/// box narrower than six.
pub open spec fn cont_len(width: nat) -> nat {
    if width > CONTINUATION_INDENT { CONTINUATION_INDENT as nat } else if width > 0 { (width - 1) as nat } else { 0 }
}

/// `c` fits a line of `width` columns on its own and behind the hanging
/// indent, so that a hard split always moves on.
pub open spec fn char_fits(c: char, width: nat) -> bool {
    &&& str_cols(seq![c]) <= width
    &&& str_cols(repeat(' ', cont_len(width)) + seq![c]) <= width
}

/// Every character of `s` fits a line at `width`.
pub open spec fn narrow_enough(s: Seq<char>, width: nat) -> bool {
    forall|i: int| 0 <= i < s.len() ==> char_fits(#[trigger] s[i], width)
}

pub open spec fn starts_with(s: Seq<char>, prefix: Seq<char>) -> bool {
    s.len() >= prefix.len() && s.take(prefix.len() as int) == prefix
}

/// The concatenation of `parts`.
pub open spec fn flat(parts: Seq<Seq<char>>) -> Seq<char> {
    join(parts, seq![])
}

proof fn lemma_flat_push(parts: Seq<Seq<char>>, x: Seq<char>)
    ensures
        flat(parts.push(x)) == flat(parts) + x,
{
    if parts.len() == 0 {
        assert(parts.push(x).len() == 1);
        assert(flat(parts.push(x)) == x);
        assert(flat(parts) + x =~= x);
    } else {
        assert(parts.push(x).drop_last() =~= parts);
        assert(flat(parts) + seq![] =~= flat(parts));
    }
}

fn suffix(s: &str, k: usize) -> (r: String)
    requires
        k <= s@.len(),
    ensures
        r@ == s@.skip(k as int),
{
    let n = s.unicode_len();
    let mut out = String::new();
    let mut i: usize = k;
    while i < n
        invariant
            n == s@.len(),
            k <= i <= n,
            out@ == s@.subrange(k as int, i as int),
        decreases n - i,
    {
        push_char(&mut out, s.get_char(i));
        i = i + 1;
        assert(out@ =~= s@.subrange(k as int, i as int));
    }
    assert(out@ =~= s@.skip(k as int));
    out
}

/// Appends the first `k` characters of `s`.
fn push_prefix(out: &mut String, s: &str, k: usize)
    requires
        k <= s@.len(),
    ensures
        final(out)@ == old(out)@ + s@.take(k as int),
{
    let ghost start = out@;
    let mut i: usize = 0;
    while i < k
        invariant
            k <= s@.len(),
            i <= k,
            out@ == start + s@.take(i as int),
        decreases k - i,
    {
        push_char(out, s.get_char(i));
        i = i + 1;
        assert(out@ =~= start + s@.take(i as int));
    }
}

/// Where the word of `t` that starts at `p` ends: at the next space, or at
/// the end of `t`.
pub open spec fn word_end(t: Seq<char>, p: int) -> int
    decreases t.len() - p,
{
    if 0 <= p < t.len() && t[p] != ' ' {
        word_end(t, p + 1)
    } else {
        p
    }
}

/// The word of `t` that starts at `p`.
pub open spec fn word_at(t: Seq<char>, p: int) -> Seq<char> {
    t.subrange(p, word_end(t, p))
}

/// A word of `t` starts at `p`, and that word, behind a space, would make
/// `line` wider than `width`.
pub open spec fn word_overflows(t: Seq<char>, width: nat, line: Seq<char>, p: int) -> bool {
    &&& 0 <= p <= t.len()
    &&& (p == 0 || t[p - 1] == ' ')
    &&& str_cols(line + seq![' '] + word_at(t, p)) > width
}

/// The character of `t` at `p` would make `line` wider than `width`.
pub open spec fn char_overflows(t: Seq<char>, width: nat, line: Seq<char>, p: int) -> bool {
    &&& 0 <= p < t.len()
    &&& str_cols(line.push(t[p])) > width
}

/// `s` stands in `t` at position `q`.
pub open spec fn text_at(t: Seq<char>, q: int, s: Seq<char>) -> bool {
    0 <= q && q + s.len() <= t.len() && t.subrange(q, q + s.len()) == s
}

/// Only spaces stand in `t` from `a` up to, not including, `b`.
pub open spec fn spaces_between(t: Seq<char>, a: int, b: int) -> bool {
    forall|i: int| a <= i < b ==> t[i] == ' '
}

/// A hard split ended `line` inside a word of `t`, just before `q`, where
/// the next character would have made it too wide.
pub open spec fn split_inside(t: Seq<char>, width: nat, line: Seq<char>, q: int) -> bool {
    &&& char_overflows(t, width, line, q)
    &&& 0 < q
    &&& t[q - 1] != ' '
    &&& t[q] != ' '
    &&& line.len() > 0
    &&& line.last() == t[q - 1]
}

/// `line` broke where the text goes on at `q`: either the word that starts
/// at some `p`, with only spaces from `p` to `q`, did not fit behind it, or
/// a hard split ended it inside a word just before `q`.
pub open spec fn breaks_at(t: Seq<char>, width: nat, line: Seq<char>, q: int) -> bool {
    ||| exists|p: int| #[trigger] word_overflows(t, width, line, p) && p <= q && spaces_between(t, p, q)
    ||| split_inside(t, width, line, q)
}

/// The text of line `i`: all of the first line, the others less their
/// hanging indent.
pub open spec fn body_of(pieces: Seq<Seq<char>>, i: int, width: nat) -> Seq<char> {
    if i == 0 {
        pieces[0]
    } else {
        pieces[i].skip(cont_len(width) as int)
    }
}

/// Where the text of the last line ends, the lines starting at `starts`.
pub open spec fn end_of(pieces: Seq<Seq<char>>, starts: Seq<int>, width: nat) -> int {
    starts.last() + body_of(pieces, pieces.len() - 1, width).len()
}

/// Line `i` ends at or before where line `i + 1` starts, and broke there.
pub open spec fn breaks_after(t: Seq<char>, width: nat, pieces: Seq<Seq<char>>, starts: Seq<int>, i: int) -> bool {
    &&& starts[i] + body_of(pieces, i, width).len() <= starts[i + 1]
    &&& breaks_at(t, width, pieces[i], starts[i + 1])
}

/// The lines stand in the text, in order, at `starts`, and each line but
/// the last broke where the next one starts.
pub open spec fn laid_out(t: Seq<char>, width: nat, pieces: Seq<Seq<char>>, starts: Seq<int>) -> bool {
    &&& starts.len() == pieces.len()
    &&& forall|i: int| 0 <= i < pieces.len() ==> #[trigger] text_at(t, starts[i], body_of(pieces, i, width))
    &&& forall|i: int| 0 <= i < pieces.len() - 1 ==> #[trigger] breaks_after(t, width, pieces, starts, i)
}

/// Every line but the last was filled until the word or the character
/// where the next line starts did not fit.
pub open spec fn filled_greedily(t: Seq<char>, width: nat, pieces: Seq<Seq<char>>) -> bool {
    exists|starts: Seq<int>| laid_out(t, width, pieces, starts)
}

proof fn lemma_word_end(t: Seq<char>, p: int, e: int)
    requires
        0 <= p <= e <= t.len(),
        forall|i: int| p <= i < e ==> t[i] != ' ',
        e == t.len() || t[e] == ' ',
    ensures
        word_end(t, p) == e,
    decreases e - p,
{
    if p < e {
        lemma_word_end(t, p + 1, e);
    }
}

proof fn lemma_laid_push(t: Seq<char>, width: nat, pieces: Seq<Seq<char>>, starts: Seq<int>, x: Seq<char>, q: int)
    requires
        laid_out(t, width, pieces, starts),
        pieces.len() > 0 ==> end_of(pieces, starts, width) <= q && breaks_at(t, width, pieces.last(), q),
        text_at(t, q, body_of(pieces.push(x), pieces.len() as int, width)),
    ensures
        laid_out(t, width, pieces.push(x), starts.push(q)),
{
    let np = pieces.push(x);
    let ns = starts.push(q);
    assert forall|i: int| 0 <= i < np.len() implies #[trigger] text_at(t, ns[i], body_of(np, i, width)) by {
        if i < pieces.len() {
            assert(np[i] == pieces[i]);
            assert(body_of(np, i, width) == body_of(pieces, i, width));
            assert(text_at(t, starts[i], body_of(pieces, i, width)));
        }
    }
    assert forall|i: int| 0 <= i < np.len() - 1 implies #[trigger] breaks_after(t, width, np, ns, i) by {
        assert(np[i] == pieces[i]);
        assert(body_of(np, i, width) == body_of(pieces, i, width));
        if i < pieces.len() - 1 {
            assert(breaks_after(t, width, pieces, starts, i));
            assert(np[i + 1] == pieces[i + 1]);
        }
    }
}

/// How many leading characters of `rest` still fit behind `line`: at least
/// one, and not all of them.
fn fit_prefix(line: &str, rest: &str, width: usize) -> (k: usize)
    requires
        rest@.len() >= 1,
        str_cols(line@.push(rest@[0])) <= width,
        str_cols(line@ + rest@) > width,
    ensures
        1 <= k < rest@.len(),
        str_cols(line@ + rest@.take(k as int)) <= width,
        str_cols(line@ + rest@.take(k + 1)) > width,
{
    let n = rest.unicode_len();
    let mut probe = line.to_owned();
    push_char(&mut probe, rest.get_char(0));
    let mut k: usize = 1;
    assert(probe@ =~= line@ + rest@.take(1));
    while k < n
        invariant
            n == rest@.len(),
            1 <= k <= n,
            probe@ == line@ + rest@.take(k as int),
            str_cols(line@ + rest@.take(k as int)) <= width,
            str_cols(line@ + rest@) > width,
        decreases n - k,
    {
        push_char(&mut probe, rest.get_char(k));
        assert(probe@ =~= line@ + rest@.take(k + 1));
        if text_width(probe.as_str()) > width {
            return k;
        }
        k = k + 1;
    }
    assert(rest@.take(k as int) =~= rest@);
    k
}

/// What wrapping gives: no non-space character lost, added or moved;
/// every line within `width` columns; every line after the first behind
/// the hanging indent; and each line but the last filled until what came
/// next did not fit.
#[verifier::opaque]
pub open spec fn wrapped(text: Seq<char>, width: nat, pieces: Seq<Seq<char>>) -> bool {
    &&& nonspace(flat(pieces)) == nonspace(text)
    &&& forall|i: int| 0 <= i < pieces.len() ==> str_cols(#[trigger] pieces[i]) <= width
    &&& forall|i: int| 1 <= i < pieces.len() ==> starts_with(#[trigger] pieces[i], repeat(' ', cont_len(width)))
    &&& filled_greedily(text, width, pieces)
}

/// Splits `text` into lines that each fit `width` display columns,
/// breaking at spaces, hard-splitting a word that fits no line, and
/// indenting continuation lines. A line is measured whole, indent included,
/// each time it would grow. `narrow_enough` excludes the texts on which a
/// character too wide for a line would stop a split from moving on.
#[verifier::rlimit(100)]
pub fn wrap_to_width(text: &str, width: usize) -> (r: Vec<String>)
    requires
        width == 0 || narrow_enough(text@, width as nat),
    ensures
        width == 0 ==> views(r@) == seq![Seq::<char>::empty()],
        width > 0 && str_cols(text@) <= width ==> views(r@) == seq![text@],
        width > 0 && str_cols(text@) > width ==> wrapped(text@, width as nat, views(r@)),
{
    if width == 0 {
        let r = vec![String::new()];
        assert(views(r@) =~= seq![Seq::<char>::empty()]);
        return r;
    }
    if text_width(text) <= width {
        let r = vec![text.to_owned()];
        assert(views(r@) =~= seq![text@]);
        return r;
    }
    let ghost w = width as nat;
    let cont = if width > CONTINUATION_INDENT { CONTINUATION_INDENT } else { width - 1 };
    let mut indent = String::new();
    push_repeat(&mut indent, ' ', cont);
    let nothing = String::new();
    proof {
        assert(indent@ =~= repeat(' ', cont_len(width as nat)));
        lemma_repeat_len(' ', cont_len(width as nat));
        assert(all_printable_ascii(indent@));
        assert(all_printable_ascii(nothing@));
        lemma_nonspace_spaces(cont_len(width as nat));
        assert(text@.take(0) =~= Seq::<char>::empty());
    }
    let _ = text_width(indent.as_str());
    let _ = text_width(nothing.as_str());
    let n = text.unicode_len();
    let mut lines: Vec<String> = Vec::new();
    let mut line = String::new();
    let mut filled = false;
    let mut pos: usize = 0;
    let mut done = false;
    let ghost mut starts: Seq<int> = Seq::empty();
    let ghost mut ls: int = 0;
    let ghost mut le: int = 0;
    let ghost mut pk: bool = true;
    let ghost mut pp: int = 0;
    proof {
        assert(views(lines@) =~= Seq::<Seq<char>>::empty());
        assert(flat(views(lines@)) =~= Seq::<char>::empty());
        assert(nonspace(Seq::<char>::empty()) =~= Seq::<char>::empty());
        assert(laid_out(text@, w, views(lines@), starts));
    }
    while !done
        invariant
            n == text@.len(),
            width >= 1,
            w == width as nat,
            cont == cont_len(width as nat),
            cont < width,
            indent@ == repeat(' ', cont_len(width as nat)),
            indent@.len() == cont,
            nonspace(indent@) == Seq::<char>::empty(),
            str_cols(indent@) == cont,
            str_cols(Seq::<char>::empty()) == 0,
            narrow_enough(text@, width as nat),
            pos <= n,
            done ==> pos == n,
            !done ==> (pos == 0 || text@[pos - 1] == ' '),
            nonspace(flat(views(lines@))) + nonspace(line@) == nonspace(text@.take(pos as int)),
            forall|i: int| 1 <= i < views(lines@).len() ==> starts_with(#[trigger] views(lines@)[i], indent@),
            forall|i: int| 0 <= i < views(lines@).len() ==> str_cols(#[trigger] views(lines@)[i]) <= width,
            laid_out(text@, w, views(lines@), starts),
            lines@.len() == 0 ==> (filled <==> line@.len() > 0),
            lines@.len() > 0 ==> starts_with(line@, indent@) && (filled <==> line@.len() > cont),
            filled ==> str_cols(line@) <= width,
            filled ==> 0 <= ls <= le <= n && line@.skip(if lines@.len() > 0 { cont as int } else { 0 }) == text@.subrange(ls, le),
            filled && !done ==> le + 1 == pos,
            lines@.len() > 0 ==> end_of(views(lines@), starts, w) <= pp,
            lines@.len() > 0 && pk ==> word_overflows(text@, w, views(lines@).last(), pp) && (filled ==> pp <= ls
                && spaces_between(text@, pp, ls)) && (!filled ==> pp <= pos && spaces_between(text@, pp, pos as int)),
            lines@.len() > 0 && !pk ==> split_inside(text@, w, views(lines@).last(), pp) && filled && ls == pp,
        decreases n - pos + if done { 0int } else { 1int },
    {
        let mut word = String::new();
        let mut end = pos;
        let mut at_space = false;
        while !at_space && end < n
            invariant
                n == text@.len(),
                pos <= end <= n,
                word@ == text@.subrange(pos as int, end as int),
                forall|i: int| pos <= i < end ==> text@[i] != ' ',
                at_space ==> end < n && text@[end as int] == ' ',
            decreases n - end + if at_space { 0int } else { 1int },
        {
            let c = text.get_char(end);
            if c == ' ' {
                at_space = true;
            } else {
                push_char(&mut word, c);
                end = end + 1;
                assert(word@ =~= text@.subrange(pos as int, end as int));
            }
        }
        proof {
            lemma_word_end(text@, pos as int, end as int);
            assert(word_at(text@, pos as int) == word@);
            assert(text@.take(end as int) =~= text@.take(pos as int) + word@);
            lemma_nonspace_concat(text@.take(pos as int), word@);
        }
        let ghost lines0 = views(lines@);
        let ghost line0 = line@;
        let ghost ilen: int = if lines@.len() > 0 { cont as int } else { 0 };
        let mut cand = line.clone();
        if filled {
            push_char(&mut cand, ' ');
        }
        cand.append(word.as_str());
        let ghost sep: Seq<char> = if filled { seq![' '] } else { Seq::<char>::empty() };
        proof {
            assert(cand@ =~= line0 + sep + word@);
            assert(nonspace(sep) =~= Seq::<char>::empty()) by {
                if filled {
                    assert(sep.len() == 1);
                    assert(sep.last() == ' ');
                    assert(sep.drop_last() =~= Seq::<char>::empty());
                    assert(nonspace(sep) == nonspace(sep.drop_last()));
                }
            }
            lemma_nonspace_concat(line0 + sep, word@);
            lemma_nonspace_concat(line0, sep);
            assert(line0.len() >= ilen);
        }
        if text_width(cand.as_str()) <= width {
            proof {
                assert(cand@.skip(ilen) =~= line0.skip(ilen) + sep + word@);
                if lines0.len() > 0 {
                    assert(cand@.take(cont as int) =~= line0.take(cont as int));
                }
                if filled {
                    assert(text@.subrange(ls, end as int) =~= text@.subrange(ls, le) + seq![' '] + word@);
                } else {
                    assert(line0.skip(ilen) =~= Seq::<char>::empty());
                    assert(cand@.skip(ilen) =~= word@);
                    if word@.len() > 0 {
                        ls = pos as int;
                    }
                }
                le = end as int;
            }
            line = cand;
            filled = filled || word.as_str().unicode_len() > 0;
        } else {
            if filled {
                push_line(&mut lines, line.clone());
                proof {
                    assert(line0.skip(ilen).len() == le - ls);
                    assert(body_of(lines0.push(line0), lines0.len() as int, w) == line0.skip(ilen));
                    assert(text_at(text@, ls, line0.skip(ilen)));
                    if lines0.len() > 0 {
                        if pk {
                            assert(word_overflows(text@, w, lines0.last(), pp));
                        }
                        assert(breaks_at(text@, w, lines0.last(), ls));
                    }
                    lemma_laid_push(text@, w, lines0, starts, line0, ls);
                    starts = starts.push(ls);
                    assert(word_overflows(text@, w, line0, pos as int));
                    assert(end_of(views(lines@), starts, w) == le);
                    pk = true;
                    pp = pos as int;
                    lemma_flat_push(lines0, line0);
                    lemma_nonspace_concat(flat(lines0), line0);
                    assert(views(lines@).last() == line0);
                    assert forall|i: int| 1 <= i < views(lines@).len() implies starts_with(#[trigger] views(lines@)[i], indent@) by {
                        if i < lines0.len() {
                            assert(views(lines@)[i] == lines0[i]);
                        }
                    }
                    assert forall|i: int| 0 <= i < views(lines@).len() implies str_cols(#[trigger] views(lines@)[i]) <= width by {
                        if i < lines0.len() {
                            assert(views(lines@)[i] == lines0[i]);
                        }
                    }
                }
            } else {
                proof {
                    if lines0.len() > 0 {
                        assert(line0 =~= indent@);
                    } else {
                        assert(line0 =~= Seq::<char>::empty());
                    }
                    assert(nonspace(line0) =~= Seq::<char>::empty());
                }
            }
            line = if lines.len() > 0 { indent.clone() } else { String::new() };
            let ghost lines1 = views(lines@);
            proof {
                assert(nonspace(flat(lines1)) + nonspace(word@) == nonspace(text@.take(end as int)));
            }
            let mut rest = word;
            let ghost mut rs: int = pos as int;
            let mut fits = false;
            let mut probe = String::new();
            proof {
                assert(rest@ =~= text@.subrange(rs, end as int));
            }
            while !fits
                invariant
                    n == text@.len(),
                    width >= 1,
                    w == width as nat,
                    cont == cont_len(width as nat),
                    cont < width,
                    indent@ == repeat(' ', cont_len(width as nat)),
                    indent@.len() == cont,
                    nonspace(indent@) == Seq::<char>::empty(),
                    str_cols(indent@) == cont,
                    str_cols(Seq::<char>::empty()) == 0,
                    narrow_enough(text@, width as nat),
                    pos <= rs <= end <= n,
                    end < n ==> text@[end as int] == ' ',
                    forall|i: int| pos <= i < end ==> text@[i] != ' ',
                    rest@ == text@.subrange(rs, end as int),
                    nonspace(flat(views(lines@))) + nonspace(rest@) == nonspace(text@.take(end as int)),
                    forall|i: int| 1 <= i < views(lines@).len() ==> starts_with(#[trigger] views(lines@)[i], indent@),
                    forall|i: int| 0 <= i < views(lines@).len() ==> str_cols(#[trigger] views(lines@)[i]) <= width,
                    laid_out(text@, w, views(lines@), starts),
                    lines@.len() == 0 ==> line@ == Seq::<char>::empty(),
                    lines@.len() > 0 ==> line@ == indent@,
                    lines@.len() > 0 ==> end_of(views(lines@), starts, w) <= pp,
                    lines@.len() > 0 && pk ==> word_overflows(text@, w, views(lines@).last(), pp) && pp <= rs
                        && spaces_between(text@, pp, rs),
                    lines@.len() > 0 && !pk ==> split_inside(text@, w, views(lines@).last(), pp) && rs == pp
                        && rest@.len() > 0,
                    fits ==> probe@ == line@ + rest@ && str_cols(probe@) <= width,
                decreases rest@.len() + if fits { 0int } else { 1int },
            {
                probe = line.clone();
                probe.append(rest.as_str());
                if text_width(probe.as_str()) <= width {
                    fits = true;
                } else {
                    let ghost lines2 = views(lines@);
                    proof {
                        if rest@.len() == 0 {
                            assert(probe@ =~= line@);
                            assert(false);
                        }
                        assert(rest@[0] == text@[rs]);
                        assert(char_fits(text@[rs], w));
                        if lines@.len() > 0 {
                            assert(line@.push(rest@[0]) =~= repeat(' ', cont_len(w)) + seq![rest@[0]]);
                        } else {
                            assert(line@.push(rest@[0]) =~= seq![rest@[0]]);
                        }
                    }
                    let k = fit_prefix(line.as_str(), rest.as_str(), width);
                    let mut piece = line.clone();
                    push_prefix(&mut piece, rest.as_str(), k);
                    let tail = suffix(rest.as_str(), k);
                    proof {
                        assert(rest@ =~= rest@.take(k as int) + tail@);
                        lemma_nonspace_concat(rest@.take(k as int), tail@);
                        lemma_nonspace_concat(line@, rest@.take(k as int));
                        lemma_flat_push(lines2, piece@);
                        lemma_nonspace_concat(flat(lines2), piece@);
                        if lines2.len() > 0 {
                            assert(piece@.skip(cont as int) =~= rest@.take(k as int));
                            assert(piece@.take(cont as int) =~= indent@);
                            if pk {
                                assert(word_overflows(text@, w, lines2.last(), pp));
                            }
                            assert(breaks_at(text@, w, lines2.last(), rs));
                        } else {
                            assert(piece@ =~= rest@.take(k as int));
                        }
                        assert(body_of(lines2.push(piece@), lines2.len() as int, w) == rest@.take(k as int));
                        assert(rest@.take(k as int) =~= text@.subrange(rs, rs + k));
                        lemma_laid_push(text@, w, lines2, starts, piece@, rs);
                        starts = starts.push(rs);
                        assert(piece@.push(text@[rs + k]) =~= line@ + rest@.take(k + 1));
                        assert(piece@.last() == text@[rs + k - 1]);
                        assert(split_inside(text@, w, piece@, rs + k));
                        pk = false;
                        pp = rs + k;
                    }
                    push_line(&mut lines, piece);
                    proof {
                        assert(views(lines@).last() == piece@);
                        assert(end_of(views(lines@), starts, w) == rs + k);
                        assert forall|i: int| 1 <= i < views(lines@).len() implies starts_with(#[trigger] views(lines@)[i], indent@) by {
                            if i < lines2.len() {
                                assert(views(lines@)[i] == lines2[i]);
                            }
                        }
                        assert forall|i: int| 0 <= i < views(lines@).len() implies str_cols(#[trigger] views(lines@)[i]) <= width by {
                            if i < lines2.len() {
                                assert(views(lines@)[i] == lines2[i]);
                            }
                        }
                        rs = rs + k;
                        assert(tail@ =~= text@.subrange(rs, end as int));
                    }
                    line = indent.clone();
                    rest = tail;
                }
            }
            proof {
                lemma_nonspace_concat(line@, rest@);
                let il: int = if lines@.len() > 0 { cont as int } else { 0 };
                assert(probe@.skip(il) =~= rest@);
                if lines@.len() > 0 {
                    assert(probe@.take(cont as int) =~= indent@);
                }
                ls = rs;
                le = end as int;
            }
            line = probe;
            filled = rest.as_str().unicode_len() > 0;
        }
        proof {
            assert(nonspace(flat(views(lines@))) + nonspace(line@) =~= nonspace(text@.take(end as int)));
            if lines@.len() > 0 && pk && !filled {
                assert(pp <= end && spaces_between(text@, pp, end as int));
            }
        }
        if end < n {
            proof {
                let t = text@.take(end + 1);
                assert(t =~= text@.take(end as int).push(' '));
                assert(t.drop_last() =~= text@.take(end as int));
                assert(t.last() == ' ');
                assert(nonspace(t) == nonspace(text@.take(end as int)));
            }
            pos = end + 1;
        } else {
            pos = n;
            done = true;
        }
    }
    if filled {
        let ghost lines0 = views(lines@);
        let ghost line0 = line@;
        push_line(&mut lines, line.clone());
        proof {
            let ilen: int = if lines0.len() > 0 { cont as int } else { 0 };
            assert(line0.skip(ilen).len() == le - ls);
            assert(body_of(lines0.push(line0), lines0.len() as int, w) == line0.skip(ilen));
            if lines0.len() > 0 {
                if pk {
                    assert(word_overflows(text@, w, lines0.last(), pp));
                }
                assert(breaks_at(text@, w, lines0.last(), ls));
            }
            lemma_laid_push(text@, w, lines0, starts, line0, ls);
            starts = starts.push(ls);
            lemma_flat_push(lines0, line0);
            lemma_nonspace_concat(flat(lines0), line0);
            assert forall|i: int| 1 <= i < views(lines@).len() implies starts_with(#[trigger] views(lines@)[i], indent@) by {
                if i < lines0.len() {
                    assert(views(lines@)[i] == lines0[i]);
                }
            }
            assert forall|i: int| 0 <= i < views(lines@).len() implies str_cols(#[trigger] views(lines@)[i]) <= width by {
                if i < lines0.len() {
                    assert(views(lines@)[i] == lines0[i]);
                }
            }
        }
    } else {
        proof {
            if lines@.len() > 0 {
                assert(line@ =~= indent@);
            } else {
                assert(line@ =~= Seq::<char>::empty());
            }
            assert(nonspace(line@) =~= Seq::<char>::empty());
            assert(nonspace(flat(views(lines@))) + nonspace(line@) =~= nonspace(flat(views(lines@))));
        }
    }
    proof {
        assert(text@.take(n as int) =~= text@);
        let pieces = views(lines@);
        assert(nonspace(flat(pieces)) == nonspace(text@));
        assert(forall|i: int| 0 <= i < pieces.len() ==> str_cols(#[trigger] pieces[i]) <= width);
        assert(forall|i: int| 1 <= i < pieces.len() ==> starts_with(#[trigger] pieces[i], repeat(' ', cont_len(width as nat))));
        assert(laid_out(text@, w, pieces, starts));
        assert(filled_greedily(text@, width as nat, pieces));
        reveal(wrapped);
    }
    lines
}

/// Wraps a reason line when every character fits a line at `width`;
/// `None` when one does not.
pub fn wrap_checked(text: &str, width: usize) -> (r: Option<Vec<String>>)
    ensures
        r is Some <==> (width == 0 || narrow_enough(text@, width as nat)),
        r matches Some(v) ==> (width == 0 ==> views(v@) == seq![Seq::<char>::empty()]) && (width > 0
            && str_cols(text@) <= width ==> views(v@) == seq![text@]) && (width > 0 && str_cols(text@)
            > width ==> wrapped(text@, width as nat, views(v@))),
{
    if width == 0 {
        return Some(wrap_to_width(text, width));
    }
    let cont = if width > CONTINUATION_INDENT { CONTINUATION_INDENT } else { width - 1 };
    let n = text.unicode_len();
    let mut i: usize = 0;
    while i < n
        invariant
            n == text@.len(),
            width > 0,
            i <= n,
            cont == cont_len(width as nat),
            forall|j: int| 0 <= j < i ==> char_fits(#[trigger] text@[j], width as nat),
        decreases n - i,
    {
        let c = text.get_char(i);
        let mut alone = String::new();
        push_char(&mut alone, c);
        let mut behind = String::new();
        push_repeat(&mut behind, ' ', cont);
        push_char(&mut behind, c);
        proof {
            assert(alone@ =~= seq![c]);
            assert(behind@ =~= repeat(' ', cont_len(width as nat)) + seq![c]);
        }
        if text_width(alone.as_str()) > width || text_width(behind.as_str()) > width {
            proof {
                assert(c == text@[i as int]);
                assert(!char_fits(text@[i as int], width as nat));
            }
            return None;
        }
        i = i + 1;
    }
    Some(wrap_to_width(text, width))
}

/// `s` right-aligned in `w` characters.
pub open spec fn right_aligned(s: Seq<char>, w: nat) -> Seq<char> {
    if s.len() >= w {
        s
    } else {
        repeat(' ', (w - s.len()) as nat) + s
    }
}

/// A score shown with one decimal in five columns (`{:>5.1}`).
pub open spec fn score_text(milli: nat) -> Seq<char> {
    right_aligned(fixed1(tenths(milli)), 5)
}

/// The name field's width: 41 columns, less in a narrow box.
pub open spec fn name_width(inner: nat) -> nat {
    let room: nat = if inner >= HEADER_FIXED_WIDTH { (inner - HEADER_FIXED_WIDTH) as nat } else { 0 };
    if room < NAME_FIELD_WIDTH { room } else { NAME_FIELD_WIDTH as nat }
}

/// The header's name field: `name version`, cut and padded to the field.
pub open spec fn name_field(f: Finding, inner: nat) -> Seq<char> {
    " "@ + padded(ellipsized(f.node.name@ + " "@ + version_text(f.node.version@), name_width(inner)), name_width(inner))
}

/// A finding's header row without styling.
pub open spec fn header_plain(f: Finding, level: RiskLevel, inner: nat) -> Seq<char> {
    name_field(f, inner) + score_text(f.risk.total as nat) + " "@ + marker_text(level) + " "@ + bar_text(f.risk.total as nat, 12)
}

/// `header` is the header row with its styling: the name bold for a direct
/// dependency, the score red and bold when critical, yellow for a warning.
pub open spec fn header_styled(f: Finding, level: RiskLevel, inner: nat, header: Seq<char>) -> bool {
    exists|name_part: Seq<char>, score_part: Seq<char>|
        {
            &&& (if f.node.is_direct {
                plain_text(name_field(f, inner)) ==> painted(name_part, name_field(f, inner), Style::Bold)
            } else {
                name_part == name_field(f, inner)
            })
            &&& match level {
                RiskLevel::Critical => painted(score_part, score_text(f.risk.total as nat), Style::RedBold),
                RiskLevel::Warn => painted(score_part, score_text(f.risk.total as nat), Style::Yellow),
                RiskLevel::Low => score_part == score_text(f.risk.total as nat),
            }
            &&& header == name_part + score_part + " "@ + marker_text(level) + " "@ + bar_text(f.risk.total as nat, 12)
        }
}

proof fn lemma_score_text_plain(milli: nat)
    ensures
        plain_text(score_text(milli)),
{
    let t = tenths(milli);
    lemma_decimal_plain(t / 10);
    let f = fixed1(t);
    assert(plain_text(f)) by {
        assert forall|i: int| 0 <= i < f.len() implies f[i] != '\u{1b}' by {
            if i < decimal(t / 10).len() {
                assert(f[i] == decimal(t / 10)[i]);
            }
        }
    }
    if f.len() < 5 {
        lemma_repeat_len(' ', (5 - f.len()) as nat);
        let r = score_text(milli);
        assert forall|i: int| 0 <= i < r.len() implies r[i] != '\u{1b}' by {
            let k = (5 - f.len()) as nat;
            if i < k {
                assert(r[i] == repeat(' ', k)[i]);
            } else {
                assert(r[i] == f[i - k]);
            }
        }
    }
}

/// A finding's header row and the display width of its unstyled text.
pub fn build_header(finding: &Finding, level: RiskLevel, inner_width: usize) -> (r: (String, usize))
    ensures
        header_styled(*finding, level, inner_width as nat, r.0@),
        r.1 == str_cols(header_plain(*finding, level, inner_width as nat)),
{
    let room = if inner_width >= HEADER_FIXED_WIDTH { inner_width - HEADER_FIXED_WIDTH } else { 0 };
    let nw = if room < NAME_FIELD_WIDTH { room } else { NAME_FIELD_WIDTH };
    let mut name_ver = finding.node.name.clone();
    name_ver.append(" ");
    finding.node.version.push_text(&mut name_ver);
    let cut = ellipsize(name_ver.as_str(), nw);
    let mut name_part = " ".to_owned();
    let fitted = pad_to_width(cut.as_str(), nw);
    name_part.append(fitted.as_str());
    let mut num = String::new();
    push_fixed1(&mut num, rounded_tenths(finding.risk.total) as u64);
    let mut score = String::new();
    let len = num.as_str().unicode_len();
    if len < 5 {
        push_repeat(&mut score, ' ', 5 - len);
    }
    score.append(num.as_str());
    let bar = score_bar(finding.risk.total, 12);
    let marker = severity_marker(level);
    let mut plain = name_part.clone();
    plain.append(score.as_str());
    plain.append(" ");
    plain.append(marker);
    plain.append(" ");
    plain.append(bar.as_str());
    let visible = text_width(plain.as_str());
    proof {
        assert(nw == name_width(inner_width as nat));
        assert(name_ver@ =~= finding.node.name@ + " "@ + version_text(finding.node.version@));
        assert(cut@ == ellipsized(finding.node.name@ + " "@ + version_text(finding.node.version@), nw as nat));
        assert(name_part@ =~= name_field(*finding, inner_width as nat));
        assert(score@ =~= score_text(finding.risk.total as nat));
        assert(plain@ =~= header_plain(*finding, level, inner_width as nat));
        lemma_score_text_plain(finding.risk.total as nat);
    }
    let score_display = match level {
        RiskLevel::Critical => paint(score.as_str(), Style::RedBold),
        RiskLevel::Warn => paint(score.as_str(), Style::Yellow),
        RiskLevel::Low => score,
    };
    let styled_name = if finding.node.is_direct {
        paint(name_part.as_str(), Style::Bold)
    } else {
        name_part
    };
    let mut header = styled_name;
    let ghost np = header@;
    header.append(score_display.as_str());
    header.append(" ");
    header.append(marker);
    header.append(" ");
    header.append(bar.as_str());
    proof {
        assert(header@ =~= np + score_display@ + " "@ + marker_text(level) + " "@ + bar_text(finding.risk.total as nat, 12));
    }
    (header, visible)
}

/// The text `NewReason::describe` gives.
pub open spec fn reason_text(r: crate::baseline::NewReason) -> Seq<char> {
    match r {
        crate::baseline::NewReason::NotInBaseline => "not in the baseline"@,
        crate::baseline::NewReason::NewAdvisory => "new advisory since the baseline"@,
        crate::baseline::NewReason::LevelIncreased => "higher severity than in the baseline"@,
    }
}

/// The lines under a finding's header: a `new:` line for a finding new since
/// the baseline, then its reasons.
pub open spec fn detail_lines(f: Finding, meta: Seq<(String, Metadata)>, now: int) -> Seq<Seq<char>> {
    let head = match f.baseline_state {
        BaselineState::New(reason) => seq!["new: "@ + reason_text(reason)],
        _ => seq![],
    };
    head + reasons_text(f.node, f.risk, f.advisories@, lookup(meta, f.node.name@), now)
}

/// `pieces` is how a detail line is wrapped at `width`: as `wrap_to_width`
/// gives it, or the line whole where a character is too wide to wrap.
pub open spec fn wrap_result(line: Seq<char>, width: nat, pieces: Seq<Seq<char>>) -> bool {
    if width == 0 || narrow_enough(line, width) {
        &&& width == 0 ==> pieces == seq![Seq::<char>::empty()]
        &&& width > 0 && str_cols(line) <= width ==> pieces == seq![line]
        &&& width > 0 && str_cols(line) > width ==> wrapped(line, width, pieces)
    } else {
        pieces == seq![line]
    }
}

/// A boxed detail row for each piece, indented three columns.
pub open spec fn detail_rows(pieces: Seq<Seq<char>>, inner: nat) -> Seq<char> {
    flat(pieces.map_values(|p: Seq<char>| boxed("   "@ + p, str_cols("   "@ + p), inner) + "\n"@))
}

/// `t` is the block of rows of a finding given its header row and the
/// pieces of each detail line.
pub open spec fn finding_parts(
    f: Finding,
    level: RiskLevel,
    meta: Seq<(String, Metadata)>,
    now: int,
    inner: nat,
    t: Seq<char>,
    header: Seq<char>,
    blocks: Seq<Seq<Seq<char>>>,
) -> bool {
    let lines = detail_lines(f, meta, now);
    let width: nat = if inner >= 3 { (inner - 3) as nat } else { 0 };
    &&& header_styled(f, level, inner, header)
    &&& blocks.len() == lines.len()
    &&& forall|i: int| 0 <= i < lines.len() ==> wrap_result(lines[i], width, #[trigger] blocks[i])
    &&& t == boxed(header, str_cols(header_plain(f, level, inner)), inner) + "\n"@ + flat(
        blocks.map_values(|b: Seq<Seq<char>>| detail_rows(b, inner)),
    )
}

/// `t` is the block of rows of a finding: its boxed header row, then its
/// detail lines wrapped to the box.
pub open spec fn finding_text_ok(
    f: Finding,
    level: RiskLevel,
    meta: Seq<(String, Metadata)>,
    now: int,
    inner: nat,
    t: Seq<char>,
) -> bool {
    exists|header: Seq<char>, blocks: Seq<Seq<Seq<char>>>|
        #[trigger] finding_parts(f, level, meta, now, inner, t, header, blocks)
}

proof fn lemma_map_push<A, B>(s: Seq<A>, x: A, f: spec_fn(A) -> B)
    ensures
        s.push(x).map_values(f) == s.map_values(f).push(f(x)),
{
    assert(s.push(x).map_values(f) =~= s.map_values(f).push(f(x)));
}

/// Appends the rows of one wrapped detail line.
fn write_detail(out: &mut String, line: &str, inner_width: usize) -> (pieces: Ghost<Seq<Seq<char>>>)
    ensures
        wrap_result(line@, if inner_width >= 3 { (inner_width - 3) as nat } else { 0 }, pieces@),
        final(out)@ == old(out)@ + detail_rows(pieces@, inner_width as nat),
{
    let width = if inner_width >= 3 { inner_width - 3 } else { 0 };
    let wrapped_lines = match wrap_checked(line, width) {
        Some(v) => v,
        None => {
            let v = vec![line.to_owned()];
            assert(views(v@) =~= seq![line@]);
            v
        },
    };
    let ghost ps = views(wrapped_lines@);
    let ghost start = out@;
    let mut j: usize = 0;
    proof {
        assert(ps.take(0).map_values(|p: Seq<char>| boxed("   "@ + p, str_cols("   "@ + p), inner_width as nat) + "\n"@) =~= Seq::<Seq<char>>::empty());
        assert(flat(Seq::<Seq<char>>::empty()) =~= Seq::<char>::empty());
    }
    while j < wrapped_lines.len()
        invariant
            ps == views(wrapped_lines@),
            j <= wrapped_lines@.len(),
            out@ == start + detail_rows(ps.take(j as int), inner_width as nat),
        decreases wrapped_lines@.len() - j,
    {
        let mut detail = "   ".to_owned();
        detail.append(wrapped_lines[j].as_str());
        let vw = text_width(detail.as_str());
        let row = boxed_line(detail.as_str(), vw, inner_width);
        out.append(row.as_str());
        out.append("\n");
        proof {
            let f = |p: Seq<char>| boxed("   "@ + p, str_cols("   "@ + p), inner_width as nat) + "\n"@;
            assert(ps.take(j + 1) =~= ps.take(j as int).push(ps[j as int]));
            lemma_map_push(ps.take(j as int), ps[j as int], f);
            lemma_flat_push(ps.take(j as int).map_values(f), f(ps[j as int]));
            assert(ps[j as int] == wrapped_lines@[j as int]@);
            assert(out@ =~= start + detail_rows(ps.take(j + 1), inner_width as nat));
        }
        j = j + 1;
    }
    proof {
        assert(ps.take(j as int) =~= ps);
    }
    Ghost(ps)
}

/// Appends a finding's rows: its header, then its detail lines wrapped.
pub fn write_finding(
    out: &mut String,
    finding: &Finding,
    level: RiskLevel,
    meta_map: &MetaMap,
    now: i64,
    inner_width: usize,
)
    ensures
        exists|t: Seq<char>|
            finding_text_ok(*finding, level, meta_map.entries@, now as int, inner_width as nat, t)
                && final(out)@ == old(out)@ + t,
{
    let ghost start = out@;
    let (header, visible) = build_header(finding, level, inner_width);
    let row = boxed_line(header.as_str(), visible, inner_width);
    out.append(row.as_str());
    out.append("\n");
    let ghost after_header = out@;
    let mut lines: Vec<String> = Vec::new();
    match finding.baseline_state {
        BaselineState::New(reason) => {
            let mut t = "new: ".to_owned();
            t.append(reason.describe());
            push_line(&mut lines, t);
        },
        _ => {},
    }
    let reasons = reason_lines(&finding.node, &finding.risk, &finding.advisories, meta_map, now);
    let mut k: usize = 0;
    while k < reasons.len()
        invariant
            k <= reasons@.len(),
            views(lines@) == (match finding.baseline_state {
                BaselineState::New(reason) => seq!["new: "@ + reason_text(reason)],
                _ => seq![],
            }) + views(reasons@).take(k as int),
        decreases reasons@.len() - k,
    {
        push_line(&mut lines, reasons[k].clone());
        proof {
            assert(views(reasons@).take(k + 1) =~= views(reasons@).take(k as int).push(reasons@[k as int]@));
        }
        k = k + 1;
    }
    proof {
        assert(views(reasons@).take(k as int) =~= views(reasons@));
        assert(views(lines@) =~= detail_lines(*finding, meta_map.entries@, now as int));
    }
    let ghost lines_v = views(lines@);
    let ghost mut blocks: Seq<Seq<Seq<char>>> = Seq::empty();
    let mut i: usize = 0;
    proof {
        assert(blocks.map_values(|b: Seq<Seq<char>>| detail_rows(b, inner_width as nat)) =~= Seq::<Seq<char>>::empty());
        assert(flat(Seq::<Seq<char>>::empty()) =~= Seq::<char>::empty());
    }
    while i < lines.len()
        invariant
            lines_v == views(lines@),
            i <= lines@.len(),
            blocks.len() == i,
            forall|q: int| 0 <= q < i ==> wrap_result(lines_v[q], if inner_width >= 3 { (inner_width - 3) as nat } else { 0 }, #[trigger] blocks[q]),
            out@ == after_header + flat(blocks.map_values(|b: Seq<Seq<char>>| detail_rows(b, inner_width as nat))),
        decreases lines@.len() - i,
    {
        let ghost before = out@;
        let pieces = write_detail(out, lines[i].as_str(), inner_width);
        proof {
            let f = |b: Seq<Seq<char>>| detail_rows(b, inner_width as nat);
            lemma_map_push(blocks, pieces@, f);
            lemma_flat_push(blocks.map_values(f), f(pieces@));
            assert(lines_v[i as int] == lines@[i as int]@);
            blocks = blocks.push(pieces@);
        }
        i = i + 1;
    }
    proof {
        let t = out@.skip(start.len() as int);
        assert(out@ =~= start + t);
        let width: nat = if inner_width >= 3 { (inner_width - 3) as nat } else { 0 };
        assert(t =~= boxed(header@, str_cols(header_plain(*finding, level, inner_width as nat)), inner_width as nat) + "\n"@ + flat(
            blocks.map_values(|b: Seq<Seq<char>>| detail_rows(b, inner_width as nat)),
        ));
        assert(finding_parts(*finding, level, meta_map.entries@, now as int, inner_width as nat, t, header@, blocks));
        assert(finding_text_ok(*finding, level, meta_map.entries@, now as int, inner_width as nat, t));
    }
}

/// The findings at `level`, in order.
pub open spec fn of_level(fs: Seq<Finding>, level: RiskLevel) -> Seq<Finding>
    decreases fs.len(),
{
    if fs.len() == 0 {
        seq![]
    } else if fs.last().risk.level == level {
        of_level(fs.drop_last(), level).push(fs.last())
    } else {
        of_level(fs.drop_last(), level)
    }
}

/// A horizontal rule of the box between corner characters `l` and `r`.
pub open spec fn rule(l: char, r: char, inner: nat) -> Seq<char> {
    seq![l] + repeat('─', inner) + seq![r] + "\n"@
}

/// A section: its title row between rules, then its findings' blocks
/// separated by rules.
pub open spec fn section_text(title: Seq<char>, inner: nat, blocks: Seq<Seq<char>>) -> Seq<char> {
    let label = "  "@ + title + " "@;
    rule('┌', '┐', inner) + boxed(label, str_cols(label), inner) + "\n"@ + rule('├', '┤', inner) + join(
        blocks,
        rule('├', '┤', inner),
    ) + rule('└', '┘', inner)
}

/// `blocks` are the finding blocks of `fs` at `level`.
pub open spec fn blocks_ok(
    fs: Seq<Finding>,
    level: RiskLevel,
    meta: Seq<(String, Metadata)>,
    now: int,
    inner: nat,
    blocks: Seq<Seq<char>>,
) -> bool {
    &&& blocks.len() == fs.len()
    &&& forall|k: int| 0 <= k < fs.len() ==> finding_text_ok(fs[k], level, meta, now, inner, #[trigger] blocks[k])
}

fn push_rule(out: &mut String, l: char, r: char, inner: usize)
    ensures
        final(out)@ == old(out)@ + rule(l, r, inner as nat),
{
    push_char(out, l);
    push_repeat(out, '─', inner);
    push_char(out, r);
    out.append("\n");
    assert(final(out)@ =~= old(out)@ + rule(l, r, inner as nat));
}

proof fn lemma_join_push(parts: Seq<Seq<char>>, x: Seq<char>, sep: Seq<char>)
    ensures
        join(parts.push(x), sep) == if parts.len() == 0 { x } else { join(parts, sep) + sep + x },
{
    assert(parts.push(x).drop_last() =~= parts);
}

proof fn lemma_blocks_step(
    fs: Seq<Finding>,
    i: int,
    level: RiskLevel,
    meta: Seq<(String, Metadata)>,
    now: int,
    inner: nat,
    blocks: Seq<Seq<char>>,
    t: Seq<char>,
)
    requires
        0 <= i < fs.len(),
        blocks_ok(of_level(fs.take(i), level), level, meta, now, inner, blocks),
        fs[i].risk.level == level ==> finding_text_ok(fs[i], level, meta, now, inner, t),
    ensures
        fs[i].risk.level == level ==> blocks_ok(of_level(fs.take(i + 1), level), level, meta, now, inner, blocks.push(t)),
        fs[i].risk.level != level ==> of_level(fs.take(i + 1), level) == of_level(fs.take(i), level),
{
    assert(fs.take(i + 1).drop_last() =~= fs.take(i));
    assert(fs.take(i + 1).last() == fs[i]);
    if fs[i].risk.level == level {
        let sel = of_level(fs.take(i), level);
        let nb = blocks.push(t);
        assert(of_level(fs.take(i + 1), level) == sel.push(fs[i]));
        assert forall|k: int| 0 <= k < sel.push(fs[i]).len() implies finding_text_ok(
            sel.push(fs[i])[k],
            level,
            meta,
            now,
            inner,
            #[trigger] nb[k],
        ) by {
            if k < sel.len() {
                assert(sel.push(fs[i])[k] == sel[k]);
                assert(nb[k] == blocks[k]);
            }
        }
    }
}

/// Appends a section: the findings at `level`, boxed under `title`.
#[verifier::rlimit(40)]
pub fn write_section(
    out: &mut String,
    title: &str,
    level: RiskLevel,
    findings: &Vec<Finding>,
    meta_map: &MetaMap,
    now: i64,
    inner_width: usize,
)
    ensures
        exists|blocks: Seq<Seq<char>>|
            blocks_ok(of_level(findings@, level), level, meta_map.entries@, now as int, inner_width as nat, blocks)
                && final(out)@ == old(out)@ + section_text(title@, inner_width as nat, blocks),
{
    let ghost start = out@;
    push_rule(out, '┌', '┐', inner_width);
    let mut label = "  ".to_owned();
    label.append(title);
    label.append(" ");
    let lw = text_width(label.as_str());
    let row = boxed_line(label.as_str(), lw, inner_width);
    out.append(row.as_str());
    out.append("\n");
    push_rule(out, '├', '┤', inner_width);
    let ghost head = out@;
    let ghost mut blocks: Seq<Seq<char>> = Seq::empty();
    let mut i: usize = 0;
    let mut first = true;
    proof {
        assert(findings@.take(0) =~= Seq::<Finding>::empty());
        assert(join(blocks, rule('├', '┤', inner_width as nat)) =~= Seq::<char>::empty());
    }
    while i < findings.len()
        invariant
            i <= findings@.len(),
            first == (blocks.len() == 0),
            blocks_ok(of_level(findings@.take(i as int), level), level, meta_map.entries@, now as int, inner_width as nat, blocks),
            out@ == head + join(blocks, rule('├', '┤', inner_width as nat)),
        decreases findings@.len() - i,
    {
        if findings[i].risk.level == level {
            if !first {
                push_rule(out, '├', '┤', inner_width);
            }
            let ghost mid = out@;
            write_finding(out, &findings[i], level, meta_map, now, inner_width);
            proof {
                let t = choose|t: Seq<char>|
                    finding_text_ok(findings@[i as int], level, meta_map.entries@, now as int, inner_width as nat, t)
                        && out@ == mid + t;
                lemma_join_push(blocks, t, rule('├', '┤', inner_width as nat));
                lemma_blocks_step(findings@, i as int, level, meta_map.entries@, now as int, inner_width as nat, blocks, t);
                blocks = blocks.push(t);
            }
            first = false;
        } else {
            proof {
                lemma_blocks_step(findings@, i as int, level, meta_map.entries@, now as int, inner_width as nat, blocks, Seq::empty());
            }
        }
        i = i + 1;
    }
    push_rule(out, '└', '┘', inner_width);
    proof {
        assert(findings@.take(i as int) =~= findings@);
        assert(out@ =~= start + section_text(title@, inner_width as nat, blocks));
    }
}

/// The parts of the summary line: each a text shown in a style, then a
/// plain suffix.
pub open spec fn summary_segments(s: ReportSummary) -> Seq<(Seq<char>, Style, Seq<char>)> {
    seq![
        (decimal(s.critical as nat), Style::RedBold, " critical"@),
        (decimal(s.warnings as nat), Style::YellowBold, if s.warnings == 1 { " warning"@ } else { " warnings"@ }),
        (decimal(s.notices as nat), Style::Cyan, if s.notices == 1 { " notice"@ } else { " notices"@ }),
    ] + (if s.unknown > 0 {
        seq![(decimal(s.unknown as nat), Style::Dimmed, " unknown"@)]
    } else {
        seq![]
    }) + (if s.not_applicable > 0 {
        seq![(decimal(s.not_applicable as nat), Style::Dimmed, " not applicable"@)]
    } else {
        seq![]
    }) + (if s.ignored > 0 {
        seq![(decimal(s.ignored as nat), Style::Dimmed, " ignored"@)]
    } else {
        seq![]
    }) + seq![(decimal(s.healthy as nat), Style::Green, " healthy"@)] + (if s.degraded {
        seq![("INCOMPLETE"@, Style::YellowBold, ""@)]
    } else {
        seq![]
    })
}

/// `line` is the summary line: its parts, each styled, joined by `  ·  `.
pub open spec fn summary_line_ok(s: ReportSummary, line: Seq<char>) -> bool {
    exists|ps: Seq<Seq<char>>| #[trigger] summary_parts(s, ps, line)
}

pub open spec fn summary_parts(s: ReportSummary, ps: Seq<Seq<char>>, line: Seq<char>) -> bool {
    let segs = summary_segments(s);
    &&& ps.len() == segs.len()
    &&& forall|i: int| 0 <= i < segs.len() ==> painted(#[trigger] ps[i], segs[i].0, segs[i].1)
    &&& line == "  "@ + join(Seq::new(segs.len(), |i: int| ps[i] + segs[i].2), "  ·  "@) + "\n"@
}

pub open spec fn seg_view(x: (String, Style, &'static str)) -> (Seq<char>, Style, Seq<char>) {
    (x.0@, x.1, x.2@)
}

fn push_segment(segs: &mut Vec<(String, Style, &'static str)>, text: String, style: Style, suffix: &'static str)
    requires
        plain_text(text@),
    ensures
        final(segs)@.map_values(|x: (String, Style, &'static str)| seg_view(x)) == old(segs)@.map_values(
            |x: (String, Style, &'static str)| seg_view(x),
        ).push((text@, style, suffix@)),
        forall|k: int| 0 <= k < final(segs)@.len() ==> old(segs)@.len() <= k ==> plain_text(#[trigger] final(segs)@[k].0@),
        forall|k: int| 0 <= k < old(segs)@.len() ==> #[trigger] final(segs)@[k] == old(segs)@[k],
{
    let ghost before = segs@;
    segs.push((text, style, suffix));
    assert(segs@.map_values(|x: (String, Style, &'static str)| seg_view(x)) =~= before.map_values(
        |x: (String, Style, &'static str)| seg_view(x),
    ).push((text@, style, suffix@)));
}

fn counted(n: usize) -> (r: String)
    ensures
        r@ == decimal(n as nat),
        plain_text(r@),
{
    proof {
        lemma_decimal_plain(n as nat);
    }
    decimal_string(n as u64)
}

fn summary_segment_list(s: &ReportSummary) -> (v: Vec<(String, Style, &'static str)>)
    ensures
        v@.map_values(|x: (String, Style, &'static str)| seg_view(x)) == summary_segments(*s),
        forall|k: int| 0 <= k < v@.len() ==> plain_text(#[trigger] v@[k].0@),
{
    let mut v: Vec<(String, Style, &'static str)> = Vec::new();
    push_segment(&mut v, counted(s.critical), Style::RedBold, " critical");
    push_segment(&mut v, counted(s.warnings), Style::YellowBold, if s.warnings == 1 { " warning" } else { " warnings" });
    push_segment(&mut v, counted(s.notices), Style::Cyan, if s.notices == 1 { " notice" } else { " notices" });
    let ghost a = v@.map_values(|x: (String, Style, &'static str)| seg_view(x));
    if s.unknown > 0 {
        push_segment(&mut v, counted(s.unknown), Style::Dimmed, " unknown");
    }
    let ghost b = v@.map_values(|x: (String, Style, &'static str)| seg_view(x));
    if s.not_applicable > 0 {
        push_segment(&mut v, counted(s.not_applicable), Style::Dimmed, " not applicable");
    }
    let ghost c = v@.map_values(|x: (String, Style, &'static str)| seg_view(x));
    if s.ignored > 0 {
        push_segment(&mut v, counted(s.ignored), Style::Dimmed, " ignored");
    }
    push_segment(&mut v, counted(s.healthy), Style::Green, " healthy");
    let ghost d = v@.map_values(|x: (String, Style, &'static str)| seg_view(x));
    if s.degraded {
        proof {
            reveal_strlit("INCOMPLETE");
        }
        push_segment(&mut v, "INCOMPLETE".to_owned(), Style::YellowBold, "");
    }
    proof {
        assert(v@.map_values(|x: (String, Style, &'static str)| seg_view(x)) =~= summary_segments(*s));
    }
    v
}

/// Appends the one-line summary of the buckets: critical, warnings and
/// notices always; unknown, not applicable and ignored when any; healthy;
/// and `INCOMPLETE` for a degraded run.
pub fn write_summary(out: &mut String, summary: &ReportSummary)
    ensures
        exists|line: Seq<char>| summary_line_ok(*summary, line) && final(out)@ == old(out)@ + line,
{
    let segs = summary_segment_list(summary);
    let ghost sv = summary_segments(*summary);
    let ghost mut ps: Seq<Seq<char>> = Seq::empty();
    let mut parts: Vec<String> = Vec::new();
    let mut i: usize = 0;
    proof {
        assert(views(parts@) =~= Seq::new(0nat, |k: int| ps[k] + sv[k].2));
    }
    while i < segs.len()
        invariant
            sv == segs@.map_values(|x: (String, Style, &'static str)| seg_view(x)),
            forall|k: int| 0 <= k < segs@.len() ==> plain_text(#[trigger] segs@[k].0@),
            i <= segs@.len(),
            ps.len() == i,
            forall|k: int| 0 <= k < i ==> painted(#[trigger] ps[k], sv[k].0, sv[k].1),
            views(parts@) == Seq::new(i as nat, |k: int| ps[k] + sv[k].2),
        decreases segs@.len() - i,
    {
        let mut part = paint(segs[i].0.as_str(), segs[i].1);
        let ghost piece = part@;
        proof {
            assert(sv[i as int] == seg_view(segs@[i as int]));
            assert(plain_text(segs@[i as int].0@));
        }
        part.append(segs[i].2);
        proof {
            ps = ps.push(piece);
        }
        let ghost before = parts@;
        parts.push(part);
        proof {
            assert(views(parts@) =~= views(before).push(part@));
            assert(views(parts@) =~= Seq::new((i + 1) as nat, |k: int| ps[k] + sv[k].2));
        }
        i = i + 1;
    }
    let ghost start = out@;
    out.append("  ");
    push_joined(out, &parts, "  ·  ");
    out.append("\n");
    proof {
        let line = out@.skip(start.len() as int);
        assert(out@ =~= start + line);
        assert(sv.len() == segs@.len());
        let segs_s = summary_segments(*summary);
        assert(Seq::new(i as nat, |k: int| ps[k] + sv[k].2) =~= Seq::new(segs_s.len(), |j: int| ps[j] + segs_s[j].2));
        assert(line =~= "  "@ + join(Seq::new(segs_s.len(), |j: int| ps[j] + segs_s[j].2), "  ·  "@) + "\n"@);
        assert(summary_parts(*summary, ps, line));
        assert(summary_line_ok(*summary, line));
    }
}

/// Whether any finding is at `level`.
fn has_level(findings: &Vec<Finding>, level: RiskLevel) -> (r: bool)
    ensures
        r == (of_level(findings@, level).len() > 0),
{
    let mut i: usize = 0;
    while i < findings.len()
        invariant
            i <= findings@.len(),
            of_level(findings@.take(i as int), level).len() == 0,
        decreases findings@.len() - i,
    {
        proof {
            assert(findings@.take(i + 1).drop_last() =~= findings@.take(i as int));
        }
        if findings[i].risk.level == level {
            proof {
                lemma_of_level_grows(findings@, i as int, level);
            }
            return true;
        }
        i = i + 1;
    }
    proof {
        assert(findings@.take(i as int) =~= findings@);
    }
    false
}

proof fn lemma_of_level_grows(fs: Seq<Finding>, i: int, level: RiskLevel)
    requires
        0 <= i < fs.len(),
        fs[i].risk.level == level,
    ensures
        of_level(fs, level).len() > 0,
    decreases fs.len(),
{
    if i == fs.len() - 1 {
    } else {
        lemma_of_level_grows(fs.drop_last(), i, level);
    }
}

/// The sections of a report given their blocks and the styled check mark.
pub open spec fn sections_parts(
    findings: Seq<Finding>,
    meta: Seq<(String, Metadata)>,
    now: int,
    threshold: nat,
    inner: nat,
    t: Seq<char>,
    b1: Seq<Seq<char>>,
    b2: Seq<Seq<char>>,
    b3: Seq<Seq<char>>,
    check: Seq<char>,
) -> bool {
    let crit = of_level(findings, RiskLevel::Critical);
    let warn = of_level(findings, RiskLevel::Warn);
    let low = of_level(findings, RiskLevel::Low);
    let notice_shown = threshold < DEFAULT_THRESHOLD && low.len() > 0;
    &&& crit.len() > 0 ==> blocks_ok(crit, RiskLevel::Critical, meta, now, inner, b1)
    &&& warn.len() > 0 ==> blocks_ok(warn, RiskLevel::Warn, meta, now, inner, b2)
    &&& notice_shown ==> blocks_ok(low, RiskLevel::Low, meta, now, inner, b3)
    &&& painted(check, "✓"@, Style::Green)
    &&& t == (if crit.len() > 0 { section_text("CRITICAL"@, inner, b1) + "\n"@ } else { seq![] })
        + (if warn.len() > 0 { section_text("WARN"@, inner, b2) + "\n"@ } else { seq![] })
        + (if notice_shown { section_text("NOTICE"@, inner, b3) + "\n"@ } else { seq![] })
        + (if crit.len() == 0 && warn.len() == 0 && low.len() == 0 {
        "  "@ + check + " No dependencies scored at or above the threshold.\n\n"@
    } else {
        seq![]
    })
}

/// `t` is the sections of a report: CRITICAL and WARN when they have
/// findings, NOTICE when the threshold is below the default, or a note that
/// nothing scored high.
#[verifier::opaque]
pub open spec fn sections_ok(
    findings: Seq<Finding>,
    meta: Seq<(String, Metadata)>,
    now: int,
    threshold: nat,
    inner: nat,
    t: Seq<char>,
) -> bool {
    exists|b1: Seq<Seq<char>>, b2: Seq<Seq<char>>, b3: Seq<Seq<char>>, check: Seq<char>|
        #[trigger] sections_parts(findings, meta, now, threshold, inner, t, b1, b2, b3, check)
}

/// `t` is the section for `level`, followed by a blank line.
#[verifier::opaque]
pub open spec fn section_part(
    findings: Seq<Finding>,
    level: RiskLevel,
    title: Seq<char>,
    meta: Seq<(String, Metadata)>,
    now: int,
    inner: nat,
    t: Seq<char>,
) -> bool {
    exists|blocks: Seq<Seq<char>>|
        #[trigger] blocks_ok(of_level(findings, level), level, meta, now, inner, blocks) && t == section_text(
            title,
            inner,
            blocks,
        ) + "\n"@
}

fn write_section_part(
    out: &mut String,
    title: &str,
    level: RiskLevel,
    findings: &Vec<Finding>,
    meta_map: &MetaMap,
    now: i64,
    inner_width: usize,
) -> (t: Ghost<Seq<char>>)
    ensures
        section_part(findings@, level, title@, meta_map.entries@, now as int, inner_width as nat, t@),
        final(out)@ == old(out)@ + t@,
{
    let ghost before = out@;
    write_section(out, title, level, findings, meta_map, now, inner_width);
    let ghost mid = out@;
    out.append("\n");
    proof {
        let blocks = choose|blocks: Seq<Seq<char>>|
            blocks_ok(of_level(findings@, level), level, meta_map.entries@, now as int, inner_width as nat, blocks) && mid
                == before + section_text(title@, inner_width as nat, blocks);
        let t = section_text(title@, inner_width as nat, blocks) + "\n"@;
        assert(out@ =~= before + t);
        reveal(section_part);
        assert(section_part(findings@, level, title@, meta_map.entries@, now as int, inner_width as nat, t));
    }
    Ghost(section_text(title@, inner_width as nat, choose|blocks: Seq<Seq<char>>|
            blocks_ok(of_level(findings@, level), level, meta_map.entries@, now as int, inner_width as nat, blocks) && mid
                == before + section_text(title@, inner_width as nat, blocks)) + "\n"@)
}

proof fn lemma_sections_from_parts(
    fs: Seq<Finding>,
    meta: Seq<(String, Metadata)>,
    now: int,
    threshold: nat,
    inner: nat,
    p1: Seq<char>,
    p2: Seq<char>,
    p3: Seq<char>,
    p4: Seq<char>,
    check: Seq<char>,
)
    requires
        of_level(fs, RiskLevel::Critical).len() > 0 ==> section_part(fs, RiskLevel::Critical, "CRITICAL"@, meta, now, inner, p1),
        of_level(fs, RiskLevel::Critical).len() == 0 ==> p1 == Seq::<char>::empty(),
        of_level(fs, RiskLevel::Warn).len() > 0 ==> section_part(fs, RiskLevel::Warn, "WARN"@, meta, now, inner, p2),
        of_level(fs, RiskLevel::Warn).len() == 0 ==> p2 == Seq::<char>::empty(),
        (threshold < DEFAULT_THRESHOLD && of_level(fs, RiskLevel::Low).len() > 0) ==> section_part(
            fs,
            RiskLevel::Low,
            "NOTICE"@,
            meta,
            now,
            inner,
            p3,
        ),
        !(threshold < DEFAULT_THRESHOLD && of_level(fs, RiskLevel::Low).len() > 0) ==> p3 == Seq::<char>::empty(),
        painted(check, "✓"@, Style::Green),
        (of_level(fs, RiskLevel::Critical).len() == 0 && of_level(fs, RiskLevel::Warn).len() == 0 && of_level(
            fs,
            RiskLevel::Low,
        ).len() == 0) ==> p4 == "  "@ + check + " No dependencies scored at or above the threshold.\n\n"@,
        !(of_level(fs, RiskLevel::Critical).len() == 0 && of_level(fs, RiskLevel::Warn).len() == 0 && of_level(
            fs,
            RiskLevel::Low,
        ).len() == 0) ==> p4 == Seq::<char>::empty(),
    ensures
        sections_ok(fs, meta, now, threshold, inner, p1 + p2 + p3 + p4),
{
    reveal(section_part);
    let crit = of_level(fs, RiskLevel::Critical);
    let warn = of_level(fs, RiskLevel::Warn);
    let low = of_level(fs, RiskLevel::Low);
    let b1 = if crit.len() > 0 {
        choose|blocks: Seq<Seq<char>>|
            #[trigger] blocks_ok(crit, RiskLevel::Critical, meta, now, inner, blocks) && p1 == section_text(
                "CRITICAL"@,
                inner,
                blocks,
            ) + "\n"@
    } else {
        Seq::<Seq<char>>::empty()
    };
    let b2 = if warn.len() > 0 {
        choose|blocks: Seq<Seq<char>>|
            #[trigger] blocks_ok(warn, RiskLevel::Warn, meta, now, inner, blocks) && p2 == section_text("WARN"@, inner, blocks)
                + "\n"@
    } else {
        Seq::<Seq<char>>::empty()
    };
    let shown = threshold < DEFAULT_THRESHOLD && low.len() > 0;
    let b3 = if shown {
        choose|blocks: Seq<Seq<char>>|
            #[trigger] blocks_ok(low, RiskLevel::Low, meta, now, inner, blocks) && p3 == section_text("NOTICE"@, inner, blocks)
                + "\n"@
    } else {
        Seq::<Seq<char>>::empty()
    };
    assert(sections_parts(fs, meta, now, threshold, inner, p1 + p2 + p3 + p4, b1, b2, b3, check));
    reveal(sections_ok);
}

/// Appends, when `clean`, the note that nothing scored high, and gives the
/// check mark as rendered.
fn write_clean_note(out: &mut String, clean: bool) -> (check: Ghost<Seq<char>>)
    ensures
        painted(check@, "✓"@, Style::Green),
        clean ==> final(out)@ == old(out)@ + ("  "@ + check@ + " No dependencies scored at or above the threshold.\n\n"@),
        !clean ==> final(out)@ == old(out)@,
{
    proof {
        reveal_strlit("✓");
    }
    if clean {
        let ghost before = out@;
        out.append("  ");
        let check = paint("✓", Style::Green);
        out.append(check.as_str());
        out.append(" No dependencies scored at or above the threshold.\n\n");
        assert(out@ =~= before + ("  "@ + check@ + " No dependencies scored at or above the threshold.\n\n"@));
        Ghost(check@)
    } else {
        Ghost("✓"@)
    }
}

/// Appends the report's sections.
fn write_sections(
    out: &mut String,
    findings: &Vec<Finding>,
    meta_map: &MetaMap,
    now: i64,
    threshold: u32,
    inner_width: usize,
)
    ensures
        exists|t: Seq<char>|
            sections_ok(findings@, meta_map.entries@, now as int, threshold as nat, inner_width as nat, t)
                && final(out)@ == old(out)@ + t,
{
    let ghost fs = findings@;
    let ghost meta = meta_map.entries@;
    let ghost start = out@;
    let any_critical = has_level(findings, RiskLevel::Critical);
    let any_warn = has_level(findings, RiskLevel::Warn);
    let any_low = has_level(findings, RiskLevel::Low);
    let ghost mut part1: Seq<char> = seq![];
    let ghost mut part2: Seq<char> = seq![];
    let ghost mut part3: Seq<char> = seq![];
    let ghost mut part4: Seq<char> = seq![];
    if any_critical {
        let t = write_section_part(out, "CRITICAL", RiskLevel::Critical, findings, meta_map, now, inner_width);
        proof {
            part1 = t@;
        }
    }
    if any_warn {
        let t = write_section_part(out, "WARN", RiskLevel::Warn, findings, meta_map, now, inner_width);
        proof {
            part2 = t@;
        }
    }
    if threshold < DEFAULT_THRESHOLD && any_low {
        let t = write_section_part(out, "NOTICE", RiskLevel::Low, findings, meta_map, now, inner_width);
        proof {
            part3 = t@;
        }
    }
    let check = write_clean_note(out, !any_critical && !any_warn && !any_low);
    proof {
        part4 = if !any_critical && !any_warn && !any_low {
            "  "@ + check@ + " No dependencies scored at or above the threshold.\n\n"@
        } else {
            Seq::<char>::empty()
        };
    }
    let ghost check_mark = check@;
    proof {
        lemma_sections_from_parts(fs, meta, now as int, threshold as nat, inner_width as nat, part1, part2, part3, part4, check_mark);
        assert(out@ =~= start + (part1 + part2 + part3 + part4));
        assert(sections_ok(fs, meta, now as int, threshold as nat, inner_width as nat, part1 + part2 + part3 + part4));
    }
}

/// The text of a report given its summary line, duplicates sign and sections.
pub open spec fn render_parts(
    findings: Seq<Finding>,
    meta: Seq<(String, Metadata)>,
    now: int,
    summary: ReportSummary,
    quiet: bool,
    threshold: nat,
    dups: Seq<JsonDuplicate>,
    inner: nat,
    t: Seq<char>,
    head: Seq<char>,
    mark: Seq<char>,
    rest: Seq<char>,
) -> bool {
    &&& summary_line_ok(summary, head)
    &&& if quiet {
        t == head
    } else {
        &&& dups.len() > 0 ==> painted(mark, "⚠"@, Style::Yellow)
        &&& sections_ok(findings, meta, now, threshold, inner, rest)
        &&& t == head + (if dups.len() > 0 { duplicates_text(dups, mark) + "\n"@ } else { seq![] }) + "\n"@ + rest
    }
}

/// `t` is the human report: the summary line, and unless `quiet` the
/// duplicates line, a blank line and the sections.
pub open spec fn render_ok(
    findings: Seq<Finding>,
    meta: Seq<(String, Metadata)>,
    now: int,
    summary: ReportSummary,
    quiet: bool,
    threshold: nat,
    dups: Seq<JsonDuplicate>,
    inner: nat,
    t: Seq<char>,
) -> bool {
    exists|head: Seq<char>, mark: Seq<char>, rest: Seq<char>|
        #[trigger] render_parts(findings, meta, now, summary, quiet, threshold, dups, inner, t, head, mark, rest)
}

/// The text the human report prints, for a box `inner_width` columns wide.
/// `threshold` is in millipoints.
#[verifier::rlimit(60)]
pub fn render_to_string(
    findings: &Vec<Finding>,
    meta_map: &MetaMap,
    now: i64,
    summary: &ReportSummary,
    quiet: bool,
    threshold: u32,
    duplicates: &Vec<JsonDuplicate>,
    inner_width: usize,
) -> (r: String)
    ensures
        render_ok(findings@, meta_map.entries@, now as int, *summary, quiet, threshold as nat, duplicates@, inner_width as nat, r@),
{
    let mut out = String::new();
    write_summary(&mut out, summary);
    let ghost head = choose|line: Seq<char>| summary_line_ok(*summary, line) && out@ == Seq::<char>::empty() + line;
    proof {
        assert(out@ =~= head);
        reveal_strlit("⚠");
    }
    if quiet {
        proof {
            assert(render_parts(findings@, meta_map.entries@, now as int, *summary, quiet, threshold as nat, duplicates@, inner_width as nat, out@, head, "⚠"@, seq![]));
        }
        return out;
    }
    let ghost mut mark: Seq<char> = "⚠"@;
    let ghost mut dup_part: Seq<char> = seq![];
    match duplicates_line(duplicates) {
        Some(line) => {
            proof {
                mark = choose|m: Seq<char>| painted(m, "⚠"@, Style::Yellow) && line@ == duplicates_text(duplicates@, m);
                dup_part = duplicates_text(duplicates@, mark) + "\n"@;
            }
            out.append(line.as_str());
            out.append("\n");
        },
        None => {},
    }
    out.append("\n");
    let ghost before = out@;
    write_sections(&mut out, findings, meta_map, now, threshold, inner_width);
    proof {
        let rest = choose|t: Seq<char>|
            sections_ok(findings@, meta_map.entries@, now as int, threshold as nat, inner_width as nat, t) && out@ == before + t;
        assert(out@ =~= head + dup_part + "\n"@ + rest);
        assert(render_parts(findings@, meta_map.entries@, now as int, *summary, quiet, threshold as nat, duplicates@, inner_width as nat, out@, head, mark, rest));
    }
    out
}

/// The parts of the JSON report that are not per-finding.
pub struct JsonExtras<'a> {
    pub unchecked: &'a Vec<String>,
    pub duplicates: Vec<JsonDuplicate>,
    pub ignored: Vec<(String, Option<String>)>,
    pub project: JsonProject,
    pub advisory_db_commit: Option<String>,
}

/// The summary of the JSON report; the threshold in millipoints.
pub struct JsonSummary {
    pub total: usize,
    pub critical: usize,
    pub warnings: usize,
    pub notices: usize,
    pub unknown: usize,
    pub not_applicable: usize,
    pub ignored: usize,
    pub healthy: usize,
    pub threshold: u32,
    pub degraded: bool,
    pub unchecked_sample: Vec<String>,
    pub unchecked_count: usize,
}

/// A finding's signals in tenths of a point, its graph weight in tenths.
pub struct JsonComponents {
    pub security_tenths: u32,
    pub version_lag_tenths: u32,
    pub maintenance_tenths: u32,
    pub graph_multiplier_tenths: u32,
}

/// One finding of the JSON report; the score in tenths.
pub struct JsonFinding {
    pub name: String,
    pub version: String,
    pub score_tenths: u32,
    pub level: &'static str,
    pub is_direct: bool,
    pub dependent_count: usize,
    pub transitive_dependent_count: usize,
    pub kind: &'static str,
    pub components: JsonComponents,
    pub reasons: Vec<String>,
    pub advisories: Vec<String>,
    /// `new` or `known` when the run compared against a baseline.
    pub baseline: Option<&'static str>,
}

/// The JSON report.
pub struct JsonReport {
    pub schema_version: u32,
    pub tool_version: String,
    pub generated_at: String,
    pub project: JsonProject,
    pub advisory_db_commit: Option<String>,
    pub summary: JsonSummary,
    pub findings: Vec<JsonFinding>,
    pub duplicates: Vec<JsonDuplicate>,
    pub ignored: Vec<JsonIgnored>,
}

/// The baseline mark of a finding in JSON.
pub open spec fn baseline_mark(st: BaselineState) -> Option<Seq<char>> {
    match st {
        BaselineState::NotCompared => None,
        BaselineState::Known => Some("known"@),
        BaselineState::New(_) => Some("new"@),
    }
}

/// `j` is finding `f` as the JSON report gives it.
pub open spec fn json_finding_ok(f: Finding, meta_map: MetaMap, now: int, j: JsonFinding) -> bool {
    &&& j.name@ == f.node.name@
    &&& j.version@ == version_text(f.node.version@)
    &&& j.score_tenths == tenths(f.risk.total as nat)
    &&& j.level@ == crate::score::level_name(f.risk.level)
    &&& j.is_direct == f.node.is_direct
    &&& j.dependent_count == f.node.dependent_count
    &&& j.transitive_dependent_count == f.node.transitive_dependent_count
    &&& j.kind@ == crate::graph::kind_name(f.node.kind)
    &&& j.components.security_tenths == tenths(f.risk.security as nat)
    &&& j.components.version_lag_tenths == tenths(f.risk.version_lag as nat)
    &&& j.components.maintenance_tenths == tenths(f.risk.maintenance as nat)
    &&& j.components.graph_multiplier_tenths == (f.risk.graph_multiplier as nat + 50000) / 100000
    &&& views(j.reasons@) == reasons_text(f.node, f.risk, f.advisories@, lookup(meta_map.entries@, f.node.name@), now)
    &&& views(j.advisories@) == f.advisories@.map_values(|a: Advisory| crate::advisory::advisory_label_text(a))
    &&& match baseline_mark(f.baseline_state) {
        Some(t) => j.baseline matches Some(b) && b@ == t,
        None => j.baseline is None,
    }
}

/// One finding as the JSON report gives it.
pub fn json_finding(finding: &Finding, meta_map: &MetaMap, now: i64) -> (j: JsonFinding)
    requires
        finding.advisories@.len() < usize::MAX,
    ensures
        json_finding_ok(*finding, *meta_map, now as int, j),
{
    let mut labels: Vec<String> = Vec::new();
    let mut i: usize = 0;
    while i < finding.advisories.len()
        invariant
            i <= finding.advisories@.len(),
            views(labels@) == finding.advisories@.take(i as int).map_values(
                |a: Advisory| crate::advisory::advisory_label_text(a),
            ),
        decreases finding.advisories@.len() - i,
    {
        let ghost before = labels@;
        labels.push(finding.advisories[i].label());
        proof {
            assert(views(labels@) =~= views(before).push(crate::advisory::advisory_label_text(finding.advisories@[i as int])));
            assert(finding.advisories@.take(i + 1).map_values(|a: Advisory| crate::advisory::advisory_label_text(a))
                =~= finding.advisories@.take(i as int).map_values(|a: Advisory| crate::advisory::advisory_label_text(a)).push(
                crate::advisory::advisory_label_text(finding.advisories@[i as int]),
            ));
        }
        i = i + 1;
    }
    proof {
        assert(finding.advisories@.take(i as int) =~= finding.advisories@);
    }
    JsonFinding {
        name: finding.node.name.clone(),
        version: finding.node.version.to_text(),
        score_tenths: rounded_tenths(finding.risk.total),
        level: finding.risk.level.as_str(),
        is_direct: finding.node.is_direct,
        dependent_count: finding.node.dependent_count,
        transitive_dependent_count: finding.node.transitive_dependent_count,
        kind: finding.node.kind.as_str(),
        components: JsonComponents {
            security_tenths: rounded_tenths(finding.risk.security),
            version_lag_tenths: rounded_tenths(finding.risk.version_lag),
            maintenance_tenths: rounded_tenths(finding.risk.maintenance),
            graph_multiplier_tenths: ((finding.risk.graph_multiplier as u64 + 50000) / 100000) as u32,
        },
        reasons: reason_lines(&finding.node, &finding.risk, &finding.advisories, meta_map, now),
        advisories: labels,
        baseline: finding.baseline_state.as_str(),
    }
}

/// The JSON report of `findings`: the schema version, the tool version,
/// when it was generated, the project and advisory database, the summary
/// with the threshold and the first five unchecked crates, each finding,
/// the duplicated crates and the ignored ones.
pub fn to_json(
    findings: &Vec<Finding>,
    meta_map: &MetaMap,
    now: i64,
    summary: &ReportSummary,
    threshold: u32,
    extras: JsonExtras,
    generated_at: &str,
    tool_version: &str,
) -> (r: JsonReport)
    requires
        forall|i: int| 0 <= i < findings@.len() ==> (#[trigger] findings@[i]).advisories@.len() < usize::MAX,
    ensures
        r.schema_version == JSON_SCHEMA_VERSION,
        r.tool_version@ == tool_version@,
        r.generated_at@ == generated_at@,
        r.project == extras.project,
        r.advisory_db_commit == extras.advisory_db_commit,
        r.summary.total == summary.total,
        r.summary.critical == summary.critical,
        r.summary.warnings == summary.warnings,
        r.summary.notices == summary.notices,
        r.summary.unknown == summary.unknown,
        r.summary.not_applicable == summary.not_applicable,
        r.summary.ignored == summary.ignored,
        r.summary.healthy == summary.healthy,
        r.summary.threshold == threshold,
        r.summary.degraded == summary.degraded,
        views(r.summary.unchecked_sample@) == (if extras.unchecked@.len() > 5 {
            views(extras.unchecked@).take(5)
        } else {
            views(extras.unchecked@)
        }),
        r.summary.unchecked_count == extras.unchecked@.len(),
        r.findings@.len() == findings@.len(),
        forall|i: int| 0 <= i < findings@.len() ==> json_finding_ok(findings@[i], *meta_map, now as int, #[trigger] r.findings@[i]),
        r.duplicates == extras.duplicates,
        r.ignored@.len() == extras.ignored@.len(),
        forall|i: int|
            0 <= i < extras.ignored@.len() ==> (#[trigger] r.ignored@[i]).name == extras.ignored@[i].0 && r.ignored@[i].reason
                == extras.ignored@[i].1,
{
    let n = extras.unchecked.len();
    let shown = if n > 5 { 5 } else { n };
    let mut sample: Vec<String> = Vec::new();
    let mut i: usize = 0;
    while i < shown
        invariant
            shown <= extras.unchecked@.len(),
            i <= shown,
            views(sample@) == views(extras.unchecked@).take(i as int),
        decreases shown - i,
    {
        let ghost before = sample@;
        sample.push(extras.unchecked[i].clone());
        proof {
            assert(views(sample@) =~= views(before).push(extras.unchecked@[i as int]@));
            assert(views(extras.unchecked@)[i as int] == extras.unchecked@[i as int]@);
            assert(views(sample@) =~= views(extras.unchecked@).take(i + 1));
        }
        i = i + 1;
    }
    proof {
        if n <= 5 {
            assert(views(extras.unchecked@).take(n as int) =~= views(extras.unchecked@));
        }
    }
    let mut json_findings: Vec<JsonFinding> = Vec::new();
    let mut k: usize = 0;
    while k < findings.len()
        invariant
            k <= findings@.len(),
            json_findings@.len() == k,
            forall|q: int| 0 <= q < findings@.len() ==> (#[trigger] findings@[q]).advisories@.len() < usize::MAX,
            forall|q: int| 0 <= q < k ==> json_finding_ok(findings@[q], *meta_map, now as int, #[trigger] json_findings@[q]),
        decreases findings@.len() - k,
    {
        json_findings.push(json_finding(&findings[k], meta_map, now));
        k = k + 1;
    }
    let JsonExtras { unchecked: _, duplicates, ignored, project, advisory_db_commit } = extras;
    let ghost ig = ignored@;
    let count = ignored.len();
    let mut ignored = ignored;
    let mut json_ignored: Vec<JsonIgnored> = Vec::new();
    let mut q: usize = 0;
    proof {
        assert(ignored@ =~= ig.skip(0));
    }
    while ignored.len() > 0
        invariant
            ig.len() == count,
            q <= count,
            ignored@ == ig.skip(q as int),
            json_ignored@.len() == q,
            forall|p: int| 0 <= p < q ==> (#[trigger] json_ignored@[p]).name == ig[p].0 && json_ignored@[p].reason == ig[p].1,
        decreases ignored@.len(),
    {
        let (name, reason) = ignored.remove(0);
        proof {
            assert(ignored@ =~= ig.skip(q + 1));
        }
        json_ignored.push(JsonIgnored { name, reason });
        q = q + 1;
    }
    JsonReport {
        schema_version: JSON_SCHEMA_VERSION,
        tool_version: tool_version.to_owned(),
        generated_at: generated_at.to_owned(),
        project,
        advisory_db_commit,
        summary: JsonSummary {
            total: summary.total,
            critical: summary.critical,
            warnings: summary.warnings,
            notices: summary.notices,
            unknown: summary.unknown,
            not_applicable: summary.not_applicable,
            ignored: summary.ignored,
            healthy: summary.healthy,
            threshold,
            degraded: summary.degraded,
            unchecked_sample: sample,
            unchecked_count: n,
        },
        findings: json_findings,
        duplicates,
        ignored: json_ignored,
    }
}

} // verus!
