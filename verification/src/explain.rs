//! The full derivation of one crate's score: each signal with the evidence
//! behind it, the arithmetic, what an upgrade would change, and what pulls
//! the crate in.

use vstd::prelude::*;
use crate::advisory::{advisory_label_text, Advisory};
use crate::graph::{NodeKind, PathStep};
use crate::policy::plural;
use crate::registry::{is_compatible_upgrade, Metadata};
use crate::report::{days_between, latest_stable_of, whole_days, yanked_in, Finding};
use crate::score::{compute, lag_components, lag_components_of, level_of, score_spec, RiskLevel};
use crate::style::{piece_views, rendered_since, shown, write_more, write_shown, lemma_rendered_since_start, paint, Style};
use crate::text::{
    decimal, fixed1, fixed2, int_text, join, pad_end, pad_start, push_decimal, push_fixed1, push_fixed2, push_int,
    push_joined, push_pad_end, push_pad_start, views, is_substring, underscored, str_contains, same_underscored,
};
use crate::score::{rounded_tenths, tenths};
use crate::upgrade::{ascending, insert_sorted, lemma_ascending_unique, lemma_sorted_insert, sorted_insert};
use crate::version::{numeric_order, version_order, version_text, SemVer, VersionSpec};

verus! {

/// What an upgrade to `version` would score.
pub struct Projection {
    pub label: &'static str,
    pub version: SemVer,
    /// In millipoints.
    pub total: u32,
    pub level: RiskLevel,
}

/// The derivation of one resolved version's score. Points are millipoints,
/// the graph weight is in millionths.
pub struct Explanation {
    pub name: String,
    pub version: SemVer,
    pub is_direct: bool,
    pub kind: NodeKind,
    pub level: RiskLevel,
    pub total: u32,
    pub security: u32,
    pub version_lag: u32,
    pub maintenance: u32,
    pub graph_multiplier: u32,
    pub transitive_dependent_count: usize,
    pub dependent_count: usize,
    pub security_detail: String,
    pub version_lag_detail: String,
    pub maintenance_detail: String,
    /// The display threshold, in millipoints.
    pub threshold: u32,
    pub ignored: bool,
    pub projections: Vec<Projection>,
}

/// The evidence behind the security signal.
pub open spec fn security_detail_text(f: Finding, meta: Option<Metadata>, checked: bool) -> Seq<char> {
    let n = f.advisories@.len();
    if n > 0 {
        (if n == 1 { "advisory"@ } else { "advisories"@ }) + " ("@ + join(
            f.advisories@.map_values(|a: Advisory| advisory_label_text(a)),
            ", "@,
        ) + ")"@
    } else if meta matches Some(m) && yanked_in(m, f.node.version@) {
        f.node.name@ + " "@ + version_text(f.node.version@) + " is yanked on crates.io"@
    } else if !checked {
        "advisories not checked this run"@
    } else {
        "no advisories, not yanked"@
    }
}

/// The evidence behind the version-lag signal.
pub open spec fn lag_detail_text(f: Finding, meta: Option<Metadata>) -> Seq<char> {
    match meta {
        Some(m) => {
            let latest = latest_stable_of(m);
            let v = f.node.version@;
            if version_order(v, latest) >= 0 {
                "up to date ("@ + version_text(latest) + " is the latest stable)"@
            } else {
                let (b, c, p) = lag_components(v, latest);
                let (count, adjective) = if b > 0 {
                    (b, "breaking"@)
                } else if c > 0 {
                    (c, "compatible"@)
                } else {
                    (p, "patch"@)
                };
                decimal(count) + " "@ + adjective + " "@ + (if count == 1 { "release"@ } else { "releases"@ })
                    + " behind ("@ + version_text(v) + " → "@ + version_text(latest) + ")"@
            }
        },
        None => if f.node.is_registry {
            "registry metadata unavailable"@
        } else {
            "not a registry crate; no published versions to compare"@
        },
    }
}

/// The evidence behind the maintenance signal.
pub open spec fn maintenance_detail_text(meta: Option<Metadata>, now: int) -> Seq<char> {
    match meta {
        Some(m) => "latest release across all versions published "@ + int_text(days_between(now, m.updated_at as int))
            + " days ago"@,
        None => "no publish history available"@,
    }
}

fn security_detail(f: &Finding, meta: Option<&Metadata>, checked: bool) -> (r: String)
    requires
        f.advisories@.len() < usize::MAX,
    ensures
        r@ == security_detail_text(*f, match meta { Some(m) => Some(*m), None => None }, checked),
{
    let n = f.advisories.len();
    if n > 0 {
        let mut labels: Vec<String> = Vec::new();
        let mut i: usize = 0;
        while i < n
            invariant
                n == f.advisories@.len(),
                i <= n,
                views(labels@) == f.advisories@.take(i as int).map_values(|a: Advisory| advisory_label_text(a)),
            decreases n - i,
        {
            let ghost before = labels@;
            labels.push(f.advisories[i].label());
            proof {
                assert(views(labels@) =~= views(before).push(advisory_label_text(f.advisories@[i as int])));
                assert(f.advisories@.take(i + 1).map_values(|a: Advisory| advisory_label_text(a)) =~= f.advisories@.take(
                    i as int,
                ).map_values(|a: Advisory| advisory_label_text(a)).push(advisory_label_text(f.advisories@[i as int])));
            }
            i = i + 1;
        }
        proof {
            assert(f.advisories@.take(n as int) =~= f.advisories@);
        }
        let mut s = plural(n, "advisory", "advisories").to_owned();
        s.append(" (");
        push_joined(&mut s, &labels, ", ");
        s.append(")");
        return s;
    }
    let yanked = match meta {
        Some(m) => m.is_yanked(&f.node.version),
        None => false,
    };
    if yanked {
        let mut s = f.node.name.clone();
        s.append(" ");
        f.node.version.push_text(&mut s);
        s.append(" is yanked on crates.io");
        s
    } else if !checked {
        "advisories not checked this run".to_owned()
    } else {
        "no advisories, not yanked".to_owned()
    }
}

fn lag_detail(f: &Finding, meta: Option<&Metadata>) -> (r: String)
    ensures
        r@ == lag_detail_text(*f, match meta { Some(m) => Some(*m), None => None }),
{
    match meta {
        Some(m) => {
            let latest = m.latest_stable();
            if f.node.version.compare(latest) >= 0 {
                let mut s = "up to date (".to_owned();
                latest.push_text(&mut s);
                s.append(" is the latest stable)");
                s
            } else {
                let (b, c, p) = lag_components_of(&f.node.version, latest);
                let (count, adjective) = if b > 0 {
                    (b, "breaking")
                } else if c > 0 {
                    (c, "compatible")
                } else {
                    (p, "patch")
                };
                let mut s = String::new();
                push_decimal(&mut s, count);
                s.append(" ");
                s.append(adjective);
                s.append(" ");
                s.append(if count == 1 { "release" } else { "releases" });
                s.append(" behind (");
                f.node.version.push_text(&mut s);
                s.append(" → ");
                latest.push_text(&mut s);
                s.append(")");
                s
            }
        },
        None => if f.node.is_registry {
            "registry metadata unavailable".to_owned()
        } else {
            "not a registry crate; no published versions to compare".to_owned()
        },
    }
}

fn maintenance_detail(meta: Option<&Metadata>, now: i64) -> (r: String)
    ensures
        r@ == maintenance_detail_text(match meta { Some(m) => Some(*m), None => None }, now as int),
{
    match meta {
        Some(m) => {
            let mut s = "latest release across all versions published ".to_owned();
            push_int(&mut s, whole_days(now, m.updated_at));
            s.append(" days ago");
            s
        },
        None => "no publish history available".to_owned(),
    }
}

/// `c` is the newest listed stable release on `v`'s compatibility line
/// newer than `v`: no such release has higher numbers.
pub open spec fn newest_compatible(m: Metadata, v: VersionSpec, c: VersionSpec) -> bool {
    &&& is_compatible_upgrade(v, c)
    &&& exists|i: int| 0 <= i < m.stable_versions@.len() && #[trigger] m.stable_versions@[i]@ == c
    &&& forall|i: int|
        0 <= i < m.stable_versions@.len() && is_compatible_upgrade(v, #[trigger] m.stable_versions@[i]@)
            ==> numeric_order(m.stable_versions@[i]@, c) <= 0
}

pub open spec fn has_compatible(m: Metadata, v: VersionSpec) -> bool {
    exists|i: int| 0 <= i < m.stable_versions@.len() && is_compatible_upgrade(v, #[trigger] m.stable_versions@[i]@)
}

/// `ts` are the versions an upgrade projection is made at: the newest
/// release on the compatibility line, when there is one, then the latest
/// stable release when it is newer than `v` and not already listed.
pub open spec fn targets_ok(m: Metadata, v: VersionSpec, ts: Seq<(Seq<char>, VersionSpec)>) -> bool {
    let latest = latest_stable_of(m);
    let first = if has_compatible(m, v) { 1int } else { 0int };
    &&& first == 1 ==> ts.len() >= 1 && ts[0].0 == "within its compatibility line"@ && newest_compatible(m, v, ts[0].1)
    &&& ts.len() == first + if version_order(latest, v) > 0 && !(first == 1 && ts[0].1 == latest) { 1int } else { 0int }
    &&& ts.len() == first + 1 ==> ts[first].0 == "at the latest stable"@ && ts[first].1 == latest
}

pub open spec fn target_views(ts: Seq<(&'static str, SemVer)>) -> Seq<(Seq<char>, VersionSpec)> {
    ts.map_values(|t: (&'static str, SemVer)| (t.0@, t.1@))
}

/// The versions to project an upgrade at, with their labels.
pub fn projection_targets(version: &SemVer, meta: &Metadata) -> (r: Vec<(&'static str, SemVer)>)
    ensures
        targets_ok(*meta, version@, target_views(r@)),
{
    let mut targets: Vec<(&'static str, SemVer)> = Vec::new();
    let mut has_first = false;
    match meta.latest_compatible(version) {
        Some(c) => {
            targets.push(("within its compatibility line", c.duplicate()));
            has_first = true;
        },
        None => {},
    }
    let latest = meta.latest_stable();
    let newer = latest.compare(version) > 0;
    let listed = has_first && targets[0].1.same(latest);
    if newer && !listed {
        targets.push(("at the latest stable", latest.duplicate()));
    }
    proof {
        let tv = target_views(targets@);
        if has_first {
            assert(tv[0] == (targets@[0].0@, targets@[0].1@));
        }
        if newer && !listed {
            assert(tv[tv.len() - 1] == (targets@[targets@.len() - 1].0@, targets@[targets@.len() - 1].1@));
        }
    }
    targets
}

/// `p` is the re-scoring of `f` at target `t` with advisories `advs`.
pub open spec fn projection_ok(
    f: Finding,
    m: Metadata,
    now: int,
    t: (Seq<char>, VersionSpec),
    advs: Seq<Advisory>,
    p: Projection,
) -> bool {
    let s = score_spec(t.1, Some(m), advs, now, f.risk.graph_multiplier as nat);
    &&& p.label@ == t.0
    &&& p.version@ == t.1
    &&& p.total == s.3
    &&& p.level == level_of(s.3)
}

impl Explanation {
    /// The derivation of `finding`'s score. `checked` says whether advisories
    /// were looked up at all; `target_advisories` holds the advisories of
    /// each projection target, in the order `projection_targets` gives them.
    pub fn build(
        finding: &Finding,
        meta: Option<&Metadata>,
        checked: bool,
        now: i64,
        threshold: u32,
        ignored: bool,
        target_advisories: &Vec<Vec<Advisory>>,
    ) -> (e: Explanation)
        requires
            finding.advisories@.len() < usize::MAX,
            finding.risk.graph_multiplier <= 2000000,
            forall|i: int| 0 <= i < target_advisories@.len() ==> #[trigger] target_advisories@[i]@.len() < usize::MAX,
        ensures
            e.name@ == finding.node.name@,
            e.version@ == finding.node.version@,
            e.is_direct == finding.node.is_direct,
            e.kind == finding.node.kind,
            e.level == finding.risk.level,
            e.total == finding.risk.total,
            e.security == finding.risk.security,
            e.version_lag == finding.risk.version_lag,
            e.maintenance == finding.risk.maintenance,
            e.graph_multiplier == finding.risk.graph_multiplier,
            e.transitive_dependent_count == finding.node.transitive_dependent_count,
            e.dependent_count == finding.node.dependent_count,
            e.security_detail@ == security_detail_text(*finding, match meta { Some(m) => Some(*m), None => None }, checked),
            e.version_lag_detail@ == lag_detail_text(*finding, match meta { Some(m) => Some(*m), None => None }),
            e.maintenance_detail@ == maintenance_detail_text(match meta { Some(m) => Some(*m), None => None }, now as int),
            e.threshold == threshold,
            e.ignored == ignored,
            meta is None ==> e.projections@.len() == 0,
            meta matches Some(m) ==> exists|ts: Seq<(Seq<char>, VersionSpec)>|
                #[trigger] targets_ok(*m, finding.node.version@, ts) && e.projections@.len() == ts.len() && forall|i: int|
                    0 <= i < ts.len() ==> projection_ok(
                        *finding,
                        *m,
                        now as int,
                        ts[i],
                        if i < target_advisories@.len() { target_advisories@[i]@ } else { seq![] },
                        #[trigger] e.projections@[i],
                    ),
    {
        let mut projections: Vec<Projection> = Vec::new();
        match meta {
            Some(m) => {
                let targets = projection_targets(&finding.node.version, m);
                let ghost ts = target_views(targets@);
                let empty: Vec<Advisory> = Vec::new();
                let mut i: usize = 0;
                while i < targets.len()
                    invariant
                        ts == target_views(targets@),
                        i <= targets@.len(),
                        projections@.len() == i,
                        finding.risk.graph_multiplier <= 2000000,
                        empty@.len() == 0,
                        forall|k: int| 0 <= k < target_advisories@.len() ==> #[trigger] target_advisories@[k]@.len() < usize::MAX,
                        forall|k: int|
                            0 <= k < i ==> projection_ok(
                                *finding,
                                *m,
                                now as int,
                                ts[k],
                                if k < target_advisories@.len() { target_advisories@[k]@ } else { seq![] },
                                #[trigger] projections@[k],
                            ),
                    decreases targets@.len() - i,
                {
                    let advs = if i < target_advisories.len() { &target_advisories[i] } else { &empty };
                    let s = compute(&targets[i].1, Some(m), advs, now, finding.risk.graph_multiplier);
                    let p = Projection { label: targets[i].0, version: targets[i].1.duplicate(), total: s.total, level: s.level };
                    proof {
                        assert(ts[i as int] == (targets@[i as int].0@, targets@[i as int].1@));
                        if i >= target_advisories@.len() {
                            assert(advs@ =~= Seq::<Advisory>::empty());
                        }
                    }
                    projections.push(p);
                    i = i + 1;
                }
            },
            None => {},
        }
        Explanation {
            name: finding.node.name.clone(),
            version: finding.node.version.duplicate(),
            is_direct: finding.node.is_direct,
            kind: finding.node.kind,
            level: finding.risk.level,
            total: finding.risk.total,
            security: finding.risk.security,
            version_lag: finding.risk.version_lag,
            maintenance: finding.risk.maintenance,
            graph_multiplier: finding.risk.graph_multiplier,
            transitive_dependent_count: finding.node.transitive_dependent_count,
            dependent_count: finding.node.dependent_count,
            security_detail: security_detail(finding, meta, checked),
            version_lag_detail: lag_detail(finding, meta),
            maintenance_detail: maintenance_detail(meta, now),
            threshold,
            ignored,
            projections,
        }
    }
}

/// The tag after a score: `[CRITICAL]` in bold red, `[WARN]` in yellow,
/// `[NOTICE]` plain.
pub open spec fn level_tag_piece(level: RiskLevel) -> (Seq<char>, Option<Style>) {
    match level {
        RiskLevel::Critical => ("[CRITICAL]"@, Some(Style::RedBold)),
        RiskLevel::Warn => ("[WARN]"@, Some(Style::Yellow)),
        RiskLevel::Low => ("[NOTICE]"@, None),
    }
}

/// The level tag, rendered.
pub fn level_tag(level: RiskLevel) -> (r: String)
    ensures
        shown(r@, level_tag_piece(level)),
{
    proof {
        reveal_strlit("[CRITICAL]");
        reveal_strlit("[WARN]");
    }
    match level {
        RiskLevel::Critical => paint("[CRITICAL]", Style::RedBold),
        RiskLevel::Warn => paint("[WARN]", Style::Yellow),
        RiskLevel::Low => "[NOTICE]".to_owned(),
    }
}

/// A display threshold in millipoints as `trim`s it: whole points without
/// a decimal, otherwise to one decimal.
pub open spec fn threshold_text(milli: nat) -> Seq<char> {
    if milli % 1000 == 0 {
        decimal(milli / 1000)
    } else {
        fixed1(tenths(milli))
    }
}

/// Appends `threshold_text(milli)`.
pub fn push_threshold(out: &mut String, milli: u32)
    ensures
        final(out)@ == old(out)@ + threshold_text(milli as nat),
{
    if milli % 1000 == 0 {
        push_decimal(out, (milli / 1000) as u64);
    } else {
        push_fixed1(out, rounded_tenths(milli) as u64);
    }
}

/// A graph weight in millionths, rounded to hundredths.
pub open spec fn weight_hundredths(millionths: nat) -> nat {
    (millionths + 5000) / 10000
}

/// The facts under the heading: how the crate is reached, its kind, an
/// ignore rule, and a total below the display threshold.
pub open spec fn facts(e: Explanation) -> Seq<Seq<char>> {
    seq![
        if e.is_direct {
            "direct dependency"@
        } else {
            "transitive dependency ("@ + decimal(e.dependent_count as nat) + " direct "@ + (if e.dependent_count
                == 1 {
                "dependent"@
            } else {
                "dependents"@
            }) + " in your graph)"@
        },
    ] + match e.kind {
        NodeKind::Build => seq!["build-time only (never shipped)"@],
        NodeKind::Dev => seq!["dev-only (never shipped)"@],
        NodeKind::Normal => seq![],
    } + (if e.ignored {
        seq!["suppressed by an ignore rule — shown here anyway"@]
    } else {
        seq![]
    }) + (if tenths(e.total as nat) * 100 < e.threshold {
        seq!["below your display threshold of "@ + threshold_text(e.threshold as nat)]
    } else {
        seq![]
    })
}

/// The first fact says "direct dependency" exactly for a direct
/// dependency; any other crate is named a transitive dependency, with how
/// many direct dependents it has.
pub proof fn law_first_fact_names_directness(e: Explanation)
    ensures
        facts(e).len() >= 1,
        e.is_direct <==> facts(e)[0] == "direct dependency"@,
        !e.is_direct ==> facts(e)[0].take(23) == "transitive dependency ("@ && facts(e)[0].skip(23).take(
            decimal(e.dependent_count as nat).len() as int,
        ) == decimal(e.dependent_count as nat),
{
    reveal_strlit("direct dependency");
    reveal_strlit("transitive dependency (");
    let d = decimal(e.dependent_count as nat);
    let tail = " direct "@ + (if e.dependent_count == 1 { "dependent"@ } else { "dependents"@ }) + " in your graph)"@;
    let first = "transitive dependency ("@ + d + tail;
    assert(facts(e)[0] == if e.is_direct { "direct dependency"@ } else { first });
    if !e.is_direct {
        assert(first =~= "transitive dependency ("@ + (d + tail));
        assert(first.take(23) =~= "transitive dependency ("@);
        assert(first.skip(23) =~= d + tail);
        assert((d + tail).take(d.len() as int) =~= d);
        assert(first[0] == 't');
        assert("direct dependency"@[0] == 'd');
    }
}

/// One row of the breakdown: the label, the points out of their cap, and
/// the evidence.
pub open spec fn row_text(label: Seq<char>, points: nat, max: nat, detail: Seq<char>) -> Seq<char> {
    "    "@ + pad_end(label, 13) + " "@ + pad_start(fixed1(tenths(points)) + " / "@ + decimal(max), 10) + "   "@
        + detail + "\n"@
}

/// The breakdown rows: each signal, the graph weight and the total.
pub open spec fn breakdown_text(e: Explanation) -> Seq<char> {
    let weight = fixed2(weight_hundredths(e.graph_multiplier as nat));
    row_text("security"@, e.security as nat, 50, e.security_detail@) + row_text(
        "version lag"@,
        e.version_lag as nat,
        25,
        e.version_lag_detail@,
    ) + row_text("maintenance"@, e.maintenance as nat, 15, e.maintenance_detail@) + "    "@ + pad_end(
        "graph weight"@,
        13,
    ) + " "@ + pad_start("×"@ + weight, 10) + "   relied on by "@ + decimal(e.transitive_dependent_count as nat)
        + " "@ + (if e.transitive_dependent_count == 1 {
        "crate"@
    } else {
        "crates"@
    }) + " in your graph, directly or transitively\n"@ + "\n"@ + "    "@ + pad_end("total"@, 13) + " "@
        + pad_start(fixed1(tenths(e.total as nat)), 10) + "   ("@ + fixed1(
        tenths(e.security as nat + e.version_lag as nat + e.maintenance as nat),
    ) + " × "@ + weight + ", capped at 100)\n"@
}

/// The line of one upgrade projection; the score change is green when the
/// projected score is lower.
pub open spec fn projection_pieces(current: nat, p: Projection) -> Seq<(Seq<char>, Option<Style>)> {
    let projected = tenths(p.total as nat);
    seq![
        ("    "@ + p.label@ + " "@ + version_text(p.version@) + "  score "@, None),
        (fixed1(current) + " → "@ + fixed1(projected), if projected < current {
            Some(Style::Green)
        } else {
            None
        }),
        (" "@, None),
        level_tag_piece(p.level),
        ("\n"@, None),
    ]
}

pub open spec fn projections_pieces(current: nat, ps: Seq<Projection>) -> Seq<(Seq<char>, Option<Style>)>
    decreases ps.len(),
{
    if ps.len() == 0 {
        seq![]
    } else {
        projections_pieces(current, ps.drop_last()) + projection_pieces(current, ps.last())
    }
}

/// The heading: name and version, then the score, before its level tag.
pub open spec fn head_pieces(e: Explanation) -> Seq<(Seq<char>, Option<Style>)> {
    seq![
        (e.name@ + " "@ + version_text(e.version@), Some(Style::Bold)),
        ("  score "@, None),
        (fixed1(tenths(e.total as nat)), Some(Style::Bold)),
        (" "@, None),
    ]
}

/// The facts line, the formula and the breakdown.
pub open spec fn body_pieces(e: Explanation) -> Seq<(Seq<char>, Option<Style>)> {
    seq![
        ("\n"@, None),
        ("  "@, None),
        (join(facts(e), " · "@), Some(Style::Dimmed)),
        ("\n\n"@, None),
        ("  score = (security "@, None),
        (fixed1(tenths(e.security as nat)), Some(Style::Cyan)),
        (" + version lag "@, None),
        (fixed1(tenths(e.version_lag as nat)), Some(Style::Cyan)),
        (" + maintenance "@, None),
        (fixed1(tenths(e.maintenance as nat)), Some(Style::Cyan)),
        (") × "@, None),
        (fixed2(weight_hundredths(e.graph_multiplier as nat)), Some(Style::Cyan)),
        (" graph weight\n\n"@, None),
        (breakdown_text(e), None),
    ]
}

pub open spec fn upgrade_intro() -> Seq<(Seq<char>, Option<Style>)> {
    seq![("\n  "@, None), ("If you upgrade:"@, Some(Style::Bold)), ("\n"@, None)]
}

pub open spec fn upgrade_outro() -> Seq<(Seq<char>, Option<Style>)> {
    seq![
        ("    "@, None),
        ("re-scored at that version against the same advisory database"@, Some(Style::Dimmed)),
        ("\n"@, None),
    ]
}

/// The upgrade projections, when there are any.
pub open spec fn upgrade_pieces(e: Explanation) -> Seq<(Seq<char>, Option<Style>)> {
    if e.projections@.len() == 0 {
        seq![]
    } else {
        upgrade_intro() + projections_pieces(tenths(e.total as nat), e.projections@) + upgrade_outro()
    }
}

/// The human-readable derivation, piece by piece.
pub open spec fn explanation_pieces(e: Explanation) -> Seq<(Seq<char>, Option<Style>)> {
    head_pieces(e).push(level_tag_piece(e.level)) + body_pieces(e) + upgrade_pieces(e)
}

/// Appends one breakdown row.
pub fn write_row(out: &mut String, label: &str, points: u32, max: u64, detail: &str)
    ensures
        final(out)@ == old(out)@ + row_text(label@, points as nat, max as nat, detail@),
{
    let ghost start = out@;
    out.append("    ");
    push_pad_end(out, label, 13);
    out.append(" ");
    let mut cell = String::new();
    push_fixed1(&mut cell, rounded_tenths(points) as u64);
    cell.append(" / ");
    push_decimal(&mut cell, max);
    push_pad_start(out, cell.as_str(), 10);
    out.append("   ");
    out.append(detail);
    out.append("\n");
    proof {
        assert(cell@ =~= fixed1(tenths(points as nat)) + " / "@ + decimal(max as nat));
        assert(out@ =~= start + row_text(label@, points as nat, max as nat, detail@));
    }
}

fn plain(t: &str) -> (r: (String, Option<Style>))
    ensures
        r.0@ == t@,
        r.1 is None,
{
    (t.to_owned(), None)
}

fn styled(t: String, s: Style) -> (r: (String, Option<Style>))
    ensures
        r.0@ == t@,
        r.1 == Some(s),
{
    (t, Some(s))
}

fn fixed1_string(milli: u32) -> (r: String)
    ensures
        r@ == fixed1(tenths(milli as nat)),
{
    let mut s = String::new();
    push_fixed1(&mut s, rounded_tenths(milli) as u64);
    s
}

fn weight_string(millionths: u32) -> (r: String)
    ensures
        r@ == fixed2(weight_hundredths(millionths as nat)),
{
    let mut s = String::new();
    push_fixed2(&mut s, (millionths as u64 + 5000) / 10000);
    s
}

impl Explanation {
    fn fact_list(&self) -> (v: Vec<String>)
        ensures
            views(v@) == facts(*self),
    {
        let mut v: Vec<String> = Vec::new();
        if self.is_direct {
            v.push("direct dependency".to_owned());
        } else {
            let mut s = "transitive dependency (".to_owned();
            push_decimal(&mut s, self.dependent_count as u64);
            s.append(" direct ");
            s.append(plural(self.dependent_count, "dependent", "dependents"));
            s.append(" in your graph)");
            v.push(s);
        }
        let ghost a = views(v@);
        match self.kind {
            NodeKind::Build => v.push("build-time only (never shipped)".to_owned()),
            NodeKind::Dev => v.push("dev-only (never shipped)".to_owned()),
            NodeKind::Normal => {},
        }
        let ghost b = views(v@);
        if self.ignored {
            v.push("suppressed by an ignore rule — shown here anyway".to_owned());
        }
        let ghost c = views(v@);
        if (rounded_tenths(self.total) as u64) * 100 < self.threshold as u64 {
            let mut s = "below your display threshold of ".to_owned();
            push_threshold(&mut s, self.threshold);
            v.push(s);
        }
        proof {
            assert(views(v@) =~= facts(*self));
        }
        v
    }

    fn breakdown(&self) -> (r: String)
        ensures
            r@ == breakdown_text(*self),
    {
        let mut out = String::new();
        write_row(&mut out, "security", self.security, 50, self.security_detail.as_str());
        write_row(&mut out, "version lag", self.version_lag, 25, self.version_lag_detail.as_str());
        write_row(&mut out, "maintenance", self.maintenance, 15, self.maintenance_detail.as_str());
        let weight = weight_string(self.graph_multiplier);
        out.append("    ");
        push_pad_end(&mut out, "graph weight", 13);
        out.append(" ");
        let mut cell = "×".to_owned();
        cell.append(weight.as_str());
        push_pad_start(&mut out, cell.as_str(), 10);
        out.append("   relied on by ");
        push_decimal(&mut out, self.transitive_dependent_count as u64);
        out.append(" ");
        out.append(plural(self.transitive_dependent_count, "crate", "crates"));
        out.append(" in your graph, directly or transitively\n");
        out.append("\n");
        out.append("    ");
        push_pad_end(&mut out, "total", 13);
        out.append(" ");
        let total = fixed1_string(self.total);
        push_pad_start(&mut out, total.as_str(), 10);
        out.append("   (");
        let base = self.security as u64 + self.version_lag as u64 + self.maintenance as u64;
        push_fixed1(&mut out, (base + 50) / 100);
        out.append(" × ");
        out.append(weight.as_str());
        out.append(", capped at 100)\n");
        proof {
            assert(out@ =~= breakdown_text(*self));
        }
        out
    }

    fn head_list(&self) -> (v: Vec<(String, Option<Style>)>)
        ensures
            piece_views(v@) == head_pieces(*self),
    {
        let mut heading = self.name.clone();
        heading.append(" ");
        self.version.push_text(&mut heading);
        let v = vec![styled(heading, Style::Bold), plain("  score "), styled(fixed1_string(self.total), Style::Bold), plain(" ")];
        proof {
            assert(piece_views(v@) =~= head_pieces(*self));
        }
        v
    }

    fn body_list(&self) -> (v: Vec<(String, Option<Style>)>)
        ensures
            piece_views(v@) == body_pieces(*self),
    {
        let facts_list = self.fact_list();
        let mut joined = String::new();
        push_joined(&mut joined, &facts_list, " · ");
        let v = vec![
            plain("\n"),
            plain("  "),
            styled(joined, Style::Dimmed),
            plain("\n\n"),
            plain("  score = (security "),
            styled(fixed1_string(self.security), Style::Cyan),
            plain(" + version lag "),
            styled(fixed1_string(self.version_lag), Style::Cyan),
            plain(" + maintenance "),
            styled(fixed1_string(self.maintenance), Style::Cyan),
            plain(") × "),
            styled(weight_string(self.graph_multiplier), Style::Cyan),
            plain(" graph weight\n\n"),
            (self.breakdown(), None),
        ];
        proof {
            assert(piece_views(v@) =~= body_pieces(*self));
        }
        v
    }

    /// Appends the human-readable derivation: the heading with the score and
    /// its level, the facts, the formula, one row per signal with its
    /// evidence, the graph weight and total rows, and the upgrade
    /// projections when there are any.
    pub fn write_human(&self, out: &mut String)
        ensures
            rendered_since(final(out)@, old(out)@, explanation_pieces(*self)),
    {
        let ghost start = out@;
        proof {
            lemma_rendered_since_start(start);
        }
        let head = self.head_list();
        write_more(out, &head, Ghost(start), Ghost(Seq::empty()));
        proof {
            assert(Seq::empty() + piece_views(head@) =~= head_pieces(*self));
        }
        let tag = level_tag(self.level);
        write_shown(out, tag.as_str(), Ghost(start), Ghost(head_pieces(*self)), Ghost(level_tag_piece(self.level)));
        let body = self.body_list();
        write_more(out, &body, Ghost(start), Ghost(head_pieces(*self).push(level_tag_piece(self.level))));
        if self.projections.len() > 0 {
            let ghost done = head_pieces(*self).push(level_tag_piece(self.level)) + body_pieces(*self);
            write_upgrades(out, &self.projections, rounded_tenths(self.total), Ghost(start), Ghost(done));
            proof {
                assert(done + (upgrade_intro() + projections_pieces(tenths(self.total as nat), self.projections@)
                    + upgrade_outro()) =~= explanation_pieces(*self));
            }
        } else {
            proof {
                assert(head_pieces(*self).push(level_tag_piece(self.level)) + body_pieces(*self) =~= explanation_pieces(
                    *self,
                ));
            }
        }
    }
}

fn write_projection(
    out: &mut String,
    p: &Projection,
    current: u32,
    Ghost(start): Ghost<Seq<char>>,
    Ghost(done): Ghost<Seq<(Seq<char>, Option<Style>)>>,
)
    requires
        rendered_since(old(out)@, start, done),
    ensures
        rendered_since(final(out)@, start, done + projection_pieces(current as nat, *p)),
{
    let mut prefix = "    ".to_owned();
    prefix.append(p.label);
    prefix.append(" ");
    p.version.push_text(&mut prefix);
    prefix.append("  score ");
    let projected = rounded_tenths(p.total);
    let mut change = String::new();
    push_fixed1(&mut change, current as u64);
    change.append(" → ");
    push_fixed1(&mut change, projected as u64);
    let first = vec![(prefix, None), (change, if projected < current { Some(Style::Green) } else { None }), plain(" ")];
    write_more(out, &first, Ghost(start), Ghost(done));
    let tag = level_tag(p.level);
    write_shown(out, tag.as_str(), Ghost(start), Ghost(done + piece_views(first@)), Ghost(level_tag_piece(p.level)));
    let last = vec![plain("\n")];
    write_more(out, &last, Ghost(start), Ghost((done + piece_views(first@)).push(level_tag_piece(p.level))));
    proof {
        assert((done + piece_views(first@)).push(level_tag_piece(p.level)) + piece_views(last@) =~= done
            + projection_pieces(current as nat, *p));
    }
}

fn write_upgrades(
    out: &mut String,
    projections: &Vec<Projection>,
    current: u32,
    Ghost(start): Ghost<Seq<char>>,
    Ghost(done): Ghost<Seq<(Seq<char>, Option<Style>)>>,
)
    requires
        rendered_since(old(out)@, start, done),
    ensures
        rendered_since(
            final(out)@,
            start,
            done + (upgrade_intro() + projections_pieces(current as nat, projections@) + upgrade_outro()),
        ),
{
    proof {
        reveal_strlit("If you upgrade:");
    }
    let intro = vec![plain("\n  "), styled("If you upgrade:".to_owned(), Style::Bold), plain("\n")];
    write_more(out, &intro, Ghost(start), Ghost(done));
    let ghost base = done + piece_views(intro@);
    proof {
        assert(piece_views(intro@) =~= upgrade_intro());
        assert(projections@.take(0) =~= Seq::<Projection>::empty());
        assert(base + projections_pieces(current as nat, projections@.take(0)) =~= base);
    }
    let mut i: usize = 0;
    while i < projections.len()
        invariant
            i <= projections@.len(),
            base == done + upgrade_intro(),
            rendered_since(out@, start, base + projections_pieces(current as nat, projections@.take(i as int))),
        decreases projections@.len() - i,
    {
        write_projection(
            out,
            &projections[i],
            current,
            Ghost(start),
            Ghost(base + projections_pieces(current as nat, projections@.take(i as int))),
        );
        proof {
            let next = projections@.take(i + 1);
            assert(next.drop_last() =~= projections@.take(i as int));
            assert(next.last() == projections@[i as int]);
            assert(base + projections_pieces(current as nat, projections@.take(i as int)) + projection_pieces(
                current as nat,
                projections@[i as int],
            ) =~= base + projections_pieces(current as nat, next));
        }
        i = i + 1;
    }
    proof {
        reveal_strlit("re-scored at that version against the same advisory database");
    }
    let outro = vec![plain("    "), styled("re-scored at that version against the same advisory database".to_owned(), Style::Dimmed), plain("\n")];
    write_more(
        out,
        &outro,
        Ghost(start),
        Ghost(base + projections_pieces(current as nat, projections@.take(i as int))),
    );
    proof {
        assert(projections@.take(i as int) =~= projections@);
        assert(piece_views(outro@) =~= upgrade_outro());
        assert(base + projections_pieces(current as nat, projections@) + upgrade_outro() =~= done + (upgrade_intro()
            + projections_pieces(current as nat, projections@) + upgrade_outro()));
    }
}

/// What a hop's edge kind adds after it: ` [build]`, ` [dev]` or nothing.
pub open spec fn kind_suffix(kind: NodeKind) -> Seq<char> {
    match kind {
        NodeKind::Build => " [build]"@,
        NodeKind::Dev => " [dev]"@,
        NodeKind::Normal => ""@,
    }
}

/// The hops after the first: ` → name version[kind]` each.
pub open spec fn rest_text(path: Seq<PathStep>) -> Seq<char>
    decreases path.len(),
{
    if path.len() <= 1 {
        seq![]
    } else {
        rest_text(path.drop_last()) + " → "@ + path.last().name@ + " "@ + version_text(path.last().version@)
            + kind_suffix(path.last().kind)
    }
}

/// One path's line: the workspace member in bold, then each hop.
pub open spec fn path_pieces(path: Seq<PathStep>) -> Seq<(Seq<char>, Option<Style>)> {
    if path.len() == 0 {
        seq![("    \n"@, None)]
    } else {
        seq![
            ("    "@, None),
            (path[0].name@, Some(Style::Bold)),
            (kind_suffix(path[0].kind) + rest_text(path) + "\n"@, None),
        ]
    }
}

pub open spec fn paths_pieces(paths: Seq<Vec<PathStep>>) -> Seq<(Seq<char>, Option<Style>)>
    decreases paths.len(),
{
    if paths.len() == 0 {
        seq![]
    } else {
        paths_pieces(paths.drop_last()) + path_pieces(paths.last()@)
    }
}

pub open spec fn no_path_text() -> Seq<char> {
    "No dependency path found — this crate is not reachable from a workspace member under the current --include-build / --include-dev settings."@
}

/// The paths section: a note when there is no path; otherwise the count,
/// each path, a note when `max_paths` of them are shown, and the matching
/// `cargo tree` command.
pub open spec fn paths_section(crate_name: Seq<char>, paths: Seq<Vec<PathStep>>, max_paths: nat) -> Seq<
    (Seq<char>, Option<Style>),
> {
    if paths.len() == 0 {
        seq![("\n  "@, None), (no_path_text(), Some(Style::Dimmed)), ("\n"@, None)]
    } else {
        seq![
            ("\n  "@, None),
            ("Pulled in by"@, Some(Style::Bold)),
            (" ("@ + decimal(paths.len()) + " shown, shortest first):\n"@, None),
        ] + paths_pieces(paths) + (if paths.len() == max_paths {
            seq![
                ("    "@, None),
                ("(more paths may exist; raise --max-paths to see them)"@, Some(Style::Dimmed)),
                ("\n"@, None),
            ]
        } else {
            seq![]
        }) + seq![
            ("    "@, None),
            ("cargo tree -i "@ + crate_name + " shows the same relationships from Cargo's own view"@, Some(Style::Dimmed)),
            ("\n"@, None),
        ]
    }
}

fn push_kind_suffix(out: &mut String, kind: NodeKind)
    ensures
        final(out)@ == old(out)@ + kind_suffix(kind),
{
    match kind {
        NodeKind::Build => out.append(" [build]"),
        NodeKind::Dev => out.append(" [dev]"),
        NodeKind::Normal => {
            proof {
                reveal_strlit("");
            }
            assert(out@ =~= old(out)@ + kind_suffix(kind));
        },
    }
}

fn write_path(
    out: &mut String,
    path: &Vec<PathStep>,
    Ghost(start): Ghost<Seq<char>>,
    Ghost(done): Ghost<Seq<(Seq<char>, Option<Style>)>>,
)
    requires
        rendered_since(old(out)@, start, done),
    ensures
        rendered_since(final(out)@, start, done + path_pieces(path@)),
{
    if path.len() == 0 {
        let line = vec![plain("    \n")];
        write_more(out, &line, Ghost(start), Ghost(done));
        proof {
            assert(piece_views(line@) =~= path_pieces(path@));
        }
        return;
    }
    let mut rest = String::new();
    push_kind_suffix(&mut rest, path[0].kind);
    let mut i: usize = 1;
    proof {
        assert(rest_text(path@.take(1)) == Seq::<char>::empty());
        assert(rest@ =~= kind_suffix(path@[0].kind) + rest_text(path@.take(1)));
    }
    while i < path.len()
        invariant
            1 <= i <= path@.len(),
            rest@ == kind_suffix(path@[0].kind) + rest_text(path@.take(i as int)),
        decreases path@.len() - i,
    {
        let ghost before = rest@;
        rest.append(" → ");
        rest.append(path[i].name.as_str());
        rest.append(" ");
        path[i].version.push_text(&mut rest);
        push_kind_suffix(&mut rest, path[i].kind);
        proof {
            let next = path@.take(i + 1);
            assert(next.drop_last() =~= path@.take(i as int));
            assert(next.last() == path@[i as int]);
            assert(rest@ =~= kind_suffix(path@[0].kind) + rest_text(next));
        }
        i = i + 1;
    }
    rest.append("\n");
    let line = vec![plain("    "), styled(path[0].name.clone(), Style::Bold), (rest, None)];
    write_more(out, &line, Ghost(start), Ghost(done));
    proof {
        assert(path@.take(i as int) =~= path@);
        assert(piece_views(line@) =~= path_pieces(path@));
    }
}

/// Appends the paths that pull `crate_name` in, as `paths_section`
/// describes.
pub fn write_paths(out: &mut String, crate_name: &str, paths: &Vec<Vec<PathStep>>, max_paths: usize)
    ensures
        rendered_since(final(out)@, old(out)@, paths_section(crate_name@, paths@, max_paths as nat)),
{
    let ghost start = out@;
    proof {
        lemma_rendered_since_start(start);
    }
    if paths.len() == 0 {
        proof {
            reveal_strlit(
                "No dependency path found — this crate is not reachable from a workspace member under the current --include-build / --include-dev settings.",
            );
        }
        let note = vec![
            plain("\n  "),
            styled(
                "No dependency path found — this crate is not reachable from a workspace member under the current --include-build / --include-dev settings.".to_owned(),
                Style::Dimmed,
            ),
            plain("\n"),
        ];
        write_more(out, &note, Ghost(start), Ghost(Seq::empty()));
        proof {
            assert(Seq::empty() + piece_views(note@) =~= paths_section(crate_name@, paths@, max_paths as nat));
        }
        return;
    }
    proof {
        reveal_strlit("Pulled in by");
    }
    let mut count = " (".to_owned();
    push_decimal(&mut count, paths.len() as u64);
    count.append(" shown, shortest first):\n");
    let intro = vec![plain("\n  "), styled("Pulled in by".to_owned(), Style::Bold), (count, None)];
    write_more(out, &intro, Ghost(start), Ghost(Seq::empty()));
    let ghost base = Seq::empty() + piece_views(intro@);
    proof {
        assert(paths@.take(0) =~= Seq::<Vec<PathStep>>::empty());
        assert(base + paths_pieces(paths@.take(0)) =~= base);
    }
    let mut i: usize = 0;
    while i < paths.len()
        invariant
            i <= paths@.len(),
            rendered_since(out@, start, base + paths_pieces(paths@.take(i as int))),
        decreases paths@.len() - i,
    {
        write_path(out, &paths[i], Ghost(start), Ghost(base + paths_pieces(paths@.take(i as int))));
        proof {
            let next = paths@.take(i + 1);
            assert(next.drop_last() =~= paths@.take(i as int));
            assert(next.last() == paths@[i as int]);
            assert(base + paths_pieces(paths@.take(i as int)) + path_pieces(paths@[i as int]@) =~= base
                + paths_pieces(next));
        }
        i = i + 1;
    }
    proof {
        assert(paths@.take(i as int) =~= paths@);
    }
    let ghost listed = base + paths_pieces(paths@);
    let ghost more = if paths@.len() == max_paths {
        seq![
            ("    "@, None),
            ("(more paths may exist; raise --max-paths to see them)"@, Some(Style::Dimmed)),
            ("\n"@, None),
        ]
    } else {
        Seq::<(Seq<char>, Option<Style>)>::empty()
    };
    if paths.len() == max_paths {
        proof {
            reveal_strlit("(more paths may exist; raise --max-paths to see them)");
        }
        let note = vec![
            plain("    "),
            styled("(more paths may exist; raise --max-paths to see them)".to_owned(), Style::Dimmed),
            plain("\n"),
        ];
        write_more(out, &note, Ghost(start), Ghost(listed));
        proof {
            assert(piece_views(note@) =~= more);
        }
    } else {
        proof {
            assert(listed + more =~= listed);
        }
    }
    let mut tree = "cargo tree -i ".to_owned();
    tree.append(crate_name);
    tree.append(" shows the same relationships from Cargo's own view");
    let last = vec![plain("    "), styled(tree, Style::Dimmed), plain("\n")];
    write_more(out, &last, Ghost(start), Ghost(listed + more));
    proof {
        assert(listed + more + piece_views(last@) =~= paths_section(crate_name@, paths@, max_paths as nat));
    }
}

/// A name close to the one asked for: one holds the other, or they agree
/// once `-` is read as `_`.
pub open spec fn near_match(name: Seq<char>, asked: Seq<char>) -> bool {
    is_substring(asked, name) || is_substring(name, asked) || underscored(name) == underscored(asked)
}

/// Some finding is named `x`.
pub open spec fn named_in(all: Seq<Finding>, x: Seq<char>) -> bool {
    exists|i: int| 0 <= i < all.len() && #[trigger] all[i].node.name@ == x
}

/// `names` are, once each and in ascending order, the finding names near
/// `asked`.
pub open spec fn near_list(asked: Seq<char>, all: Seq<Finding>, names: Seq<Seq<char>>) -> bool {
    &&& ascending(names)
    &&& forall|x: Seq<char>| #[trigger] names.contains(x) <==> (named_in(all, x) && near_match(x, asked))
}

/// At most one list meets `near_list`.
pub proof fn lemma_near_list_unique(asked: Seq<char>, all: Seq<Finding>, a: Seq<Seq<char>>, b: Seq<Seq<char>>)
    requires
        near_list(asked, all, a),
        near_list(asked, all, b),
    ensures
        a == b,
{
    assert forall|x: Seq<char>| a.contains(x) <==> b.contains(x) by {
        assert(a.contains(x) <==> (named_in(all, x) && near_match(x, asked)));
        assert(b.contains(x) <==> (named_in(all, x) && near_match(x, asked)));
    }
    lemma_ascending_unique(a, b);
}

/// The names in `all` near `asked`, ascending and without repeats.
pub fn near_names(asked: &str, all: &Vec<Finding>) -> (r: Vec<String>)
    ensures
        near_list(asked@, all@, views(r@)),
{
    let mut r: Vec<String> = Vec::new();
    let mut i: usize = 0;
    while i < all.len()
        invariant
            i <= all@.len(),
            ascending(views(r@)),
            forall|x: Seq<char>| #[trigger] views(r@).contains(x) <==> (named_in(all@.take(i as int), x) && near_match(
                x,
                asked@,
            )),
        decreases all@.len() - i,
    {
        let name = all[i].node.name.as_str();
        let near = str_contains(name, asked) || str_contains(asked, name) || same_underscored(name, asked);
        let ghost before = views(r@);
        if near {
            insert_sorted(&mut r, all[i].node.name.clone());
            proof {
                lemma_sorted_insert(before, all@[i as int].node.name@);
            }
        }
        proof {
            let t = all@.take(i + 1);
            assert forall|x: Seq<char>| named_in(t, x) <==> (named_in(all@.take(i as int), x) || x == all@[i as int].node.name@) by {
                if named_in(t, x) {
                    let k = choose|k: int| 0 <= k < t.len() && #[trigger] t[k].node.name@ == x;
                    if k < i {
                        assert(all@.take(i as int)[k] == t[k]);
                    }
                }
                if named_in(all@.take(i as int), x) {
                    let k = choose|k: int| 0 <= k < i && #[trigger] all@.take(i as int)[k].node.name@ == x;
                    assert(t[k] == all@.take(i as int)[k]);
                }
                if x == all@[i as int].node.name@ {
                    assert(t[i as int] == all@[i as int]);
                }
            }
        }
        i = i + 1;
    }
    proof {
        assert(all@.take(i as int) =~= all@);
    }
    r
}

/// What is said of a crate name that is not in the analyzed graph: the
/// error, the near names when there are any, and the kind filters that may
/// have left it out.
pub open spec fn not_found_text(asked: Seq<char>, near: Seq<Seq<char>>) -> Seq<char> {
    "error: "@ + asked + " is not in this project's analyzed dependency graph\n"@ + (if near.len() > 0 {
        "  did you mean: "@ + join(near, ", "@) + "\n"@
    } else {
        seq![]
    }) + "  build-script and dev-only dependencies are excluded unless you pass --include-build / --include-dev\n"@
}

/// The report for a crate name that is not in the analyzed graph.
pub fn report_not_found(crate_name: &str, all: &Vec<Finding>) -> (r: String)
    ensures
        exists|near: Seq<Seq<char>>| #[trigger] near_list(crate_name@, all@, near) && r@ == not_found_text(crate_name@, near),
{
    let near = near_names(crate_name, all);
    let mut s = "error: ".to_owned();
    s.append(crate_name);
    s.append(" is not in this project's analyzed dependency graph\n");
    if near.len() > 0 {
        s.append("  did you mean: ");
        push_joined(&mut s, &near, ", ");
        s.append("\n");
    }
    s.append("  build-script and dev-only dependencies are excluded unless you pass --include-build / --include-dev\n");
    proof {
        assert(s@ =~= not_found_text(crate_name@, views(near@)));
        assert(near_list(crate_name@, all@, views(near@)));
    }
    s
}

/// One hop of a path, for the JSON document.
pub struct JsonPathStep {
    pub name: String,
    pub version: String,
    pub kind: &'static str,
}

/// A path's hops, for the JSON document.
pub fn json_path(path: &Vec<PathStep>) -> (r: Vec<JsonPathStep>)
    ensures
        r@.len() == path@.len(),
        forall|i: int|
            0 <= i < path@.len() ==> {
                &&& (#[trigger] r@[i]).name@ == path@[i].name@
                &&& r@[i].version@ == version_text(path@[i].version@)
                &&& r@[i].kind@ == crate::graph::kind_name(path@[i].kind)
            },
{
    let mut r: Vec<JsonPathStep> = Vec::new();
    let mut i: usize = 0;
    while i < path.len()
        invariant
            i <= path@.len(),
            r@.len() == i,
            forall|k: int|
                0 <= k < i ==> {
                    &&& (#[trigger] r@[k]).name@ == path@[k].name@
                    &&& r@[k].version@ == version_text(path@[k].version@)
                    &&& r@[k].kind@ == crate::graph::kind_name(path@[k].kind)
                },
        decreases path@.len() - i,
    {
        r.push(JsonPathStep { name: path[i].name.clone(), version: path[i].version.to_text(), kind: path[i].kind.as_str() });
        i = i + 1;
    }
    r
}

/// One signal of the JSON document: points in tenths, the cap in points.
pub struct JsonSignal {
    pub points_tenths: u32,
    pub max: u32,
    pub detail: String,
}

/// The components of the JSON document; the graph weight in hundredths.
pub struct JsonComponent {
    pub security: JsonSignal,
    pub version_lag: JsonSignal,
    pub maintenance: JsonSignal,
    pub graph_multiplier_hundredths: u32,
    pub transitive_dependent_count: usize,
    pub dependent_count: usize,
}

/// A projection in the JSON document; the score in tenths.
pub struct JsonProjection {
    pub label: &'static str,
    pub version: String,
    pub score_tenths: u32,
    pub level: &'static str,
}

/// One resolved version in the JSON document; the score in tenths.
pub struct JsonResolved {
    pub version: String,
    pub score_tenths: u32,
    pub level: &'static str,
    pub is_direct: bool,
    pub kind: &'static str,
    pub ignored: bool,
    pub components: JsonComponent,
    pub projections: Vec<JsonProjection>,
}

/// `j` is projection `p` as the JSON document gives it.
pub open spec fn json_projection_of(p: Projection, j: JsonProjection) -> bool {
    &&& j.label@ == p.label@
    &&& j.version@ == version_text(p.version@)
    &&& j.score_tenths == tenths(p.total as nat)
    &&& j.level@ == crate::score::level_name(p.level)
}

impl Explanation {
    /// The explanation as the JSON document gives it: scores and points
    /// rounded to tenths, the graph weight to hundredths.
    pub fn to_json(&self) -> (j: JsonResolved)
        ensures
            j.version@ == version_text(self.version@),
            j.score_tenths == tenths(self.total as nat),
            j.level@ == crate::score::level_name(self.level),
            j.is_direct == self.is_direct,
            j.kind@ == crate::graph::kind_name(self.kind),
            j.ignored == self.ignored,
            j.components.security.points_tenths == tenths(self.security as nat),
            j.components.security.max == 50,
            j.components.security.detail@ == self.security_detail@,
            j.components.version_lag.points_tenths == tenths(self.version_lag as nat),
            j.components.version_lag.max == 25,
            j.components.version_lag.detail@ == self.version_lag_detail@,
            j.components.maintenance.points_tenths == tenths(self.maintenance as nat),
            j.components.maintenance.max == 15,
            j.components.maintenance.detail@ == self.maintenance_detail@,
            j.components.graph_multiplier_hundredths == weight_hundredths(self.graph_multiplier as nat),
            j.components.transitive_dependent_count == self.transitive_dependent_count,
            j.components.dependent_count == self.dependent_count,
            j.projections@.len() == self.projections@.len(),
            forall|i: int|
                0 <= i < self.projections@.len() ==> json_projection_of(
                    self.projections@[i],
                    #[trigger] j.projections@[i],
                ),
    {
        let mut projections: Vec<JsonProjection> = Vec::new();
        let mut i: usize = 0;
        while i < self.projections.len()
            invariant
                i <= self.projections@.len(),
                projections@.len() == i,
                forall|k: int|
                    0 <= k < i ==> json_projection_of(self.projections@[k], #[trigger] projections@[k]),
            decreases self.projections@.len() - i,
        {
            let p = &self.projections[i];
            projections.push(
                JsonProjection {
                    label: p.label,
                    version: p.version.to_text(),
                    score_tenths: rounded_tenths(p.total),
                    level: p.level.as_str(),
                },
            );
            i = i + 1;
        }
        JsonResolved {
            version: self.version.to_text(),
            score_tenths: rounded_tenths(self.total),
            level: self.level.as_str(),
            is_direct: self.is_direct,
            kind: self.kind.as_str(),
            ignored: self.ignored,
            components: JsonComponent {
                security: JsonSignal {
                    points_tenths: rounded_tenths(self.security),
                    max: 50,
                    detail: self.security_detail.clone(),
                },
                version_lag: JsonSignal {
                    points_tenths: rounded_tenths(self.version_lag),
                    max: 25,
                    detail: self.version_lag_detail.clone(),
                },
                maintenance: JsonSignal {
                    points_tenths: rounded_tenths(self.maintenance),
                    max: 15,
                    detail: self.maintenance_detail.clone(),
                },
                graph_multiplier_hundredths: ((self.graph_multiplier as u64 + 5000) / 10000) as u32,
                transitive_dependent_count: self.transitive_dependent_count,
                dependent_count: self.dependent_count,
            },
            projections,
        }
    }
}

} // verus!
