//! GitHub-flavored Markdown output, for PR comments and job summaries. It is
//! plain text by construction: no styling, so the output is the same with
//! or without a terminal.

use vstd::prelude::*;
use crate::baseline::{describe_text, BaselineState};
use crate::explain::{push_threshold, threshold_text};
use crate::policy::plural;
use crate::registry::{lookup, MetaMap};
use crate::report::{reason_lines, reasons_text, Finding, JsonDuplicate, ReportSummary};
use crate::score::{rounded_tenths, tenths, RiskLevel};
use crate::text::{decimal, fixed1, join, push_char, push_decimal, push_fixed1, push_joined, views};
use crate::version::version_text;

verus! {

/// The first line of the output, so automation can find an earlier comment
/// and update it in place.
pub const COMMENT_MARKER: &'static str = "<!-- cargo-depcheck -->";

/// Rows past this are summarized as a count.
pub const MAX_TABLE_ROWS: usize = 50;

/// Duplicated crates named in the note; the rest are counted.
pub const SHOWN_DUPLICATES: usize = 5;

/// What the Markdown report is made from. The threshold is in millipoints.
pub struct MarkdownReport<'a> {
    pub findings: &'a Vec<Finding>,
    pub meta_map: &'a MetaMap,
    pub now: i64,
    pub summary: &'a ReportSummary,
    pub threshold: u32,
    pub duplicates: &'a Vec<JsonDuplicate>,
    pub project: Option<&'a str>,
    /// The baseline comparison line, when a baseline was given.
    pub baseline: Option<String>,
    pub tool_version: &'a str,
}

/// How one character reads in a table cell: a pipe escaped, a line break
/// as a space.
pub open spec fn escape_char(c: char) -> Seq<char> {
    if c == '|' {
        seq!['\\', '|']
    } else if c == '\r' || c == '\n' {
        seq![' ']
    } else {
        seq![c]
    }
}

/// `t` made safe for a table cell.
pub open spec fn escaped(t: Seq<char>) -> Seq<char>
    decreases t.len(),
{
    if t.len() == 0 {
        seq![]
    } else {
        escaped(t.drop_last()) + escape_char(t.last())
    }
}

/// Neutralizes the two characters that can break out of a table cell: a
/// pipe ends the cell, a line break ends the row.
pub fn escape(text: &str) -> (r: String)
    ensures
        r@ == escaped(text@),
{
    let n = text.unicode_len();
    let mut out = String::new();
    let mut i: usize = 0;
    while i < n
        invariant
            n == text@.len(),
            i <= n,
            out@ == escaped(text@.take(i as int)),
        decreases n - i,
    {
        let c = text.get_char(i);
        proof {
            assert(text@.take(i + 1).drop_last() =~= text@.take(i as int));
            assert(text@.take(i + 1).last() == c);
        }
        if c == '|' {
            push_char(&mut out, '\\');
            push_char(&mut out, '|');
        } else if c == '\r' || c == '\n' {
            push_char(&mut out, ' ');
        } else {
            push_char(&mut out, c);
        }
        assert(out@ =~= escaped(text@.take(i + 1)));
        i = i + 1;
    }
    assert(text@.take(n as int) =~= text@);
    out
}

/// The headline: the critical and warning counts, or that there are none.
pub open spec fn headline_text(s: ReportSummary) -> Seq<char> {
    if s.critical == 0 && s.warnings == 0 {
        "nothing above the warning level"@
    } else {
        join(
            (if s.critical > 0 {
                seq![decimal(s.critical as nat) + " critical"@]
            } else {
                seq![]
            }) + (if s.warnings > 0 {
                seq![decimal(s.warnings as nat) + " "@ + (if s.warnings == 1 { "warning"@ } else { "warnings"@ })]
            } else {
                seq![]
            }),
            ", "@,
        )
    }
}

pub fn headline(summary: &ReportSummary) -> (r: String)
    ensures
        r@ == headline_text(*summary),
{
    if summary.critical == 0 && summary.warnings == 0 {
        return "nothing above the warning level".to_owned();
    }
    let mut parts: Vec<String> = Vec::new();
    if summary.critical > 0 {
        let mut p = String::new();
        push_decimal(&mut p, summary.critical as u64);
        p.append(" critical");
        parts.push(p);
    }
    if summary.warnings > 0 {
        let mut p = String::new();
        push_decimal(&mut p, summary.warnings as u64);
        p.append(" ");
        p.append(plural(summary.warnings, "warning", "warnings"));
        parts.push(p);
    }
    let mut out = String::new();
    push_joined(&mut out, &parts, ", ");
    proof {
        let expected = (if summary.critical > 0 {
            seq![decimal(summary.critical as nat) + " critical"@]
        } else {
            seq![]
        }) + (if summary.warnings > 0 {
            seq![decimal(summary.warnings as nat) + " "@ + (if summary.warnings == 1 { "warning"@ } else { "warnings"@ })]
        } else {
            seq![]
        });
        assert(views(parts@) =~= expected);
    }
    out
}

/// Severity as a plain-text label.
pub open spec fn level_label_text(level: RiskLevel) -> Seq<char> {
    match level {
        RiskLevel::Critical => "**CRITICAL**"@,
        RiskLevel::Warn => "WARN"@,
        RiskLevel::Low => "notice"@,
    }
}

pub fn level_label(level: RiskLevel) -> (r: &'static str)
    ensures
        r@ == level_label_text(level),
{
    match level {
        RiskLevel::Critical => "**CRITICAL**",
        RiskLevel::Warn => "WARN",
        RiskLevel::Low => "notice",
    }
}

/// The counts table, folded in a `<details>` block.
pub open spec fn counts_text(s: ReportSummary) -> Seq<char> {
    "<details>\n<summary>Summary counts</summary>\n\n| critical | warnings | notices | unknown | not applicable | ignored | healthy |\n|---|---|---|---|---|---|---|\n| "@
        + decimal(s.critical as nat) + " | "@ + decimal(s.warnings as nat) + " | "@ + decimal(s.notices as nat)
        + " | "@ + decimal(s.unknown as nat) + " | "@ + decimal(s.not_applicable as nat) + " | "@ + decimal(
        s.ignored as nat,
    ) + " | "@ + decimal(s.healthy as nat) + " |\n\n</details>\n"@
}

pub fn write_counts(out: &mut String, summary: &ReportSummary)
    ensures
        final(out)@ == old(out)@ + counts_text(*summary),
{
    let ghost start = out@;
    out.append(
        "<details>\n<summary>Summary counts</summary>\n\n| critical | warnings | notices | unknown | not applicable | ignored | healthy |\n|---|---|---|---|---|---|---|\n| ",
    );
    push_decimal(out, summary.critical as u64);
    out.append(" | ");
    push_decimal(out, summary.warnings as u64);
    out.append(" | ");
    push_decimal(out, summary.notices as u64);
    out.append(" | ");
    push_decimal(out, summary.unknown as u64);
    out.append(" | ");
    push_decimal(out, summary.not_applicable as u64);
    out.append(" | ");
    push_decimal(out, summary.ignored as u64);
    out.append(" | ");
    push_decimal(out, summary.healthy as u64);
    out.append(" |\n\n</details>\n");
    assert(out@ =~= start + counts_text(*summary));
}

/// One duplicated crate in the note: its name in code and its versions.
pub open spec fn dup_item(d: JsonDuplicate) -> Seq<char> {
    "`"@ + d.name@ + "` ("@ + join(views(d.versions@), ", "@) + ")"@
}

pub open spec fn dup_items(ds: Seq<JsonDuplicate>) -> Seq<Seq<char>> {
    ds.map_values(|d: JsonDuplicate| dup_item(d))
}

/// The note on crates resolved at more than one version: the first few by
/// name and how many more there are; none when there are no such crates.
pub open spec fn duplicates_note_text(ds: Seq<JsonDuplicate>) -> Option<Seq<char>> {
    if ds.len() == 0 {
        None
    } else {
        let shown = if ds.len() > 5 { ds.take(5) } else { ds };
        Some(
            "_"@ + decimal(ds.len()) + " "@ + (if ds.len() == 1 { "crate"@ } else { "crates"@ })
                + " resolve at multiple versions: "@ + join(dup_items(shown), ", "@) + (if ds.len() > 5 {
                " (+ "@ + decimal((ds.len() - 5) as nat) + " more)"@
            } else {
                seq![]
            }) + "_"@,
        )
    }
}

pub fn duplicates_note(duplicates: &Vec<JsonDuplicate>) -> (r: Option<String>)
    ensures
        r matches Some(t) ==> duplicates_note_text(duplicates@) == Some(t@),
        r is None ==> duplicates_note_text(duplicates@) is None,
{
    let n = duplicates.len();
    if n == 0 {
        return None;
    }
    let shown_count = if n > SHOWN_DUPLICATES { SHOWN_DUPLICATES } else { n };
    let ghost shown = if n > 5 { duplicates@.take(5) } else { duplicates@ };
    let mut items: Vec<String> = Vec::new();
    let mut i: usize = 0;
    while i < shown_count
        invariant
            shown_count <= duplicates@.len(),
            shown == duplicates@.take(shown_count as int),
            i <= shown_count,
            views(items@) == dup_items(duplicates@.take(i as int)),
        decreases shown_count - i,
    {
        let d = &duplicates[i];
        let mut item = "`".to_owned();
        item.append(d.name.as_str());
        item.append("` (");
        push_joined(&mut item, &d.versions, ", ");
        item.append(")");
        let ghost before = views(items@);
        items.push(item);
        proof {
            assert(views(items@) =~= before.push(dup_item(duplicates@[i as int])));
            assert(dup_items(duplicates@.take(i + 1)) =~= dup_items(duplicates@.take(i as int)).push(
                dup_item(duplicates@[i as int]),
            ));
        }
        i = i + 1;
    }
    proof {
        if n <= 5 {
            assert(duplicates@.take(n as int) =~= duplicates@);
        }
    }
    let mut s = "_".to_owned();
    push_decimal(&mut s, n as u64);
    s.append(" ");
    s.append(plural(n, "crate", "crates"));
    s.append(" resolve at multiple versions: ");
    push_joined(&mut s, &items, ", ");
    if n > SHOWN_DUPLICATES {
        s.append(" (+ ");
        push_decimal(&mut s, (n - SHOWN_DUPLICATES) as u64);
        s.append(" more)");
    }
    s.append("_");
    proof {
        let expected = duplicates_note_text(duplicates@);
        assert(expected == Some(s@));
    }
    Some(s)
}

/// A finding's crate cell: name and version in code, bold for a direct
/// dependency.
pub open spec fn name_cell(f: Finding) -> Seq<char> {
    let label = escaped(f.node.name@ + " "@ + version_text(f.node.version@));
    if f.node.is_direct {
        "**`"@ + label + "`**"@
    } else {
        "`"@ + label + "`"@
    }
}

/// A finding's baseline cell.
pub open spec fn state_cell(st: BaselineState) -> Seq<char> {
    match st {
        BaselineState::New(reason) => "**new** ("@ + describe_text(reason) + ")"@,
        BaselineState::Known => "known"@,
        BaselineState::NotCompared => ""@,
    }
}

/// A finding's reasons, `; `-separated.
#[verifier::opaque]
pub open spec fn reasons_joined(f: Finding, meta_map: MetaMap, now: int) -> Seq<char> {
    join(reasons_text(f.node, f.risk, f.advisories@, lookup(meta_map.entries@, f.node.name@), now), "; "@)
}

/// A finding's table row; with a baseline, its baseline cell before the
/// reasons.
#[verifier::opaque]
pub open spec fn table_row(f: Finding, meta_map: MetaMap, now: int, comparing: bool) -> Seq<char> {
    "| "@ + level_label_text(f.risk.level) + " | "@ + name_cell(f) + " | "@ + fixed1(tenths(f.risk.total as nat))
        + " | "@ + (if comparing {
        state_cell(f.baseline_state) + " | "@
    } else {
        seq![]
    }) + escaped(reasons_joined(f, meta_map, now)) + " |\n"@
}

pub open spec fn table_rows(fs: Seq<Finding>, meta_map: MetaMap, now: int, comparing: bool) -> Seq<char>
    decreases fs.len(),
{
    if fs.len() == 0 {
        seq![]
    } else {
        table_rows(fs.drop_last(), meta_map, now, comparing) + table_row(fs.last(), meta_map, now, comparing)
    }
}

pub open spec fn table_header(comparing: bool) -> Seq<char> {
    if comparing {
        "| Level | Crate | Score | Baseline | Why |\n|---|---|---:|---|---|\n"@
    } else {
        "| Level | Crate | Score | Why |\n|---|---|---:|---|\n"@
    }
}

/// The findings table: the header, a row for each of the first
/// `MAX_TABLE_ROWS` findings, and a count of the rest.
pub open spec fn table_text(fs: Seq<Finding>, meta_map: MetaMap, now: int, comparing: bool) -> Seq<char> {
    let shown = if fs.len() > 50 { fs.take(50) } else { fs };
    let hidden = fs.len() - 50;
    table_header(comparing) + table_rows(shown, meta_map, now, comparing) + (if hidden > 0 {
        "\n_"@ + decimal(hidden as nat) + " more "@ + (if hidden == 1 { "finding"@ } else { "findings"@ })
            + " not shown. Raise `--threshold` or use `--top` to choose what appears._\n"@
    } else {
        seq![]
    }) + "\n"@
}

/// A finding's reasons, `; `-separated.
pub fn reasons(finding: &Finding, report: &MarkdownReport) -> (r: String)
    requires
        finding.advisories@.len() < usize::MAX,
    ensures
        r@ == reasons_joined(*finding, *report.meta_map, report.now as int),
{
    let lines = reason_lines(&finding.node, &finding.risk, &finding.advisories, report.meta_map, report.now);
    let mut out = String::new();
    push_joined(&mut out, &lines, "; ");
    proof {
        reveal(reasons_joined);
    }
    out
}

fn name_cell_of(f: &Finding) -> (r: String)
    ensures
        r@ == name_cell(*f),
{
    let mut label = f.node.name.clone();
    label.append(" ");
    f.node.version.push_text(&mut label);
    let label = escape(label.as_str());
    let mut out = String::new();
    if f.node.is_direct {
        out.append("**`");
        out.append(label.as_str());
        out.append("`**");
    } else {
        out.append("`");
        out.append(label.as_str());
        out.append("`");
    }
    assert(out@ =~= name_cell(*f));
    out
}

fn state_cell_of(st: BaselineState) -> (r: String)
    ensures
        r@ == state_cell(st),
{
    match st {
        BaselineState::New(reason) => {
            let mut out = "**new** (".to_owned();
            out.append(reason.describe());
            out.append(")");
            out
        },
        BaselineState::Known => "known".to_owned(),
        BaselineState::NotCompared => {
            proof {
                reveal_strlit("");
            }
            String::new()
        },
    }
}

fn write_row(out: &mut String, finding: &Finding, report: &MarkdownReport, comparing: bool)
    requires
        finding.advisories@.len() < usize::MAX,
    ensures
        final(out)@ == old(out)@ + table_row(*finding, *report.meta_map, report.now as int, comparing),
{
    let ghost start = out@;
    let level = level_label(finding.risk.level);
    let name = name_cell_of(finding);
    let mut score = String::new();
    push_fixed1(&mut score, rounded_tenths(finding.risk.total) as u64);
    let mut state = String::new();
    if comparing {
        state = state_cell_of(finding.baseline_state);
        state.append(" | ");
    }
    let why = escape(reasons(finding, report).as_str());
    out.append("| ");
    out.append(level);
    out.append(" | ");
    out.append(name.as_str());
    out.append(" | ");
    out.append(score.as_str());
    out.append(" | ");
    out.append(state.as_str());
    out.append(why.as_str());
    out.append(" |\n");
    proof {
        reveal(table_row);
        reveal_strlit("");
        assert(state@ =~= (if comparing {
            state_cell(finding.baseline_state) + " | "@
        } else {
            seq![]
        }));
        assert(out@ =~= start + table_row(*finding, *report.meta_map, report.now as int, comparing));
    }
}

/// Appends the findings table.
pub fn write_table(out: &mut String, report: &MarkdownReport)
    requires
        forall|i: int| 0 <= i < report.findings@.len() ==> (#[trigger] report.findings@[i]).advisories@.len() < usize::MAX,
    ensures
        final(out)@ == old(out)@ + table_text(
            report.findings@,
            *report.meta_map,
            report.now as int,
            report.baseline is Some,
        ),
{
    let ghost start = out@;
    let comparing = report.baseline.is_some();
    if comparing {
        out.append("| Level | Crate | Score | Baseline | Why |\n|---|---|---:|---|---|\n");
    } else {
        out.append("| Level | Crate | Score | Why |\n|---|---|---:|---|\n");
    }
    let ghost head = out@;
    let n = report.findings.len();
    let shown = if n > MAX_TABLE_ROWS { MAX_TABLE_ROWS } else { n };
    let ghost fs = report.findings@;
    let ghost mm = *report.meta_map;
    let mut i: usize = 0;
    proof {
        assert(fs.take(0) =~= Seq::<Finding>::empty());
        assert(head =~= head + table_rows(fs.take(0), mm, report.now as int, comparing));
    }
    while i < shown
        invariant
            fs == report.findings@,
            mm == *report.meta_map,
            shown <= fs.len(),
            i <= shown,
            forall|k: int| 0 <= k < fs.len() ==> (#[trigger] fs[k]).advisories@.len() < usize::MAX,
            out@ == head + table_rows(fs.take(i as int), mm, report.now as int, comparing),
        decreases shown - i,
    {
        write_row(out, &report.findings[i], report, comparing);
        proof {
            assert(fs.take(i + 1).drop_last() =~= fs.take(i as int));
            assert(fs.take(i + 1).last() == fs[i as int]);
            assert(out@ =~= head + table_rows(fs.take(i + 1), mm, report.now as int, comparing));
        }
        i = i + 1;
    }
    let ghost rows = out@;
    if n > MAX_TABLE_ROWS {
        let hidden = n - MAX_TABLE_ROWS;
        out.append("\n_");
        push_decimal(out, hidden as u64);
        out.append(" more ");
        out.append(plural(hidden, "finding", "findings"));
        out.append(" not shown. Raise `--threshold` or use `--top` to choose what appears._\n");
    }
    out.append("\n");
    proof {
        if n <= 50 {
            assert(fs.take(n as int) =~= fs);
        }
        assert(out@ =~= start + table_text(fs, mm, report.now as int, comparing));
    }
}

/// The Markdown report's facts line: the project, how many crates were
/// checked, the threshold, and an incomplete run.
pub open spec fn report_facts(r: MarkdownReport) -> Seq<Seq<char>> {
    (match r.project {
        Some(p) => seq!["**"@ + escaped(p@) + "**"@],
        None => seq![],
    }) + seq![
        decimal(r.summary.total as nat) + " "@ + (if r.summary.total == 1 {
            "dependency"@
        } else {
            "dependencies"@
        }) + " checked"@,
        "threshold "@ + threshold_text(r.threshold as nat),
    ] + (if r.summary.degraded {
        seq!["**INCOMPLETE — some crates could not be checked**"@]
    } else {
        seq![]
    })
}

/// The whole Markdown report.
pub open spec fn markdown_text(r: MarkdownReport) -> Seq<char> {
    COMMENT_MARKER@ + "\n"@ + "### cargo-depcheck — "@ + headline_text(*r.summary) + "\n\n"@ + join(
        report_facts(r),
        " · "@,
    ) + "\n\n"@ + (match r.baseline {
        Some(line) => "> "@ + escaped(line@) + "\n\n"@,
        None => seq![],
    }) + (if r.findings@.len() == 0 {
        "No dependencies scored at or above the threshold.\n\n"@
    } else {
        table_text(r.findings@, *r.meta_map, r.now as int, r.baseline is Some)
    }) + counts_text(*r.summary) + (match duplicates_note_text(r.duplicates@) {
        Some(line) => "\n"@ + line + "\n"@,
        None => seq![],
    }) + "\n<sub>cargo-depcheck v"@ + r.tool_version@
        + " · ranked by graph impact, not severity alone · reproduce locally with `cargo depcheck`</sub>\n"@
}

fn report_fact_list(report: &MarkdownReport) -> (v: Vec<String>)
    ensures
        views(v@) == report_facts(*report),
{
    let mut v: Vec<String> = Vec::new();
    match report.project {
        Some(p) => {
            let mut s = "**".to_owned();
            s.append(escape(p).as_str());
            s.append("**");
            v.push(s);
        },
        None => {},
    }
    let ghost a = views(v@);
    let mut checked = String::new();
    push_decimal(&mut checked, report.summary.total as u64);
    checked.append(" ");
    checked.append(plural(report.summary.total, "dependency", "dependencies"));
    checked.append(" checked");
    v.push(checked);
    let mut threshold = "threshold ".to_owned();
    push_threshold(&mut threshold, report.threshold);
    v.push(threshold);
    if report.summary.degraded {
        v.push("**INCOMPLETE — some crates could not be checked**".to_owned());
    }
    proof {
        assert(views(v@) =~= report_facts(*report));
    }
    v
}

/// The Markdown report: the marker, the headline, the facts, the baseline
/// line, the findings table (or that there are none), the counts, the
/// duplicates note and the footer.
pub fn render(report: &MarkdownReport) -> (r: String)
    requires
        forall|i: int| 0 <= i < report.findings@.len() ==> (#[trigger] report.findings@[i]).advisories@.len() < usize::MAX,
    ensures
        r@ == markdown_text(*report),
{
    let mut out = COMMENT_MARKER.to_owned();
    out.append("\n");
    out.append("### cargo-depcheck — ");
    out.append(headline(report.summary).as_str());
    out.append("\n\n");
    let facts = report_fact_list(report);
    push_joined(&mut out, &facts, " · ");
    out.append("\n\n");
    let ghost head = out@;
    let mut quoted_line = String::new();
    match &report.baseline {
        Some(line) => {
            quoted_line.append("> ");
            quoted_line.append(escape(line.as_str()).as_str());
            quoted_line.append("\n\n");
        },
        None => {
            proof {
                reveal_strlit("");
            }
        },
    }
    out.append(quoted_line.as_str());
    let mut body = String::new();
    if report.findings.len() == 0 {
        body.append("No dependencies scored at or above the threshold.\n\n");
    } else {
        write_table(&mut body, report);
    }
    out.append(body.as_str());
    write_counts(&mut out, report.summary);
    let mut note = String::new();
    match duplicates_note(report.duplicates) {
        Some(line) => {
            note.append("\n");
            note.append(line.as_str());
            note.append("\n");
        },
        None => {},
    }
    out.append(note.as_str());
    out.append("\n<sub>cargo-depcheck v");
    out.append(report.tool_version);
    out.append(" · ranked by graph impact, not severity alone · reproduce locally with `cargo depcheck`</sub>\n");
    proof {
        assert(quoted_line@ =~= (match report.baseline {
            Some(line) => "> "@ + escaped(line@) + "\n\n"@,
            None => seq![],
        }));
        assert(body@ =~= (if report.findings@.len() == 0 {
            "No dependencies scored at or above the threshold.\n\n"@
        } else {
            table_text(report.findings@, *report.meta_map, report.now as int, report.baseline is Some)
        }));
        assert(note@ =~= (match duplicates_note_text(report.duplicates@) {
            Some(line) => "\n"@ + line + "\n"@,
            None => seq![],
        }));
        assert(out@ =~= markdown_text(*report));
    }
    out
}

/// Law: escaped text cannot end a table cell or row: it holds no line
/// break, and each pipe in it follows a backslash.
pub proof fn lemma_escaped_stays_in_cell(t: Seq<char>)
    ensures
        forall|i: int| 0 <= i < escaped(t).len() ==> #[trigger] escaped(t)[i] != '\n' && escaped(t)[i] != '\r',
        forall|i: int| 0 <= i < escaped(t).len() && #[trigger] escaped(t)[i] == '|' ==> i > 0 && escaped(t)[i - 1] == '\\',
    decreases t.len(),
{
    if t.len() > 0 {
        lemma_escaped_stays_in_cell(t.drop_last());
        let p = escaped(t.drop_last());
        let e = escape_char(t.last());
        assert(escaped(t) == p + e);
        assert forall|i: int| 0 <= i < escaped(t).len() && #[trigger] escaped(t)[i] == '|' implies i > 0 && escaped(t)[i - 1]
            == '\\' by {
            if i >= p.len() {
                assert(e[i - p.len()] == '|');
                assert(t.last() == '|');
                assert(i == p.len() + 1);
            } else {
                assert(p[i] == '|');
            }
        }
    }
}

} // verus!
