use depcheck::baseline::{BaselineState, NewReason};
use depcheck::explain::push_threshold;
use depcheck::graph::{DependencyNode, NodeKind};
use depcheck::markdown::{escape, render, MarkdownReport, COMMENT_MARKER, MAX_TABLE_ROWS};
use depcheck::registry::MetaMap;
use depcheck::report::{Finding, JsonDuplicate, ReportSummary};
use depcheck::score::{RiskLevel, RiskScore};
use depcheck::version::SemVer;

fn summary(critical: usize, warnings: usize) -> ReportSummary {
    ReportSummary {
        total: 345,
        critical,
        warnings,
        notices: 342,
        unknown: 0,
        not_applicable: 0,
        ignored: 0,
        healthy: 0,
        degraded: false,
    }
}

fn finding(name: &str, level: RiskLevel, total: u32, is_direct: bool) -> Finding {
    Finding {
        node: DependencyNode {
            name: name.to_string(),
            version: SemVer::new(0, 11, 1),
            is_direct,
            depth: 2,
            dependent_count: 3,
            transitive_dependent_count: 25,
            is_registry: true,
            kind: NodeKind::Normal,
        },
        risk: RiskScore {
            security: 0,
            version_lag: 25_000,
            maintenance: 7_000,
            graph_multiplier: 1_450_000,
            total,
            level,
        },
        advisories: Vec::new(),
        baseline_state: BaselineState::NotCompared,
    }
}

fn report<'a>(
    findings: &'a Vec<Finding>,
    meta_map: &'a MetaMap,
    summary: &'a ReportSummary,
    duplicates: &'a Vec<JsonDuplicate>,
) -> MarkdownReport<'a> {
    MarkdownReport {
        findings,
        meta_map,
        now: 1_788_134_400,
        summary,
        threshold: 40_000,
        duplicates,
        project: Some("my-crate"),
        baseline: None,
        tool_version: "0.3.1",
    }
}

#[test]
fn output_starts_with_the_sticky_comment_marker() {
    let findings = vec![finding("wasi", RiskLevel::Warn, 46_400, false)];
    let meta = MetaMap::new();
    let counts = summary(0, 1);
    let dups = Vec::new();
    let text = render(&report(&findings, &meta, &counts, &dups));
    assert!(text.starts_with(COMMENT_MARKER), "{text}");
    assert!(text.contains("### cargo-depcheck — 1 warning\n"), "{text}");
    assert!(text.contains("**my-crate** · 345 dependencies checked · threshold 40\n"), "{text}");
}

#[test]
fn contains_no_ansi_escapes_even_when_color_is_forced() {
    colored::control::set_override(true);
    let findings = vec![finding("wasi", RiskLevel::Critical, 91_200, true)];
    let meta = MetaMap::new();
    let counts = summary(1, 0);
    let dups = Vec::new();
    let text = render(&report(&findings, &meta, &counts, &dups));
    colored::control::unset_override();
    assert!(!text.contains('\u{1b}'), "ANSI escape leaked: {text:?}");
    assert!(text.contains("| **CRITICAL** | **`wasi 0.11.1`** | 91.2 |"), "{text}");
}

#[test]
fn a_pipe_in_reason_text_cannot_break_the_table_row() {
    let findings = vec![finding("pipe|crate", RiskLevel::Warn, 44_000, false)];
    let meta = MetaMap::new();
    let counts = summary(0, 1);
    let dups = Vec::new();
    let text = render(&report(&findings, &meta, &counts, &dups));
    let row = text.lines().find(|l| l.contains("pipe")).expect("the finding row must be present");
    let bytes = row.as_bytes();
    let unescaped = row.char_indices().filter(|(index, ch)| *ch == '|' && (*index == 0 || bytes[index - 1] != b'\\')).count();
    assert_eq!(unescaped, 5, "unescaped pipe in row: {row}");
    assert!(row.contains("pipe\\|crate"), "the name must be escaped: {row}");
}

#[test]
fn a_clean_report_says_so_instead_of_rendering_an_empty_table() {
    let meta = MetaMap::new();
    let counts = summary(0, 0);
    let findings = Vec::new();
    let dups = Vec::new();
    let text = render(&report(&findings, &meta, &counts, &dups));
    assert!(text.contains("nothing above the warning level"));
    assert!(text.contains("No dependencies scored at or above the threshold."));
    assert!(!text.contains("| Level |"), "no table header: {text}");
}

#[test]
fn the_baseline_column_appears_only_when_comparing() {
    let findings = vec![finding("wasi", RiskLevel::Warn, 46_400, false)];
    let meta = MetaMap::new();
    let counts = summary(0, 1);
    let dups = Vec::new();
    let without = render(&report(&findings, &meta, &counts, &dups));
    assert!(!without.contains("Baseline"));
    let mut with_baseline = report(&findings, &meta, &counts, &dups);
    with_baseline.baseline = Some("baseline b.json: 1 new · 0 known (0 entries)".into());
    let text = render(&with_baseline);
    assert!(text.contains("| Level | Crate | Score | Baseline | Why |"), "{text}");
    assert!(text.contains("> baseline b.json: 1 new · 0 known (0 entries)\n"), "{text}");
}

#[test]
fn a_new_finding_is_marked_with_its_reason() {
    let mut findings = vec![finding("wasi", RiskLevel::Warn, 46_400, false)];
    findings[0].baseline_state = BaselineState::New(NewReason::NewAdvisory);
    let meta = MetaMap::new();
    let counts = summary(0, 1);
    let dups = Vec::new();
    let mut ctx = report(&findings, &meta, &counts, &dups);
    ctx.baseline = Some("baseline b.json: 1 new · 0 known (1 entries)".into());
    let text = render(&ctx);
    assert!(text.contains("**new** (new advisory since the baseline)"), "{text}");
}

#[test]
fn a_long_report_is_capped_with_a_count_of_what_is_hidden() {
    let findings: Vec<Finding> =
        (0..MAX_TABLE_ROWS + 7).map(|i| finding(&format!("crate-{i}"), RiskLevel::Warn, 44_000, false)).collect();
    let meta = MetaMap::new();
    let counts = summary(0, findings.len());
    let dups = Vec::new();
    let text = render(&report(&findings, &meta, &counts, &dups));
    assert_eq!(text.matches("| WARN |").count(), MAX_TABLE_ROWS);
    assert!(text.contains("7 more findings not shown"), "{text}");
}

#[test]
fn a_whole_number_threshold_renders_without_a_decimal() {
    let mut a = String::new();
    push_threshold(&mut a, 40_000);
    assert_eq!(a, "40");
    let mut b = String::new();
    push_threshold(&mut b, 37_500);
    assert_eq!(b, "37.5");
}

#[test]
fn escape_neutralizes_pipes_and_line_breaks() {
    assert_eq!(escape("a|b\r\nc"), "a\\|b  c");
}

#[test]
fn the_duplicates_note_names_five_and_counts_the_rest() {
    let dups: Vec<JsonDuplicate> = (0..7)
        .map(|i| JsonDuplicate { name: format!("c{i}"), versions: vec!["1.0.0".into(), "2.0.0".into()] })
        .collect();
    let findings = Vec::new();
    let meta = MetaMap::new();
    let counts = summary(0, 0);
    let text = render(&report(&findings, &meta, &counts, &dups));
    assert!(
        text.contains("_7 crates resolve at multiple versions: `c0` (1.0.0, 2.0.0), `c1` (1.0.0, 2.0.0), `c2` (1.0.0, 2.0.0), `c3` (1.0.0, 2.0.0), `c4` (1.0.0, 2.0.0) (+ 2 more)_"),
        "{text}"
    );
}
