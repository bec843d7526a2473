use depcheck::baseline::BaselineState;
use depcheck::graph::{DependencyNode, NodeKind};
use depcheck::registry::{MetaMap, Metadata};
use depcheck::report::{
    boxed_line, build_header, duplicate_groups, ellipsize, maintenance_line, render_to_string, score_bar, severity_marker,
    summarize, to_json, version_lag_line, wrap_checked, wrap_to_width, write_finding, Finding, JsonExtras, JsonProject,
    ReportSummary, NAME_FIELD_WIDTH,
};
use depcheck::score::{RiskLevel, RiskScore};
use depcheck::version::SemVer;
use unicode_width::UnicodeWidthStr;

const DAY: i64 = 86_400;

fn strip_ansi(s: &str) -> String {
    let mut out = String::new();
    let mut chars = s.chars();
    while let Some(c) = chars.next() {
        if c == '\u{1b}' {
            for c2 in chars.by_ref() {
                if c2 == 'm' {
                    break;
                }
            }
        } else {
            out.push(c);
        }
    }
    out
}

fn test_finding(name: &str, is_direct: bool, level: RiskLevel, total_milli: u32) -> Finding {
    Finding {
        node: DependencyNode {
            name: name.to_string(),
            version: SemVer::new(1, 0, 0),
            is_direct,
            depth: 1,
            dependent_count: 0,
            transitive_dependent_count: 0,
            is_registry: true,
            kind: NodeKind::Normal,
        },
        risk: RiskScore {
            security: 0,
            version_lag: 0,
            maintenance: 0,
            graph_multiplier: 1_000_000,
            total: total_milli,
            level,
        },
        advisories: Vec::new(),
        baseline_state: BaselineState::NotCompared,
    }
}

fn meta(version: SemVer, updated_at: i64) -> Metadata {
    Metadata {
        newest_version: version.duplicate(),
        max_stable_version: Some(version.duplicate()),
        stable_versions: vec![version],
        updated_at,
        yanked_versions: Vec::new(),
    }
}

fn node(name: &str, version: SemVer, is_direct: bool, depth: usize, dependents: usize, transitive: usize) -> DependencyNode {
    DependencyNode {
        name: name.to_string(),
        version,
        is_direct,
        depth,
        dependent_count: dependents,
        transitive_dependent_count: transitive,
        is_registry: true,
        kind: NodeKind::Normal,
    }
}

fn risk(lag: u32, maintenance: u32, weight: u32, total: u32, level: RiskLevel) -> RiskScore {
    RiskScore { security: 0, version_lag: lag, maintenance, graph_multiplier: weight, total, level }
}

/// CRITICAL, WARN and NOTICE findings, a direct and a transitive
/// dependency, with version-lag and maintenance reasons, at a fixed time.
fn sample_report() -> (Vec<Finding>, MetaMap, i64, ReportSummary) {
    let now = 1_767_225_600; // 2026-01-01T00:00:00Z
    let mut meta_map = MetaMap::new();
    meta_map.insert("openssl".to_string(), meta(SemVer::new(3, 0, 0), now - 730 * DAY));
    meta_map.insert("tokio".to_string(), meta(SemVer::new(1, 40, 0), now - 10 * DAY));
    meta_map.insert("libc".to_string(), meta(SemVer::new(0, 2, 189), now - 20 * DAY));
    let findings = vec![
        Finding {
            node: node("openssl", SemVer::new(0, 10, 45), true, 1, 23, 31),
            risk: risk(25_000, 15_000, 1_800_000, 94_000, RiskLevel::Critical),
            advisories: Vec::new(),
            baseline_state: BaselineState::NotCompared,
        },
        Finding {
            node: node("tokio", SemVer::new(1, 30, 0), false, 2, 3, 5),
            risk: risk(10_000, 2_000, 1_100_000, 55_000, RiskLevel::Warn),
            advisories: Vec::new(),
            baseline_state: BaselineState::NotCompared,
        },
        Finding {
            node: node("libc", SemVer::new(0, 2, 180), true, 1, 1, 1),
            risk: risk(2_500, 400, 1_000_000, 15_000, RiskLevel::Low),
            advisories: Vec::new(),
            baseline_state: BaselineState::NotCompared,
        },
    ];
    let summary = ReportSummary {
        total: 346,
        critical: 1,
        warnings: 1,
        notices: 1,
        unknown: 0,
        not_applicable: 0,
        ignored: 0,
        healthy: 343,
        degraded: false,
    };
    (findings, meta_map, now, summary)
}

#[test]
fn score_bar_full_and_empty() {
    assert_eq!(score_bar(100_000, 10), "██████████");
    assert_eq!(score_bar(0, 10), "░░░░░░░░░░");
    assert_eq!(score_bar(50_000, 10), "█████░░░░░");
}

#[test]
fn summarize_uses_exclusive_schema_v3_buckets() {
    let notice = test_finding("notice", false, RiskLevel::Low, 12_000);
    let healthy = test_finding("healthy", false, RiskLevel::Low, 0);
    let unknown = test_finding("unknown", false, RiskLevel::Low, 0);
    let mut not_applicable = test_finding("path-dep", false, RiskLevel::Low, 0);
    not_applicable.node.is_registry = false;
    let findings = vec![
        test_finding("critical", false, RiskLevel::Critical, 80_000),
        test_finding("warning", false, RiskLevel::Warn, 40_000),
        notice,
        healthy,
        unknown,
        not_applicable,
    ];
    let mut meta_map = MetaMap::new();
    for name in ["notice", "healthy"] {
        meta_map.insert(name.to_string(), meta(SemVer::new(1, 0, 0), 1_767_225_600));
    }
    let summary = summarize(&findings, &meta_map, 2, true);
    assert_eq!(summary.total, 8);
    assert_eq!(summary.critical, 1);
    assert_eq!(summary.warnings, 1);
    assert_eq!(summary.notices, 1);
    assert_eq!(summary.healthy, 1);
    assert_eq!(summary.unknown, 1);
    assert_eq!(summary.not_applicable, 1);
    assert_eq!(summary.ignored, 2);
    assert!(summary.degraded);
    assert_eq!(
        summary.critical
            + summary.warnings
            + summary.notices
            + summary.healthy
            + summary.unknown
            + summary.not_applicable
            + summary.ignored,
        summary.total
    );
}

#[test]
fn a_score_that_rounds_to_zero_is_healthy_not_a_notice() {
    // 15/730 of a point (one day since the last publish) shows as 0.0.
    let almost_zero = test_finding("almost-zero", false, RiskLevel::Low, 20);
    let mut meta_map = MetaMap::new();
    meta_map.insert("almost-zero".to_string(), meta(SemVer::new(1, 0, 0), 1_767_225_600));
    let summary = summarize(&vec![almost_zero], &meta_map, 0, false);
    assert_eq!(summary.healthy, 1, "a score that displays as 0.0 must count as healthy");
    assert_eq!(summary.notices, 0);
}

#[test]
fn duplicate_groups_require_distinct_versions() {
    let same_version = vec![
        test_finding("same-name", false, RiskLevel::Low, 0),
        test_finding("same-name", false, RiskLevel::Low, 0),
    ];
    assert!(duplicate_groups(&same_version).is_empty());

    let mut other = test_finding("same-name", false, RiskLevel::Low, 0);
    other.node.version = SemVer::new(2, 0, 0);
    let distinct_versions = vec![test_finding("same-name", false, RiskLevel::Low, 0), other];
    let groups = duplicate_groups(&distinct_versions);
    assert_eq!(groups.len(), 1);
    assert_eq!(groups[0].name, "same-name");
    assert_eq!(groups[0].versions, vec!["1.0.0".to_string(), "2.0.0".to_string()]);
}

#[test]
fn version_lag_line_major() {
    let have = SemVer::new(0, 10, 45);
    let latest = SemVer::new(3, 0, 0);
    let line = version_lag_line(&have, &latest).unwrap();
    assert!(line.contains("3 breaking"), "{line}");
}

#[test]
fn version_lag_line_none_when_only_prerelease_tag_differs() {
    let have = SemVer::parse("1.0.0-beta.1").unwrap();
    let latest = SemVer::parse("1.0.0").unwrap();
    assert_eq!(have.compare(&latest), -1);
    assert!(version_lag_line(&have, &latest).is_none());
}

#[test]
fn maintenance_line_pluralizes_days_and_years() {
    assert_eq!(maintenance_line(1), "latest crate release published 1 day ago");
    assert_eq!(maintenance_line(365), "latest crate release published 1 year ago");
    assert_eq!(maintenance_line(730), "latest crate release published 2 years ago");
}

#[test]
fn colored_and_bold_rows_stay_aligned_with_the_border() {
    colored::control::set_override(true);
    const INNER: usize = 77;
    let cases = [
        test_finding("plain-crate", false, RiskLevel::Low, 10_000),
        test_finding("bold-direct-crate", true, RiskLevel::Low, 10_000),
        test_finding("warn-crate", false, RiskLevel::Warn, 55_000),
        test_finding("critical-crate", true, RiskLevel::Critical, 90_000),
        test_finding(
            "a-crate-with-a-genuinely-long-name-that-does-not-fit-the-field",
            true,
            RiskLevel::Critical,
            90_000,
        ),
    ];
    for finding in &cases {
        let (header, visible_width) = build_header(finding, finding.risk.level, INNER);
        let line = boxed_line(&header, visible_width, INNER);
        let stripped = strip_ansi(&line);
        assert_eq!(stripped.chars().count(), INNER + 2, "misaligned for {}", finding.node.name);
    }
    colored::control::unset_override();
}

#[test]
fn ellipsize_truncates_overlong_names() {
    let long = "a-crate-with-a-genuinely-long-name-that-does-not-fit-the-field";
    let out = ellipsize(long, NAME_FIELD_WIDTH);
    assert!(out.width() <= NAME_FIELD_WIDTH);
    assert!(out.ends_with('…'));
}

#[test]
fn ellipsize_leaves_short_names_untouched() {
    assert_eq!(ellipsize("serde", NAME_FIELD_WIDTH), "serde");
}

#[test]
fn wrap_leaves_a_fitting_line_as_one_piece() {
    let line = "last published 342 days ago";
    assert_eq!(wrap_to_width(line, 74), vec![line.to_string()]);
}

#[test]
fn wrap_breaks_the_real_wasi_line_that_used_to_break_the_box() {
    let line = "3 breaking version(s) behind latest (0.11.1+wasi-snapshot-preview1 → 0.14.7+wasi-0.2.4)";
    let pieces = wrap_checked(line, 74).expect("this line wraps");
    assert!(pieces.len() > 1, "expected a wrap, got {pieces:?}");
    for piece in &pieces {
        assert!(piece.width() <= 74, "piece exceeds the budget: {piece:?}");
    }
    assert!(pieces.join("").contains("0.14.7+wasi-0.2.4"));
}

#[test]
fn wrap_hard_splits_a_single_overlong_word() {
    let line = "a".repeat(200);
    let pieces = wrap_checked(&line, 40).expect("a plain word wraps");
    assert!(pieces.len() > 1);
    for piece in &pieces {
        assert!(piece.width() <= 40, "{} cols", piece.width());
    }
    assert_eq!(pieces.iter().map(|p| p.trim_start()).collect::<String>(), line);
}

#[test]
fn wrap_splits_an_overlong_word_into_full_lines() {
    let line = "a".repeat(200);
    let pieces = wrap_checked(&line, 40).expect("a plain word wraps");
    let body = format!("     {}", "a".repeat(35));
    let expected = vec![
        "a".repeat(40),
        body.clone(),
        body.clone(),
        body.clone(),
        body,
        format!("     {}", "a".repeat(20)),
    ];
    assert_eq!(pieces, expected);
}

#[test]
fn wrap_fills_each_line_before_breaking() {
    let pieces = wrap_checked("aaa bbb ccc ddd", 8).expect("plain words wrap");
    assert_eq!(pieces, vec!["aaa bbb".to_string(), "     ccc".to_string(), "     ddd".to_string()]);
}

#[test]
fn wrap_measures_wide_characters_by_their_columns() {
    // Each of these characters takes two columns.
    let line = "日本語 日本語 日本語";
    let pieces = wrap_checked(line, 12).expect("two-column characters fit a line of twelve");
    assert_eq!(pieces, vec!["日本語".to_string(), "     日本語".to_string(), "     日本語".to_string()]);
    for piece in &pieces {
        assert!(piece.width() <= 12, "{piece:?} is {} columns", piece.width());
    }
}

#[test]
fn wrap_refuses_a_character_wider_than_a_continuation_line() {
    // At a width of six a continuation line has one column behind its
    // five-column indent: no room for a two-column character.
    assert!(wrap_checked("日日日日", 6).is_none());
    assert!(wrap_checked("aaaaaaaa", 6).is_some());
}

#[test]
fn no_rendered_row_ever_exceeds_the_box_width() {
    colored::control::set_override(false);
    const INNER: usize = 77;
    let (findings, meta_map, now, summary) = sample_report();
    let output = render_to_string(&findings, &meta_map, now, &summary, false, 5_000, &Vec::new(), INNER);
    let mut rows = 0;
    for row in output.lines() {
        if !row.starts_with('│') {
            continue;
        }
        rows += 1;
        assert_eq!(strip_ansi(row).chars().count(), INNER + 2, "row is not exactly the box width: {row:?}");
    }
    assert!(rows > 0);
    colored::control::unset_override();
}

#[test]
fn rows_stay_inside_the_box_at_every_supported_width() {
    colored::control::set_override(false);
    let (findings, meta_map, now, _) = sample_report();
    let long = Finding {
        node: node(
            "a-crate-with-a-deliberately-very-long-name-for-this-test",
            SemVer::parse("0.11.1+wasi-snapshot-preview1").unwrap(),
            true,
            1,
            3,
            26,
        ),
        risk: risk(25_000, 15_000, 1_400_000, 56_000, RiskLevel::Warn),
        advisories: Vec::new(),
        baseline_state: BaselineState::NotCompared,
    };
    for inner in 60..=120 {
        let mut out = String::new();
        write_finding(&mut out, &long, RiskLevel::Warn, &meta_map, now, inner);
        for f in &findings {
            write_finding(&mut out, f, f.risk.level, &meta_map, now, inner);
        }
        for row in out.lines() {
            assert_eq!(strip_ansi(row).width(), inner + 2, "row in a {inner}-col box: {row:?}");
        }
    }
    colored::control::unset_override();
}

#[test]
fn report_snapshot_uncolored() {
    colored::control::set_override(false);
    let (findings, meta_map, now, summary) = sample_report();
    let output = render_to_string(&findings, &meta_map, now, &summary, false, 5_000, &Vec::new(), 77);
    assert!(!output.contains('\u{1b}'), "uncolored output must contain no ANSI escapes");
    assert!(output.starts_with("  1 critical  ·  1 warning  ·  1 notice  ·  343 healthy\n"), "{output}");
    assert!(output.contains("CRITICAL"));
    assert!(output.contains("openssl 0.10.45"));
    assert!(output.contains("tokio 1.30.0"));
    assert!(output.contains("libc 0.2.180"));
    colored::control::unset_override();
}

#[test]
fn report_snapshot_colored() {
    colored::control::set_override(true);
    let (findings, meta_map, now, summary) = sample_report();
    let output = render_to_string(&findings, &meta_map, now, &summary, false, 5_000, &Vec::new(), 77);
    assert!(output.contains('\u{1b}'), "colored output carries ANSI escapes");
    assert!(strip_ansi(&output).contains("openssl 0.10.45"));
    colored::control::unset_override();
}

#[test]
fn severity_marker_is_distinct_and_plain_text_per_level() {
    let markers = [
        severity_marker(RiskLevel::Critical),
        severity_marker(RiskLevel::Warn),
        severity_marker(RiskLevel::Low),
    ];
    for marker in markers {
        assert!(marker.is_ascii(), "{marker:?}");
    }
    assert_ne!(markers[0], markers[1]);
    assert_ne!(markers[1], markers[2]);
    assert_ne!(markers[0], markers[2]);
}

#[test]
fn uncolored_row_still_carries_its_severity_marker() {
    colored::control::set_override(false);
    for (level, marker) in [(RiskLevel::Critical, "[C]"), (RiskLevel::Warn, "[W]"), (RiskLevel::Low, "[N]")] {
        let finding = test_finding("some-crate", false, level, 50_000);
        let (header, _) = build_header(&finding, level, 77);
        assert!(header.contains(marker), "{header:?}");
    }
    colored::control::unset_override();
}

#[test]
fn json_report_snapshot_covers_provenance_shape() {
    let (findings, meta_map, now, summary) = sample_report();
    let unchecked: Vec<String> = Vec::new();
    let report = to_json(
        &findings,
        &meta_map,
        now,
        &summary,
        5_000,
        JsonExtras {
            unchecked: &unchecked,
            duplicates: Vec::new(),
            ignored: Vec::new(),
            project: JsonProject {
                name: Some("sample-project".to_string()),
                manifest_path: "/workspace/sample-project/Cargo.toml".to_string(),
            },
            advisory_db_commit: Some("abc123def456".to_string()),
        },
        "REDACTED",
        "0.3.1",
    );
    assert_eq!(report.schema_version, 4);
    assert_eq!(report.generated_at, "REDACTED");
    assert_eq!(report.project.name.as_deref(), Some("sample-project"));
    assert_eq!(report.advisory_db_commit.as_deref(), Some("abc123def456"));
    assert_eq!(report.summary.total, 346);
    assert_eq!(report.summary.threshold, 5_000);
    assert_eq!(report.findings.len(), 3);
    let first = &report.findings[0];
    assert_eq!(first.name, "openssl");
    assert_eq!(first.version, "0.10.45");
    assert_eq!(first.score_tenths, 940);
    assert_eq!(first.level, "critical");
    assert_eq!(first.kind, "normal");
    assert_eq!(first.components.version_lag_tenths, 250);
    assert_eq!(first.components.graph_multiplier_tenths, 18);
    assert!(first.baseline.is_none());
    assert!(first.reasons.iter().any(|r| r.contains("relied on by 31 crates")), "{:?}", first.reasons);
}
