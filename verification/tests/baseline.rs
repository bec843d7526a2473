use depcheck::baseline::{diff, gate_counts, summary_line, warn_on_threshold_mismatch, Baseline, BaselineRecord, BaselineState, Delta, NewReason};
use depcheck::graph::{DependencyNode, NodeKind};
use depcheck::report::{Finding, ReportSummary};
use depcheck::score::{RiskLevel, RiskScore};
use depcheck::version::SemVer;

fn finding(name: &str, version: &str, level: RiskLevel, total: u32) -> Finding {
    Finding {
        node: DependencyNode {
            name: name.to_string(),
            version: SemVer::parse(version).unwrap(),
            is_direct: false,
            depth: 1,
            dependent_count: 0,
            transitive_dependent_count: 0,
            is_registry: true,
            kind: NodeKind::Normal,
        },
        risk: RiskScore { security: 0, version_lag: 0, maintenance: 0, graph_multiplier: 1_000_000, total, level },
        advisories: Vec::new(),
        baseline_state: BaselineState::NotCompared,
    }
}

fn record(name: &str, version: &str, level: Option<&str>) -> BaselineRecord {
    BaselineRecord {
        name: name.to_string(),
        version: version.to_string(),
        level: level.map(str::to_string),
        advisories: Vec::new(),
    }
}

/// The stored report with one WARN finding, `wasi 0.11.1`.
fn one_warn() -> Baseline {
    Baseline::from_records(
        "b.json".to_string(),
        Some("2026-08-01T00:00:00+00:00".to_string()),
        None,
        vec![record("wasi", "0.11.1", Some("warn"))],
    )
}

#[test]
fn a_crate_in_the_baseline_at_the_same_version_is_known() {
    let state = one_warn().classify(&finding("wasi", "0.11.1", RiskLevel::Warn, 46_400));
    assert_eq!(state, BaselineState::Known);
}

#[test]
fn a_score_that_drifted_upward_within_its_level_stays_known() {
    let state = one_warn().classify(&finding("wasi", "0.11.1", RiskLevel::Warn, 52_800));
    assert_eq!(state, BaselineState::Known);
}

#[test]
fn an_unlisted_crate_is_new() {
    let state = one_warn().classify(&finding("libc", "0.2.1", RiskLevel::Warn, 44_000));
    assert_eq!(state, BaselineState::New(NewReason::NotInBaseline));
}

#[test]
fn a_different_version_of_a_listed_crate_is_new() {
    let state = one_warn().classify(&finding("wasi", "0.12.0", RiskLevel::Warn, 46_400));
    assert_eq!(state, BaselineState::New(NewReason::NotInBaseline));
}

#[test]
fn crossing_into_a_higher_severity_is_new() {
    let state = one_warn().classify(&finding("wasi", "0.11.1", RiskLevel::Critical, 78_000));
    assert_eq!(state, BaselineState::New(NewReason::LevelIncreased));
}

#[test]
fn dropping_to_a_lower_severity_is_not_new() {
    let state = one_warn().classify(&finding("wasi", "0.11.1", RiskLevel::Low, 12_000));
    assert_eq!(state, BaselineState::Known);
}

#[test]
fn delta_counts_only_new_findings_by_level() {
    let findings = vec![
        finding("wasi", "0.11.1", RiskLevel::Warn, 46_400),
        finding("libc", "0.2.1", RiskLevel::Warn, 44_000),
        finding("openssl", "0.9.0", RiskLevel::Critical, 91_000),
        finding("quiet", "1.0.0", RiskLevel::Low, 3_000),
    ];
    let delta = diff(&one_warn(), &findings);
    assert_eq!(delta, Delta { new_critical: 1, new_warnings: 1, new_total: 3, known_total: 1 });
}

#[test]
fn a_baseline_missing_the_level_field_still_matches_by_version() {
    let baseline = Baseline::from_records("b.json".to_string(), None, None, vec![record("wasi", "0.11.1", None)]);
    let state = baseline.classify(&finding("wasi", "0.11.1", RiskLevel::Critical, 90_000));
    assert_eq!(state, BaselineState::Known, "with no recorded level there is nothing to have increased from");
}

#[test]
fn a_new_advisory_on_a_known_version_is_new() {
    let mut listed = record("wasi", "0.11.1", Some("warn"));
    listed.advisories = vec!["RUSTSEC-2026-0001".to_string()];
    let baseline = Baseline::from_records("b.json".to_string(), None, None, vec![listed]);
    let mut f = finding("wasi", "0.11.1", RiskLevel::Warn, 46_400);
    f.advisories = vec![depcheck::advisory::Advisory {
        id: "RUSTSEC-2026-0002".to_string(),
        informational: None,
        severity: None,
        categories: Vec::new(),
    }];
    assert_eq!(baseline.classify(&f), BaselineState::New(NewReason::NewAdvisory));
}

#[test]
fn duplicate_records_keep_the_worst_level() {
    let baseline = Baseline::from_records(
        "b.json".to_string(),
        None,
        None,
        vec![record("wasi", "0.11.1", Some("critical")), record("wasi", "0.11.1", Some("low"))],
    );
    assert_eq!(baseline.len(), 1);
    let state = baseline.classify(&finding("wasi", "0.11.1", RiskLevel::Critical, 80_000));
    assert_eq!(state, BaselineState::Known);
}

#[test]
fn the_summary_line_counts_new_and_known_findings() {
    let baseline = one_warn();
    let delta = Delta { new_critical: 0, new_warnings: 1, new_total: 1, known_total: 0 };
    assert_eq!(
        summary_line(&baseline, &delta),
        "baseline b.json from 2026-08-01T00:00:00+00:00: 1 new · 0 known (1 entries)"
    );
}

#[test]
fn a_threshold_mismatch_is_warned_about() {
    let baseline = Baseline::from_records("b.json".to_string(), None, Some(40_000), Vec::new());
    assert!(warn_on_threshold_mismatch(&baseline, 40_000).is_none());
    let warning = warn_on_threshold_mismatch(&baseline, 37_500).unwrap();
    assert!(
        warning.starts_with("warning: b.json was written at threshold 40, but this run uses 37.5."),
        "{warning}"
    );
}

#[test]
fn only_new_findings_count_once_a_baseline_is_in_play() {
    let summary = ReportSummary {
        total: 9,
        critical: 2,
        warnings: 3,
        notices: 1,
        unknown: 0,
        not_applicable: 0,
        ignored: 0,
        healthy: 3,
        degraded: false,
    };
    let delta = Delta { new_critical: 0, new_warnings: 1, new_total: 1, known_total: 5 };
    assert_eq!(gate_counts(&summary, Some(&delta)), (0, 1));
    assert_eq!(gate_counts(&summary, None), (2, 3));
}
