use depcheck::baseline::BaselineState;
use depcheck::graph::{DependencyNode, NodeKind};
use depcheck::registry::MetaMap;
use depcheck::report::Finding;
use depcheck::sarif::{build, lockfile_line_numbers, security_severity, SARIF_SCHEMA};
use depcheck::score::{RiskLevel, RiskScore};
use depcheck::version::SemVer;

fn test_finding(name: &str, version: SemVer, level: RiskLevel, total: u32) -> Finding {
    Finding {
        node: DependencyNode {
            name: name.to_string(),
            version,
            is_direct: true,
            depth: 1,
            dependent_count: 1,
            transitive_dependent_count: 1,
            is_registry: true,
            kind: NodeKind::Normal,
        },
        risk: RiskScore { security: 0, version_lag: 0, maintenance: 0, graph_multiplier: 1_000_000, total, level },
        advisories: Vec::new(),
        baseline_state: BaselineState::NotCompared,
    }
}

const NOW: i64 = 1_767_225_600;

#[test]
fn security_severity_maps_the_full_range() {
    assert_eq!(security_severity(0), "0.1");
    assert_eq!(security_severity(50_000), "5.0");
    assert_eq!(security_severity(100_000), "10.0");
}

#[test]
fn security_severity_never_leaves_the_documented_range() {
    for total in [0, 33_300, 100_000, 500_000] {
        let s: f64 = security_severity(total).parse().unwrap();
        assert!((0.1..=10.0).contains(&s), "security-severity {s} out of range");
    }
}

#[test]
fn build_has_required_top_level_shape() {
    let findings = vec![test_finding("openssl", SemVer::new(0, 10, 45), RiskLevel::Critical, 94_000)];
    let log = build(&findings, &MetaMap::new(), NOW, "", "0.3.1");
    assert_eq!(log.schema, SARIF_SCHEMA);
    assert_eq!(log.version, "2.1.0");
    assert_eq!(log.runs.len(), 1);
    assert_eq!(log.runs[0].tool.driver.name, "cargo-depcheck");
    assert_eq!(log.runs[0].tool.driver.version, "0.3.1");
    assert_eq!(log.runs[0].tool.driver.rules.len(), 1);
    assert_eq!(log.runs[0].tool.driver.rules[0].id, "openssl");
    assert_eq!(log.runs[0].results[0].message.text.split(':').next(), Some("openssl 0.10.45 scored 94/100"));
}

#[test]
fn every_result_has_at_least_one_location() {
    let findings = vec![
        test_finding("openssl", SemVer::new(0, 10, 45), RiskLevel::Critical, 94_000),
        test_finding("tokio", SemVer::new(1, 30, 0), RiskLevel::Warn, 55_000),
    ];
    let log = build(&findings, &MetaMap::new(), NOW, "", "0.3.1");
    for result in &log.runs[0].results {
        assert!(!result.locations.is_empty(), "result for {} has no locations", result.rule_id);
        assert!(!result.partial_fingerprints.is_empty());
    }
    assert_eq!(log.runs[0].results[1].partial_fingerprints[0].1, "tokio-1.30.0");
}

#[test]
fn duplicate_crate_names_share_one_rule_but_get_separate_results() {
    let findings = vec![
        test_finding("syn", SemVer::new(2, 0, 0), RiskLevel::Warn, 50_000),
        test_finding("syn", SemVer::new(3, 0, 0), RiskLevel::Low, 20_000),
    ];
    let log = build(&findings, &MetaMap::new(), NOW, "", "0.3.1");
    assert_eq!(log.runs[0].tool.driver.rules.len(), 1);
    assert_eq!(log.runs[0].results.len(), 2);
}

#[test]
fn risk_level_maps_to_the_documented_sarif_levels() {
    let findings = vec![
        test_finding("a", SemVer::new(1, 0, 0), RiskLevel::Critical, 90_000),
        test_finding("b", SemVer::new(1, 0, 0), RiskLevel::Warn, 50_000),
        test_finding("c", SemVer::new(1, 0, 0), RiskLevel::Low, 10_000),
    ];
    let log = build(&findings, &MetaMap::new(), NOW, "", "0.3.1");
    let levels: Vec<&str> = log.runs[0].results.iter().map(|r| r.level).collect();
    assert_eq!(levels, vec!["error", "warning", "note"]);
}

#[test]
fn missing_lockfile_falls_back_to_line_one() {
    let findings = vec![test_finding("openssl", SemVer::new(0, 10, 45), RiskLevel::Critical, 94_000)];
    let log = build(&findings, &MetaMap::new(), NOW, "", "0.3.1");
    assert_eq!(log.runs[0].results[0].locations[0].physical_location.region.start_line, 1);
}

#[test]
fn lockfile_line_numbers_finds_the_real_block() {
    let lock = "# comment\n\n[[package]]\nname = \"openssl\"\nversion = \"0.10.45\"\n\n[[package]]\nname = \"tokio\"\nversion = \"1.30.0\"\n";
    let lines = lockfile_line_numbers(lock);
    assert_eq!(lines.get("openssl", "0.10.45"), Some(3));
    assert_eq!(lines.get("tokio", "1.30.0"), Some(7));
    assert_eq!(lines.get("tokio", "1.31.0"), None);
}

#[test]
fn a_result_points_at_its_lockfile_block() {
    let lock = "[[package]]\nname = \"other\"\nversion = \"1.0.0\"\n\n[[package]]\nname = \"openssl\"\nversion = \"0.10.45\"\n";
    let findings = vec![test_finding("openssl", SemVer::new(0, 10, 45), RiskLevel::Critical, 94_000)];
    let log = build(&findings, &MetaMap::new(), NOW, lock, "0.3.1");
    assert_eq!(log.runs[0].results[0].locations[0].physical_location.region.start_line, 5);
    assert_eq!(log.runs[0].results[0].properties.security_severity, "9.4");
}
