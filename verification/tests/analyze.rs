use depcheck::analyze::{
    collect_registry_results, effective_fail_on, effective_threshold, ignore_rules, score_findings, select,
    sort_by_score, FetchOutcome,
};
use depcheck::baseline::BaselineState;
use depcheck::cli::FailOn;
use depcheck::config::{Config, IgnoreEntry};
use depcheck::graph::{DependencyNode, NodeKind};
use depcheck::registry::{MetaMap, Metadata};
use depcheck::report::Finding;
use depcheck::score::{RiskLevel, RiskScore};
use depcheck::version::SemVer;

fn finding(name: &str, total: u32, level: RiskLevel) -> Finding {
    Finding {
        node: DependencyNode {
            name: name.to_string(),
            version: SemVer::new(1, 0, 0),
            is_direct: false,
            depth: 1,
            dependent_count: 0,
            transitive_dependent_count: 0,
            is_registry: true,
            kind: NodeKind::Normal,
        },
        risk: RiskScore { security: 0, version_lag: 0, maintenance: 0, graph_multiplier: 1_000_000, total, level },
        advisories: Vec::new(),
        baseline_state: BaselineState::NotCompared,
    }
}

fn meta() -> Metadata {
    Metadata {
        newest_version: SemVer::new(1, 0, 0),
        max_stable_version: Some(SemVer::new(1, 0, 0)),
        stable_versions: vec![SemVer::new(1, 0, 0)],
        updated_at: 0,
        yanked_versions: Vec::new(),
    }
}

#[test]
fn missing_online_index_entry_is_unchecked_not_clean() {
    let raw = vec![("ghost-crate".to_string(), FetchOutcome::Missing)];
    let (metadata, unchecked, last_error) = collect_registry_results(raw);
    assert!(!metadata.contains_key("ghost-crate"));
    assert_eq!(unchecked, ["ghost-crate"]);
    assert!(last_error.as_deref().is_some_and(|m| m.contains("no crates.io sparse-index entry")));
}

#[test]
fn registry_results_split_into_found_and_unchecked() {
    let raw = vec![
        ("alpha".to_string(), FetchOutcome::Found(meta())),
        ("beta".to_string(), FetchOutcome::Failed("sparse index request failed".to_string())),
        ("gamma".to_string(), FetchOutcome::Found(meta())),
    ];
    let (metadata, unchecked, last_error) = collect_registry_results(raw);
    assert!(metadata.contains_key("alpha") && metadata.contains_key("gamma"));
    assert!(!metadata.contains_key("beta"));
    assert_eq!(unchecked, ["beta"]);
    assert_eq!(last_error.as_deref(), Some("sparse index request failed"));
}

#[test]
fn the_command_line_wins_over_the_project_and_the_default() {
    assert_eq!(effective_threshold(Some(30_000), Some(55_000)), 30_000);
    assert_eq!(effective_threshold(None, Some(55_000)), 55_000);
    assert_eq!(effective_threshold(None, None), 40_000);
    assert_eq!(effective_fail_on(None, Some(FailOn::Warn)), FailOn::Warn);
    assert_eq!(effective_fail_on(Some(FailOn::Critical), Some(FailOn::Warn)), FailOn::Critical);
    assert_eq!(effective_fail_on(None, None), FailOn::Off);
}

#[test]
fn ignores_merge_sorted_with_reasons_and_skip_expired_rules() {
    let config = Config {
        threshold: None,
        fail_on: None,
        ignores: vec![
            IgnoreEntry { crate_name: "zlib".into(), reason: Some("vendored".into()), expires: None, is_expired: false },
            IgnoreEntry { crate_name: "old".into(), reason: None, expires: None, is_expired: true },
            IgnoreEntry { crate_name: "abc".into(), reason: Some("from config".into()), expires: None, is_expired: false },
        ],
    };
    let rules = ignore_rules(&vec!["abc".to_string(), "mid".to_string()], &config);
    assert_eq!(rules.names, ["abc", "mid", "zlib"]);
    assert_eq!(
        rules.with_reason,
        vec![("abc".to_string(), None), ("mid".to_string(), None), ("zlib".to_string(), Some("vendored".to_string()))]
    );
}

#[test]
fn ranking_is_highest_first_and_stable() {
    let mut all = vec![
        finding("a", 10_000, RiskLevel::Low),
        finding("b", 50_000, RiskLevel::Warn),
        finding("c", 10_000, RiskLevel::Low),
        finding("d", 90_000, RiskLevel::Critical),
    ];
    sort_by_score(&mut all);
    let names: Vec<&str> = all.iter().map(|f| f.node.name.as_str()).collect();
    assert_eq!(names, ["d", "b", "a", "c"]);
}

#[test]
fn selection_hides_ignored_and_low_findings_and_honours_top() {
    let all = vec![
        finding("d", 90_000, RiskLevel::Critical),
        finding("ignored", 60_000, RiskLevel::Warn),
        finding("b", 50_000, RiskLevel::Warn),
        finding("a", 10_000, RiskLevel::Low),
    ];
    let ignored = vec!["ignored".to_string()];
    let s = select(&all, &ignored, 40_000, None);
    assert_eq!(s.analyzed, [0, 2, 3]);
    assert_eq!(s.visible, [0, 2]);
    assert_eq!(s.comparable, [0, 2]);
    assert_eq!(s.ignored_count, 1);
    let top = select(&all, &ignored, 40_000, Some(1));
    assert_eq!(top.visible, [0]);
    // A raised threshold still compares every warning against a baseline.
    let high = select(&all, &ignored, 95_000, None);
    assert!(high.visible.is_empty());
    assert_eq!(high.comparable, [0, 2]);
}

#[test]
fn scoring_weights_each_node_and_reads_its_metadata() {
    let now = 1_767_225_600;
    let mut meta_map = MetaMap::new();
    meta_map.insert("old".to_string(), Metadata { updated_at: now - 730 * 86_400, ..meta() });
    let nodes = vec![DependencyNode {
        name: "old".to_string(),
        version: SemVer::new(1, 0, 0),
        is_direct: true,
        depth: 1,
        dependent_count: 1,
        transitive_dependent_count: 1,
        is_registry: true,
        kind: NodeKind::Normal,
    }];
    let found = score_findings(nodes, vec![Vec::new()], &vec![1_200_000], &meta_map, now);
    assert_eq!(found.len(), 1);
    assert_eq!(found[0].risk.maintenance, 15_000);
    assert_eq!(found[0].risk.total, 18_000);
    assert_eq!(found[0].risk.level, RiskLevel::Low);
    assert_eq!(found[0].baseline_state, BaselineState::NotCompared);
}

#[test]
fn raising_the_threshold_only_changes_what_is_shown() {
    let all = vec![
        finding("hot", 72_000, RiskLevel::Critical),
        finding("warm", 45_000, RiskLevel::Warn),
        finding("mild", 30_000, RiskLevel::Low),
        finding("calm", 5_000, RiskLevel::Low),
    ];
    let ignored: Vec<String> = Vec::new();
    let low = select(&all, &ignored, 20_000, None);
    let high = select(&all, &ignored, 60_000, None);
    assert_eq!(low.analyzed, high.analyzed);
    assert_eq!(low.analyzed, vec![0, 1, 2, 3]);
    assert_eq!(low.visible, vec![0, 1, 2]);
    assert_eq!(high.visible, vec![0]);
    assert!(high.visible.iter().all(|i| low.visible.contains(i)));
    // The WARN finding below the raised threshold is still compared.
    assert_eq!(high.comparable, vec![0, 1]);
}
