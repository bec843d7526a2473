use depcheck::baseline::BaselineState;
use depcheck::cli::OutputFormat;
use depcheck::graph::{DependencyNode, NodeKind};
use depcheck::registry::{MetaMap, Metadata};
use depcheck::report::Finding;
use depcheck::score::{RiskLevel, RiskScore};
use depcheck::upgrade::{
    concise_error, incompatible_flag, lockfile_changes, parse_lockfile_packages, select_candidates_from, Candidate, LockfileTransaction,
};
use depcheck::version::SemVer;

fn candidate() -> Candidate {
    Candidate {
        name: "demo".into(),
        from: SemVer::new(1, 0, 0),
        to: SemVer::new(1, 2, 0),
        score: "42.0".into(),
    }
}

fn finding(name: &str, version: SemVer, is_registry: bool) -> Finding {
    Finding {
        node: DependencyNode {
            name: name.into(),
            version,
            is_direct: true,
            depth: 1,
            dependent_count: 1,
            transitive_dependent_count: 1,
            is_registry,
            kind: NodeKind::Normal,
        },
        risk: RiskScore {
            security: 0,
            version_lag: 42_000,
            maintenance: 0,
            graph_multiplier: 1_000_000,
            total: 42_000,
            level: RiskLevel::Warn,
        },
        advisories: Vec::new(),
        baseline_state: BaselineState::NotCompared,
    }
}

fn metadata(versions: Vec<SemVer>) -> Metadata {
    let last = versions.last().unwrap().duplicate();
    Metadata {
        newest_version: last.duplicate(),
        max_stable_version: Some(last),
        stable_versions: versions,
        updated_at: 1_767_225_600,
        yanked_versions: Vec::new(),
    }
}

#[test]
fn lockfile_diff_reports_version_changes() {
    let before = br#"[[package]]
name = "demo"
version = "1.0.0"
"#;
    let after = br#"[[package]]
name = "demo"
version = "1.2.0"
"#;
    assert_eq!(lockfile_changes(before, after), ["demo: 1.0.0 → 1.2.0"]);
}

#[test]
fn duplicate_versions_are_preserved_in_lockfile_diff() {
    let lock = br#"[[package]]
name = "demo"
version = "1.0.0"
[[package]]
name = "demo"
version = "2.0.0"
"#;
    let packages = parse_lockfile_packages(lock);
    let demo = packages.entries.iter().find(|(name, _)| name == "demo").map(|(_, versions)| versions.clone());
    assert_eq!(demo, Some(vec!["1.0.0".to_string(), "2.0.0".to_string()]));
}

#[test]
fn a_removed_package_reads_as_removed() {
    let before = br#"[[package]]
name = "gone"
version = "0.1.0"
"#;
    assert_eq!(lockfile_changes(before, b""), ["gone: 0.1.0 → removed"]);
}

#[test]
fn duplicate_package_specs_include_the_resolved_version() {
    assert_eq!(candidate().spec(), "demo@1.0.0");
}

#[test]
fn cargo_preflight_failure_is_actionable() {
    let stderr = "\n    error: version is blocked by the manifest  \nnote: details follow\n";
    assert_eq!(concise_error(stderr), "error: version is blocked by the manifest");
    assert_eq!(concise_error(" \n\n"), "cargo update failed");
}

#[test]
fn active_transaction_rolls_back_until_committed() {
    let mut transaction = LockfileTransaction::new("Cargo.lock".to_string(), b"original".to_vec());
    assert!(transaction.needs_restore());
    transaction.commit();
    assert!(!transaction.needs_restore());
    let mut restored = LockfileTransaction::new("Cargo.lock".to_string(), b"original".to_vec());
    restored.restore();
    assert!(!restored.needs_restore());
}

#[test]
fn selection_keeps_duplicate_versions_unambiguous() {
    let findings = vec![finding("demo", SemVer::new(1, 0, 0), true), finding("demo", SemVer::new(2, 0, 0), true)];
    let mut meta_map = MetaMap::new();
    meta_map.insert(
        "demo".into(),
        metadata(vec![SemVer::new(1, 0, 0), SemVer::new(1, 5, 0), SemVer::new(2, 0, 0), SemVer::new(2, 3, 0)]),
    );
    let (selected, skipped) = select_candidates_from(&findings, &meta_map);
    assert!(skipped.is_empty());
    assert_eq!(selected.iter().map(Candidate::spec).collect::<Vec<_>>(), ["demo@1.0.0", "demo@2.0.0"]);
    assert_eq!(selected[0].to.to_text(), "1.5.0");
    assert_eq!(selected[1].to.to_text(), "2.3.0");
    assert_eq!(selected[0].score, "42.0");
}

#[test]
fn selection_excludes_path_and_zero_zero_dependencies() {
    let findings = vec![finding("local", SemVer::new(1, 0, 0), false), finding("tiny", SemVer::new(0, 0, 1), true)];
    let mut meta_map = MetaMap::new();
    meta_map.insert("tiny".into(), metadata(vec![SemVer::new(0, 0, 1), SemVer::new(0, 0, 2)]));
    let (selected, skipped) = select_candidates_from(&findings, &meta_map);
    assert!(selected.is_empty());
    assert_eq!(skipped.len(), 2);
    assert!(skipped[0].contains("non-registry"));
    assert!(skipped[1].contains("Cargo.toml"));
}

#[test]
fn upgrade_refuses_documents_guards_and_baselines() {
    assert_eq!(incompatible_flag(true, false, false, false, None, false, false), Some("--locked"));
    assert_eq!(incompatible_flag(false, true, false, false, None, false, false), Some("--frozen"));
    assert_eq!(incompatible_flag(false, false, true, false, None, false, false), Some("--offline"));
    assert_eq!(incompatible_flag(false, false, false, true, None, false, false), Some("--json"));
    assert_eq!(
        incompatible_flag(false, false, false, false, Some(OutputFormat::Sarif), false, false),
        Some("--format json/sarif")
    );
    assert_eq!(
        incompatible_flag(false, false, false, false, Some(OutputFormat::Markdown), false, false),
        Some("--format markdown")
    );
    assert_eq!(incompatible_flag(false, false, false, false, None, true, false), Some("--baseline"));
    assert_eq!(incompatible_flag(false, false, false, false, None, false, true), Some("--write-baseline"));
    assert_eq!(incompatible_flag(false, false, false, false, Some(OutputFormat::Human), false, false), None);
}
