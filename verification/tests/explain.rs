use depcheck::baseline::BaselineState;
use depcheck::explain::{json_path, level_tag, report_not_found, write_paths, Explanation};
use depcheck::graph::{DependencyNode, NodeKind, PathStep};
use depcheck::registry::Metadata;
use depcheck::report::Finding;
use depcheck::score::{RiskLevel, RiskScore};
use depcheck::version::SemVer;

const NOW: i64 = 1_788_134_400; // 2026-08-31T00:00:00Z
const DAY: i64 = 86_400;

fn metadata(current: &str, latest: &str, days_old: i64) -> Metadata {
    let latest_v = SemVer::parse(latest).unwrap();
    let current_v = SemVer::parse(current).unwrap();
    let mut stable = vec![current_v.duplicate()];
    if !current_v.same(&latest_v) {
        stable.push(latest_v.duplicate());
    }
    Metadata {
        newest_version: latest_v.duplicate(),
        max_stable_version: Some(latest_v),
        stable_versions: stable,
        updated_at: NOW - days_old * DAY,
        yanked_versions: Vec::new(),
    }
}

fn finding(name: &str, version: &str, total: u32, level: RiskLevel) -> Finding {
    Finding {
        node: DependencyNode {
            name: name.to_string(),
            version: SemVer::parse(version).unwrap(),
            is_direct: false,
            depth: 2,
            dependent_count: 3,
            transitive_dependent_count: 25,
            is_registry: true,
            kind: NodeKind::Normal,
        },
        risk: RiskScore {
            security: 0,
            version_lag: 25_000,
            maintenance: 7_000,
            graph_multiplier: 1_450_000,
            total,
            level,
        },
        advisories: Vec::new(),
        baseline_state: BaselineState::NotCompared,
    }
}

fn explain(f: &Finding, meta: &Metadata, ignored: bool) -> Explanation {
    Explanation::build(f, Some(meta), false, NOW, 40_000, ignored, &Vec::new())
}

#[test]
fn the_human_breakdown_shows_every_term_of_the_formula() {
    colored::control::set_override(false);
    let f = finding("wasi", "0.11.1", 46_400, RiskLevel::Warn);
    let meta = metadata("0.11.1", "0.14.7", 342);
    let explanation = explain(&f, &meta, false);
    let mut out = String::new();
    explanation.write_human(&mut out);
    assert!(out.contains("wasi 0.11.1"), "{out}");
    assert!(out.contains("score = (security 0.0 + version lag 25.0 + maintenance 7.0) × 1.45 graph weight"), "{out}");
    assert!(out.contains("0.0 / 50"), "{out}");
    assert!(out.contains("25.0 / 25"), "{out}");
    assert!(out.contains("7.0 / 15"), "{out}");
    assert!(out.contains("3 breaking releases behind (0.11.1 → 0.14.7)"), "{out}");
    assert!(out.contains("relied on by 25 crates"), "{out}");
    assert!(out.contains("(32.0 × 1.45, capped at 100)"), "{out}");
    assert!(out.starts_with("wasi 0.11.1  score 46.4 [WARN]\n"), "{out}");
    colored::control::unset_override();
}

#[test]
fn a_projection_rescores_at_the_upgrade_target() {
    colored::control::set_override(false);
    let f = finding("wasi", "0.11.1", 46_400, RiskLevel::Warn);
    let meta = metadata("0.11.1", "0.11.9", 342);
    let explanation = explain(&f, &meta, false);
    assert!(!explanation.projections.is_empty(), "a compatible upgrade target must be offered");
    assert_eq!(explanation.projections[0].version.to_text(), "0.11.9");
    assert!(explanation.projections[0].total < explanation.total);
    let mut out = String::new();
    explanation.write_human(&mut out);
    assert!(out.contains("If you upgrade:"), "{out}");
    assert!(out.contains("within its compatibility line 0.11.9  score 46.4 → "), "{out}");
    colored::control::unset_override();
}

#[test]
fn an_up_to_date_crate_offers_no_upgrade_projection() {
    colored::control::set_override(false);
    let mut f = finding("serde", "1.0.229", 6_000, RiskLevel::Low);
    f.risk.version_lag = 0;
    let meta = metadata("1.0.229", "1.0.229", 20);
    let explanation = explain(&f, &meta, false);
    assert!(explanation.projections.is_empty());
    let mut out = String::new();
    explanation.write_human(&mut out);
    assert!(out.contains("up to date"), "{out}");
    assert!(!out.contains("If you upgrade:"), "{out}");
    colored::control::unset_override();
}

#[test]
fn a_crate_below_the_threshold_says_so_rather_than_looking_like_a_finding() {
    colored::control::set_override(false);
    let f = finding("quiet-crate", "1.0.0", 12_000, RiskLevel::Low);
    let meta = metadata("1.0.0", "1.0.0", 10);
    let explanation = explain(&f, &meta, false);
    let mut out = String::new();
    explanation.write_human(&mut out);
    assert!(out.contains("below your display threshold of 40"), "{out}");
    colored::control::unset_override();
}

#[test]
fn an_ignored_crate_is_explained_with_its_suppression_noted() {
    colored::control::set_override(false);
    let f = finding("openssl", "0.9.0", 88_000, RiskLevel::Critical);
    let meta = metadata("0.9.0", "0.10.0", 400);
    let explanation = explain(&f, &meta, true);
    let mut out = String::new();
    explanation.write_human(&mut out);
    assert!(out.contains("suppressed by an ignore rule"), "{out}");
    colored::control::unset_override();
}

fn sample_path() -> Vec<PathStep> {
    vec![
        PathStep { name: "my-app".into(), version: SemVer::new(0, 1, 0), kind: NodeKind::Normal },
        PathStep { name: "build-helper".into(), version: SemVer::new(1, 2, 0), kind: NodeKind::Build },
        PathStep { name: "wasi".into(), version: SemVer::new(0, 11, 1), kind: NodeKind::Normal },
    ]
}

#[test]
fn paths_render_the_workspace_member_first_and_label_edge_kinds() {
    colored::control::set_override(false);
    let mut out = String::new();
    write_paths(&mut out, "wasi", &vec![sample_path()], 5);
    assert!(out.contains("my-app → build-helper 1.2.0 [build] → wasi 0.11.1"), "{out}");
    assert!(out.contains("Pulled in by (1 shown, shortest first):"), "{out}");
    assert!(out.contains("cargo tree -i wasi"), "{out}");
    assert!(!out.contains("more paths may exist"), "{out}");
    colored::control::unset_override();
}

#[test]
fn an_unreachable_crate_explains_the_kind_filters_instead_of_printing_nothing() {
    colored::control::set_override(false);
    let mut out = String::new();
    write_paths(&mut out, "cc", &Vec::new(), 5);
    assert!(out.contains("--include-build"), "{out}");
    colored::control::unset_override();
}

#[test]
fn a_full_page_of_paths_says_more_may_exist() {
    colored::control::set_override(false);
    let mut out = String::new();
    write_paths(&mut out, "wasi", &vec![sample_path()], 1);
    assert!(out.contains("(more paths may exist; raise --max-paths to see them)"), "{out}");
    colored::control::unset_override();
}

#[test]
fn the_level_tag_names_the_level_in_plain_text() {
    colored::control::set_override(false);
    assert_eq!(level_tag(RiskLevel::Critical), "[CRITICAL]");
    assert_eq!(level_tag(RiskLevel::Warn), "[WARN]");
    assert_eq!(level_tag(RiskLevel::Low), "[NOTICE]");
    colored::control::unset_override();
}

#[test]
fn a_missing_crate_gets_close_matches() {
    let all = vec![
        finding("serde_json", "1.0.0", 1_000, RiskLevel::Low),
        finding("serde", "1.0.0", 1_000, RiskLevel::Low),
        finding("tokio", "1.0.0", 1_000, RiskLevel::Low),
        finding("serde", "1.0.1", 1_000, RiskLevel::Low),
    ];
    let text = report_not_found("serde-json", &all);
    assert!(text.starts_with("error: serde-json is not in this project's analyzed dependency graph\n"), "{text}");
    assert!(text.contains("  did you mean: serde, serde_json\n"), "{text}");
    assert!(text.ends_with("--include-build / --include-dev\n"), "{text}");
    let none = report_not_found("zzz", &all);
    assert!(!none.contains("did you mean"), "{none}");
}

#[test]
fn the_json_path_names_each_hop() {
    let steps = json_path(&sample_path());
    assert_eq!(steps.len(), 3);
    assert_eq!(steps[1].name, "build-helper");
    assert_eq!(steps[1].version, "1.2.0");
    assert_eq!(steps[1].kind, "build");
}

#[test]
fn the_json_explanation_rounds_to_tenths_and_hundredths() {
    let f = finding("wasi", "0.11.1", 46_400, RiskLevel::Warn);
    let meta = metadata("0.11.1", "0.14.7", 342);
    let j = explain(&f, &meta, false).to_json();
    assert_eq!(j.version, "0.11.1");
    assert_eq!(j.score_tenths, 464);
    assert_eq!(j.level, "warn");
    assert_eq!(j.components.version_lag.points_tenths, 250);
    assert_eq!(j.components.version_lag.max, 25);
    assert_eq!(j.components.graph_multiplier_hundredths, 145);
    assert_eq!(j.components.security.detail, "advisories not checked this run");
}
