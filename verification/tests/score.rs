use depcheck::score::{combine, compute, maintenance_points, version_lag_points, RiskLevel};
use depcheck::version::SemVer;

#[test]
fn version_lag_major_behind() {
    assert_eq!(version_lag_points(&SemVer::new(1, 0, 0), &SemVer::new(3, 0, 0)), 25_000);
}

#[test]
fn version_lag_minor_only() {
    assert_eq!(version_lag_points(&SemVer::new(1, 0, 0), &SemVer::new(1, 4, 0)), 10_000);
}

#[test]
fn version_lag_up_to_date() {
    assert_eq!(version_lag_points(&SemVer::new(2, 1, 0), &SemVer::new(2, 1, 0)), 0);
}

#[test]
fn maintenance_scales_to_cap() {
    assert_eq!(maintenance_points(365), 7_500);
    assert_eq!(maintenance_points(730), 15_000);
    assert_eq!(maintenance_points(2000), 15_000);
}

#[test]
fn score_is_identical_regardless_of_project_size() {
    let now = 1_767_225_600;
    let empty = Vec::new();
    let a = compute(&SemVer::new(1, 0, 0), None, &empty, now, 1_300_000);
    let b = compute(&SemVer::new(1, 0, 0), None, &empty, now, 1_300_000);
    assert_eq!(a.total, b.total);
    assert_eq!(a.graph_multiplier, b.graph_multiplier);
}

#[test]
fn risk_levels() {
    assert_eq!(RiskLevel::from_score(71_000), RiskLevel::Critical);
    assert_eq!(RiskLevel::from_score(70_000), RiskLevel::Warn);
    assert_eq!(RiskLevel::from_score(40_000), RiskLevel::Warn);
    assert_eq!(RiskLevel::from_score(39_900), RiskLevel::Low);
}

#[test]
fn a_level_is_judged_on_the_displayed_score() {
    // 39.96 shows as 40.0, so it is a warning.
    assert_eq!(RiskLevel::from_score(39_960), RiskLevel::Warn);
    // 70.04 shows as 70.0, which is not above 70.
    assert_eq!(RiskLevel::from_score(70_040), RiskLevel::Warn);
}

#[test]
fn the_total_is_the_weighted_sum_capped_at_one_hundred() {
    // (0 + 25 + 7) × 1.45 = 46.4
    let r = combine(0, 25_000, 7_000, 1_450_000);
    assert_eq!(r.total, 46_400);
    assert_eq!(r.level, RiskLevel::Warn);
    // (50 + 25 + 15) × 2.0 = 180, capped at 100.
    let r = combine(50_000, 25_000, 15_000, 2_000_000);
    assert_eq!(r.total, 100_000);
    assert_eq!(r.level, RiskLevel::Critical);
}

#[test]
fn the_breakdown_reads_whole_points_and_one_decimal_weight() {
    let r = combine(0, 25_000, 7_000, 1_450_000);
    assert_eq!(r.explain(), "sec 0 + lag 25 + maint 7 × 1.5");
}
