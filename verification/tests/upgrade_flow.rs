use depcheck::upgrade::Candidate;
use depcheck::upgrade_flow::{
    abort_line, candidate_line, dry_run_line, outcome_line, preflight_skip_line, selected_line, skipped_lines, step,
    UpgradeAction, UpgradeEvent, UpgradeState,
};
use depcheck::version::SemVer;

fn run(count: usize, dry_run: bool, skip_verify: bool, events: Vec<UpgradeEvent>) -> Vec<UpgradeAction> {
    let mut state = UpgradeState::Start;
    let mut actions = Vec::new();
    for event in events {
        let (next, action) = step(state, count, dry_run, skip_verify, event);
        state = next;
        actions.push(action);
    }
    actions
}

#[test]
fn an_incomplete_analysis_is_refused() {
    let actions = run(2, false, false, vec![UpgradeEvent::Analyzed { degraded: true }]);
    assert!(actions == vec![UpgradeAction::Refuse]);
}

#[test]
fn only_candidates_that_pass_their_dry_run_are_applied() {
    let actions = run(
        3,
        false,
        false,
        vec![
            UpgradeEvent::Analyzed { degraded: false },
            UpgradeEvent::Preflighted { ok: true },
            UpgradeEvent::Preflighted { ok: false },
            UpgradeEvent::Preflighted { ok: true },
            UpgradeEvent::BackedUp { ok: true },
            UpgradeEvent::Updated { ok: true },
            UpgradeEvent::Updated { ok: true },
            UpgradeEvent::Compared { unchanged: false },
            UpgradeEvent::Checked { passed: true },
        ],
    );
    assert!(
        actions
            == vec![
                UpgradeAction::Preflight(0),
                UpgradeAction::Preflight(1),
                UpgradeAction::Preflight(2),
                UpgradeAction::Backup,
                UpgradeAction::Apply(0),
                UpgradeAction::Apply(2),
                UpgradeAction::Compare,
                UpgradeAction::Check,
                UpgradeAction::Report { verified: true },
            ]
    );
}

#[test]
fn a_dry_run_never_touches_the_lockfile() {
    let actions = run(
        1,
        true,
        false,
        vec![UpgradeEvent::Analyzed { degraded: false }, UpgradeEvent::Preflighted { ok: true }],
    );
    assert!(actions == vec![UpgradeAction::Preflight(0), UpgradeAction::DryRunDone(1)]);
}

#[test]
fn a_failed_check_restores_the_lockfile() {
    let actions = run(
        1,
        false,
        false,
        vec![
            UpgradeEvent::Analyzed { degraded: false },
            UpgradeEvent::Preflighted { ok: true },
            UpgradeEvent::BackedUp { ok: true },
            UpgradeEvent::Updated { ok: true },
            UpgradeEvent::Compared { unchanged: false },
            UpgradeEvent::Checked { passed: false },
        ],
    );
    assert!(actions.last() == Some(&UpgradeAction::RestoreAndFail));
    assert_eq!(outcome_line(UpgradeAction::RestoreAndFail), "cargo check failed; the original Cargo.lock was restored");
}

#[test]
fn a_failed_update_aborts() {
    let actions = run(
        1,
        false,
        true,
        vec![
            UpgradeEvent::Analyzed { degraded: false },
            UpgradeEvent::Preflighted { ok: true },
            UpgradeEvent::BackedUp { ok: true },
            UpgradeEvent::Updated { ok: false },
        ],
    );
    assert!(actions.last() == Some(&UpgradeAction::Abort(0)));
}

#[test]
fn messages_name_the_candidates() {
    let c = Candidate { name: "demo".into(), from: SemVer::new(1, 0, 0), to: SemVer::new(1, 2, 0), score: "42.0".into() };
    assert_eq!(selected_line(1), "1 compatible upgrade selected:");
    assert_eq!(candidate_line(&c), "  demo 1.0.0 → 1.2.0  (score 42.0)");
    assert_eq!(abort_line(&c), "failed to update demo from 1.0.0 to 1.2.0; Cargo.lock was restored");
    assert_eq!(
        preflight_skip_line("boom"),
        "    skipped: Cargo.toml constraints prevent this lockfile-only update (boom)"
    );
    assert_eq!(dry_run_line(2), "\nDry run complete: 2 upgrades can be applied; Cargo.lock was not changed.");
    assert_eq!(skipped_lines(&vec!["x: y".to_string()]), ["Manual action required:", "  x: y", ""]);
    assert!(skipped_lines(&Vec::new()).is_empty());
}
