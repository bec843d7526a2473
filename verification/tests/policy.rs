use depcheck::cli::{chosen_format, FailOn, OutputFormat};
use depcheck::policy::exit_code;
use depcheck::registry::{REPOSITORY, USER_AGENT};

#[test]
fn clean_run_exits_zero() {
    assert_eq!(exit_code(false, false, FailOn::Critical, 0, 0), 0);
}

#[test]
fn fail_on_none_never_fails_on_findings() {
    assert_eq!(exit_code(false, false, FailOn::Off, 5, 5), 0);
}

#[test]
fn fail_on_critical_ignores_warnings() {
    assert_eq!(exit_code(false, false, FailOn::Critical, 0, 3), 0);
    assert_eq!(exit_code(false, false, FailOn::Critical, 1, 0), 1);
}

#[test]
fn fail_on_warn_triggers_on_either() {
    assert_eq!(exit_code(false, false, FailOn::Warn, 0, 0), 0);
    assert_eq!(exit_code(false, false, FailOn::Warn, 0, 1), 1);
    assert_eq!(exit_code(false, false, FailOn::Warn, 1, 0), 1);
}

#[test]
fn degraded_run_exits_three_regardless_of_fail_on() {
    assert_eq!(exit_code(true, false, FailOn::Off, 0, 0), 3);
    assert_eq!(exit_code(true, false, FailOn::Critical, 0, 0), 3);
}

#[test]
fn allow_incomplete_overrides_the_degraded_exit() {
    assert_eq!(exit_code(true, true, FailOn::Off, 0, 0), 0);
}

#[test]
fn allow_incomplete_does_not_suppress_a_real_finding_failure() {
    assert_eq!(exit_code(true, true, FailOn::Critical, 1, 0), 1);
}

#[test]
fn cratesio_user_agent_matches_the_real_repository() {
    assert!(USER_AGENT.contains(REPOSITORY));
    assert!(!USER_AGENT.contains("debarajrout"));
}

#[test]
fn registry_user_agent_matches_the_real_repository() {
    assert!(USER_AGENT.contains(REPOSITORY));
    assert!(!USER_AGENT.contains("debarajrout"));
}

#[test]
fn format_flag_wins_over_the_json_alias() {
    assert_eq!(chosen_format(Some(OutputFormat::Markdown), true), OutputFormat::Markdown);
    assert_eq!(chosen_format(None, true), OutputFormat::Json);
    assert_eq!(chosen_format(None, false), OutputFormat::Human);
    assert!(!chosen_format(None, false).is_machine_readable());
    assert!(chosen_format(Some(OutputFormat::Sarif), false).is_machine_readable());
}
