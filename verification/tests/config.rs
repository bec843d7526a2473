use depcheck::cli::FailOn;
use depcheck::config::{chosen_table, resolve, Config, ConfigError, Date, RawConfig, RawIgnoreEntry};

fn today() -> Date {
    Date { year: 2026, month: 1, day: 1 }
}

fn raw(threshold: Option<u32>, fail_on: Option<&str>, ignore: Vec<RawIgnoreEntry>) -> RawConfig {
    RawConfig { threshold, fail_on: fail_on.map(str::to_string), ignore }
}

fn entry(name: &str, reason: Option<&str>, expires: Option<&str>) -> RawIgnoreEntry {
    RawIgnoreEntry {
        crate_name: name.to_string(),
        reason: reason.map(str::to_string),
        expires: expires.map(str::to_string),
    }
}

fn ok(r: Result<Config, ConfigError>) -> Config {
    match r {
        Ok(c) => c,
        Err(e) => panic!("unexpected error: {}", e.message()),
    }
}

fn err(r: Result<Config, ConfigError>) -> String {
    match r {
        Ok(_) => panic!("expected an error"),
        Err(e) => e.message(),
    }
}

#[test]
fn no_depcheck_table_returns_default() {
    let config = ok(resolve(&raw(None, None, vec![]), today()));
    assert_eq!(config.threshold, None);
    assert_eq!(config.fail_on, None);
    assert!(config.ignores.is_empty());
    let empty = Config::empty();
    assert!(empty.threshold.is_none() && empty.fail_on.is_none() && empty.ignores.is_empty());
}

#[test]
fn package_level_table_is_read() {
    let config = ok(resolve(&raw(Some(30_000), Some("warn"), vec![]), today()));
    assert_eq!(config.threshold, Some(30_000));
    assert_eq!(config.fail_on, Some(FailOn::Warn));
}

#[test]
fn invalid_fail_on_is_a_clear_error_not_a_panic() {
    let message = err(resolve(&raw(None, Some("yolo"), vec![]), today()));
    assert!(message.contains("fail_on"), "{message}");
    assert_eq!(
        message,
        "invalid fail_on value \"yolo\" in [package.metadata.depcheck] — expected \"none\", \"warn\", or \"critical\""
    );
}

#[test]
fn none_turns_fail_on_off() {
    let config = ok(resolve(&raw(None, Some("none"), vec![]), today()));
    assert_eq!(config.fail_on, Some(FailOn::Off));
}

#[test]
fn invalid_expires_date_is_a_clear_error() {
    let message = err(resolve(&raw(None, None, vec![entry("openssl", None, Some("not-a-date"))]), today()));
    assert!(message.contains("openssl"), "{message}");
    assert!(message.contains("YYYY-MM-DD"), "{message}");
}

#[test]
fn ignore_reason_and_expiry_are_carried_through() {
    let config = ok(resolve(
        &raw(None, None, vec![entry("openssl", Some("vendored, patched internally"), Some("2027-01-01"))]),
        today(),
    ));
    assert_eq!(config.ignores.len(), 1);
    let e = &config.ignores[0];
    assert_eq!(e.crate_name, "openssl");
    assert_eq!(e.reason.as_deref(), Some("vendored, patched internally"));
    assert_eq!(e.expires, Some(Date { year: 2027, month: 1, day: 1 }));
    assert!(!e.is_expired);
}

#[test]
fn expired_ignore_is_flagged() {
    let config = ok(resolve(&raw(None, None, vec![entry("openssl", None, Some("2020-01-01"))]), today()));
    assert!(config.ignores[0].is_expired);
}

#[test]
fn ignore_with_no_expiry_never_expires() {
    let config = ok(resolve(&raw(None, None, vec![entry("openssl", None, None)]), today()));
    assert!(!config.ignores[0].is_expired);
}

#[test]
fn an_ignore_expiring_today_still_applies() {
    let config = ok(resolve(&raw(None, None, vec![entry("openssl", None, Some("2026-01-01"))]), today()));
    assert!(!config.ignores[0].is_expired);
}

#[test]
fn package_table_wins_over_the_workspace_table() {
    assert_eq!(chosen_table(Some("package"), Some("workspace")), Some("package"));
    assert_eq!(chosen_table(None, Some("workspace")), Some("workspace"));
    assert_eq!(chosen_table::<&str>(None, None), None);
}

#[test]
fn package_level_table_wins_over_workspace_level() {
    let pkg = raw(Some(30_000), None, vec![]);
    let ws = raw(Some(99_000), None, vec![]);
    let chosen = chosen_table(Some(pkg), Some(ws)).expect("a table is chosen");
    let config = ok(resolve(&chosen, today()));
    assert_eq!(config.threshold, Some(30_000));
}

#[test]
fn falls_back_to_workspace_level_when_package_has_none() {
    let ws = raw(Some(55_000), None, vec![]);
    let chosen = chosen_table(None, Some(ws)).expect("the workspace table is chosen");
    let config = ok(resolve(&chosen, today()));
    assert_eq!(config.threshold, Some(55_000));
}
