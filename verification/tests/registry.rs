use depcheck::registry::{to_metadata, Metadata};
use depcheck::version::SemVer;
use tame_index::{IndexKrate, IndexVersion};

fn fake_version(version: &str, pubtime: Option<&str>, yanked: bool) -> IndexVersion {
    let mut v = IndexVersion::fake("test-crate", version);
    v.yanked = yanked;
    v.pubtime = pubtime.map(Into::into);
    v
}

#[test]
fn latest_stable_prefers_stable_over_newest() {
    let meta = Metadata {
        newest_version: SemVer::new(2, 0, 0),
        max_stable_version: Some(SemVer::new(1, 5, 0)),
        stable_versions: vec![SemVer::new(1, 5, 0)],
        updated_at: 0,
        yanked_versions: Vec::new(),
    };
    assert_eq!(meta.latest_stable().to_text(), "1.5.0");
}

#[test]
fn latest_stable_falls_back_to_newest_when_no_stable_exists() {
    let meta = Metadata {
        newest_version: SemVer::new(2, 0, 0),
        max_stable_version: None,
        stable_versions: Vec::new(),
        updated_at: 0,
        yanked_versions: Vec::new(),
    };
    assert_eq!(meta.latest_stable().to_text(), "2.0.0");
}

#[test]
fn is_yanked_checks_the_yanked_list() {
    let meta = Metadata {
        newest_version: SemVer::new(1, 0, 0),
        max_stable_version: None,
        stable_versions: Vec::new(),
        updated_at: 0,
        yanked_versions: vec![SemVer::new(0, 9, 0)],
    };
    assert!(meta.is_yanked(&SemVer::new(0, 9, 0)));
    assert!(!meta.is_yanked(&SemVer::new(1, 0, 0)));
}

#[test]
fn to_metadata_picks_max_pubtime_not_highest_semver_version() {
    let mut versions = vec![
        fake_version("1.0.0", Some("2020-01-01T00:00:00Z"), false),
        fake_version("0.9.0", Some("2026-01-01T00:00:00Z"), false),
    ];
    versions.sort_by(|a, b| a.version.cmp(&b.version));
    let meta = to_metadata(&IndexKrate { versions }, 0).ok().unwrap();
    assert_eq!(meta.updated_at, 1_767_225_600);
}

#[test]
fn to_metadata_excludes_yanked_from_max_stable_version() {
    let krate = IndexKrate {
        versions: vec![
            fake_version("1.0.0", Some("2020-01-01T00:00:00Z"), false),
            fake_version("2.0.0", Some("2021-01-01T00:00:00Z"), true),
        ],
    };
    let meta = to_metadata(&krate, 0).ok().unwrap();
    assert_eq!(meta.max_stable_version.as_ref().map(|v| v.to_text()).as_deref(), Some("1.0.0"));
    assert_eq!(meta.newest_version.to_text(), "2.0.0");
    assert!(meta.is_yanked(&SemVer::new(2, 0, 0)));
    assert_eq!(meta.stable_versions.len(), 1);
}

#[test]
fn to_metadata_takes_the_highest_version_not_the_last_listed() {
    let krate = IndexKrate {
        versions: vec![
            fake_version("1.2.0", None, false),
            fake_version("2.0.0-beta.1", None, false),
            fake_version("1.10.0", None, false),
            fake_version("1.3.0", None, false),
        ],
    };
    let meta = to_metadata(&krate, 0).ok().unwrap();
    assert_eq!(meta.newest_version.to_text(), "2.0.0-beta.1");
    assert_eq!(meta.max_stable_version.as_ref().map(|v| v.to_text()).as_deref(), Some("1.10.0"));
}

#[test]
fn to_metadata_without_publish_times_counts_as_just_published() {
    let krate = IndexKrate { versions: vec![fake_version("1.0.0", None, false)] };
    let meta = to_metadata(&krate, 42).ok().unwrap();
    assert_eq!(meta.updated_at, 42);
}

#[test]
fn to_metadata_rejects_an_entry_whose_versions_do_not_parse() {
    let krate = IndexKrate { versions: vec![fake_version("not-a-version", None, false)] };
    let err = to_metadata(&krate, 0).err().unwrap();
    assert_eq!(err.message(), "invalid version in index");
}

#[test]
fn only_yanked_versions_leave_no_stable_target() {
    let krate = IndexKrate { versions: vec![fake_version("1.0.0", None, true)] };
    let meta = to_metadata(&krate, 0).ok().unwrap();
    assert!(meta.max_stable_version.is_none());
    assert_eq!(meta.latest_stable().to_text(), "1.0.0");
}

#[test]
fn latest_compatible_stays_on_the_compatibility_line() {
    let meta = Metadata {
        newest_version: SemVer::new(2, 3, 0),
        max_stable_version: Some(SemVer::new(2, 3, 0)),
        stable_versions: vec![SemVer::new(1, 0, 0), SemVer::new(1, 5, 0), SemVer::new(2, 3, 0)],
        updated_at: 0,
        yanked_versions: Vec::new(),
    };
    assert_eq!(meta.latest_compatible(&SemVer::new(1, 0, 0)).map(|v| v.to_text()).as_deref(), Some("1.5.0"));
    assert!(meta.latest_compatible(&SemVer::new(2, 3, 0)).is_none());
}

#[test]
fn an_entry_without_versions_gives_no_metadata() {
    assert!(depcheck::registry::metadata_of(&IndexKrate { versions: Vec::new() }, 0).is_none());
    let one = IndexKrate { versions: vec![fake_version("0.3.1", None, false)] };
    let meta = depcheck::registry::metadata_of(&one, 7).unwrap().ok().unwrap();
    assert_eq!(meta.newest_version.to_text(), "0.3.1");
    assert_eq!(meta.updated_at, 7);
}
