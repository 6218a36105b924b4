use ashpk::errs::AshError;
use ashpk::manifest::{diff_packages, ProfileManifest, SetName};

fn manifest(system: &[&str], profile: &[&str]) -> ProfileManifest {
    let mut m = ProfileManifest::new();
    for p in system {
        m.add(SetName::SystemPackages, p).unwrap();
    }
    for p in profile {
        m.add(SetName::ProfilePackages, p).unwrap();
    }
    m
}

#[test]
fn add_keeps_sorted_order() {
    let m = manifest(&[], &["foo", "bar", "zip", "acl"]);
    assert_eq!(
        m.profile_packages(),
        &vec!["acl".to_string(), "bar".to_string(), "foo".to_string(), "zip".to_string()]
    );
}

#[test]
fn add_deduplicates() {
    let mut m = manifest(&[], &["foo"]);
    m.add(SetName::ProfilePackages, "foo").unwrap();
    assert_eq!(m.profile_packages(), &vec!["foo".to_string()]);
}

#[test]
fn system_owned_package_never_duplicated() {
    let mut m = manifest(&["foo"], &[]);
    m.add(SetName::ProfilePackages, "foo").unwrap();
    assert!(m.profile_packages().is_empty());
    assert!(m.is_system_package("foo"));
}

#[test]
fn add_rejects_invalid_names() {
    let mut m = ProfileManifest::new();
    assert_eq!(m.add(SetName::ProfilePackages, ""), Err(AshError::InvalidId));
    assert_eq!(m.add(SetName::ProfilePackages, "[x]"), Err(AshError::InvalidId));
    assert_eq!(m.add(SetName::ProfilePackages, "a\nb"), Err(AshError::InvalidId));
}

#[test]
fn remove_from_named_set() {
    let mut m = manifest(&["base"], &["foo", "bar"]);
    assert!(m.remove(SetName::ProfilePackages, "foo"));
    assert!(!m.remove(SetName::ProfilePackages, "foo"));
    assert_eq!(m.profile_packages(), &vec!["bar".to_string()]);
    assert!(m.remove(SetName::SystemPackages, "base"));
    assert!(m.system_packages().is_empty());
}

#[test]
fn contains_queries() {
    let m = manifest(&["base"], &["foo"]);
    assert!(m.contains(SetName::SystemPackages, "base"));
    assert!(m.contains(SetName::ProfilePackages, "foo"));
    assert!(!m.contains(SetName::ProfilePackages, "base"));
    assert!(!m.contains(SetName::SystemPackages, "foo"));
}

#[test]
fn save_canonical_rendering() {
    let m = manifest(&["base", "acl"], &["foo"]);
    assert_eq!(m.save(), "[system-packages]\nacl\nbase\n[profile-packages]\nfoo");
}

#[test]
fn save_empty_sections() {
    let m = ProfileManifest::new();
    assert_eq!(m.save(), "[system-packages]\n[profile-packages]");
}

#[test]
fn load_of_save_round_trip() {
    let m = manifest(&["base", "acl"], &["zip", "foo"]);
    let text = m.save();
    let loaded = ProfileManifest::load(&text).unwrap();
    assert_eq!(loaded.save(), text);
    assert_eq!(loaded.system_packages(), m.system_packages());
    assert_eq!(loaded.profile_packages(), m.profile_packages());
}

#[test]
fn load_rejects_corrupt_files() {
    // Missing leading header.
    assert!(matches!(ProfileManifest::load("foo"), Err(AshError::Corrupt)));
    // Missing profile header.
    assert!(matches!(ProfileManifest::load("[system-packages]\nfoo"), Err(AshError::Corrupt)));
    // Unsorted section.
    assert!(matches!(
        ProfileManifest::load("[system-packages]\nb\na\n[profile-packages]"),
        Err(AshError::Corrupt)
    ));
    // Duplicate entry.
    assert!(matches!(
        ProfileManifest::load("[system-packages]\na\na\n[profile-packages]"),
        Err(AshError::Corrupt)
    ));
    // One package in both sets.
    assert!(matches!(
        ProfileManifest::load("[system-packages]\na\n[profile-packages]\na"),
        Err(AshError::Corrupt)
    ));
    // Fine input for contrast.
    assert!(ProfileManifest::load("[system-packages]\na\n[profile-packages]\nb").is_ok());
}

#[test]
fn all_packages_merges_sorted() {
    let m = manifest(&["linux", "bash"], &["zip", "acl"]);
    assert_eq!(
        m.all_packages(),
        vec!["acl".to_string(), "bash".to_string(), "linux".to_string(), "zip".to_string()]
    );
}

#[test]
fn diff_lists_one_sided_packages() {
    let a = manifest(&["base"], &["foo", "bar"]);
    let b = manifest(&["base"], &["foo", "zip"]);
    assert_eq!(diff_packages(&a, &b), vec!["bar".to_string()]);
    assert_eq!(diff_packages(&b, &a), vec!["zip".to_string()]);
}

#[test]
fn duplicate_copies_contents() {
    let m = manifest(&["base"], &["foo"]);
    let c = m.duplicate();
    assert_eq!(c.save(), m.save());
}
