use ashpk::commands;
use ashpk::engine::Engine;
use ashpk::errs::{AshError, OpKind};
use ashpk::manifest::{ProfileManifest, SetName};
use ashpk::status::StatusLog;

fn manifest(system: &[&str], profile: &[&str]) -> ProfileManifest {
    let mut m = ProfileManifest::new();
    for p in system {
        m.add(SetName::SystemPackages, p).unwrap();
    }
    for p in profile {
        m.add(SetName::ProfilePackages, p).unwrap();
    }
    m
}

fn engine_with(snapshots: &[(&str, bool)]) -> Engine {
    let mut e = Engine::new("1");
    for (id, mutable) in snapshots {
        e.register_snapshot(id, *mutable, ProfileManifest::new()).unwrap();
    }
    e
}

#[test]
fn prepare_missing_snapshot_not_found() {
    let mut e = engine_with(&[("0", false), ("1", false)]);
    assert!(matches!(e.prepare("5"), Err(AshError::NotFound)));
}

#[test]
fn failed_prepare_changes_nothing() {
    // An install or uninstall aborted at `prepare` propagates the error
    // with no manifest loaded, changed or written and no overlay opened.
    let mut e = Engine::new("1");
    e.register_snapshot("1", false, manifest(&["base"], &["foo"])).unwrap();
    let manifest_before = e.render_manifest("1").unwrap();
    let status_before = e.render_status();
    assert!(matches!(e.prepare("9"), Err(AshError::NotFound)));
    assert_eq!(e.render_manifest("1").unwrap(), manifest_before);
    assert_eq!(e.render_status(), status_before);
    assert_eq!(e.is_in_use("1"), Some(false));
    assert_eq!(e.check_mutability("1"), Some(false));
}

#[test]
fn prepare_twice_in_use() {
    let mut e = engine_with(&[("1", false)]);
    e.prepare("1").unwrap();
    assert!(matches!(e.prepare("1"), Err(AshError::InUse)));
}

#[test]
fn prepare_base_protected() {
    let mut e = engine_with(&[("0", false)]);
    assert!(matches!(e.prepare("0"), Err(AshError::Protected)));
}

#[test]
fn install_records_package_sorted_once() {
    let mut e = Engine::new("1");
    e.register_snapshot("1", false, manifest(&[], &["zip", "acl"])).unwrap();
    let tx = e.prepare("1").unwrap();
    e.install_package_helper("1", "foo", true).unwrap();
    e.install_package_helper("1", "foo", true).unwrap();
    e.commit(tx);
    assert_eq!(
        e.no_dep_pkg_list("1", "").unwrap(),
        vec!["acl".to_string(), "foo".to_string(), "zip".to_string()]
    );
}

#[test]
fn install_command_carries_noninteractive_flag() {
    let cmds = commands::install_package_helper_chroot("1", &vec!["foo".to_string()], true);
    assert_eq!(
        cmds,
        vec![vec![
            "chroot".to_string(),
            "/.snapshots/rootfs/snapshot-chr1".to_string(),
            "apt-get".to_string(),
            "install".to_string(),
            "foo".to_string(),
            "-y".to_string(),
        ]]
    );
    let plain = commands::install_package_helper_chroot("1", &vec!["foo".to_string()], false);
    assert!(!plain[0].contains(&"-y".to_string()));
}

#[test]
fn failed_install_reports_operation_and_package() {
    let mut e = Engine::new("1");
    e.register_snapshot("1", false, ProfileManifest::new()).unwrap();
    let tx = e.prepare("1").unwrap();
    let r = e.install_package_helper("1", "foo", false);
    assert_eq!(
        r,
        Err(AshError::OperationFailed { op: OpKind::Install, pkg: Some("foo".to_string()) })
    );
    // The failure changed nothing; the caller now discards.
    e.discard(tx);
    assert_eq!(e.no_dep_pkg_list("1", "").unwrap(), Vec::<String>::new());
}

#[test]
fn locked_system_package_blocks_uninstall_before_any_command() {
    let mut e = Engine::new("1");
    e.register_snapshot("1", false, manifest(&["foo"], &["bar"])).unwrap();
    e.lockpkg(true);
    let tx = e.prepare("1").unwrap();
    // The whole-operation gate fires on the package list, before any
    // package-manager command is built or run.
    let pkgs = vec!["bar".to_string(), "foo".to_string()];
    assert_eq!(e.uninstall_precheck("1", &pkgs), Err(AshError::RemovalNotAllowed));
    // The per-package step refuses as well, whatever the exit flag says.
    assert_eq!(e.uninstall_package_helper("1", "foo", true), Err(AshError::RemovalNotAllowed));
    e.discard(tx);
    // The manifest still owns the package.
    assert_eq!(e.pkg_list("1", "").unwrap(), vec!["bar".to_string(), "foo".to_string()]);
}

#[test]
fn unlocked_uninstall_removes_from_owning_set() {
    let mut e = Engine::new("1");
    e.register_snapshot("1", false, manifest(&["foo"], &["bar"])).unwrap();
    let tx = e.prepare("1").unwrap();
    assert_eq!(e.uninstall_precheck("1", &vec!["foo".to_string()]), Ok(()));
    e.uninstall_package_helper("1", "foo", true).unwrap();
    e.uninstall_package_helper("1", "bar", true).unwrap();
    e.commit(tx);
    assert_eq!(e.pkg_list("1", "").unwrap(), Vec::<String>::new());
}

#[test]
fn auto_upgrade_missing_snapshot_leaves_status_untouched() {
    let mut e = engine_with(&[("0", false), ("1", false)]);
    let before = e.render_status();
    assert!(matches!(e.auto_upgrade("5"), Err(AshError::NotFound)));
    assert_eq!(e.render_status(), before);
    assert_eq!(e.upgrade_status(), None);
    assert_eq!(before, "");
}

#[test]
fn auto_upgrade_records_status_code_and_timestamp() {
    let mut e = engine_with(&[("1", false)]);
    let (tx, cmd) = e.auto_upgrade("1").unwrap();
    assert_eq!(
        cmd,
        vec![
            "chroot".to_string(),
            "/.snapshots/rootfs/snapshot-chr1".to_string(),
            "apt-get".to_string(),
            "update".to_string(),
            "-y".to_string(),
        ]
    );
    e.auto_upgrade_finish(tx, false, "Mon 1".to_string());
    assert_eq!(e.render_status(), "1 \nMon 1");
    assert_eq!(e.upgrade_status(), Some(false));
    // The next run overwrites the code but keeps the old timestamp line.
    let (tx, _) = e.auto_upgrade("1").unwrap();
    e.auto_upgrade_finish(tx, true, "Tue 2".to_string());
    assert_eq!(e.render_status(), "0 \nMon 1\nTue 2");
    assert_eq!(e.upgrade_status(), Some(true));
}

#[test]
fn status_history_survives_reload() {
    let mut e = engine_with(&[("1", false)]);
    let (tx, _) = e.auto_upgrade("1").unwrap();
    e.auto_upgrade_finish(tx, false, "Mon 1".to_string());
    let text = e.render_status();
    assert_eq!(text, "1 \nMon 1");
    // A later run reads the persisted file back before recording, so the
    // historical timestamp lines survive the code overwrite.
    let log = StatusLog::load(&text).unwrap();
    let mut e2 = engine_with(&[("1", false)]);
    e2.restore_status(log);
    assert_eq!(e2.upgrade_status(), Some(false));
    let (tx, _) = e2.auto_upgrade("1").unwrap();
    e2.auto_upgrade_finish(tx, true, "Tue 2".to_string());
    assert_eq!(e2.render_status(), "0 \nMon 1\nTue 2");
}

#[test]
fn status_load_cases() {
    let log = StatusLog::load("").unwrap();
    assert_eq!(log.latest(), None);
    assert_eq!(log.render(), "");
    let log = StatusLog::load("0 \na\nb").unwrap();
    assert_eq!(log.latest(), Some(true));
    assert_eq!(log.render(), "0 \na\nb");
    let log = StatusLog::load("1 ").unwrap();
    assert_eq!(log.latest(), Some(false));
    assert!(matches!(StatusLog::load("junk"), Err(AshError::Corrupt)));
}

#[test]
fn discard_restores_overlay_and_mutability() {
    let mut e = engine_with(&[("1", false)]);
    assert_eq!(e.check_mutability("1"), Some(false));
    assert_eq!(e.is_in_use("1"), Some(false));
    let tx = e.prepare("1").unwrap();
    assert!(tx.flipped);
    assert_eq!(e.check_mutability("1"), Some(true));
    assert_eq!(e.is_in_use("1"), Some(true));
    // A failing step forces the caller onto the discard path.
    assert!(e.install_package_helper("1", "foo", false).is_err());
    e.discard(tx);
    assert_eq!(e.is_in_use("1"), Some(false));
    assert_eq!(e.check_mutability("1"), Some(false));
    assert_eq!(e.pkg_list("1", "").unwrap(), Vec::<String>::new());
}

#[test]
fn commit_keeps_overlay_changes_discard_drops_them() {
    let mut e = Engine::new("1");
    e.register_snapshot("1", true, ProfileManifest::new()).unwrap();
    let tx = e.prepare("1").unwrap();
    assert!(!tx.flipped);
    e.install_package_helper("1", "foo", true).unwrap();
    // The working copy sees the package, the committed manifest not yet.
    assert_eq!(e.pkg_list("1", "chr").unwrap(), vec!["foo".to_string()]);
    assert_eq!(e.pkg_list("1", "").unwrap(), Vec::<String>::new());
    e.commit(tx);
    assert_eq!(e.pkg_list("1", "").unwrap(), vec!["foo".to_string()]);
    assert_eq!(e.check_mutability("1"), Some(true));

    let tx = e.prepare("1").unwrap();
    e.install_package_helper("1", "bar", true).unwrap();
    e.discard(tx);
    assert_eq!(e.pkg_list("1", "").unwrap(), vec!["foo".to_string()]);
}

#[test]
fn fix_package_db_checks() {
    let mut e = engine_with(&[("0", false), ("1", false), ("2", false)]);
    assert!(matches!(e.fix_package_db("5"), Err(AshError::NotFound)));
    assert!(matches!(e.fix_package_db("0"), Err(AshError::Protected)));
    let _tx = e.prepare("2").unwrap();
    assert!(matches!(e.fix_package_db("2"), Err(AshError::InUse)));
    assert_eq!(e.fix_package_db("1").unwrap(), "1");
}

#[test]
fn fix_package_db_empty_resolves_to_current() {
    // The engine runs on snapshot "1".
    let e = engine_with(&[("0", false), ("1", false)]);
    assert_eq!(e.fix_package_db("").unwrap(), "1");
    let base = Engine::new("0");
    let mut base = base;
    base.register_snapshot("0", false, ProfileManifest::new()).unwrap();
    // The current snapshot is the base: repairing it is refused.
    assert!(matches!(base.fix_package_db(""), Err(AshError::Protected)));
}

#[test]
fn missing_gpg_keys_parsed_from_update_output() {
    let out = "Hit:1 http://deb.example stable InRelease\n\
               W: GPG error: http://deb.example stable InRelease: NO_PUBKEY 3B4FE6ACC0B21F32\n\
               Reading package lists...";
    let keys = commands::missing_gpg_keys(out);
    assert_eq!(keys, vec![("3B4FE6ACC0B21F32".to_string(), "NO_PUBKEY".to_string())]);
    assert_eq!(commands::missing_gpg_keys("all fine"), Vec::<(String, String)>::new());
}

#[test]
fn gpg_commands() {
    assert_eq!(
        commands::gpg_recv_cmd("ABC"),
        vec![
            "gpg".to_string(),
            "--keyserver".to_string(),
            "hkp://keyserver.ubuntu.com:80".to_string(),
            "--recv-keys".to_string(),
            "ABC".to_string(),
        ]
    );
    assert_eq!(
        commands::gpg_export_line("ABC", "main"),
        "gpg --export ABC | tee /usr/share/keyrings/main.gpg"
    );
}

#[test]
fn snapshot_diff_both_sides() {
    let mut e = Engine::new("1");
    e.register_snapshot("1", false, manifest(&["base"], &["foo"])).unwrap();
    e.register_snapshot("2", false, manifest(&["base"], &["zip"])).unwrap();
    let (only1, only2) = e.snapshot_diff("1", "2").unwrap();
    assert_eq!(only1, vec!["foo".to_string()]);
    assert_eq!(only2, vec!["zip".to_string()]);
    assert!(matches!(e.snapshot_diff("1", "9"), Err(AshError::NotFound)));
}

#[test]
fn tree_sync_copies_profile_packages() {
    let mut e = Engine::new("1");
    e.register_snapshot("1", false, manifest(&[], &["foo", "acl"])).unwrap();
    e.register_snapshot("2", false, manifest(&["foo"], &["zip"])).unwrap();
    e.tree_sync_helper("1", "2").unwrap();
    // "foo" stays system-owned in the target; "acl" is carried over.
    assert_eq!(
        e.no_dep_pkg_list("2", "").unwrap(),
        vec!["acl".to_string(), "zip".to_string()]
    );
    assert_eq!(
        e.pkg_list("2", "").unwrap(),
        vec!["acl".to_string(), "foo".to_string(), "zip".to_string()]
    );
    assert!(matches!(e.tree_sync_helper("1", "9"), Err(AshError::NotFound)));
}

#[test]
fn bootstrap_reinstalls_system_set() {
    let mut e = Engine::new("1");
    e.register_snapshot("1", false, manifest(&["linux", "bash"], &["zip"])).unwrap();
    let cmds = e.bootstrap("1").unwrap();
    assert_eq!(cmds.len(), 2);
    assert_eq!(
        cmds[0],
        vec![
            "chroot".to_string(),
            "/.snapshots/rootfs/snapshot-chr1".to_string(),
            "apt-get".to_string(),
            "install".to_string(),
            "bash".to_string(),
            "-y".to_string(),
        ]
    );
    assert_eq!(cmds[1][4], "linux".to_string());
}

#[test]
fn command_builders() {
    assert_eq!(
        commands::refresh_helper("3"),
        vec![
            "chroot".to_string(),
            "/.snapshots/rootfs/snapshot-chr3".to_string(),
            "apt-get".to_string(),
            "update".to_string(),
            "-y".to_string(),
        ]
    );
    let up = commands::upgrade_helper("3", true);
    assert_eq!(up.len(), 2);
    assert_eq!(up[1][3], "upgrade".to_string());
    assert_eq!(up[1][4], "-y".to_string());
    let live = commands::upgrade_helper_live("4", false);
    assert_eq!(live[1], "/.snapshots/rootfs/snapshot-4".to_string());
    assert!(!live.contains(&"-y".to_string()));
    assert_eq!(
        commands::pkg_query("nano"),
        vec!["apt-cache".to_string(), "show".to_string(), "nano".to_string()]
    );
    assert_eq!(commands::clean_cache("3"), "/.snapshots/rootfs/snapshot-chr3/var/cache/apt");
}

#[test]
fn cache_copy_directions() {
    let into_overlay = commands::cache_copy("1", "2", true);
    assert_eq!(into_overlay[4], "/.snapshots/rootfs/snapshot-1/var/cache/apt");
    assert_eq!(into_overlay[5], "/.snapshots/rootfs/snapshot-chr2/var/cache/apt");
    let back_to_shared = commands::cache_copy("1", "2", false);
    assert_eq!(back_to_shared[4], "/.snapshots/rootfs/snapshot-chr1/var/cache/apt");
    assert_eq!(back_to_shared[5], "/.snapshots/rootfs/snapshot-2/var/cache/apt");
}

#[test]
fn clean_chroot_lines() {
    let hooks = vec!["pre-clean --all".to_string()];
    let lines = commands::clean_chroot("1", &hooks);
    assert_eq!(lines.len(), 2);
    assert_eq!(lines[0], "chroot /.snapshots/rootfs/snapshot-chr1 pre-clean --all");
    assert!(lines[1].starts_with("chroot /.snapshots/rootfs/snapshot-chr1 apt-get remove --purge"));
}

#[test]
fn service_commands_and_probe() {
    let cmds = commands::service_enable("1", &vec!["sshd".to_string()], "chr");
    assert_eq!(
        cmds,
        vec![vec![
            "chroot".to_string(),
            "/.snapshots/rootfs/snapshot-chr1".to_string(),
            "systemctl".to_string(),
            "enable".to_string(),
            "sshd".to_string(),
        ]]
    );
    let cmds = commands::service_disable("1", &vec!["sshd".to_string()], "");
    assert_eq!(cmds[0][1], "/.snapshots/rootfs/snapshot-1".to_string());
    assert_eq!(cmds[0][3], "disable".to_string());
    assert!(commands::is_service_enabled("enabled"));
    // Raw command output carries a trailing newline; it is trimmed.
    assert!(commands::is_service_enabled("enabled\n"));
    assert!(commands::is_service_enabled("  enabled \n"));
    assert!(!commands::is_service_enabled("disabled\n"));
    assert!(!commands::is_service_enabled(""));
}

#[test]
fn system_config_copy() {
    let cmd = commands::system_config("1", "2");
    assert_eq!(cmd[3], "/.snapshots/rootfs/snapshot-1/etc");
    assert_eq!(cmd[4], "/.snapshots/rootfs/snapshot-chr2/etc");
}

#[test]
fn command_result_classifies_exits() {
    assert_eq!(commands::command_result(OpKind::Upgrade, None, true), Ok(()));
    assert_eq!(
        commands::command_result(OpKind::RefreshIndex, Some("x"), false),
        Err(AshError::OperationFailed { op: OpKind::RefreshIndex, pkg: Some("x".to_string()) })
    );
}

#[test]
fn lock_flag_and_current_snapshot() {
    let mut e = Engine::new("7");
    assert_eq!(e.get_current_snapshot(), "7");
    assert!(!e.is_locked());
    e.lockpkg(true);
    assert!(e.is_locked());
    e.lockpkg(false);
    assert!(!e.is_locked());
}

#[test]
fn render_manifest_writes_canonical_form() {
    let mut e = Engine::new("1");
    e.register_snapshot("1", false, manifest(&["base"], &["foo"])).unwrap();
    assert_eq!(
        e.render_manifest("1").unwrap(),
        "[system-packages]\nbase\n[profile-packages]\nfoo"
    );
    assert!(matches!(e.render_manifest("9"), Err(AshError::NotFound)));
}

#[test]
fn register_rejects_duplicates() {
    let mut e = engine_with(&[("1", false)]);
    assert_eq!(
        e.register_snapshot("1", false, ProfileManifest::new()),
        Err(AshError::DuplicateId)
    );
    assert!(e.snapshot_exists("1"));
    assert!(!e.snapshot_exists("2"));
}
