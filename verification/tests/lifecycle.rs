use coffee_core::coffee::CoffeeManager;
use coffee_core::errors::CoffeeError;
use coffee_core::types::{
    BuildOutcome, FetchOutcome, LanguageHint, PluginDescriptor, RefreshOutcome, UpgradeStatus,
};

fn desc(name: &str, hint: LanguageHint) -> PluginDescriptor {
    PluginDescriptor {
        name: name.to_string(),
        repository_subpath: format!("plugins/{name}"),
        language_hint: hint,
        readme: format!("# {name}\nA plugin."),
    }
}

fn core_manifest() -> Vec<PluginDescriptor> {
    vec![
        desc("forward-fee", LanguageHint::Compiled),
        desc("relay", LanguageHint::Interpreted),
    ]
}

fn engine_with_core() -> CoffeeManager {
    let mut c = CoffeeManager::new();
    c.setup(&"/home/user/.lightning".to_string()).unwrap();
    c.add_remote(
        &"core".to_string(),
        &"https://example/core-plugins".to_string(),
        &RefreshOutcome::Refreshed(core_manifest(), "c0".to_string()),
        1,
    )
    .unwrap();
    c
}

fn install_ok(c: &mut CoffeeManager, name: &str) {
    c.install(
        &name.to_string(),
        false,
        false,
        &FetchOutcome::Fetched("c0".to_string()),
        &BuildOutcome::Success,
        true,
        10,
    )
    .unwrap();
}

#[test]
fn install_registers_and_activates() {
    let mut c = engine_with_core();
    install_ok(&mut c, "forward-fee");
    let list = c.list();
    assert_eq!(list.len(), 1);
    assert_eq!(list[0].name, "forward-fee");
    assert_eq!(list[0].origin_remote, "core");
    assert_eq!(list[0].resolved_version, "c0");
    assert_eq!(list[0].artifact_path, "plugins/core/forward-fee");
    assert!(list[0].enabled);
    assert_eq!(list[0].tip_total_msat, 0);
    let lines = c.config_lines();
    assert!(lines.contains(&"plugin=forward-fee".to_string()));
}

#[test]
fn install_twice_is_already_installed() {
    let mut c = engine_with_core();
    install_ok(&mut c, "forward-fee");
    let lines_before = c.config_lines();
    let r = c.install(
        &"forward-fee".to_string(),
        false,
        false,
        &FetchOutcome::Fetched("c9".to_string()),
        &BuildOutcome::Success,
        true,
        20,
    );
    assert!(matches!(r, Err(CoffeeError::AlreadyInstalled(n)) if n == "forward-fee"));
    assert_eq!(c.list().len(), 1);
    assert_eq!(c.list()[0].resolved_version, "c0");
    assert_eq!(c.config_lines(), lines_before);
}

#[test]
fn install_unknown_plugin_not_found() {
    let mut c = engine_with_core();
    let r = c.install(
        &"nope".to_string(),
        false,
        false,
        &FetchOutcome::Fetched("c0".to_string()),
        &BuildOutcome::Success,
        true,
        10,
    );
    assert!(matches!(r, Err(CoffeeError::PluginNotFound(n)) if n == "nope"));
    assert!(c.list().is_empty());
}

#[test]
fn install_ambiguous_lists_both_remotes() {
    let mut c = engine_with_core();
    c.add_remote(
        &"extra".to_string(),
        &"https://example/extra".to_string(),
        &RefreshOutcome::Refreshed(vec![desc("relay", LanguageHint::Compiled)], "e0".to_string()),
        2,
    )
    .unwrap();
    let r = c.install(
        &"relay".to_string(),
        false,
        false,
        &FetchOutcome::Fetched("c0".to_string()),
        &BuildOutcome::Success,
        true,
        10,
    );
    match r {
        Err(CoffeeError::AmbiguousPlugin(n, remotes)) => {
            assert_eq!(n, "relay");
            assert_eq!(remotes, vec!["core".to_string(), "extra".to_string()]);
        },
        other => panic!("expected AmbiguousPlugin, got {:?}", other),
    }
    assert!(c.list().is_empty());
}

#[test]
fn install_fetch_failure_leaves_state() {
    let mut c = engine_with_core();
    let r = c.install(
        &"forward-fee".to_string(),
        false,
        false,
        &FetchOutcome::Failed("network down".to_string()),
        &BuildOutcome::Success,
        true,
        10,
    );
    assert!(matches!(r, Err(CoffeeError::FetchFailed(cause)) if cause == "network down"));
    assert!(c.list().is_empty());
}

#[test]
fn install_build_failure_leaves_state() {
    let mut c = engine_with_core();
    let r = c.install(
        &"forward-fee".to_string(),
        false,
        false,
        &FetchOutcome::Fetched("c0".to_string()),
        &BuildOutcome::Failure("cc: error".to_string()),
        true,
        10,
    );
    assert!(matches!(r, Err(CoffeeError::BuildFailed(out)) if out == "cc: error"));
    assert!(c.list().is_empty());
    assert!(!c.config_lines().contains(&"plugin=forward-fee".to_string()));
}

#[test]
fn install_patch_failure_rolls_back_registration() {
    let mut c = engine_with_core();
    let lines_before = c.config_lines();
    let r = c.install(
        &"forward-fee".to_string(),
        false,
        false,
        &FetchOutcome::Fetched("c0".to_string()),
        &BuildOutcome::Success,
        false,
        10,
    );
    assert!(matches!(r, Err(CoffeeError::ConfigPatchFailed(_))));
    assert!(c.list().is_empty());
    assert_eq!(c.config_lines(), lines_before);
}

#[test]
fn install_dynamic_override_forces_dynamic_mode() {
    let mut c = engine_with_core();
    c.install(
        &"forward-fee".to_string(),
        false,
        true,
        &FetchOutcome::Fetched("c0".to_string()),
        &BuildOutcome::Success,
        true,
        10,
    )
    .unwrap();
    assert!(matches!(c.list()[0].install_mode, coffee_core::types::InstallMode::Dynamic));
}

#[test]
fn upgrade_without_change_is_up_to_date() {
    let mut c = engine_with_core();
    install_ok(&mut c, "forward-fee");
    let plugins_before = c.list();
    let lines_before = c.config_lines();
    let builds = vec![BuildOutcome::Success];
    let out = c
        .upgrade(
            &"core".to_string(),
            false,
            &RefreshOutcome::Refreshed(core_manifest(), "c0".to_string()),
            &builds,
            30,
        )
        .unwrap();
    assert_eq!(out.status, UpgradeStatus::UpToDate);
    assert!(out.failed.is_empty());
    let plugins_after = c.list();
    assert_eq!(plugins_after.len(), plugins_before.len());
    assert_eq!(plugins_after[0].resolved_version, plugins_before[0].resolved_version);
    assert_eq!(plugins_after[0].artifact_path, plugins_before[0].artifact_path);
    assert_eq!(c.config_lines(), lines_before);
}

#[test]
fn upgrade_moves_plugin_to_new_version_in_place() {
    let mut c = engine_with_core();
    install_ok(&mut c, "forward-fee");
    let builds = vec![BuildOutcome::Success];
    let out = c
        .upgrade(
            &"core".to_string(),
            false,
            &RefreshOutcome::Refreshed(core_manifest(), "c1".to_string()),
            &builds,
            30,
        )
        .unwrap();
    assert_eq!(out.status, UpgradeStatus::Updated);
    assert!(out.failed.is_empty());
    let list = c.list();
    assert_eq!(list[0].resolved_version, "c1");
    assert_eq!(list[0].artifact_path, "plugins/core/forward-fee");
}

#[test]
fn upgrade_build_failure_keeps_previous_install() {
    let mut c = engine_with_core();
    install_ok(&mut c, "forward-fee");
    let builds = vec![BuildOutcome::Failure("ld: boom".to_string())];
    let out = c
        .upgrade(
            &"core".to_string(),
            false,
            &RefreshOutcome::Refreshed(core_manifest(), "c1".to_string()),
            &builds,
            30,
        )
        .unwrap();
    assert_eq!(out.status, UpgradeStatus::Updated);
    assert_eq!(out.failed.len(), 1);
    assert_eq!(out.failed[0].0, "forward-fee");
    assert_eq!(out.failed[0].1, "ld: boom");
    let list = c.list();
    assert_eq!(list[0].resolved_version, "c0");
    assert_eq!(list[0].artifact_path, "plugins/core/forward-fee");
}

#[test]
fn upgrade_unknown_remote_not_found() {
    let mut c = engine_with_core();
    let builds: Vec<BuildOutcome> = Vec::new();
    let r = c.upgrade(
        &"nowhere".to_string(),
        false,
        &RefreshOutcome::Refreshed(Vec::new(), "x".to_string()),
        &builds,
        30,
    );
    assert!(matches!(r, Err(CoffeeError::RemoteNotFound(n)) if n == "nowhere"));
}

#[test]
fn upgrade_refresh_failure_reports_fetch_error() {
    let mut c = engine_with_core();
    let builds: Vec<BuildOutcome> = Vec::new();
    let r = c.upgrade(
        &"core".to_string(),
        false,
        &RefreshOutcome::Failed("offline".to_string()),
        &builds,
        30,
    );
    assert!(matches!(r, Err(CoffeeError::FetchFailed(cause)) if cause == "offline"));
}

#[test]
fn remove_uninstalls_and_deactivates() {
    let mut c = engine_with_core();
    install_ok(&mut c, "forward-fee");
    c.remove(&"forward-fee".to_string()).unwrap();
    assert!(c.list().is_empty());
    assert!(!c.config_lines().contains(&"plugin=forward-fee".to_string()));
}

#[test]
fn remove_unknown_plugin_not_found() {
    let mut c = engine_with_core();
    let r = c.remove(&"ghost".to_string());
    assert!(matches!(r, Err(CoffeeError::PluginNotFound(n)) if n == "ghost"));
}
