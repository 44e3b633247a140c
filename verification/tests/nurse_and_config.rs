use coffee_core::coffee::CoffeeManager;
use coffee_core::errors::CoffeeError;
use coffee_core::types::{
    BuildOutcome, FetchOutcome, InstallMode, InstalledPlugin, LanguageHint, PluginDescriptor,
    RefreshOutcome, Remote,
};

fn desc(name: &str, hint: LanguageHint) -> PluginDescriptor {
    PluginDescriptor {
        name: name.to_string(),
        repository_subpath: format!("plugins/{name}"),
        language_hint: hint,
        readme: String::new(),
    }
}

fn installed(name: &str, origin: &str, enabled: bool) -> InstalledPlugin {
    InstalledPlugin {
        name: name.to_string(),
        origin_remote: origin.to_string(),
        resolved_version: "c0".to_string(),
        artifact_path: format!("plugins/{origin}/{name}"),
        install_mode: InstallMode::Compiled,
        enabled,
        installed_at: 0,
        tip_total_msat: 0,
    }
}

fn engine_with_core() -> CoffeeManager {
    let mut c = CoffeeManager::new();
    c.setup(&"/home/user/.lightning".to_string()).unwrap();
    c.add_remote(
        &"core".to_string(),
        &"https://example/core-plugins".to_string(),
        &RefreshOutcome::Refreshed(vec![desc("relay", LanguageHint::Compiled)], "c0".to_string()),
        1,
    )
    .unwrap();
    c.install(
        &"relay".to_string(),
        false,
        false,
        &FetchOutcome::Fetched("c0".to_string()),
        &BuildOutcome::Success,
        true,
        10,
    )
    .unwrap();
    c
}

#[test]
fn enable_twice_is_a_no_op() {
    let mut c = engine_with_core();
    c.disable(&"relay".to_string(), true).unwrap();
    c.enable(&"relay".to_string(), true).unwrap();
    let plugins_once = c.list();
    let lines_once = c.config_lines();
    c.enable(&"relay".to_string(), true).unwrap();
    let plugins_twice = c.list();
    assert_eq!(plugins_twice.len(), plugins_once.len());
    assert_eq!(plugins_twice[0].name, plugins_once[0].name);
    assert_eq!(plugins_twice[0].enabled, plugins_once[0].enabled);
    assert_eq!(c.config_lines(), lines_once);
}

#[test]
fn disable_removes_directive_and_flag() {
    let mut c = engine_with_core();
    c.disable(&"relay".to_string(), true).unwrap();
    assert!(!c.list()[0].enabled);
    assert!(!c.config_lines().contains(&"plugin=relay".to_string()));
    // a second disable changes nothing
    let lines = c.config_lines();
    c.disable(&"relay".to_string(), true).unwrap();
    assert_eq!(c.config_lines(), lines);
}

#[test]
fn enable_unknown_plugin_not_found() {
    let mut c = engine_with_core();
    let r = c.enable(&"ghost".to_string(), true);
    assert!(matches!(r, Err(CoffeeError::PluginNotFound(n)) if n == "ghost"));
}

#[test]
fn enable_patch_failure_rolls_back_flag() {
    let mut c = engine_with_core();
    c.disable(&"relay".to_string(), true).unwrap();
    let r = c.enable(&"relay".to_string(), false);
    assert!(matches!(r, Err(CoffeeError::ConfigPatchFailed(_))));
    assert!(!c.list()[0].enabled);
    assert!(!c.config_lines().contains(&"plugin=relay".to_string()));
}

#[test]
fn remote_rm_in_use_is_refused() {
    let mut c = engine_with_core();
    let r = c.rm_remote(&"core".to_string(), false);
    assert!(matches!(r, Err(CoffeeError::RemoteInUse(n)) if n == "core"));
    assert_eq!(c.list_remotes().len(), 1);
    assert_eq!(c.list().len(), 1);
}

#[test]
fn remote_rm_forced_cascades_to_plugins() {
    let mut c = engine_with_core();
    c.rm_remote(&"core".to_string(), true).unwrap();
    assert!(c.list_remotes().is_empty());
    assert!(c.list().is_empty());
    assert!(!c.config_lines().contains(&"plugin=relay".to_string()));
}

#[test]
fn remote_add_duplicate_is_refused() {
    let mut c = engine_with_core();
    let r = c.add_remote(
        &"core".to_string(),
        &"https://elsewhere".to_string(),
        &RefreshOutcome::Refreshed(Vec::new(), "z".to_string()),
        5,
    );
    assert!(matches!(r, Err(CoffeeError::DuplicateRemote(n)) if n == "core"));
}

#[test]
fn remote_is_never_persisted_without_a_manifest_read() {
    let mut c = CoffeeManager::new();
    let r = c.add_remote(
        &"core".to_string(),
        &"https://example/core-plugins".to_string(),
        &RefreshOutcome::Failed("timeout".to_string()),
        5,
    );
    assert!(matches!(r, Err(CoffeeError::FetchFailed(cause)) if cause == "timeout"));
    assert!(c.list_remotes().is_empty());
}

#[test]
fn setup_is_idempotent_on_the_file() {
    let mut c = CoffeeManager::new();
    c.setup(&"/root/a".to_string()).unwrap();
    let lines_once = c.config_lines();
    c.setup(&"/root/b".to_string()).unwrap();
    assert_eq!(c.config_lines(), lines_once);
    assert_eq!(c.daemon_root(), Some("/root/b".to_string()));
}

#[test]
fn teardown_preserves_operator_lines() {
    let remotes: Vec<Remote> = Vec::new();
    let plugins: Vec<InstalledPlugin> = Vec::new();
    let config = vec![
        "alias=mynode".to_string(),
        "#coffee-plugins-begin".to_string(),
        "plugin=relay".to_string(),
        "#coffee-plugins-end".to_string(),
        "log-level=debug".to_string(),
    ];
    let mut c = CoffeeManager::from_parts(remotes, plugins, config, None);
    c.teardown(&"/root/a".to_string()).unwrap();
    assert_eq!(
        c.config_lines(),
        vec!["alias=mynode".to_string(), "log-level=debug".to_string()]
    );
    assert_eq!(c.daemon_root(), None);
}

#[test]
fn nurse_verify_reports_sane_after_clean_install() {
    let c = engine_with_core();
    let fs = vec!["remotes/core".to_string(), "plugins/core/relay".to_string()];
    let report = c.nurse_verify(&fs);
    assert!(report.is_sane());
}

#[test]
fn nurse_verify_names_each_drift() {
    let remotes = vec![Remote {
        local_name: "core".to_string(),
        url: "https://example/core-plugins".to_string(),
        manifest: vec![desc("good", LanguageHint::Compiled)],
        last_synced: 0,
    }];
    let plugins = vec![installed("good", "core", true), installed("ghost", "gone", true)];
    let config = vec![
        "#coffee-plugins-begin".to_string(),
        "plugin=stale".to_string(),
        "#coffee-plugins-end".to_string(),
    ];
    let c = CoffeeManager::from_parts(remotes, plugins, config, None);
    let fs = vec!["remotes/core".to_string()];
    let report = c.nurse_verify(&fs);
    assert!(!report.is_sane());
    assert!(report.orphan_plugins.contains(&"ghost".to_string()));
    assert!(report.missing_artifacts.contains(&"good".to_string()));
    assert!(report.config_drift.contains(&"good".to_string()));
    assert!(report.orphan_directives.contains(&"plugin=stale".to_string()));
    assert!(!report.missing_block);
}

#[test]
fn nurse_repair_converges_to_sane() {
    let remotes = vec![Remote {
        local_name: "core".to_string(),
        url: "https://example/core-plugins".to_string(),
        manifest: vec![desc("good", LanguageHint::Compiled)],
        last_synced: 0,
    }];
    let plugins = vec![installed("good", "core", true), installed("ghost", "gone", true)];
    let config = vec![
        "#coffee-plugins-begin".to_string(),
        "plugin=stale".to_string(),
        "#coffee-plugins-end".to_string(),
    ];
    let mut c = CoffeeManager::from_parts(remotes, plugins, config, None);
    let fs = vec!["remotes/core".to_string()];
    let requests = c.nurse(&fs);
    // the orphaned entry is dropped, never re-fetched from an unknown remote
    assert_eq!(c.list().len(), 1);
    assert_eq!(c.list()[0].name, "good");
    // only the surviving plugin's artifact is requested
    assert_eq!(requests, vec!["plugins/core/good".to_string()]);
    // the block is regenerated from the index
    assert!(c.config_lines().contains(&"plugin=good".to_string()));
    assert!(!c.config_lines().contains(&"plugin=stale".to_string()));
    // once the requested paths exist, the state verifies as sane
    let mut fs2 = fs.clone();
    for p in requests {
        fs2.push(p);
    }
    let report = c.nurse_verify(&fs2);
    assert!(report.is_sane());
}

#[test]
fn nurse_repair_creates_missing_block() {
    let remotes = vec![Remote {
        local_name: "core".to_string(),
        url: "https://example/core-plugins".to_string(),
        manifest: vec![desc("good", LanguageHint::Compiled)],
        last_synced: 0,
    }];
    let plugins = vec![installed("good", "core", true)];
    let config = vec!["alias=mynode".to_string()];
    let mut c = CoffeeManager::from_parts(remotes, plugins, config, None);
    let fs = vec!["remotes/core".to_string(), "plugins/core/good".to_string()];
    let requests = c.nurse(&fs);
    assert!(requests.is_empty());
    assert_eq!(
        c.config_lines(),
        vec![
            "alias=mynode".to_string(),
            "#coffee-plugins-begin".to_string(),
            "plugin=good".to_string(),
            "#coffee-plugins-end".to_string(),
        ]
    );
    assert!(c.nurse_verify(&fs).is_sane());
}
