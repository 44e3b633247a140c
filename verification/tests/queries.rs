use coffee_core::coffee::CoffeeManager;
use coffee_core::errors::CoffeeError;
use coffee_core::types::{
    BuildOutcome, FetchOutcome, LanguageHint, PluginDescriptor, RefreshOutcome,
};

fn desc(name: &str, readme: &str) -> PluginDescriptor {
    PluginDescriptor {
        name: name.to_string(),
        repository_subpath: format!("plugins/{name}"),
        language_hint: LanguageHint::Compiled,
        readme: readme.to_string(),
    }
}

fn two_remote_engine() -> CoffeeManager {
    let mut c = CoffeeManager::new();
    c.setup(&"/home/user/.lightning".to_string()).unwrap();
    c.add_remote(
        &"first".to_string(),
        &"https://example/first".to_string(),
        &RefreshOutcome::Refreshed(vec![desc("relay", "relay readme")], "f0".to_string()),
        1,
    )
    .unwrap();
    c.add_remote(
        &"second".to_string(),
        &"https://example/second".to_string(),
        &RefreshOutcome::Refreshed(
            vec![desc("relay", "other"), desc("probe", "probe readme")],
            "s0".to_string(),
        ),
        2,
    )
    .unwrap();
    c
}

#[test]
fn search_returns_first_advertising_remote_url() {
    let c = two_remote_engine();
    assert_eq!(c.search(&"relay".to_string()).unwrap(), "https://example/first");
    assert_eq!(c.search(&"probe".to_string()).unwrap(), "https://example/second");
}

#[test]
fn search_unknown_plugin_not_found() {
    let c = two_remote_engine();
    let r = c.search(&"nope".to_string());
    assert!(matches!(r, Err(CoffeeError::PluginNotFound(n)) if n == "nope"));
}

#[test]
fn show_returns_first_declared_readme() {
    let c = two_remote_engine();
    assert_eq!(c.show(&"relay".to_string()).unwrap(), "relay readme");
    assert_eq!(c.show(&"probe".to_string()).unwrap(), "probe readme");
    assert!(matches!(
        c.show(&"nope".to_string()),
        Err(CoffeeError::PluginNotFound(_))
    ));
}

#[test]
fn list_remotes_is_a_pure_projection() {
    let c = two_remote_engine();
    let remotes = c.list_remotes();
    assert_eq!(remotes.len(), 2);
    assert_eq!(remotes[0].local_name, "first");
    assert_eq!(remotes[0].url, "https://example/first");
    assert_eq!(remotes[0].manifest.len(), 1);
    assert_eq!(remotes[1].local_name, "second");
    assert_eq!(remotes[1].manifest[1].name, "probe");
}

#[test]
fn remote_inspect_returns_the_manifest() {
    let c = two_remote_engine();
    let man = c.get_plugins_in_remote(&"second".to_string()).unwrap();
    assert_eq!(man.len(), 2);
    assert_eq!(man[0].name, "relay");
    assert_eq!(man[1].name, "probe");
    assert_eq!(man[1].repository_subpath, "plugins/probe");
    let r = c.get_plugins_in_remote(&"nowhere".to_string());
    assert!(matches!(r, Err(CoffeeError::RemoteNotFound(n)) if n == "nowhere"));
}

#[test]
fn tip_confirmed_accumulates_totals() {
    let mut c = two_remote_engine();
    c.install(
        &"probe".to_string(),
        false,
        false,
        &FetchOutcome::Fetched("s0".to_string()),
        &BuildOutcome::Success,
        true,
        10,
    )
    .unwrap();
    let first = c.tip(&"probe".to_string(), 2_000, true).unwrap();
    assert!(first.confirmed);
    assert_eq!(first.total_msat, 2_000);
    let second = c.tip(&"probe".to_string(), 500, true).unwrap();
    assert_eq!(second.total_msat, 2_500);
    assert_eq!(c.list()[0].tip_total_msat, 2_500);
}

#[test]
fn tip_payment_failure_mutates_nothing() {
    let mut c = two_remote_engine();
    c.install(
        &"probe".to_string(),
        false,
        false,
        &FetchOutcome::Fetched("s0".to_string()),
        &BuildOutcome::Success,
        true,
        10,
    )
    .unwrap();
    let out = c.tip(&"probe".to_string(), 9_000, false).unwrap();
    assert!(!out.confirmed);
    assert_eq!(out.total_msat, 0);
    assert_eq!(c.list()[0].tip_total_msat, 0);
}

#[test]
fn tip_unknown_plugin_not_found() {
    let mut c = two_remote_engine();
    let r = c.tip(&"ghost".to_string(), 100, true);
    assert!(matches!(r, Err(CoffeeError::PluginNotFound(n)) if n == "ghost"));
}

#[test]
fn error_messages_name_the_subject() {
    let e = CoffeeError::PluginNotFound("relay".to_string());
    assert_eq!(e.message(), "plugin not found: relay");
    let b = CoffeeError::BuildFailed("cc: exit 1".to_string());
    assert_eq!(b.message(), "build failed: cc: exit 1");
}
