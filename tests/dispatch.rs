use shortcuts::cache_manager::{CacheExtension, CacheShortcut, StoredCache};
use shortcuts::combination::{KeyCombination, Modifiers};
use shortcuts::config::Config;
use shortcuts::extension::{Extension, ShortcutHandler};
use shortcuts::extension_manager::{ExtensionManager, HandlerRef, SnapshotError};

fn key(m: Modifiers, code: &str) -> KeyCombination {
    KeyCombination::new(m, code)
}

fn clipboard() -> Extension<&'static str> {
    Extension {
        name: "Clipboard".to_string(),
        description: "Clipboard description".to_string(),
        shortcuts: vec![
            ShortcutHandler::with_default(
                "Copy".to_string(),
                "Copy the selected text to the clipboard".to_string(),
                "copy",
                key(Modifiers::meta(), "KeyC"),
            ),
            ShortcutHandler::with_default(
                "Paste".to_string(),
                "Paste the selected text to the clipboard".to_string(),
                "paste",
                key(Modifiers::meta(), "KeyV"),
            ),
        ],
    }
}

fn enabled_record(name: &str, overrides: Vec<(&str, KeyCombination)>) -> CacheExtension {
    CacheExtension {
        name: name.to_string(),
        shortcuts: overrides
            .into_iter()
            .map(|(n, k)| CacheShortcut { name: n.to_string(), shortcut: k })
            .collect(),
        enabled: true,
    }
}

/// Runs the handler bound to `k`, counting what ran.
fn press(m: &ExtensionManager<&'static str>, k: &KeyCombination, ran: &mut Vec<&'static str>) {
    if let Some(h) = m.listen(k) {
        ran.push(*h);
    }
}

#[test]
fn clipboard_scenario() {
    let mut m: ExtensionManager<&'static str> = ExtensionManager::new();
    m.register(clipboard());
    m.init(StoredCache::Empty);
    let snap = m.snapshot().unwrap();
    assert_eq!(snap.len(), 1);
    assert!(!snap[0].enabled);
    assert_eq!(snap[0].shortcuts[0].shortcut, "super+KeyC");
    assert_eq!(snap[0].shortcuts[1].shortcut, "super+KeyV");

    let mut ran = Vec::new();
    press(&m, &key(Modifiers::meta(), "KeyC"), &mut ran);
    assert!(ran.is_empty());

    m.init(StoredCache::Records(vec![enabled_record("Clipboard", vec![])]));
    press(&m, &key(Modifiers::meta(), "KeyC"), &mut ran);
    assert_eq!(ran, vec!["copy"]);
    press(&m, &key(Modifiers::meta(), "KeyV"), &mut ran);
    assert_eq!(ran, vec!["copy", "paste"]);
    press(&m, &key(Modifiers::control(), "KeyZ"), &mut ran);
    assert_eq!(ran, vec!["copy", "paste"]);
    assert!(m.snapshot().unwrap()[0].enabled);
}

#[test]
fn override_replaces_default() {
    let mut m: ExtensionManager<&'static str> = ExtensionManager::new();
    m.register(clipboard());
    m.init(StoredCache::Records(vec![enabled_record(
        "Clipboard",
        vec![("Copy", key(Modifiers::control(), "KeyR"))],
    )]));
    assert_eq!(m.lookup(&key(Modifiers::control(), "KeyR")), Some(HandlerRef { extension: 0, action: 0 }));
    assert_eq!(m.lookup(&key(Modifiers::meta(), "KeyC")), None);
    assert_eq!(m.lookup(&key(Modifiers::meta(), "KeyV")), Some(HandlerRef { extension: 0, action: 1 }));
    let snap = m.snapshot().unwrap();
    assert_eq!(snap[0].shortcuts[0].shortcut, "control+KeyR");
    assert_eq!(snap[0].shortcuts[1].shortcut, "super+KeyV");
}

#[test]
fn disabled_record_binds_nothing() {
    let mut m: ExtensionManager<&'static str> = ExtensionManager::new();
    m.register(clipboard());
    let mut r = enabled_record("Clipboard", vec![("Copy", key(Modifiers::alt(), "KeyE"))]);
    r.enabled = false;
    m.init(StoredCache::Records(vec![r]));
    assert_eq!(m.lookup(&key(Modifiers::alt(), "KeyE")), None);
    assert_eq!(m.lookup(&key(Modifiers::meta(), "KeyV")), None);
    let snap = m.snapshot().unwrap();
    assert!(!snap[0].enabled);
    assert_eq!(snap[0].shortcuts[0].shortcut, "alt+KeyE");
}

#[test]
fn record_for_unknown_extension_binds_nothing() {
    let mut m: ExtensionManager<&'static str> = ExtensionManager::new();
    m.register(clipboard());
    m.init(StoredCache::Records(vec![enabled_record(
        "Other",
        vec![("Copy", key(Modifiers::alt(), "KeyE"))],
    )]));
    assert_eq!(m.lookup(&key(Modifiers::alt(), "KeyE")), None);
    assert_eq!(m.lookup(&key(Modifiers::meta(), "KeyC")), None);
}

#[test]
fn conflicting_binding_last_built_wins() {
    let mut m: ExtensionManager<&'static str> = ExtensionManager::new();
    m.register(clipboard());
    m.init(StoredCache::Records(vec![enabled_record(
        "Clipboard",
        vec![("Paste", key(Modifiers::meta(), "KeyC"))],
    )]));
    assert_eq!(m.lookup(&key(Modifiers::meta(), "KeyC")), Some(HandlerRef { extension: 0, action: 1 }));
}

#[test]
fn rebuild_clears_old_bindings() {
    let mut m: ExtensionManager<&'static str> = ExtensionManager::new();
    m.register(clipboard());
    m.init(StoredCache::Records(vec![enabled_record("Clipboard", vec![])]));
    assert!(m.lookup(&key(Modifiers::meta(), "KeyC")).is_some());
    m.init(StoredCache::Malformed);
    assert_eq!(m.lookup(&key(Modifiers::meta(), "KeyC")), None);
}

#[test]
fn missing_default_is_an_error() {
    let mut m: ExtensionManager<&'static str> = ExtensionManager::new();
    m.register(Extension {
        name: "Notes".to_string(),
        description: "Notes".to_string(),
        shortcuts: vec![ShortcutHandler::new("Open".to_string(), "Open notes".to_string(), "open")],
    });
    assert_eq!(
        m.snapshot(),
        Err(SnapshotError::MissingDefaultCombination {
            extension: "Notes".to_string(),
            action: "Open".to_string()
        })
    );
    assert!(m.to_string().is_err());
    m.set_extensions(vec![enabled_record("Notes", vec![("Open", key(Modifiers::shift(), "KeyN"))])]);
    assert_eq!(m.snapshot().unwrap()[0].shortcuts[0].shortcut, "shift+KeyN");
    m.build_handler_mapper();
    m.build_shortcut_mapper();
    assert_eq!(m.lookup(&key(Modifiers::shift(), "KeyN")), Some(HandlerRef { extension: 0, action: 0 }));
}

#[test]
fn snapshot_text_escapes_names() {
    let mut m: ExtensionManager<&'static str> = ExtensionManager::new();
    m.register(Extension {
        name: "Say \"hi\"".to_string(),
        description: "d".to_string(),
        shortcuts: vec![ShortcutHandler::with_default(
            "a".to_string(),
            "b".to_string(),
            "a",
            key(Modifiers::none(), "KeyA"),
        )],
    });
    assert_eq!(
        m.to_string().unwrap(),
        r#"[{"description":"d","enabled":false,"name":"Say \"hi\"","shortcuts":[{"description":"b","name":"a","shortcut":"KeyA"}]}]"#
    );
}

#[test]
fn handler_describes_itself() {
    let h = ShortcutHandler::new("Copy".to_string(), "Copies \"it\"".to_string(), 7u32);
    assert_eq!(h.to_string(), r#"{"description":"Copies \"it\"","name":"Copy"}"#);
    assert_eq!(h.name(), "Copy");
    assert_eq!(h.description(), "Copies \"it\"");
    assert_eq!(*h.handle(), 7);
    assert!(h.default_shortcut.is_none());
}

#[test]
fn config_base_path() {
    let mut c = Config::with_base("/home/u".to_string(), ".shortcuts/config.json".to_string());
    assert_eq!(c.get_base_path(), "/home/u");
    c.set_base_path("/tmp/x".to_string());
    assert_eq!(c.get_base_path(), "/tmp/x");
    assert_eq!(c.get_relative_path(), ".shortcuts/config.json");
    let d = Config::new("rel.json".to_string());
    assert_eq!(d.get_relative_path(), "rel.json");
}

#[test]
fn later_override_in_a_record_wins() {
    let mut m: ExtensionManager<&'static str> = ExtensionManager::new();
    m.register(clipboard());
    m.init(StoredCache::Records(vec![enabled_record(
        "Clipboard",
        vec![
            ("Paste", key(Modifiers::alt(), "KeyE")),
            ("Copy", key(Modifiers::alt(), "KeyE")),
        ],
    )]));
    assert_eq!(m.lookup(&key(Modifiers::alt(), "KeyE")), Some(HandlerRef { extension: 0, action: 0 }));
    let mut ran = Vec::new();
    press(&m, &key(Modifiers::alt(), "KeyE"), &mut ran);
    assert_eq!(ran, vec!["copy"]);
}

#[test]
fn override_beats_default_of_another_action() {
    let mut m: ExtensionManager<&'static str> = ExtensionManager::new();
    m.register(clipboard());
    m.init(StoredCache::Records(vec![enabled_record(
        "Clipboard",
        vec![("Paste", key(Modifiers::meta(), "KeyC"))],
    )]));
    assert_eq!(m.lookup(&key(Modifiers::meta(), "KeyC")), Some(HandlerRef { extension: 0, action: 1 }));
    assert_eq!(m.lookup(&key(Modifiers::meta(), "KeyV")), None);
}

#[test]
fn every_override_of_an_action_is_bound() {
    let mut m: ExtensionManager<&'static str> = ExtensionManager::new();
    m.register(clipboard());
    m.init(StoredCache::Records(vec![enabled_record(
        "Clipboard",
        vec![
            ("Copy", key(Modifiers::alt(), "KeyE")),
            ("Copy", key(Modifiers::control(), "KeyE")),
        ],
    )]));
    assert_eq!(m.lookup(&key(Modifiers::alt(), "KeyE")), Some(HandlerRef { extension: 0, action: 0 }));
    assert_eq!(m.lookup(&key(Modifiers::control(), "KeyE")), Some(HandlerRef { extension: 0, action: 0 }));
    assert_eq!(m.lookup(&key(Modifiers::meta(), "KeyC")), None);
    assert_eq!(m.snapshot().unwrap()[0].shortcuts[0].shortcut, "alt+KeyE");
}

#[test]
fn override_for_unknown_action_binds_nothing() {
    let mut m: ExtensionManager<&'static str> = ExtensionManager::new();
    m.register(clipboard());
    m.init(StoredCache::Records(vec![enabled_record(
        "Clipboard",
        vec![("Cut", key(Modifiers::alt(), "KeyX"))],
    )]));
    assert_eq!(m.lookup(&key(Modifiers::alt(), "KeyX")), None);
    assert!(m.lookup(&key(Modifiers::meta(), "KeyC")).is_some());
}
