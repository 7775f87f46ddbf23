use serde_json::Value;
use shortcuts::cache_manager::{CacheExtension, CacheManager, CacheShortcut, StoredCache};
use shortcuts::combination::{KeyCombination, Modifiers};

fn record(name: &str, action: &str, shortcut: KeyCombination, enabled: bool) -> CacheExtension {
    CacheExtension {
        name: name.to_string(),
        shortcuts: vec![CacheShortcut { name: action.to_string(), shortcut }],
        enabled,
    }
}

/// Reads stored text back the way the host does, field by field.
fn decode(text: &str) -> Vec<CacheExtension> {
    let value: Value = serde_json::from_str(text).unwrap();
    value
        .as_array()
        .unwrap()
        .iter()
        .map(|r| {
            let shortcuts: Vec<(String, String)> = r["shortcuts"]
                .as_array()
                .unwrap()
                .iter()
                .map(|s| {
                    (
                        s["name"].as_str().unwrap().to_string(),
                        s["shortcut"].as_str().unwrap().to_string(),
                    )
                })
                .collect();
            CacheExtension::from_stored(
                r["name"].as_str().unwrap().to_string(),
                r["enabled"].as_bool().unwrap(),
                &shortcuts,
            )
            .unwrap()
        })
        .collect()
}

#[test]
fn test_add_shortcut() {
    let mut cache_manager =
        CacheManager::new(Some(".shortcuts/__test__/test_add_shortcut.json".to_string()));
    let shortcut = KeyCombination::new(Modifiers::alt(), "KeyE");
    cache_manager.add(record("test", "test", shortcut.clone(), true));
    assert_eq!(cache_manager.extensions().len(), 1);
}

#[test]
fn test_write_to_cache_when_empty() {
    let cache_manager = CacheManager::new(Some(
        "..shortcuts/__test__/test_write_to_cache_when_empty.json".to_string(),
    ));
    assert_eq!(cache_manager.to_store_text(), None);
}

#[test]
fn test_read_from_cache_when_empty() {
    let mut cache_manager = CacheManager::new(Some(
        ".shortcuts/__test__/test_read_from_cache_when_empty.json".to_string(),
    ));
    cache_manager.read_from_store(StoredCache::Empty);
    assert_eq!(cache_manager.extensions().len(), 0);
}

#[test]
fn test_read_from_cache_when_exist() {
    let mut cache_manager = CacheManager::new(None);
    cache_manager.add(record("test", "test", KeyCombination::new(Modifiers::alt(), "KeyE"), true));
    let text = cache_manager.to_store_text().unwrap();
    let mut loaded = CacheManager::new(None);
    loaded.read_from_store(StoredCache::Records(decode(&text)));
    assert_eq!(loaded.extensions().len(), 1);
}

#[test]
fn test_write_to_cache_when_exist() {
    let mut cache_manager = CacheManager::new(None);
    let cache_extension1 =
        record("test", "test", KeyCombination::new(Modifiers::alt(), "KeyE"), true);
    let cache_extension2 =
        record("test", "test", KeyCombination::new(Modifiers::control(), "KeyR"), true);
    cache_manager.add(cache_extension1.clone());
    cache_manager.add(cache_extension2.clone());
    let text = cache_manager.to_store_text().unwrap();
    let mut loaded = CacheManager::new(None);
    loaded.read_from_store(StoredCache::Records(decode(&text)));
    assert_eq!(loaded.extensions().len(), 2);
    assert_eq!(loaded.extensions()[0], cache_extension1);
    assert_eq!(loaded.extensions()[1], cache_extension2);
}

#[test]
fn store_text_is_exact() {
    let mut cache_manager = CacheManager::new(None);
    cache_manager.add(record("test", "go", KeyCombination::new(Modifiers::alt(), "KeyE"), false));
    assert_eq!(
        cache_manager.to_store_text().unwrap(),
        r#"[{"name":"test","shortcuts":[{"name":"go","shortcut":"alt+KeyE"}],"enabled":false}]"#
    );
}

#[test]
fn store_round_trip_all_modifiers() {
    let all = Modifiers::meta()
        .union(Modifiers::alt())
        .union(Modifiers::control())
        .union(Modifiers::shift());
    let mut cache_manager = CacheManager::new(None);
    let records = vec![
        record("a", "x", KeyCombination::new(Modifiers::meta(), "KeyC"), true),
        record("b", "y", KeyCombination::new(Modifiers::alt(), "KeyV"), false),
        record("c\"q", "z", KeyCombination::new(Modifiers::control(), "KeyV"), true),
        record("d", "w\\", KeyCombination::new(Modifiers::shift(), "KeyV"), true),
        record("e", "v", KeyCombination::new(all, "Space"), true),
        CacheExtension { name: "f".to_string(), shortcuts: vec![], enabled: true },
    ];
    for r in records.iter() {
        cache_manager.add(r.clone());
    }
    let text = cache_manager.to_store_text().unwrap();
    assert_eq!(decode(&text), records);
}

#[test]
fn stored_outcomes() {
    let mut cache_manager = CacheManager::new(None);
    cache_manager.add(record("a", "x", KeyCombination::new(Modifiers::meta(), "KeyC"), true));
    cache_manager.read_from_store(StoredCache::Empty);
    assert_eq!(cache_manager.extensions().len(), 1);
    cache_manager.read_from_store(StoredCache::Malformed);
    assert_eq!(cache_manager.extensions().len(), 0);
    cache_manager.replace_from(vec![
        record("a", "x", KeyCombination::new(Modifiers::meta(), "KeyC"), true),
        record("b", "x", KeyCombination::new(Modifiers::meta(), "KeyC"), true),
    ]);
    assert_eq!(cache_manager.extensions().len(), 2);
}

#[test]
fn find_takes_last_record_of_a_name() {
    let mut cache_manager = CacheManager::new(None);
    cache_manager.add(record("a", "x", KeyCombination::new(Modifiers::meta(), "KeyC"), true));
    cache_manager.add(record("b", "x", KeyCombination::new(Modifiers::meta(), "KeyC"), true));
    cache_manager.add(record("a", "x", KeyCombination::new(Modifiers::alt(), "KeyC"), false));
    assert_eq!(cache_manager.find(&"a".to_string()), Some(2));
    assert_eq!(cache_manager.find(&"b".to_string()), Some(1));
    assert_eq!(cache_manager.find(&"c".to_string()), None);
}

#[test]
fn default_location() {
    let cache_manager = CacheManager::new(None);
    assert_eq!(cache_manager.config().get_relative_path(), ".shortcuts/config.json");
}

#[test]
fn stored_form_conversion() {
    let ok = CacheExtension::from_stored(
        "a".to_string(),
        true,
        &vec![("x".to_string(), "super+alt+KeyV".to_string())],
    )
    .unwrap();
    assert_eq!(
        ok,
        record("a", "x", KeyCombination::new(Modifiers::meta().union(Modifiers::alt()), "KeyV"), true)
    );
    let bad = CacheExtension::from_stored(
        "a".to_string(),
        true,
        &vec![
            ("x".to_string(), "alt+KeyV".to_string()),
            ("y".to_string(), "alt+".to_string()),
        ],
    );
    assert_eq!(bad, None);
    assert_eq!(CacheShortcut::from_text("x".to_string(), "ctrl+KeyV"), None);
    assert_eq!(
        CacheShortcut::from_text("x".to_string(), "shift+KeyV"),
        Some(CacheShortcut { name: "x".to_string(), shortcut: KeyCombination::new(Modifiers::shift(), "KeyV") })
    );
}
