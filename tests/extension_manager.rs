use serde_json::Value;
use shortcuts::combination::{KeyCombination, Modifiers};
use shortcuts::extension::{Extension, ShortcutHandler};
use shortcuts::extension_manager::ExtensionManager;

fn text(s: &str) -> Value {
    Value::String(s.to_string())
}

fn copy_extension(modifiers: Modifiers) -> Extension<fn()> {
    Extension {
        name: "Test Extension".to_string(),
        description: "A test extension".to_string(),
        shortcuts: vec![ShortcutHandler {
            name: "Copy".to_string(),
            description: "Copy the selected text to the clipboard".to_string(),
            handle: || {
                println!("Copy the selected text to the clipboard");
            },
            default_shortcut: Some(KeyCombination::new(modifiers, "KeyV")),
        }],
    }
}

fn expected_snapshot(shortcut: &str) -> Value {
    let mut action = serde_json::Map::new();
    action.insert("name".to_string(), text("Copy"));
    action.insert(
        "description".to_string(),
        text("Copy the selected text to the clipboard"),
    );
    action.insert("shortcut".to_string(), text(shortcut));
    let mut ext = serde_json::Map::new();
    ext.insert("name".to_string(), text("Test Extension"));
    ext.insert("description".to_string(), text("A test extension"));
    ext.insert("enabled".to_string(), Value::Bool(false));
    ext.insert("shortcuts".to_string(), Value::Array(vec![Value::Object(action)]));
    Value::Array(vec![Value::Object(ext)])
}

fn rendered(modifiers: Modifiers) -> Value {
    let mut manager: ExtensionManager<fn()> = ExtensionManager::new();
    manager.register(copy_extension(modifiers));
    let json_str = manager.to_string().unwrap();
    serde_json::from_str::<Value>(&json_str).unwrap()
}

#[test]
fn test_extension_manager_new() {
    let manager: ExtensionManager<fn()> = ExtensionManager::new();
    assert!(manager.extensions().is_empty());
}

#[test]
fn test_register_extension() {
    let mut manager: ExtensionManager<fn()> = ExtensionManager::new();
    let extension = Extension {
        name: "Test Extension".to_string(),
        description: "A test extension".to_string(),
        shortcuts: vec![],
    };
    manager.register(extension);
    assert_eq!(manager.extensions().len(), 1);
    assert_eq!(manager.extensions()[0].name, "Test Extension");
}

#[test]
fn test_to_string_when_meta() {
    assert_eq!(rendered(Modifiers::meta()), expected_snapshot("super+KeyV"));
}

#[test]
fn test_to_string_when_alt() {
    assert_eq!(rendered(Modifiers::alt()), expected_snapshot("alt+KeyV"));
}

#[test]
fn test_to_string_when_ctrl() {
    assert_eq!(rendered(Modifiers::control()), expected_snapshot("control+KeyV"));
}

#[test]
fn test_to_string_when_shift() {
    assert_eq!(rendered(Modifiers::shift()), expected_snapshot("shift+KeyV"));
}
