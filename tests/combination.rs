use shortcuts::combination::{KeyCombination, Modifiers};

#[test]
fn canonical_text_single_modifiers() {
    assert_eq!(KeyCombination::new(Modifiers::meta(), "KeyC").to_text(), "super+KeyC");
    assert_eq!(KeyCombination::new(Modifiers::alt(), "KeyV").to_text(), "alt+KeyV");
    assert_eq!(KeyCombination::new(Modifiers::control(), "KeyV").to_text(), "control+KeyV");
    assert_eq!(KeyCombination::new(Modifiers::shift(), "KeyV").to_text(), "shift+KeyV");
    assert_eq!(KeyCombination::new(Modifiers::none(), "KeyV").to_text(), "KeyV");
}

#[test]
fn canonical_text_order_is_fixed() {
    let a = KeyCombination::new(Modifiers::alt().union(Modifiers::meta()), "KeyV");
    let b = KeyCombination::new(Modifiers::meta().union(Modifiers::alt()), "KeyV");
    assert_eq!(a.to_text(), "super+alt+KeyV");
    assert_eq!(b.to_text(), "super+alt+KeyV");
    let all = Modifiers::shift()
        .union(Modifiers::control())
        .union(Modifiers::alt())
        .union(Modifiers::meta());
    assert_eq!(KeyCombination::new(all, "KeyR").to_text(), "super+alt+control+shift+KeyR");
}

#[test]
fn parse_reads_canonical_text() {
    let k = KeyCombination::parse("super+alt+KeyV").unwrap();
    assert_eq!(k, KeyCombination::new(Modifiers::meta().union(Modifiers::alt()), "KeyV"));
    let k = KeyCombination::parse("control+KeyR").unwrap();
    assert_eq!(k, KeyCombination::new(Modifiers::control(), "KeyR"));
    let k = KeyCombination::parse("Space").unwrap();
    assert_eq!(k, KeyCombination::new(Modifiers::none(), "Space"));
}

#[test]
fn parse_rejects_other_text() {
    assert_eq!(KeyCombination::parse(""), None);
    assert_eq!(KeyCombination::parse("super+"), None);
    assert_eq!(KeyCombination::parse("alt+super+KeyV"), None);
    assert_eq!(KeyCombination::parse("ctrl+KeyV"), None);
}

#[test]
fn text_round_trip() {
    let all = Modifiers::meta()
        .union(Modifiers::alt())
        .union(Modifiers::control())
        .union(Modifiers::shift());
    for m in [
        Modifiers::none(),
        Modifiers::meta(),
        Modifiers::alt(),
        Modifiers::control(),
        Modifiers::shift(),
        all,
    ] {
        for code in ["KeyC", "shift", "Space", "s"] {
            let k = KeyCombination::new(m, code);
            assert_eq!(KeyCombination::parse(&k.to_text()), Some(k.clone()));
        }
    }
}

#[test]
fn same_as_compares_modifiers_and_code() {
    let a = KeyCombination::new(Modifiers::meta(), "KeyC");
    assert!(a.same_as(&KeyCombination::new(Modifiers::meta(), "KeyC")));
    assert!(!a.same_as(&KeyCombination::new(Modifiers::alt(), "KeyC")));
    assert!(!a.same_as(&KeyCombination::new(Modifiers::meta(), "KeyV")));
}
