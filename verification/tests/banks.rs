use klattsch::banks::{
    check_schema, BankError, BankRegistry, BankSource, PhonemeEdit, PhonemeEntry, DEFAULT_BANK,
    SCHEMA_VERSION,
};

#[derive(Clone, Copy, Debug, PartialEq)]
struct Formants {
    f1: f32,
    f2: f32,
}

fn entry(name: &str, f1: f32) -> PhonemeEntry<Formants> {
    PhonemeEntry::new(name, Formants { f1, f2: 1500.0 })
}

fn base() -> BankSource<Formants> {
    BankSource::new("base", vec![entry("A", 100.0), entry("B", 200.0)])
}

fn child(edits: Vec<PhonemeEdit<Formants>>) -> BankSource<Formants> {
    BankSource {
        extends: Some("base".to_owned()),
        edits,
        ..BankSource::new("child", Vec::new())
    }
}

#[test]
fn base_bank_keeps_authored_order() {
    let mut reg = BankRegistry::new();
    reg.register(base()).unwrap();
    let bank = reg.get("base").unwrap();
    assert_eq!(bank.name_list(), ["A", "B"]);
    assert_eq!(bank.index_of("B"), Some(1));
    assert_eq!(bank.lookup("A").unwrap().f1, 100.0);
    assert!(bank.lookup("nope").is_none());
}

#[test]
fn override_replaces_in_place_and_additions_append() {
    let mut reg = BankRegistry::new();
    reg.register(base()).unwrap();
    reg.register(child(vec![
        PhonemeEdit::Define(entry("B", 999.0)),
        PhonemeEdit::Define(entry("C", 300.0)),
    ]))
    .unwrap();
    let bank = reg.get("child").unwrap();
    assert_eq!(
        bank.name_list(),
        ["A", "B", "C"],
        "an override keeps the parent's index; only new names append"
    );
    assert_eq!(bank.lookup("B").unwrap().f1, 999.0);
    assert_eq!(bank.lookup("A").unwrap().f1, 100.0, "inherited untouched");
}

#[test]
fn remove_drops_an_inherited_phoneme() {
    let mut reg = BankRegistry::new();
    reg.register(base()).unwrap();
    reg.register(child(vec![PhonemeEdit::Remove("A".to_owned())]))
        .unwrap();
    assert_eq!(reg.get("child").unwrap().name_list(), ["B"]);
    assert_eq!(
        reg.get("base").unwrap().name_list(),
        ["A", "B"],
        "the parent is unaffected"
    );
}

#[test]
fn removing_an_absent_phoneme_is_a_no_op() {
    let mut reg = BankRegistry::new();
    reg.register(base()).unwrap();
    reg.register(child(vec![PhonemeEdit::Remove("ZZ".to_owned())]))
        .unwrap();
    assert_eq!(reg.get("child").unwrap().name_list(), ["A", "B"]);
}

#[test]
fn unknown_parent_is_rejected_and_rolled_back() {
    let mut reg = BankRegistry::new();
    let err = reg
        .register(BankSource {
            extends: Some("missing".to_owned()),
            ..BankSource::new("orphan", vec![entry("A", 1.0)])
        })
        .unwrap_err();
    assert!(matches!(err, BankError::UnknownParent { .. }));
    assert_eq!(
        reg.list().len(),
        0,
        "a failed registration leaves no authored trace"
    );
}

#[test]
fn extends_cycle_is_rejected() {
    let mut reg = BankRegistry::new();
    // The registry only ever holds banks that resolve, so the one cycle a
    // registration can form is a bank that names itself as its parent.
    let err = reg
        .register(BankSource {
            extends: Some("a".to_owned()),
            ..BankSource::new("a", vec![entry("X", 1.0)])
        })
        .unwrap_err();
    assert!(matches!(err, BankError::ExtendsCycle { .. }), "{}", err.message());
    assert_eq!(reg.list().len(), 0);
}

#[test]
fn duplicate_names_are_rejected() {
    let mut reg = BankRegistry::new();
    reg.register(base()).unwrap();
    assert_eq!(
        reg.register(base()).unwrap_err(),
        BankError::DuplicateName("base".to_owned())
    );
}

#[test]
fn resolve_falls_back_to_the_default_bank() {
    let mut reg = BankRegistry::new();
    reg.register(base()).unwrap();
    reg.set_default_name("base");
    assert_eq!(reg.resolve("base").unwrap().name(), "base");
    assert_eq!(
        reg.resolve("nonexistent").unwrap().name(),
        "base",
        "an unknown name falls back rather than failing"
    );
    assert!(BankRegistry::<Formants>::new().resolve("anything").is_none());
}

#[test]
fn new_registry_defaults_to_the_english_bank() {
    let reg = BankRegistry::<Formants>::new();
    assert_eq!(reg.default_name(), DEFAULT_BANK);
    assert_eq!(reg.default_name(), "klatt1980-en");
    assert!(reg.list().is_empty());
}

#[test]
fn list_keeps_registration_order() {
    let mut reg = BankRegistry::new();
    reg.register(base()).unwrap();
    reg.register(child(vec![])).unwrap();
    assert_eq!(reg.list(), ["base", "child"]);
}

#[test]
fn grandchild_sees_the_whole_chain() {
    let mut reg = BankRegistry::new();
    reg.register(base()).unwrap();
    reg.register(child(vec![PhonemeEdit::Define(entry("C", 300.0))]))
        .unwrap();
    reg.register(BankSource {
        extends: Some("child".to_owned()),
        edits: vec![
            PhonemeEdit::Remove("B".to_owned()),
            PhonemeEdit::Define(entry("A", 7.0)),
        ],
        ..BankSource::new("grandchild", Vec::new())
    })
    .unwrap();
    let bank = reg.get("grandchild").unwrap();
    assert_eq!(bank.name_list(), ["A", "C"]);
    assert_eq!(bank.lookup("A").unwrap().f1, 7.0);
    assert_eq!(bank.index_of("C"), Some(1));
    assert_eq!(bank.len(), 2);
    assert!(!bank.is_empty());
    assert_eq!(bank.entry(1).unwrap().name, "C");
    assert!(bank.entry(2).is_none());
}

#[test]
fn bank_metadata_comes_from_its_source() {
    let mut reg = BankRegistry::new();
    reg.register(BankSource {
        display_name: "Base Bank".to_owned(),
        language: Some("en-US".to_owned()),
        license: Some("MIT".to_owned()),
        source: Some("Klatt 1980".to_owned()),
        ..base()
    })
    .unwrap();
    let bank = reg.get("base").unwrap();
    assert_eq!(bank.name(), "base");
    assert_eq!(bank.display_name(), "Base Bank");
    assert_eq!(bank.language(), Some("en-US"));
    assert_eq!(bank.license(), Some("MIT"));
    assert_eq!(bank.source(), Some("Klatt 1980"));
    assert_eq!(bank.entries().len(), 2);
    assert_eq!(bank.get("B").unwrap().params.f2, 1500.0);
}

#[test]
fn edit_names_the_phoneme_it_touches() {
    assert_eq!(PhonemeEdit::Define(entry("AA", 1.0)).name(), "AA");
    assert_eq!(PhonemeEdit::<Formants>::Remove("ZH".to_owned()).name(), "ZH");
}

#[test]
fn bank_error_messages() {
    let e = BankError::UnknownParent {
        bank: "orphan".to_owned(),
        parent: "missing".to_owned(),
    };
    assert_eq!(e.message(), "bank `orphan` extends unknown bank `missing`");
    let e = BankError::ExtendsCycle {
        path: vec!["a".to_owned(), "b".to_owned(), "a".to_owned()],
    };
    assert_eq!(e.message(), "bank extends cycle: a -> b -> a");
    assert_eq!(
        BankError::DuplicateName("base".to_owned()).message(),
        "bank `base` is already registered"
    );
    let e = BankError::UnsupportedSchema {
        bank: "future".to_owned(),
        version: 20,
    };
    assert_eq!(
        e.message(),
        "bank `future` declares schemaVersion 20, expected 1"
    );
}

#[test]
fn schema_version_check() {
    assert_eq!(check_schema("x", SCHEMA_VERSION), Ok(()));
    assert_eq!(
        check_schema("future", 2),
        Err(BankError::UnsupportedSchema {
            bank: "future".to_owned(),
            version: 2
        })
    );
}

#[test]
fn document_without_display_name_falls_back_to_the_bank_name() {
    let src: BankSource<Formants> =
        BankSource::from_document("bare".to_owned(), None, None, None, None, None, Vec::new());
    assert_eq!(src.display_name, "bare");
    assert!(src.edits.is_empty());
}

#[test]
fn document_null_slot_becomes_a_removal() {
    let src = BankSource::from_document(
        "test-child".to_owned(),
        Some("Child".to_owned()),
        Some("en-US".to_owned()),
        None,
        None,
        Some("base".to_owned()),
        vec![
            ("P".to_owned(), None),
            ("AA".to_owned(), Some(entry("AA", 700.0))),
        ],
    );
    assert_eq!(src.display_name, "Child");
    assert_eq!(src.language.as_deref(), Some("en-US"));
    assert_eq!(src.extends.as_deref(), Some("base"));
    assert_eq!(src.edits.len(), 2);
    assert_eq!(src.edits[0], PhonemeEdit::Remove("P".to_owned()));
    assert_eq!(src.edits[1], PhonemeEdit::Define(entry("AA", 700.0)));

    let mut reg = BankRegistry::new();
    reg.register(BankSource::new(
        "base",
        vec![entry("AA", 1.0), entry("P", 2.0), entry("AY", 3.0)],
    ))
    .unwrap();
    reg.register(src).unwrap();
    assert_eq!(reg.get("test-child").unwrap().name_list(), ["AA", "AY"]);
    assert_eq!(reg.get("test-child").unwrap().lookup("AA").unwrap().f1, 700.0);
}

#[test]
fn duplicate_definitions_collapse_to_one_entry() {
    let mut reg = BankRegistry::new();
    reg.register(BankSource::new(
        "dup",
        vec![entry("A", 1.0), entry("B", 2.0), entry("A", 3.0)],
    ))
    .unwrap();
    let bank = reg.get("dup").unwrap();
    assert_eq!(bank.name_list(), ["A", "B"]);
    assert_eq!(bank.lookup("A").unwrap().f1, 3.0);
}

#[test]
fn registration_appends_and_keeps_earlier_banks() {
    let mut reg = BankRegistry::new();
    reg.register(base()).unwrap();
    let before = reg.get("base").unwrap().clone();
    reg.register(child(vec![PhonemeEdit::Define(entry("C", 3.0))]))
        .unwrap();
    assert_eq!(reg.list(), ["base", "child"]);
    assert_eq!(reg.get("base").unwrap(), &before);
    assert_eq!(reg.get("child").unwrap().name_list(), ["A", "B", "C"]);
    let err = reg
        .register(BankSource {
            extends: Some("nobody".to_owned()),
            ..BankSource::new("late", Vec::new())
        })
        .unwrap_err();
    assert!(matches!(err, BankError::UnknownParent { .. }));
    assert_eq!(reg.list(), ["base", "child"]);
}
