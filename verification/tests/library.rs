use transaction_labeller::json::parse_json;
use transaction_labeller::library::LabelLibrary;

fn labels(list: &[&str]) -> Vec<String> {
    list.iter().map(|l| l.to_string()).collect()
}

fn count(text: &str, language: &str, label: &str) -> Option<u64> {
    let v: serde_json::Value = serde_json::from_str(text).unwrap();
    v.get(language)?.get(label)?.as_u64()
}

#[test]
fn open_missing_file_starts_empty() {
    let lib = LabelLibrary::open("missing.json", None, 100);
    assert!(lib.labels_for("de").is_empty());
    assert!(lib.max_in_prompt() > 0);
}

#[test]
fn record_adds_and_counts() {
    let mut lib = LabelLibrary::open("", None, 100);
    lib.record(
        "de",
        &["Lebensmittel".into(), "Miete".into(), "Lebensmittel".into()],
    );
    assert_eq!(lib.labels_for("de"), vec!["Lebensmittel", "Miete"]);
    lib.record("de", &["Lebensmittel".into()]);
    assert_eq!(lib.labels_for("de"), vec!["Lebensmittel", "Miete"]);
    assert!(lib.labels_for("en").is_empty(), "languages are separate");
}

#[test]
fn labels_for_sorts_by_usage_then_name() {
    let mut lib = LabelLibrary::open("", None, 100);
    lib.record("de", &["B".into(), "A".into(), "C".into()]);
    lib.record("de", &["B".into(), "B".into()]);
    assert_eq!(lib.labels_for("de"), vec!["B", "A", "C"]);
    lib.record("de", &["B".into(), "A".into(), "C".into()]);
    // B: 5, A: 2, C: 2 — A before C by name on the tie.
    assert_eq!(lib.labels_for("de"), vec!["B", "A", "C"]);
}

#[test]
fn open_loads_existing_file_and_persists_updates() {
    let mut lib = LabelLibrary::open(
        "persist.json",
        Some(r#"{"de": {"Miete": 5}, "en": {"Groceries": 1}}"#),
        100,
    );
    assert_eq!(lib.labels_for("de"), vec!["Miete"]);
    assert_eq!(lib.labels_for("en"), vec!["Groceries"]);

    let text = lib
        .record("de", &["Miete".into(), "Lebensmittel".into()])
        .unwrap();
    let v: serde_json::Value = serde_json::from_str(&text).unwrap();
    assert_eq!(v["de"]["Miete"], 6);
    assert_eq!(v["de"]["Lebensmittel"], 1);
    assert_eq!(v["en"]["Groceries"], 1);
}

#[test]
fn corrupt_file_starts_empty_not_dead() {
    let mut lib = LabelLibrary::open("corrupt.json", Some("{not json"), 100);
    assert!(lib.labels_for("de").is_empty());
    // A later record still persists over the corrupt file.
    let text = lib.record("de", &["Miete".into()]).unwrap();
    let v: serde_json::Value = serde_json::from_str(&text).unwrap();
    assert_eq!(v["de"]["Miete"], 1);
}

#[test]
fn disabled_library_returns_nothing_and_records_nothing() {
    let mut lib = LabelLibrary::disabled();
    lib.record("de", &["Miete".into()]);
    assert!(lib.labels_for("de").is_empty());
    assert!(lib.max_in_prompt() == 0);
}

#[test]
fn cap_limits_prompt_list() {
    let mut lib = LabelLibrary::open("", None, 3);
    for i in 0..10 {
        lib.record("de", &[format!("Label{i}")]);
    }
    assert_eq!(lib.labels_for("de").len(), 3);
}

#[test]
fn malformed_entries_are_skipped_one_by_one() {
    let lib = LabelLibrary::open(
        "labels.json",
        Some(r#"{"de": {"Miete": 2, "Schlecht": -1, "Halb": 1.5, "Strom": 7}, "en": 3}"#),
        100,
    );
    assert_eq!(lib.labels_for("de"), vec!["Strom", "Miete"]);
    assert!(lib.labels_for("en").is_empty());
    let text = lib.flush().unwrap();
    assert_eq!(count(&text, "de", "Strom"), Some(7));
    assert_eq!(count(&text, "de", "Schlecht"), None);
    assert_eq!(count(&text, "en", "x"), None);
}

#[test]
fn what_is_written_is_read_back() {
    let mut lib = LabelLibrary::open("labels.json", None, 100);
    lib.record("de", &labels(&["Café & Kuchen", "\"Quoted\"", "Back\\slash", "Café & Kuchen"]));
    lib.record("en", &labels(&["Groceries"]));
    let text = lib.flush().unwrap();
    assert!(text.contains("\n  \"de\": {\n"), "the file is meant to be read by people");
    let again = LabelLibrary::open("labels.json", Some(text.as_str()), 100);
    assert_eq!(again.labels_for("de"), lib.labels_for("de"));
    assert_eq!(again.labels_for("en"), lib.labels_for("en"));
    assert_eq!(again.flush().unwrap(), text);
}

#[test]
fn flush_writes_only_what_is_kept_in_a_file() {
    assert!(LabelLibrary::open("", None, 100).flush().is_none());
    assert!(LabelLibrary::open("labels.json", None, 0).flush().is_none());
    assert_eq!(
        LabelLibrary::open("labels.json", None, 1).flush().as_deref(),
        Some("{}")
    );
    assert_eq!(LabelLibrary::open("labels.json", None, 1).path(), "labels.json");
}

#[test]
fn recording_nothing_writes_nothing() {
    let mut lib = LabelLibrary::open("labels.json", None, 10);
    assert!(lib.record("de", &[]).is_none());
    assert!(lib.labels_for("de").is_empty());
    let mut memory_only = LabelLibrary::open("", None, 10);
    assert!(memory_only.record("de", &labels(&["Miete"])).is_none());
    assert_eq!(memory_only.labels_for("de"), vec!["Miete"]);
}

#[test]
fn recording_in_steps_adds_up() {
    let mut steps = LabelLibrary::open("labels.json", None, 10);
    steps.record("de", &labels(&["A", "B"]));
    let text = steps.record("de", &labels(&["B", "C"])).unwrap();
    let mut once = LabelLibrary::open("labels.json", None, 10);
    let other = once.record("de", &labels(&["A", "B", "B", "C"])).unwrap();
    for label in ["A", "B", "C"] {
        assert_eq!(count(&text, "de", label), count(&other, "de", label));
    }
    assert_eq!(count(&text, "de", "B"), Some(2));
}

#[test]
fn a_full_count_leaves_no_room() {
    let lib = LabelLibrary::open("", Some(r#"{"de": {"Miete": 18446744073709551614}}"#), 10);
    assert!(lib.has_room("de", &labels(&["Miete"])));
    assert!(!lib.has_room("de", &labels(&["Miete", "Miete"])));
    assert!(lib.has_room("en", &labels(&["Miete", "Miete"])));
}

#[test]
fn every_name_survives_a_restart() {
    let odd = ["$serde_json::private::RawValue", "", "\u{0}\n", "ü\u{1f600}", "\"}{"];
    let mut lib = LabelLibrary::open("labels.json", None, 100);
    for name in odd {
        lib.record(name, &labels(&odd));
    }
    let text = lib.record("de", &labels(&["Miete"])).unwrap();
    let again = LabelLibrary::open("labels.json", Some(text.as_str()), 100);
    for name in odd {
        assert_eq!(again.labels_for(name).len(), odd.len());
        assert_eq!(again.labels_for(name), lib.labels_for(name));
    }
    assert_eq!(again.labels_for("de"), vec!["Miete"]);
    assert_eq!(again.flush().unwrap(), text);
}

#[test]
fn the_order_of_labels_does_not_matter() {
    let mut one = LabelLibrary::open("labels.json", None, 10);
    one.record("de", &labels(&["A", "B", "A"]));
    let first = one.record("de", &labels(&["C", "A"])).unwrap();
    let mut other = LabelLibrary::open("labels.json", None, 10);
    let second = other.record("de", &labels(&["C", "A", "A", "B", "A"])).unwrap();
    assert_eq!(first, second);
    assert_eq!(one.labels_for("de"), other.labels_for("de"));
}

#[test]
fn libraries_are_made_of_tables_and_of_entries() {
    let table = vec![
        ("de".to_string(), vec![("Miete".to_string(), 2), ("Auto".to_string(), 5)]),
        ("en".to_string(), vec![]),
    ];
    let lib = LabelLibrary::of_table("labels.json", table, 10);
    assert_eq!(lib.labels_for("de"), vec!["Auto", "Miete"]);
    assert!(lib.labels_for("en").is_empty());
    assert_eq!(
        lib.flush().unwrap(),
        "{\n  \"de\": {\n    \"Auto\": 5,\n    \"Miete\": 2\n  },\n  \"en\": {}\n}"
    );
    let stated = parse_json(r#"{"de": {"Miete": 2, "Auto": "viel"}, "en": []}"#).unwrap();
    let lib = LabelLibrary::of_entries("labels.json", &stated, 10);
    assert_eq!(lib.labels_for("de"), vec!["Miete"]);
    assert_eq!(lib.path(), "labels.json");
    assert_eq!(lib.max_in_prompt(), 10);
}
