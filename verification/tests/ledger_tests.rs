use omarchy_syncd::ledger::{deserialize, register_symlink, serialize, SymlinkEntry};

fn entry(path: &str, target: &str, is_dir: bool) -> SymlinkEntry {
    SymlinkEntry {
        path: path.to_string(),
        target: target.to_string(),
        is_dir,
    }
}

#[test]
fn serialize_empty_ledger_is_empty_array() {
    let out = serialize(&Vec::new());
    assert_eq!(out, "[]");
}

#[test]
fn serialize_one_entry_exact_text() {
    let out = serialize(&vec![entry(
        ".config/omarchy/current/theme",
        "../themes/test-theme",
        true,
    )]);
    assert_eq!(
        out,
        "[\n  {\n    \"path\": \".config/omarchy/current/theme\",\n    \"target\": \"../themes/test-theme\",\n    \"is_dir\": true\n  }\n]"
    );
}

#[test]
fn serialize_two_entries_exact_text() {
    let out = serialize(&vec![entry("a", "t1", false), entry("b", "t2", true)]);
    assert_eq!(
        out,
        "[\n  {\n    \"path\": \"a\",\n    \"target\": \"t1\",\n    \"is_dir\": false\n  },\n  {\n    \"path\": \"b\",\n    \"target\": \"t2\",\n    \"is_dir\": true\n  }\n]"
    );
}

#[test]
fn serialize_escapes_special_characters() {
    let out = serialize(&vec![entry("a\"b", "c\\d\ne", false)]);
    assert_eq!(
        out,
        "[\n  {\n    \"path\": \"a\\\"b\",\n    \"target\": \"c\\\\d\\ne\",\n    \"is_dir\": false\n  }\n]"
    );
}

#[test]
fn deserialize_inverts_serialize() {
    let entries = vec![
        entry(".config/a", "../b", false),
        entry(".config/omarchy/current/theme", "../themes/t", true),
        entry("odd \"name\"\twith\\stuff", "tar\nget", false),
    ];
    let text = serialize(&entries);
    let back = deserialize(&text).unwrap();
    assert_eq!(back, entries);
}

#[test]
fn deserialize_empty_array() {
    let back = deserialize("[]").unwrap();
    assert!(back.is_empty());
}

#[test]
fn deserialize_rejects_garbage() {
    assert!(deserialize("not a ledger").is_err());
    assert!(deserialize("").is_err());
    assert!(deserialize("[\n]").is_err());
    assert!(deserialize("{\"path\": \"x\"}").is_err());
}

#[test]
fn deserialize_rejects_truncated_ledger() {
    let text = serialize(&vec![entry("a", "b", true)]);
    let truncated = &text[..text.len() - 2];
    assert!(deserialize(truncated).is_err());
}

#[test]
fn deserialize_rejects_bad_escape() {
    let text = "[\n  {\n    \"path\": \"a\\qb\",\n    \"target\": \"t\",\n    \"is_dir\": false\n  }\n]";
    assert!(deserialize(text).is_err());
}

#[test]
fn register_keeps_first_entry_for_a_path() {
    let mut led: Vec<SymlinkEntry> = Vec::new();
    register_symlink(&mut led, entry(".config/a", "first", false));
    register_symlink(&mut led, entry(".config/a", "second", true));
    assert_eq!(led.len(), 1);
    assert_eq!(led[0].target, "first");
    assert!(!led[0].is_dir);
}

#[test]
fn register_sorts_entries_by_path() {
    let mut led: Vec<SymlinkEntry> = Vec::new();
    register_symlink(&mut led, entry("b", "t", false));
    register_symlink(&mut led, entry("a", "t", false));
    register_symlink(&mut led, entry("c", "t", false));
    let paths: Vec<&str> = led.iter().map(|e| e.path.as_str()).collect();
    assert_eq!(paths, vec!["a", "b", "c"]);
}

#[test]
fn ledger_corrupt_message_text() {
    let e = omarchy_syncd::ledger::LedgerCorrupt;
    assert_eq!(e.message(), "Failed parsing symlink metadata");
}
