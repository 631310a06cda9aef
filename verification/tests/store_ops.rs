//! The flat section store: get, set, remove and the reverse lookup.

use bellbird_core::store::Store;

#[test]
fn set_then_get_returns_value() {
    let mut s = Store::new();
    s.set("General", "CurrentDirectory", "/home/me/notes");
    assert_eq!(
        s.get("General", "CurrentDirectory"),
        Some("/home/me/notes".to_string())
    );
}

#[test]
fn latest_write_wins() {
    let mut s = Store::new();
    s.set("General", "Width", "120");
    s.set("General", "Width", "240");
    assert_eq!(s.get("General", "Width"), Some("240".to_string()));
}

#[test]
fn get_missing_section_is_none() {
    let s = Store::new();
    assert_eq!(s.get("General", "Width"), None);
}

#[test]
fn get_missing_option_is_none() {
    let mut s = Store::new();
    s.set("General", "Width", "120");
    assert_eq!(s.get("General", "Visible"), None);
}

#[test]
fn empty_value_is_distinct_from_absent() {
    let mut s = Store::new();
    s.set("General", "OpenNotes", "");
    assert_eq!(s.get("General", "OpenNotes"), Some("".to_string()));
    assert_eq!(s.get("General", "CurrentNote"), None);
}

#[test]
fn new_sections_append_in_creation_order() {
    let mut s = Store::new();
    s.set("B", "k", "1");
    s.set("A", "k", "2");
    s.set("B", "other", "3");
    let keys = s.section_keys();
    assert_eq!(keys, vec!["B".to_string(), "A".to_string()]);
}

#[test]
fn set_is_case_sensitive() {
    let mut s = Store::new();
    s.set("General", "width", "1");
    s.set("General", "Width", "2");
    assert_eq!(s.get("General", "width"), Some("1".to_string()));
    assert_eq!(s.get("General", "Width"), Some("2".to_string()));
    assert_eq!(s.get("general", "Width"), None);
}

#[test]
fn isolation_across_sections() {
    let mut s = Store::new();
    s.set("S2", "O", "old");
    s.set("S1", "O", "new");
    assert_eq!(s.get("S2", "O"), Some("old".to_string()));
}

#[test]
fn isolation_across_options() {
    let mut s = Store::new();
    s.set("S", "O1", "a");
    s.set("S", "O2", "b");
    assert_eq!(s.get("S", "O1"), Some("a".to_string()));
}

#[test]
fn remove_section_deletes_all_its_options() {
    let mut s = Store::new();
    s.set("A", "x", "1");
    s.set("A", "y", "2");
    s.set("B", "x", "3");
    s.remove_section("A");
    assert_eq!(s.get("A", "x"), None);
    assert_eq!(s.get("A", "y"), None);
    assert_eq!(s.get("B", "x"), Some("3".to_string()));
}

#[test]
fn remove_absent_section_is_a_no_op() {
    let mut s = Store::new();
    s.set("A", "x", "1");
    s.remove_section("Z");
    assert_eq!(s.get("A", "x"), Some("1".to_string()));
    assert_eq!(s.section_count(), 1);
}

#[test]
fn sections_matching_is_exact_not_substring() {
    let mut s = Store::new();
    s.set("A", "Pinned", "true");
    s.set("B", "Pinned", "untrue");
    s.set("C", "Pinned", "true");
    s.set("D", "Pinned", "true ");
    let m = s.sections_matching("Pinned", "true");
    assert_eq!(m, vec!["A".to_string(), "C".to_string()]);
}

#[test]
fn sections_matching_returns_file_order() {
    let mut s = Store::new();
    s.set("z", "Pinned", "true");
    s.set("a", "Pinned", "true");
    s.set("m", "Pinned", "false");
    s.set("k", "Pinned", "true");
    let m = s.sections_matching("Pinned", "true");
    assert_eq!(m, vec!["z".to_string(), "a".to_string(), "k".to_string()]);
}

#[test]
fn sections_matching_empty_expected_matches_exact_empty() {
    let mut s = Store::new();
    s.set("A", "O", "");
    s.set("B", "O", "x");
    let m = s.sections_matching("O", "");
    assert_eq!(m, vec!["A".to_string()]);
}

#[test]
fn entry_accessors_expose_stored_order() {
    let mut s = Store::new();
    s.set("A", "first", "1");
    s.set("A", "second", "2");
    s.set("A", "first", "one");
    assert_eq!(s.section_count(), 1);
    assert_eq!(s.entry_count(0), 2);
    assert_eq!(s.entry_at(0, 0).key, "first".to_string());
    assert_eq!(s.entry_at(0, 0).value, "one".to_string());
    assert_eq!(s.entry_at(0, 1).key, "second".to_string());
    assert_eq!(s.entry_at(0, 1).value, "2".to_string());
}

#[test]
fn ensure_section_creates_empty_section_once() {
    let mut s = Store::new();
    s.ensure_section("A");
    s.ensure_section("A");
    assert_eq!(s.section_count(), 1);
    assert_eq!(s.entry_count(0), 0);
    assert_eq!(s.get("A", "x"), None);
}
