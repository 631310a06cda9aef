//! The flat text format: rendering, parsing, the round trip, and the
//! merge-before-write cycle.

use bellbird_core::store::Store;
use bellbird_core::text::ParseError;

#[test]
fn serialize_renders_sections_and_options_in_order() {
    let mut s = Store::new();
    s.set("General", "CurrentDirectory", "/home/me/notes");
    s.set("General", "Width", "120");
    s.set("SideBar", "Visible", "true");
    assert_eq!(
        s.serialize(),
        "[General]\nCurrentDirectory=/home/me/notes\nWidth=120\n[SideBar]\nVisible=true\n"
    );
}

#[test]
fn parse_reads_back_sections_and_options() {
    let text = "[General]\nCurrentDirectory=/home/me/notes\n[SideBar]\nVisible=true\n";
    let s = Store::parse(text).unwrap();
    assert_eq!(
        s.get("General", "CurrentDirectory"),
        Some("/home/me/notes".to_string())
    );
    assert_eq!(s.get("SideBar", "Visible"), Some("true".to_string()));
    assert_eq!(s.get("General", "Visible"), None);
}

#[test]
fn parse_serialize_round_trip_preserves_store() {
    let mut s = Store::new();
    s.set("/a/b.note", "Pinned", "true");
    s.set("/a/b.note", "CaretPosition", "42");
    s.set("/a/c.note", "Pinned", "false");
    let text = s.serialize();
    let r = Store::parse(text.as_str()).unwrap();
    assert_eq!(r.serialize(), text);
    assert_eq!(r.get("/a/b.note", "Pinned"), Some("true".to_string()));
    assert_eq!(r.get("/a/b.note", "CaretPosition"), Some("42".to_string()));
    assert_eq!(r.get("/a/c.note", "Pinned"), Some("false".to_string()));
}

#[test]
fn parse_skips_blank_lines() {
    let text = "\n[General]\n\nWidth=120\n\n";
    let s = Store::parse(text).unwrap();
    assert_eq!(s.get("General", "Width"), Some("120".to_string()));
    assert_eq!(s.section_count(), 1);
}

#[test]
fn parse_accepts_missing_final_line_break() {
    let s = Store::parse("[General]\nWidth=120").unwrap();
    assert_eq!(s.get("General", "Width"), Some("120".to_string()));
}

#[test]
fn parse_merges_a_repeated_section_header() {
    let text = "[A]\nx=1\n[B]\ny=2\n[A]\nz=3\nx=9\n";
    let s = Store::parse(text).unwrap();
    assert_eq!(s.section_count(), 2);
    assert_eq!(s.get("A", "x"), Some("9".to_string()));
    assert_eq!(s.get("A", "z"), Some("3".to_string()));
    assert_eq!(s.get("B", "y"), Some("2".to_string()));
}

#[test]
fn value_may_hold_equals_signs() {
    let mut s = Store::new();
    s.set("A", "query", "a=b=c");
    let text = s.serialize();
    let r = Store::parse(text.as_str()).unwrap();
    assert_eq!(r.get("A", "query"), Some("a=b=c".to_string()));
}

#[test]
fn reload_returns_latest_write_for_each_pair() {
    let mut s = Store::new();
    s.set("A", "k", "old");
    s.set("B", "k", "x");
    s.set("A", "k", "new");
    let r = Store::parse(s.serialize().as_str()).unwrap();
    assert_eq!(r.get("A", "k"), Some("new".to_string()));
    assert_eq!(r.get("B", "k"), Some("x".to_string()));
}

#[test]
fn key_holding_brackets_round_trips() {
    let mut s = Store::new();
    s.set("we[ir]d", "k", "v");
    let r = Store::parse(s.serialize().as_str()).unwrap();
    assert_eq!(r.get("we[ir]d", "k"), Some("v".to_string()));
}

#[test]
fn empty_option_name_round_trips() {
    let mut s = Store::new();
    s.set("A", "", "v");
    let r = Store::parse(s.serialize().as_str()).unwrap();
    assert_eq!(r.get("A", ""), Some("v".to_string()));
}

#[test]
fn a_line_break_in_a_value_breaks_the_reload() {
    // Values may not hold line breaks; such a write renders text that no
    // longer parses, so the round trip is promised only without them.
    let mut s = Store::new();
    s.set("A", "k", "a\nb");
    assert!(Store::parse(s.serialize().as_str()).is_err());
}

#[test]
fn parse_rejects_unclosed_header() {
    assert_eq!(Store::parse("[General\nWidth=120\n").err(), Some(ParseError));
}

#[test]
fn parse_rejects_line_without_equals() {
    assert_eq!(Store::parse("[General]\nWidth\n").err(), Some(ParseError));
}

#[test]
fn parse_rejects_assignment_before_any_section() {
    assert_eq!(Store::parse("Width=120\n[General]\n").err(), Some(ParseError));
}

#[test]
fn load_of_missing_file_is_empty_store() {
    let s = Store::load(None).unwrap();
    assert_eq!(s.section_count(), 0);
}

#[test]
fn first_set_after_missing_file_creates_one_section() {
    let mut s = Store::load(None).unwrap();
    s.set("/notes/a.note", "Pinned", "true");
    assert_eq!(s.section_count(), 1);
    assert_eq!(s.serialize(), "[/notes/a.note]\nPinned=true\n");
}

#[test]
fn load_of_existing_text_parses_it() {
    let s = Store::load(Some("[A]\nx=1\n")).unwrap();
    assert_eq!(s.get("A", "x"), Some("1".to_string()));
}

#[test]
fn load_surfaces_parse_error() {
    assert_eq!(Store::load(Some("garbage")).err(), Some(ParseError));
}

#[test]
fn merge_before_write_keeps_externally_added_sections() {
    // The store knew only section A; an external writer added B to the
    // file; a write of C must keep all three.
    let mut ours = Store::new();
    ours.set("A", "x", "1");
    let on_disk_before = ours.serialize();
    let mut external = Store::parse(on_disk_before.as_str()).unwrap();
    external.set("B", "y", "2");
    let on_disk_now = external.serialize();
    let merged = Store::set_in_text(Some(on_disk_now.as_str()), "C", "z", "3").unwrap();
    let after = Store::parse(merged.as_str()).unwrap();
    assert_eq!(after.get("A", "x"), Some("1".to_string()));
    assert_eq!(after.get("B", "y"), Some("2".to_string()));
    assert_eq!(after.get("C", "z"), Some("3".to_string()));
    assert_eq!(
        after.section_keys(),
        vec!["A".to_string(), "B".to_string(), "C".to_string()]
    );
}

#[test]
fn set_in_text_on_missing_file_starts_fresh() {
    let out = Store::set_in_text(None, "/a/b.note", "Pinned", "true").unwrap();
    assert_eq!(out, "[/a/b.note]\nPinned=true\n");
}

#[test]
fn set_in_text_surfaces_parse_error_and_discards_write() {
    assert_eq!(
        Store::set_in_text(Some("[broken"), "A", "x", "1"),
        Err(ParseError)
    );
}
