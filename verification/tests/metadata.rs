//! The two-namespace metadata store and the note and directory helpers.

use bellbird_core::config::Config;
use bellbird_core::config::ConfigOptions;
use bellbird_core::config::ConfigSections;
use bellbird_core::directories::Directories;
use bellbird_core::directories::Directory;
use bellbird_core::notes::Notes;

#[test]
fn section_names_match_the_settings_file() {
    assert_eq!(ConfigSections::General.as_str(), "General");
    assert_eq!(ConfigSections::SideBar.as_str(), "SideBar");
    assert_eq!(ConfigSections::NotesList.as_str(), "NotesList");
    assert_eq!(ConfigSections::BreadCrumb.as_str(), "BreadCrumb");
    assert_eq!(ConfigSections::Menu.as_str(), "Menu");
}

#[test]
fn option_names_match_the_store_files() {
    assert_eq!(ConfigOptions::DefaultNotesDirectory.as_str(), "DefaultNotesDirectory");
    assert_eq!(ConfigOptions::UserNotesDirectory.as_str(), "UserNotesDirectory");
    assert_eq!(ConfigOptions::DefaultFontSize.as_str(), "DefaultFontSize");
    assert_eq!(ConfigOptions::CurrentDirectory.as_str(), "CurrentDirectory");
    assert_eq!(ConfigOptions::CurrentNote.as_str(), "CurrentNote");
    assert_eq!(ConfigOptions::OpenNotes.as_str(), "OpenNotes");
    assert_eq!(ConfigOptions::Visible.as_str(), "Visible");
    assert_eq!(ConfigOptions::Width.as_str(), "Width");
    assert_eq!(ConfigOptions::CaretPosition.as_str(), "CaretPosition");
    assert_eq!(ConfigOptions::Pinned.as_str(), "Pinned");
}

#[test]
fn the_two_namespaces_are_independent() {
    let mut cfg = Config::new();
    cfg.set_config_value("General", ConfigOptions::Width, "120");
    cfg.set_meta_value("/a.note", ConfigOptions::Width, "9");
    assert_eq!(
        cfg.config_value("General", ConfigOptions::Width),
        Some("120".to_string())
    );
    assert_eq!(cfg.meta_info("General", ConfigOptions::Width), None);
    assert_eq!(
        cfg.meta_info("/a.note", ConfigOptions::Width),
        Some("9".to_string())
    );
    assert_eq!(cfg.config_value("/a.note", ConfigOptions::Width), None);
}

#[test]
fn from_texts_loads_both_namespaces() {
    let cfg = Config::from_texts(
        Some("[General]\nCurrentDirectory=/n\n"),
        Some("[/n/a.note]\nPinned=true\n"),
    )
    .unwrap();
    assert_eq!(
        cfg.config_value("General", ConfigOptions::CurrentDirectory),
        Some("/n".to_string())
    );
    assert_eq!(
        cfg.meta_info("/n/a.note", ConfigOptions::Pinned),
        Some("true".to_string())
    );
}

#[test]
fn from_texts_missing_files_read_as_empty() {
    let cfg = Config::from_texts(None, None).unwrap();
    assert_eq!(cfg.config_value("General", ConfigOptions::Width), None);
}

#[test]
fn from_texts_surfaces_parse_errors() {
    assert!(Config::from_texts(Some("[broken"), None).is_err());
    assert!(Config::from_texts(None, Some("no equals")).is_err());
}

#[test]
fn settings_text_renders_the_settings_namespace() {
    let mut cfg = Config::new();
    cfg.set_config_value("General", ConfigOptions::Width, "120");
    assert_eq!(cfg.settings_text(), "[General]\nWidth=120\n");
    assert_eq!(cfg.meta_text(), "");
}

#[test]
fn end_to_end_pinning_scenario() {
    let mut cfg = Config::new();
    cfg.set_meta_value("/a/b.note", ConfigOptions::Pinned, "true");
    assert_eq!(
        cfg.sections_by_value(ConfigOptions::Pinned, "true"),
        vec!["/a/b.note".to_string()]
    );
    cfg.set_meta_value("/a/c.note", ConfigOptions::Pinned, "true");
    assert_eq!(
        cfg.sections_by_value(ConfigOptions::Pinned, "true"),
        vec!["/a/b.note".to_string(), "/a/c.note".to_string()]
    );
}

#[test]
fn sections_by_value_is_exact() {
    let mut cfg = Config::new();
    cfg.set_meta_value("/a.note", ConfigOptions::Pinned, "true");
    cfg.set_meta_value("/b.note", ConfigOptions::Pinned, "truthy");
    assert_eq!(
        cfg.sections_by_value(ConfigOptions::Pinned, "true"),
        vec!["/a.note".to_string()]
    );
}

#[test]
fn is_pinned_reads_only_the_literal_true() {
    let mut cfg = Config::new();
    Notes::set_is_pinned(&mut cfg, "/a.note", true);
    Notes::set_is_pinned(&mut cfg, "/b.note", false);
    cfg.set_meta_value("/c.note", ConfigOptions::Pinned, "TRUE");
    assert!(Notes::is_pinned(&cfg, "/a.note"));
    assert!(!Notes::is_pinned(&cfg, "/b.note"));
    assert!(!Notes::is_pinned(&cfg, "/c.note"));
    assert!(!Notes::is_pinned(&cfg, "/missing.note"));
}

#[test]
fn pinned_notes_include_sibling_directory_with_matching_prefix() {
    // The filter is a plain substring match, documented as such: a pinned
    // note under the sibling /notes/FooBar also matches /notes/Foo.
    let mut cfg = Config::new();
    Notes::set_is_pinned(&mut cfg, "/notes/Foo/a.note", true);
    Notes::set_is_pinned(&mut cfg, "/notes/FooBar/x.note", true);
    Notes::set_is_pinned(&mut cfg, "/notes/Bar/b.note", true);
    let pinned = Notes::pinned_notes(&cfg, "/notes/Foo");
    assert_eq!(
        pinned,
        vec![
            "/notes/Foo/a.note".to_string(),
            "/notes/FooBar/x.note".to_string()
        ]
    );
}

#[test]
fn pinned_notes_exclude_unpinned_and_unrelated() {
    let mut cfg = Config::new();
    Notes::set_is_pinned(&mut cfg, "/notes/Foo/a.note", false);
    Notes::set_is_pinned(&mut cfg, "/elsewhere/c.note", true);
    let pinned = Notes::pinned_notes(&cfg, "/notes/Foo");
    assert_eq!(pinned, Vec::<String>::new());
}

#[test]
fn current_note_round_trip_strips_file_scheme() {
    let mut cfg = Config::new();
    Notes::set_current_path(&mut cfg, "file:///home/me/notes/a.note");
    assert_eq!(
        Notes::current_path(&cfg),
        Some("/home/me/notes/a.note".to_string())
    );
    let empty = Config::new();
    assert_eq!(Notes::current_path(&empty), None);
}

#[test]
fn ensure_correct_path_appends_extension_when_missing() {
    assert_eq!(Notes::ensure_correct_path("/n/idea"), "/n/idea.note");
    assert_eq!(Notes::ensure_correct_path("/n/idea.note"), "/n/idea.note");
    assert_eq!(Notes::ensure_correct_path("/n/v1.2"), "/n/v1.2");
    assert_eq!(Notes::ensure_correct_path("/n/.hidden"), "/n/.hidden.note");
    assert_eq!(Notes::ensure_correct_path("/n.d/idea"), "/n.d/idea.note");
}

#[test]
fn bb_root_directory_joins_home_and_configured_directory() {
    let mut cfg = Config::new();
    assert_eq!(Directories::bb_root_directory("/home/me", &cfg), None);
    cfg.set_config_value("General", ConfigOptions::UserNotesDirectory, "Notes");
    assert_eq!(
        Directories::bb_root_directory("/home/me", &cfg),
        Some("/home/me/Notes".to_string())
    );
    assert_eq!(
        Directories::bb_root_directory("/home/me/", &cfg),
        Some("/home/me/Notes".to_string())
    );
}

#[test]
fn current_directory_path_round_trip() {
    let mut cfg = Config::new();
    assert_eq!(Directories::current_directory_path(&cfg), None);
    Directories::set_current_directory_path(&mut cfg, "/home/me/notes/Work");
    assert_eq!(
        Directories::current_directory_path(&cfg),
        Some("/home/me/notes/Work".to_string())
    );
}

#[test]
fn dir_has_children_checks_the_listing() {
    let none: Vec<Directory> = Vec::new();
    assert!(!Directories::dir_has_children(&none));
    let some = vec![Directory {
        name: "Work".to_string(),
        path: "/n/Work".to_string(),
        children: Vec::new(),
    }];
    assert!(Directories::dir_has_children(&some));
}

#[test]
fn hidden_entries_start_with_a_dot() {
    assert!(Directories::is_hidden(".git"));
    assert!(!Directories::is_hidden("notes"));
    assert!(!Directories::is_hidden(""));
}
