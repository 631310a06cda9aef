//! The two-namespace metadata store: application settings and per-path
//! metadata, each backed by one flat section file.  The caller reads the
//! files and hands their contents in; every mutation renders fresh text
//! for the caller to write back, so a write always merges into the
//! on-disk state it was loaded from.

use vstd::prelude::*;

use crate::store::Store;
use crate::store::StoreView;
use crate::store::SectionView;
use crate::store::spec_get;
use crate::store::spec_matching;
use crate::store::spec_set;
use crate::store::wf_store;
use crate::text::ParseError;
use crate::text::spec_load;
use crate::text::spec_serialize;
use crate::text::text_view;
use crate::text::valid_store;

verus! {

/// The fixed sections of the Settings namespace.
#[derive(Debug, Clone, Copy)]
pub enum ConfigSections {
    General,
    SideBar,
    NotesList,
    BreadCrumb,
    Menu,
}

impl ConfigSections {
    /// The section name as it appears in the Settings file.
    pub open spec fn spec_str(&self) -> Seq<char> {
        match self {
            ConfigSections::General => "General"@,
            ConfigSections::SideBar => "SideBar"@,
            ConfigSections::NotesList => "NotesList"@,
            ConfigSections::BreadCrumb => "BreadCrumb"@,
            ConfigSections::Menu => "Menu"@,
        }
    }

    pub fn as_str(&self) -> (r: &str)
        ensures
            r@ == self.spec_str(),
    {
        match self {
            ConfigSections::General => "General",
            ConfigSections::SideBar => "SideBar",
            ConfigSections::NotesList => "NotesList",
            ConfigSections::BreadCrumb => "BreadCrumb",
            ConfigSections::Menu => "Menu",
        }
    }
}

/// The option names the application stores.
#[derive(Debug, Clone, Copy)]
pub enum ConfigOptions {
    DefaultNotesDirectory,
    UserNotesDirectory,
    DefaultFontSize,
    CurrentDirectory,
    CurrentNote,
    OpenNotes,
    Visible,
    Width,
    CaretPosition,
    Pinned,
}

impl ConfigOptions {
    /// The option name as it appears in a store file.
    pub open spec fn spec_str(&self) -> Seq<char> {
        match self {
            ConfigOptions::DefaultNotesDirectory => "DefaultNotesDirectory"@,
            ConfigOptions::UserNotesDirectory => "UserNotesDirectory"@,
            ConfigOptions::DefaultFontSize => "DefaultFontSize"@,
            ConfigOptions::CurrentDirectory => "CurrentDirectory"@,
            ConfigOptions::CurrentNote => "CurrentNote"@,
            ConfigOptions::OpenNotes => "OpenNotes"@,
            ConfigOptions::Visible => "Visible"@,
            ConfigOptions::Width => "Width"@,
            ConfigOptions::CaretPosition => "CaretPosition"@,
            ConfigOptions::Pinned => "Pinned"@,
        }
    }

    pub fn as_str(&self) -> (r: &str)
        ensures
            r@ == self.spec_str(),
    {
        match self {
            ConfigOptions::DefaultNotesDirectory => "DefaultNotesDirectory",
            ConfigOptions::UserNotesDirectory => "UserNotesDirectory",
            ConfigOptions::DefaultFontSize => "DefaultFontSize",
            ConfigOptions::CurrentDirectory => "CurrentDirectory",
            ConfigOptions::CurrentNote => "CurrentNote",
            ConfigOptions::OpenNotes => "OpenNotes",
            ConfigOptions::Visible => "Visible",
            ConfigOptions::Width => "Width",
            ConfigOptions::CaretPosition => "CaretPosition",
            ConfigOptions::Pinned => "Pinned",
        }
    }
}

/// The metadata store over its two namespaces: the Settings namespace,
/// whose sections come from `ConfigSections`, and the Path Metadata
/// namespace, whose sections are path strings created on first write.
pub struct Config {
    settings: Store,
    meta: Store,
}

impl Config {
    /// The Settings namespace as the contracts see it.
    pub closed spec fn settings_view(&self) -> StoreView {
        self.settings@
    }

    /// The Path Metadata namespace as the contracts see it.
    pub closed spec fn meta_view(&self) -> StoreView {
        self.meta@
    }

    /// Both namespaces empty, as on a first run with no files on disk.
    pub fn new() -> (r: Config)
        ensures
            r.settings_view() == Seq::<SectionView>::empty(),
            r.meta_view() == Seq::<SectionView>::empty(),
    {
        Config { settings: Store::new(), meta: Store::new() }
    }

    /// Loads both namespaces from their file contents; `None` stands for
    /// a file that does not exist and reads as an empty namespace.
    /// Malformed contents surface as the parse error.
    pub fn from_texts(settings_text: Option<&str>, meta_text: Option<&str>) -> (r: Result<
        Config,
        ParseError,
    >)
        ensures
            match r {
                Ok(c) => {
                    &&& spec_load(text_view(settings_text)) == Some(c.settings_view())
                    &&& spec_load(text_view(meta_text)) == Some(c.meta_view())
                    &&& wf_store(c.settings_view()) && valid_store(c.settings_view())
                    &&& wf_store(c.meta_view()) && valid_store(c.meta_view())
                },
                Err(_) => spec_load(text_view(settings_text)) is None || spec_load(
                    text_view(meta_text),
                ) is None,
            },
    {
        match Store::load(settings_text) {
            Ok(settings) => match Store::load(meta_text) {
                Ok(meta) => Ok(Config { settings, meta }),
                Err(e) => Err(e),
            },
            Err(e) => Err(e),
        }
    }

    /// The value stored in the Settings namespace, if any.
    pub fn config_value(&self, section: &str, opt: ConfigOptions) -> (r: Option<String>)
        ensures
            match r {
                Some(v) => spec_get(self.settings_view(), section@, opt.spec_str()) == Some(v@),
                None => spec_get(self.settings_view(), section@, opt.spec_str()) is None,
            },
    {
        self.settings.get(section, opt.as_str())
    }

    /// The value stored in the Path Metadata namespace, if any.
    pub fn meta_info(&self, section: &str, opt: ConfigOptions) -> (r: Option<String>)
        ensures
            match r {
                Some(v) => spec_get(self.meta_view(), section@, opt.spec_str()) == Some(v@),
                None => spec_get(self.meta_view(), section@, opt.spec_str()) is None,
            },
    {
        self.meta.get(section, opt.as_str())
    }

    /// Writes one value into the Settings namespace.
    pub fn set_config_value(&mut self, section: &str, opt: ConfigOptions, value: &str)
        ensures
            final(self).settings_view() == spec_set(
                old(self).settings_view(),
                section@,
                opt.spec_str(),
                value@,
            ),
            final(self).meta_view() == old(self).meta_view(),
    {
        self.settings.set(section, opt.as_str(), value);
    }

    /// Writes one value into the Path Metadata namespace, creating the
    /// path's section on first write.
    pub fn set_meta_value(&mut self, section: &str, opt: ConfigOptions, value: &str)
        ensures
            final(self).meta_view() == spec_set(
                old(self).meta_view(),
                section@,
                opt.spec_str(),
                value@,
            ),
            final(self).settings_view() == old(self).settings_view(),
    {
        self.meta.set(section, opt.as_str(), value);
    }

    /// The reverse lookup over the Path Metadata namespace: the keys of
    /// the sections whose option `opt` equals `expected_value` exactly,
    /// in file order.
    pub fn sections_by_value(&self, opt: ConfigOptions, expected_value: &str) -> (r: Vec<String>)
        ensures
            r.deep_view() == spec_matching(self.meta_view(), opt.spec_str(), expected_value@),
    {
        self.meta.sections_matching(opt.as_str(), expected_value)
    }

    /// The Settings namespace rendered for writing back to its file.
    pub fn settings_text(&self) -> (r: String)
        ensures
            r@ == spec_serialize(self.settings_view()),
    {
        self.settings.serialize()
    }

    /// The Path Metadata namespace rendered for writing back to its file.
    pub fn meta_text(&self) -> (r: String)
        ensures
            r@ == spec_serialize(self.meta_view()),
    {
        self.meta.serialize()
    }
}

} // verus!
