//! Directory-level helpers over the metadata store: the notes root, the
//! current directory, and the decisions a directory lister needs.  The
//! listing itself is I/O and stays with the caller.

use vstd::prelude::*;

use crate::config::Config;
use crate::config::ConfigOptions;
use crate::config::ConfigSections;
use crate::store::spec_get;
use crate::store::spec_set;

verus! {

/// One directory entry of a listing, as the caller's lister fills it in.
pub struct Directory {
    pub name: String,
    pub path: String,
    pub children: Vec<Directory>,
}

/// Directory-level operations; all state lives in the store handed in.
pub struct Directories;

/// `base` and `sub` joined with a single separator.
pub open spec fn spec_path_join(base: Seq<char>, sub: Seq<char>) -> Seq<char> {
    if base.len() > 0 && base.last() == '/' {
        base + sub
    } else {
        base + seq!['/'] + sub
    }
}

impl Directories {
    /// The notes root: the configured user notes directory joined under
    /// the caller-resolved home directory; `None` when none is
    /// configured.
    pub fn bb_root_directory(home: &str, cfg: &Config) -> (r: Option<String>)
        ensures
            match spec_get(cfg.settings_view(), "General"@, "UserNotesDirectory"@) {
                Some(v) => r matches Some(p) && p@ == spec_path_join(home@, v),
                None => r is None,
            },
    {
        let section = ConfigSections::General;
        match cfg.config_value(section.as_str(), ConfigOptions::UserNotesDirectory) {
            Some(v) => {
                let n = home.unicode_len();
                let mut out = String::from_str(home);
                if n == 0 || home.get_char(n - 1) != '/' {
                    out.append("/");
                    proof {
                        reveal_strlit("/");
                        assert("/"@ =~= seq!['/']);
                    }
                }
                out.append(v.as_str());
                Some(out)
            },
            None => None,
        }
    }

    /// The directory last stored as current; `None` when none is stored.
    pub fn current_directory_path(cfg: &Config) -> (r: Option<String>)
        ensures
            match spec_get(cfg.settings_view(), "General"@, "CurrentDirectory"@) {
                Some(v) => r matches Some(p) && p@ == v,
                None => r is None,
            },
    {
        let section = ConfigSections::General;
        cfg.config_value(section.as_str(), ConfigOptions::CurrentDirectory)
    }

    /// Stores `path` as the current directory.
    pub fn set_current_directory_path(cfg: &mut Config, path: &str)
        ensures
            final(cfg).settings_view() == spec_set(
                old(cfg).settings_view(),
                "General"@,
                "CurrentDirectory"@,
                path@,
            ),
            final(cfg).meta_view() == old(cfg).meta_view(),
    {
        let section = ConfigSections::General;
        cfg.set_config_value(section.as_str(), ConfigOptions::CurrentDirectory, path);
    }

    /// Whether a listed directory has entries.
    pub fn dir_has_children(entries: &Vec<Directory>) -> (r: bool)
        ensures
            r == (entries@.len() > 0),
    {
        entries.len() > 0
    }

    /// Whether an entry name counts as hidden: it begins with a dot.
    pub fn is_hidden(name: &str) -> (r: bool)
        ensures
            r == (name@.len() > 0 && name@[0] == '.'),
    {
        if name.unicode_len() == 0 {
            false
        } else {
            name.get_char(0) == '.'
        }
    }
}

} // verus!
