//! Note-level helpers over the metadata store: the current note, the
//! pinned flag, the pinned-notes index under a directory, and the note
//! file extension rule.

use vstd::prelude::*;

use crate::config::Config;
use crate::config::ConfigOptions;
use crate::config::ConfigSections;
use crate::store::StoreView;
use crate::store::lemma_matching_iff;
use crate::store::lookup_entries;
use crate::store::spec_get;
use crate::store::spec_matching;
use crate::store::spec_set;
use crate::strutil::contains_sub;
use crate::strutil::remove_all;
use crate::strutil::spec_contains_sub;
use crate::strutil::spec_remove_all;

verus! {

/// One listed note, as the caller's directory listing fills it in.
pub struct Note {
    pub name: String,
    pub path: String,
    pub is_pinned: bool,
}

/// Note-level operations; all state lives in the store handed in.
pub struct Notes;

/// The keys matched by the pinned-notes index: sections whose `Pinned`
/// option is exactly `"true"` and whose key contains `dir` as a
/// substring, in file order.
pub open spec fn spec_pinned_from(keys: Seq<Seq<char>>, dir: Seq<char>) -> Seq<Seq<char>>
    decreases keys.len(),
{
    if keys.len() == 0 {
        Seq::empty()
    } else if spec_contains_sub(keys[0], dir) {
        seq![keys[0]] + spec_pinned_from(keys.drop_first(), dir)
    } else {
        spec_pinned_from(keys.drop_first(), dir)
    }
}

pub open spec fn spec_pinned(meta: StoreView, dir: Seq<char>) -> Seq<Seq<char>> {
    spec_pinned_from(spec_matching(meta, "Pinned"@, "true"@), dir)
}

/// The pinned filter keeps exactly the keys that contain `dir`.
pub proof fn lemma_pinned_from_iff(keys: Seq<Seq<char>>, dir: Seq<char>, k: Seq<char>)
    ensures
        spec_pinned_from(keys, dir).contains(k) <==> (keys.contains(k) && spec_contains_sub(
            k,
            dir,
        )),
    decreases keys.len(),
{
    if keys.len() > 0 {
        lemma_pinned_from_iff(keys.drop_first(), dir, k);
        let rest = spec_pinned_from(keys.drop_first(), dir);
        if spec_contains_sub(keys[0], dir) {
            let whole = seq![keys[0]] + rest;
            assert(whole[0] == keys[0]);
            if rest.contains(k) {
                let t = choose|t: int| 0 <= t < rest.len() && rest[t] == k;
                assert(whole[t + 1] == k);
            }
            if whole.contains(k) {
                let t = choose|t: int| 0 <= t < whole.len() && whole[t] == k;
                if t > 0 {
                    assert(rest[t - 1] == k);
                }
            }
        }
        if keys.drop_first().contains(k) {
            let t = choose|t: int| 0 <= t < keys.drop_first().len() && keys.drop_first()[t] == k;
            assert(keys[t + 1] == k);
        }
        if keys.contains(k) && spec_contains_sub(k, dir) {
            let t = choose|t: int| 0 <= t < keys.len() && keys[t] == k;
            if t > 0 {
                assert(keys.drop_first()[t - 1] == k);
            }
        }
    }
}

/// The pinned index is exact: it holds a key precisely when some section
/// has that key with `Pinned` stored as exactly `"true"`, and the key
/// contains `dir` as a substring.
pub proof fn lemma_pinned_iff(meta: StoreView, dir: Seq<char>, k: Seq<char>)
    ensures
        spec_pinned(meta, dir).contains(k) <==> ((exists|i: int|
            0 <= i < meta.len() && meta[i].0 == k && lookup_entries(meta[i].1, "Pinned"@) == Some(
                "true"@,
            )) && spec_contains_sub(k, dir)),
{
    lemma_pinned_from_iff(spec_matching(meta, "Pinned"@, "true"@), dir, k);
    lemma_matching_iff(meta, "Pinned"@, "true"@, k);
}

/// Whether the final path component has an extension: a `.` strictly
/// after the component's first character.
pub open spec fn spec_has_extension(p: Seq<char>) -> bool {
    exists|i: int| comp_start(p) + 1 <= i < p.len() && p[i] == '.'
}

/// Index right after the last `/`: where the final path component starts.
pub open spec fn comp_start(p: Seq<char>) -> int
    decreases p.len(),
{
    if p.len() == 0 {
        0
    } else if p.last() == '/' {
        p.len() as int
    } else {
        comp_start(p.drop_last())
    }
}

/// `comp_start` is determined by any cut with no separator after it.
proof fn lemma_comp_start_at(p: Seq<char>, q: int)
    requires
        0 <= q <= p.len(),
        q > 0 ==> p[q - 1] == '/',
        forall|j: int| q <= j < p.len() ==> p[j] != '/',
    ensures
        comp_start(p) == q,
    decreases p.len(),
{
    if p.len() > 0 && p.last() != '/' {
        assert(q < p.len());
        assert(forall|j: int| 0 <= j < p.len() - 1 ==> p.drop_last()[j] == p[j]);
        lemma_comp_start_at(p.drop_last(), q);
    }
}

/// The note file extension appended when a path has none.
pub open spec fn spec_with_note_extension(p: Seq<char>) -> Seq<char> {
    if spec_has_extension(p) {
        p
    } else {
        p + seq!['.', 'n', 'o', 't', 'e']
    }
}

impl Notes {
    /// The note last stored as current, every `file://` scheme prefix
    /// removed; `None` when no current note is stored.
    pub fn current_path(cfg: &Config) -> (r: Option<String>)
        ensures
            match spec_get(cfg.settings_view(), "General"@, "CurrentNote"@) {
                Some(v) => r matches Some(p) && p@ == spec_remove_all(v, "file://"@),
                None => r is None,
            },
    {
        let section = ConfigSections::General;
        match cfg.config_value(section.as_str(), ConfigOptions::CurrentNote) {
            Some(v) => Some(remove_all(v.as_str(), "file://")),
            None => None,
        }
    }

    /// Stores `path` as the current note.
    pub fn set_current_path(cfg: &mut Config, path: &str)
        ensures
            final(cfg).settings_view() == spec_set(
                old(cfg).settings_view(),
                "General"@,
                "CurrentNote"@,
                path@,
            ),
            final(cfg).meta_view() == old(cfg).meta_view(),
    {
        let section = ConfigSections::General;
        cfg.set_config_value(section.as_str(), ConfigOptions::CurrentNote, path);
    }

    /// Appends the note file extension when the path's final component
    /// has none.
    pub fn ensure_correct_path(path: &str) -> (r: String)
        ensures
            r@ == spec_with_note_extension(path@),
    {
        let n = path.unicode_len();
        let mut start: usize = 0;
        let mut i: usize = 0;
        while i < n
            invariant
                n == path@.len(),
                i <= n,
                start <= i,
                start > 0 ==> path@[start as int - 1] == '/',
                forall|j: int| start <= j < i ==> path@[j] != '/',
            decreases n - i,
        {
            if path.get_char(i) == '/' {
                start = i + 1;
            }
            i = i + 1;
        }
        proof {
            lemma_comp_start_at(path@, start as int);
        }
        let mut k: usize = start;
        while k < n
            invariant
                n == path@.len(),
                comp_start(path@) == start as int,
                start <= k <= n,
                forall|j: int| start < j < k ==> path@[j] != '.',
            decreases n - k,
        {
            if k > start && path.get_char(k) == '.' {
                proof {
                    assert(comp_start(path@) + 1 <= k < path@.len() && path@[k as int] == '.');
                    assert(spec_has_extension(path@));
                }
                return String::from_str(path);
            }
            k = k + 1;
        }
        proof {
            assert(!spec_has_extension(path@));
            reveal_strlit(".note");
            assert(".note"@ =~= seq!['.', 'n', 'o', 't', 'e']);
        }
        let mut out = String::from_str(path);
        out.append(".note");
        out
    }

    /// Whether the note at `path` is pinned: its Path Metadata section
    /// has `Pinned` stored as exactly `"true"`.
    pub fn is_pinned(cfg: &Config, path: &str) -> (r: bool)
        ensures
            r == (spec_get(cfg.meta_view(), path@, "Pinned"@) == Some("true"@)),
    {
        match cfg.meta_info(path, ConfigOptions::Pinned) {
            Some(v) => crate::strutil::str_eq(v.as_str(), "true"),
            None => false,
        }
    }

    /// Stores the pinned flag for `path`, as the text `"true"` or
    /// `"false"`, creating the path's section on first write.
    pub fn set_is_pinned(cfg: &mut Config, path: &str, is_pinned: bool)
        ensures
            final(cfg).meta_view() == spec_set(
                old(cfg).meta_view(),
                path@,
                "Pinned"@,
                if is_pinned {
                    "true"@
                } else {
                    "false"@
                },
            ),
            final(cfg).settings_view() == old(cfg).settings_view(),
    {
        if is_pinned {
            cfg.set_meta_value(path, ConfigOptions::Pinned, "true");
        } else {
            cfg.set_meta_value(path, ConfigOptions::Pinned, "false");
        }
    }

    /// The pinned notes under `path`: sections pinned `"true"` whose key
    /// contains `path` as a substring, in file order.  The filter is a
    /// plain substring match, not a path-aware containment check, and
    /// that is deliberate: a sibling directory whose name extends `path`
    /// also matches, a documented imprecision callers live with.
    pub fn pinned_notes(cfg: &Config, path: &str) -> (r: Vec<String>)
        ensures
            r.deep_view() == spec_pinned(cfg.meta_view(), path@),
    {
        let sections = cfg.sections_by_value(ConfigOptions::Pinned, "true");
        let ghost keys = sections.deep_view();
        let n = sections.len();
        let mut out: Vec<String> = Vec::new();
        let mut i: usize = 0;
        proof {
            assert(keys.skip(0) =~= keys);
            assert(out.deep_view() + spec_pinned_from(keys, path@) =~= spec_pinned_from(
                keys,
                path@,
            ));
        }
        while i < n
            invariant
                n == sections@.len(),
                keys == sections.deep_view(),
                keys.len() == sections@.len(),
                i <= n,
                spec_pinned_from(keys, path@) == out.deep_view() + spec_pinned_from(
                    keys.skip(i as int),
                    path@,
                ),
            decreases n - i,
        {
            proof {
                assert(keys.skip(i as int)[0] == keys[i as int]);
                assert(keys[i as int] == sections@[i as int]@);
                assert(keys.skip(i as int).drop_first() =~= keys.skip(i as int + 1));
            }
            if contains_sub(sections[i].as_str(), path) {
                let ghost out0 = out.deep_view();
                out.push(sections[i].clone());
                proof {
                    assert(out.deep_view() =~= out0.push(keys[i as int]));
                    assert(out0.push(keys[i as int]) =~= out0 + seq![keys[i as int]]);
                    assert((out0 + seq![keys[i as int]]) + spec_pinned_from(
                        keys.skip(i as int + 1),
                        path@,
                    ) =~= out0 + (seq![keys[i as int]] + spec_pinned_from(
                        keys.skip(i as int + 1),
                        path@,
                    )));
                }
            }
            i = i + 1;
        }
        proof {
            assert(keys.skip(i as int) =~= Seq::<Seq<char>>::empty());
            assert(out.deep_view() + spec_pinned_from(keys.skip(i as int), path@)
                =~= out.deep_view());
        }
        out
    }
}

} // verus!
