//! The flat section store: an ordered list of named sections, each holding
//! an ordered list of option/value pairs.  Sections are matched by exact,
//! case-sensitive string comparison.  `set` replaces the value of an
//! existing option in place and otherwise appends, creating the section at
//! the end of the list when it is new; `get` never fails on missing keys.

use vstd::prelude::*;

verus! {

/// One option/value pair, as it appears in a section: option name, value.
pub type EntryView = (Seq<char>, Seq<char>);

/// One named section: section key, ordered option/value pairs.
pub type SectionView = (Seq<char>, Seq<EntryView>);

/// The whole store: ordered sequence of sections.
pub type StoreView = Seq<SectionView>;

/// Option names are unique within a section.
pub open spec fn wf_entries(es: Seq<EntryView>) -> bool {
    forall|i: int, j: int| 0 <= i < j < es.len() ==> es[i].0 != es[j].0
}

/// Section keys are unique across the store.
pub open spec fn wf_sections(s: StoreView) -> bool {
    forall|i: int, j: int| 0 <= i < j < s.len() ==> s[i].0 != s[j].0
}

/// A well-formed store: unique section keys, unique option names within
/// each section.
pub open spec fn wf_store(s: StoreView) -> bool {
    wf_sections(s) && (forall|i: int| 0 <= i < s.len() ==> wf_entries(#[trigger] s[i].1))
}

/// The value of the first entry named `opt`, if any.
pub open spec fn lookup_entries(es: Seq<EntryView>, opt: Seq<char>) -> Option<Seq<char>>
    decreases es.len(),
{
    if es.len() == 0 {
        None
    } else if es[0].0 == opt {
        Some(es[0].1)
    } else {
        lookup_entries(es.drop_first(), opt)
    }
}

/// Whether the store holds a section keyed `key`.
pub open spec fn has_section(s: StoreView, key: Seq<char>) -> bool
    decreases s.len(),
{
    if s.len() == 0 {
        false
    } else if s[0].0 == key {
        true
    } else {
        has_section(s.drop_first(), key)
    }
}

/// The value stored under `(key, opt)`, if both the section and the
/// option exist.
pub open spec fn spec_get(s: StoreView, key: Seq<char>, opt: Seq<char>) -> Option<Seq<char>>
    decreases s.len(),
{
    if s.len() == 0 {
        None
    } else if s[0].0 == key {
        lookup_entries(s[0].1, opt)
    } else {
        spec_get(s.drop_first(), key, opt)
    }
}

/// Replaces the first entry named `opt` in place, or appends a new one.
pub open spec fn set_entries(es: Seq<EntryView>, opt: Seq<char>, val: Seq<char>) -> Seq<EntryView>
    decreases es.len(),
{
    if es.len() == 0 {
        seq![(opt, val)]
    } else if es[0].0 == opt {
        seq![(opt, val)] + es.drop_first()
    } else {
        seq![es[0]] + set_entries(es.drop_first(), opt, val)
    }
}

/// Inserts or replaces the value under `(key, opt)`.  A new section is
/// appended at the end of the store; a new option at the end of its
/// section; an existing option keeps its place.
pub open spec fn spec_set(s: StoreView, key: Seq<char>, opt: Seq<char>, val: Seq<char>) -> StoreView
    decreases s.len(),
{
    if s.len() == 0 {
        seq![(key, seq![(opt, val)])]
    } else if s[0].0 == key {
        seq![(key, set_entries(s[0].1, opt, val))] + s.drop_first()
    } else {
        seq![s[0]] + spec_set(s.drop_first(), key, opt, val)
    }
}

/// Appends an empty section keyed `key` when none exists; otherwise the
/// store is unchanged.
pub open spec fn spec_ensure_section(s: StoreView, key: Seq<char>) -> StoreView
    decreases s.len(),
{
    if s.len() == 0 {
        seq![(key, Seq::<EntryView>::empty())]
    } else if s[0].0 == key {
        s
    } else {
        seq![s[0]] + spec_ensure_section(s.drop_first(), key)
    }
}

/// Drops every section keyed `key` (a well-formed store has at most one).
pub open spec fn spec_remove_section(s: StoreView, key: Seq<char>) -> StoreView
    decreases s.len(),
{
    if s.len() == 0 {
        s
    } else if s[0].0 == key {
        spec_remove_section(s.drop_first(), key)
    } else {
        seq![s[0]] + spec_remove_section(s.drop_first(), key)
    }
}

/// The keys of the sections whose option `opt` is set to exactly `val`,
/// in store order.
pub open spec fn spec_matching(s: StoreView, opt: Seq<char>, val: Seq<char>) -> Seq<Seq<char>>
    decreases s.len(),
{
    if s.len() == 0 {
        Seq::empty()
    } else if lookup_entries(s[0].1, opt) == Some(val) {
        seq![s[0].0] + spec_matching(s.drop_first(), opt, val)
    } else {
        spec_matching(s.drop_first(), opt, val)
    }
}

// ------------------------------------------------------------------
// Positional characterizations of the recursive definitions.
// ------------------------------------------------------------------

pub proof fn lemma_lookup_at(es: Seq<EntryView>, opt: Seq<char>, j: int)
    requires
        0 <= j < es.len(),
        es[j].0 == opt,
        forall|t: int| 0 <= t < j ==> es[t].0 != opt,
    ensures
        lookup_entries(es, opt) == Some(es[j].1),
    decreases j,
{
    if j == 0 {
    } else {
        assert(es.drop_first()[j - 1] == es[j]);
        assert(forall|t: int| 0 <= t < j - 1 ==> es.drop_first()[t] == es[t + 1]);
        lemma_lookup_at(es.drop_first(), opt, j - 1);
    }
}

pub proof fn lemma_lookup_none(es: Seq<EntryView>, opt: Seq<char>)
    requires
        forall|t: int| 0 <= t < es.len() ==> es[t].0 != opt,
    ensures
        lookup_entries(es, opt) is None,
    decreases es.len(),
{
    if es.len() > 0 {
        assert(forall|t: int| 0 <= t < es.len() - 1 ==> es.drop_first()[t] == es[t + 1]);
        lemma_lookup_none(es.drop_first(), opt);
    }
}

pub proof fn lemma_get_at(s: StoreView, key: Seq<char>, opt: Seq<char>, i: int)
    requires
        0 <= i < s.len(),
        s[i].0 == key,
        forall|j: int| 0 <= j < i ==> s[j].0 != key,
    ensures
        spec_get(s, key, opt) == lookup_entries(s[i].1, opt),
    decreases i,
{
    if i == 0 {
    } else {
        assert(s.drop_first()[i - 1] == s[i]);
        assert(forall|j: int| 0 <= j < i - 1 ==> s.drop_first()[j] == s[j + 1]);
        lemma_get_at(s.drop_first(), key, opt, i - 1);
    }
}

pub proof fn lemma_get_none(s: StoreView, key: Seq<char>, opt: Seq<char>)
    requires
        forall|j: int| 0 <= j < s.len() ==> s[j].0 != key,
    ensures
        spec_get(s, key, opt) is None,
    decreases s.len(),
{
    if s.len() > 0 {
        assert(forall|j: int| 0 <= j < s.len() - 1 ==> s.drop_first()[j] == s[j + 1]);
        lemma_get_none(s.drop_first(), key, opt);
    }
}

pub proof fn lemma_set_entries_at(es: Seq<EntryView>, opt: Seq<char>, val: Seq<char>, j: int)
    requires
        0 <= j < es.len(),
        es[j].0 == opt,
        forall|t: int| 0 <= t < j ==> es[t].0 != opt,
    ensures
        set_entries(es, opt, val) =~= es.update(j, (opt, val)),
    decreases j,
{
    if j == 0 {
    } else {
        assert(es.drop_first()[j - 1] == es[j]);
        assert(forall|t: int| 0 <= t < j - 1 ==> es.drop_first()[t] == es[t + 1]);
        lemma_set_entries_at(es.drop_first(), opt, val, j - 1);
        assert(es.drop_first().update(j - 1, (opt, val)) =~= es.update(j, (opt, val)).drop_first());
    }
}

pub proof fn lemma_set_entries_absent(es: Seq<EntryView>, opt: Seq<char>, val: Seq<char>)
    requires
        forall|t: int| 0 <= t < es.len() ==> es[t].0 != opt,
    ensures
        set_entries(es, opt, val) =~= es.push((opt, val)),
    decreases es.len(),
{
    if es.len() > 0 {
        assert(forall|t: int| 0 <= t < es.len() - 1 ==> es.drop_first()[t] == es[t + 1]);
        lemma_set_entries_absent(es.drop_first(), opt, val);
    }
}

pub proof fn lemma_set_at(s: StoreView, key: Seq<char>, opt: Seq<char>, val: Seq<char>, i: int)
    requires
        0 <= i < s.len(),
        s[i].0 == key,
        forall|j: int| 0 <= j < i ==> s[j].0 != key,
    ensures
        spec_set(s, key, opt, val) =~= s.update(i, (key, set_entries(s[i].1, opt, val))),
    decreases i,
{
    if i == 0 {
    } else {
        assert(s.drop_first()[i - 1] == s[i]);
        assert(forall|j: int| 0 <= j < i - 1 ==> s.drop_first()[j] == s[j + 1]);
        lemma_set_at(s.drop_first(), key, opt, val, i - 1);
        assert(s.drop_first().update(i - 1, (key, set_entries(s[i].1, opt, val))) =~= s.update(
            i,
            (key, set_entries(s[i].1, opt, val)),
        ).drop_first());
    }
}

pub proof fn lemma_set_absent(s: StoreView, key: Seq<char>, opt: Seq<char>, val: Seq<char>)
    requires
        forall|j: int| 0 <= j < s.len() ==> s[j].0 != key,
    ensures
        spec_set(s, key, opt, val) =~= s.push((key, seq![(opt, val)])),
    decreases s.len(),
{
    if s.len() > 0 {
        assert(forall|j: int| 0 <= j < s.len() - 1 ==> s.drop_first()[j] == s[j + 1]);
        lemma_set_absent(s.drop_first(), key, opt, val);
    }
}

pub proof fn lemma_ensure_present(s: StoreView, key: Seq<char>, i: int)
    requires
        0 <= i < s.len(),
        s[i].0 == key,
    ensures
        spec_ensure_section(s, key) == s,
    decreases i,
{
    if i == 0 {
    } else {
        if s[0].0 != key {
            assert(s.drop_first()[i - 1] == s[i]);
            lemma_ensure_present(s.drop_first(), key, i - 1);
            assert(seq![s[0]] + s.drop_first() =~= s);
        }
    }
}

pub proof fn lemma_ensure_absent(s: StoreView, key: Seq<char>)
    requires
        forall|j: int| 0 <= j < s.len() ==> s[j].0 != key,
    ensures
        spec_ensure_section(s, key) =~= s.push((key, Seq::<EntryView>::empty())),
    decreases s.len(),
{
    if s.len() > 0 {
        assert(forall|j: int| 0 <= j < s.len() - 1 ==> s.drop_first()[j] == s[j + 1]);
        lemma_ensure_absent(s.drop_first(), key);
    }
}

// ------------------------------------------------------------------
// Laws: what one operation observes after another.
// ------------------------------------------------------------------

proof fn lemma_lookup_after_set_entries_same(es: Seq<EntryView>, opt: Seq<char>, val: Seq<char>)
    ensures
        lookup_entries(set_entries(es, opt, val), opt) == Some(val),
    decreases es.len(),
{
    if es.len() == 0 {
    } else if es[0].0 == opt {
        assert(set_entries(es, opt, val)[0] == (opt, val));
    } else {
        lemma_lookup_after_set_entries_same(es.drop_first(), opt, val);
        assert(set_entries(es, opt, val).drop_first() =~= set_entries(es.drop_first(), opt, val));
    }
}

proof fn lemma_lookup_after_set_entries_other(
    es: Seq<EntryView>,
    o1: Seq<char>,
    val: Seq<char>,
    o2: Seq<char>,
)
    requires
        o2 != o1,
    ensures
        lookup_entries(set_entries(es, o1, val), o2) == lookup_entries(es, o2),
    decreases es.len(),
{
    let w = set_entries(es, o1, val);
    if es.len() == 0 {
        assert(w =~= seq![(o1, val)]);
        assert(w[0].0 == o1);
        assert(w.drop_first() =~= Seq::<EntryView>::empty());
        assert(lookup_entries(w, o2) == lookup_entries(w.drop_first(), o2));
        assert(lookup_entries(w.drop_first(), o2) is None);
        assert(lookup_entries(es, o2) is None);
    } else if es[0].0 == o1 {
        assert(w == seq![(o1, val)] + es.drop_first());
        assert(w[0] == (o1, val));
        assert(w.len() == 1 + es.drop_first().len());
        assert(w.drop_first() =~= es.drop_first());
        assert(lookup_entries(w, o2) == lookup_entries(es.drop_first(), o2));
        assert(lookup_entries(es, o2) == lookup_entries(es.drop_first(), o2));
    } else {
        lemma_lookup_after_set_entries_other(es.drop_first(), o1, val, o2);
        assert(w == seq![es[0]] + set_entries(es.drop_first(), o1, val));
        assert(w[0] == es[0]);
        assert(w.len() >= 1);
        assert(w.drop_first() =~= set_entries(es.drop_first(), o1, val));
        if es[0].0 == o2 {
            assert(lookup_entries(w, o2) == Some(w[0].1));
            assert(lookup_entries(es, o2) == Some(es[0].1));
        } else {
            assert(lookup_entries(w, o2) == lookup_entries(w.drop_first(), o2));
            assert(lookup_entries(es, o2) == lookup_entries(es.drop_first(), o2));
        }
    }
}

/// The latest write wins: reading back the pair just written yields the
/// written value.
pub proof fn lemma_get_after_set_same(s: StoreView, key: Seq<char>, opt: Seq<char>, val: Seq<char>)
    ensures
        spec_get(spec_set(s, key, opt, val), key, opt) == Some(val),
    decreases s.len(),
{
    if s.len() == 0 {
        assert(spec_set(s, key, opt, val)[0] == (key, seq![(opt, val)]));
    } else if s[0].0 == key {
        assert(spec_set(s, key, opt, val)[0] == (key, set_entries(s[0].1, opt, val)));
        lemma_lookup_after_set_entries_same(s[0].1, opt, val);
    } else {
        lemma_get_after_set_same(s.drop_first(), key, opt, val);
        assert(spec_set(s, key, opt, val)[0] == s[0]);
        assert(spec_set(s, key, opt, val).drop_first() =~= spec_set(
            s.drop_first(),
            key,
            opt,
            val,
        ));
    }
}

/// Isolation: writing one pair never changes what any other pair reads.
pub proof fn lemma_get_after_set_other(
    s: StoreView,
    k1: Seq<char>,
    o1: Seq<char>,
    val: Seq<char>,
    k2: Seq<char>,
    o2: Seq<char>,
)
    requires
        k2 != k1 || o2 != o1,
    ensures
        spec_get(spec_set(s, k1, o1, val), k2, o2) == spec_get(s, k2, o2),
    decreases s.len(),
{
    let w = spec_set(s, k1, o1, val);
    if s.len() == 0 {
        assert(w == seq![(k1, seq![(o1, val)])]);
        assert(w[0] == (k1, seq![(o1, val)]));
        assert(w.drop_first() =~= Seq::<SectionView>::empty());
        if k2 == k1 {
            lemma_lookup_after_set_entries_other(Seq::<EntryView>::empty(), o1, val, o2);
            assert(seq![(o1, val)] =~= set_entries(Seq::<EntryView>::empty(), o1, val));
            assert(spec_get(w, k2, o2) == lookup_entries(seq![(o1, val)], o2));
            assert(lookup_entries(Seq::<EntryView>::empty(), o2) is None);
        } else {
            assert(spec_get(w, k2, o2) == spec_get(w.drop_first(), k2, o2));
        }
        assert(spec_get(s, k2, o2) is None);
    } else if s[0].0 == k1 {
        assert(w == seq![(k1, set_entries(s[0].1, o1, val))] + s.drop_first());
        assert(w[0] == (k1, set_entries(s[0].1, o1, val)));
        assert(w.len() == 1 + s.drop_first().len());
        assert(w.drop_first() =~= s.drop_first());
        if k2 == k1 {
            lemma_lookup_after_set_entries_other(s[0].1, o1, val, o2);
            assert(spec_get(w, k2, o2) == lookup_entries(set_entries(s[0].1, o1, val), o2));
            assert(spec_get(s, k2, o2) == lookup_entries(s[0].1, o2));
        } else {
            assert(spec_get(w, k2, o2) == spec_get(w.drop_first(), k2, o2));
            assert(spec_get(s, k2, o2) == spec_get(s.drop_first(), k2, o2));
        }
    } else {
        lemma_get_after_set_other(s.drop_first(), k1, o1, val, k2, o2);
        assert(w == seq![s[0]] + spec_set(s.drop_first(), k1, o1, val));
        assert(w[0] == s[0]);
        assert(w.len() >= 1);
        assert(w.drop_first() =~= spec_set(s.drop_first(), k1, o1, val));
        if s[0].0 == k2 {
            assert(spec_get(w, k2, o2) == lookup_entries(w[0].1, o2));
            assert(spec_get(s, k2, o2) == lookup_entries(s[0].1, o2));
        } else {
            assert(spec_get(w, k2, o2) == spec_get(w.drop_first(), k2, o2));
            assert(spec_get(s, k2, o2) == spec_get(s.drop_first(), k2, o2));
        }
    }
}

/// Writing `(key, opt, val)` keeps every existing section and adds `key`;
/// it adds no other.
pub proof fn lemma_set_sections(
    s: StoreView,
    key: Seq<char>,
    opt: Seq<char>,
    val: Seq<char>,
    k: Seq<char>,
)
    ensures
        has_section(spec_set(s, key, opt, val), k) <==> (has_section(s, k) || k == key),
    decreases s.len(),
{
    let w = spec_set(s, key, opt, val);
    if s.len() == 0 {
        assert(w == seq![(key, seq![(opt, val)])]);
        assert(w[0].0 == key);
        assert(w.drop_first() =~= Seq::<SectionView>::empty());
        assert(!has_section(Seq::<SectionView>::empty(), k));
    } else if s[0].0 == key {
        assert(w == seq![(key, set_entries(s[0].1, opt, val))] + s.drop_first());
        assert(w[0].0 == key);
        assert(w.len() == 1 + s.drop_first().len());
        assert(w.drop_first() =~= s.drop_first());
        if k != key {
            assert(has_section(w, k) == has_section(w.drop_first(), k));
            assert(has_section(s, k) == has_section(s.drop_first(), k));
        }
    } else {
        lemma_set_sections(s.drop_first(), key, opt, val, k);
        assert(w == seq![s[0]] + spec_set(s.drop_first(), key, opt, val));
        assert(w[0] == s[0]);
        assert(w.len() >= 1);
        assert(w.drop_first() =~= spec_set(s.drop_first(), key, opt, val));
        if s[0].0 != k {
            assert(has_section(w, k) == has_section(w.drop_first(), k));
            assert(has_section(s, k) == has_section(s.drop_first(), k));
        }
    }
}

/// Position of the first entry named `opt`, counted from the front.
pub open spec fn first_entry_pos(es: Seq<EntryView>, opt: Seq<char>) -> int
    decreases es.len(),
{
    if es.len() == 0 {
        0
    } else if es[0].0 == opt {
        0
    } else {
        1 + first_entry_pos(es.drop_first(), opt)
    }
}

/// When an entry named `opt` exists, `first_entry_pos` points at the first
/// one.
pub proof fn lemma_first_entry_pos(es: Seq<EntryView>, opt: Seq<char>)
    requires
        lookup_entries(es, opt) is Some,
    ensures
        0 <= first_entry_pos(es, opt) < es.len(),
        es[first_entry_pos(es, opt)].0 == opt,
        lookup_entries(es, opt) == Some(es[first_entry_pos(es, opt)].1),
        forall|t: int| 0 <= t < first_entry_pos(es, opt) ==> es[t].0 != opt,
    decreases es.len(),
{
    if es.len() > 0 && es[0].0 != opt {
        lemma_first_entry_pos(es.drop_first(), opt);
        let j = first_entry_pos(es.drop_first(), opt);
        assert(es[j + 1] == es.drop_first()[j]);
        assert(forall|t: int| 1 <= t < j + 1 ==> es[t] == es.drop_first()[t - 1]);
    }
}

/// When no entry is named `opt`, every position disagrees with `opt`.
pub proof fn lemma_no_entry(es: Seq<EntryView>, opt: Seq<char>)
    requires
        lookup_entries(es, opt) is None,
    ensures
        forall|t: int| 0 <= t < es.len() ==> es[t].0 != opt,
    decreases es.len(),
{
    if es.len() > 0 {
        lemma_no_entry(es.drop_first(), opt);
        assert(forall|t: int| 1 <= t < es.len() ==> es[t] == es.drop_first()[t - 1]);
    }
}

/// Position of the first section keyed `key`, counted from the front.
pub open spec fn first_key_pos(s: StoreView, key: Seq<char>) -> int
    decreases s.len(),
{
    if s.len() == 0 {
        0
    } else if s[0].0 == key {
        0
    } else {
        1 + first_key_pos(s.drop_first(), key)
    }
}

/// When a section keyed `key` exists, `first_key_pos` points at the first
/// one.
pub proof fn lemma_first_key_pos(s: StoreView, key: Seq<char>)
    requires
        has_section(s, key),
    ensures
        0 <= first_key_pos(s, key) < s.len(),
        s[first_key_pos(s, key)].0 == key,
        forall|t: int| 0 <= t < first_key_pos(s, key) ==> s[t].0 != key,
    decreases s.len(),
{
    if s.len() > 0 && s[0].0 != key {
        lemma_first_key_pos(s.drop_first(), key);
        let j = first_key_pos(s.drop_first(), key);
        assert(s[j + 1] == s.drop_first()[j]);
        assert(forall|t: int| 1 <= t < j + 1 ==> s[t] == s.drop_first()[t - 1]);
    }
}

/// When no section is keyed `key`, every position disagrees with `key`.
pub proof fn lemma_no_section(s: StoreView, key: Seq<char>)
    requires
        !has_section(s, key),
    ensures
        forall|t: int| 0 <= t < s.len() ==> s[t].0 != key,
    decreases s.len(),
{
    if s.len() > 0 {
        lemma_no_section(s.drop_first(), key);
        assert(forall|t: int| 1 <= t < s.len() ==> s[t] == s.drop_first()[t - 1]);
    }
}

proof fn lemma_set_entries_preserves_wf(es: Seq<EntryView>, opt: Seq<char>, val: Seq<char>)
    requires
        wf_entries(es),
    ensures
        wf_entries(set_entries(es, opt, val)),
{
    if lookup_entries(es, opt) is Some {
        lemma_first_entry_pos(es, opt);
        lemma_set_entries_at(es, opt, val, first_entry_pos(es, opt));
    } else {
        lemma_no_entry(es, opt);
        lemma_set_entries_absent(es, opt, val);
    }
}

/// Appending a section adds exactly its key.
pub proof fn lemma_has_push(s: StoreView, x: SectionView, k: Seq<char>)
    ensures
        has_section(s.push(x), k) <==> (has_section(s, k) || x.0 == k),
    decreases s.len(),
{
    if s.len() == 0 {
        assert(s.push(x).len() == 1);
        assert(s.push(x)[0] == x);
        assert(s.push(x).drop_first() =~= Seq::<SectionView>::empty());
        assert(!has_section(Seq::<SectionView>::empty(), k));
        if x.0 != k {
            assert(has_section(s.push(x), k) == has_section(s.push(x).drop_first(), k));
        }
    } else {
        lemma_has_push(s.drop_first(), x, k);
        assert(s.push(x).len() == s.len() + 1);
        assert(s.push(x)[0] == s[0]);
        assert(s.push(x).drop_first() =~= s.drop_first().push(x));
        if s[0].0 != k {
            assert(has_section(s.push(x), k) == has_section(s.drop_first().push(x), k));
            assert(has_section(s, k) == has_section(s.drop_first(), k));
        }
    }
}

/// Ensuring a section preserves well-formedness.
pub proof fn lemma_ensure_preserves_wf(s: StoreView, key: Seq<char>)
    requires
        wf_store(s),
    ensures
        wf_store(spec_ensure_section(s, key)),
{
    if has_section(s, key) {
        lemma_first_key_pos(s, key);
        lemma_ensure_present(s, key, first_key_pos(s, key));
    } else {
        lemma_no_section(s, key);
        lemma_ensure_absent(s, key);
        let r = s.push((key, Seq::<EntryView>::empty()));
        assert(forall|j: int| 0 <= j < s.len() ==> r[j] == s[j]);
        assert(wf_entries(Seq::<EntryView>::empty()));
    }
}

/// A write preserves well-formedness.
pub proof fn lemma_set_preserves_wf(s: StoreView, key: Seq<char>, opt: Seq<char>, val: Seq<char>)
    requires
        wf_store(s),
    ensures
        wf_store(spec_set(s, key, opt, val)),
{
    if has_section(s, key) {
        lemma_first_key_pos(s, key);
        let i = first_key_pos(s, key);
        lemma_set_at(s, key, opt, val, i);
        lemma_set_entries_preserves_wf(s[i].1, opt, val);
        let r = s.update(i, (key, set_entries(s[i].1, opt, val)));
        assert(forall|j: int| 0 <= j < r.len() && j != i ==> r[j] == s[j]);
        assert(forall|j: int| 0 <= j < r.len() ==> r[j].0 == s[j].0);
    } else {
        lemma_no_section(s, key);
        lemma_set_absent(s, key, opt, val);
        let r = s.push((key, seq![(opt, val)]));
        assert(forall|j: int| 0 <= j < s.len() ==> r[j] == s[j]);
        assert(wf_entries(seq![(opt, val)]));
    }
}

/// Reverse lookup is exact: a key is returned precisely when some section
/// holds it with option `opt` set to exactly `val`.
pub proof fn lemma_matching_iff(s: StoreView, opt: Seq<char>, val: Seq<char>, key: Seq<char>)
    ensures
        spec_matching(s, opt, val).contains(key) <==> exists|i: int|
            0 <= i < s.len() && s[i].0 == key && lookup_entries(s[i].1, opt) == Some(val),
    decreases s.len(),
{
    if s.len() > 0 {
        lemma_matching_iff(s.drop_first(), opt, val, key);
        let rest = spec_matching(s.drop_first(), opt, val);
        if lookup_entries(s[0].1, opt) == Some(val) {
            let whole = seq![s[0].0] + rest;
            if s[0].0 == key {
                assert(whole[0] == key);
                assert(whole.contains(key));
            }
            if rest.contains(key) {
                let t = choose|t: int| 0 <= t < rest.len() && rest[t] == key;
                assert(whole[t + 1] == key);
                assert(whole.contains(key));
            }
            if whole.contains(key) {
                let t = choose|t: int| 0 <= t < whole.len() && whole[t] == key;
                if t == 0 {
                    assert(s[0].0 == key);
                } else {
                    assert(rest[t - 1] == key);
                    assert(rest.contains(key));
                }
            }
        }
        if exists|i: int|
            0 <= i < s.drop_first().len() && s.drop_first()[i].0 == key && lookup_entries(
                s.drop_first()[i].1,
                opt,
            ) == Some(val) {
            let i = choose|i: int|
                0 <= i < s.drop_first().len() && s.drop_first()[i].0 == key && lookup_entries(
                    s.drop_first()[i].1,
                    opt,
                ) == Some(val);
            assert(s[i + 1] == s.drop_first()[i]);
        }
        if exists|i: int|
            0 <= i < s.len() && s[i].0 == key && lookup_entries(s[i].1, opt) == Some(val) {
            let i = choose|i: int|
                0 <= i < s.len() && s[i].0 == key && lookup_entries(s[i].1, opt) == Some(val);
            if i > 0 {
                assert(s.drop_first()[i - 1] == s[i]);
            }
        }
    }
}

// ------------------------------------------------------------------
// The executable store.
// ------------------------------------------------------------------

/// One option/value pair held by a section.
pub struct Entry {
    pub key: String,
    pub value: String,
}

impl View for Entry {
    type V = EntryView;

    open spec fn view(&self) -> EntryView {
        (self.key@, self.value@)
    }
}

/// One named section of the store.
pub struct Section {
    pub key: String,
    pub entries: Vec<Entry>,
}

impl View for Section {
    type V = SectionView;

    open spec fn view(&self) -> SectionView {
        (self.key@, self.entries@.map_values(|e: Entry| e@))
    }
}

/// The in-memory flat section store.
pub struct Store {
    sections: Vec<Section>,
}

impl View for Store {
    type V = StoreView;

    closed spec fn view(&self) -> StoreView {
        self.sections@.map_values(|s: Section| s@)
    }
}

impl Store {
    /// An empty store, as a missing file reads on first run.
    pub fn new() -> (r: Store)
        ensures
            r@ == Seq::<SectionView>::empty(),
    {
        let r = Store { sections: Vec::new() };
        proof {
            assert(r@ =~= Seq::<SectionView>::empty());
        }
        r
    }

    /// How many sections the store holds.
    pub fn section_count(&self) -> (r: usize)
        ensures
            r == self@.len(),
    {
        self.sections.len()
    }

    /// The key of the section at position `i`.
    pub fn section_key(&self, i: usize) -> (r: &String)
        requires
            i < self@.len(),
        ensures
            r@ == self@[i as int].0,
    {
        &self.sections[i].key
    }

    /// How many option/value pairs the section at position `i` holds.
    pub fn entry_count(&self, i: usize) -> (r: usize)
        requires
            i < self@.len(),
        ensures
            r == self@[i as int].1.len(),
    {
        self.sections[i].entries.len()
    }

    /// The option/value pair at position `j` of the section at position `i`.
    pub fn entry_at(&self, i: usize, j: usize) -> (r: &Entry)
        requires
            i < self@.len(),
            j < self@[i as int].1.len(),
        ensures
            r@ == self@[i as int].1[j as int],
    {
        &self.sections[i].entries[j]
    }

    /// Position of the first section keyed `key`, if any.
    fn find_section(&self, key: &str) -> (r: Option<usize>)
        ensures
            match r {
                Some(i) => i < self@.len() && self@[i as int].0 == key@ && (forall|j: int|
                    0 <= j < i ==> self@[j].0 != key@),
                None => forall|j: int| 0 <= j < self@.len() ==> self@[j].0 != key@,
            },
    {
        let n = self.sections.len();
        let mut i: usize = 0;
        while i < n
            invariant
                n == self@.len(),
                i <= n,
                self@.len() == self.sections@.len(),
                forall|j: int| 0 <= j < i ==> self@[j].0 != key@,
            decreases n - i,
        {
            if crate::strutil::str_eq(self.sections[i].key.as_str(), key) {
                return Some(i);
            }
            i = i + 1;
        }
        None
    }

    /// Position of the first entry named `opt` in the section at `i`, if any.
    fn find_entry(&self, i: usize, opt: &str) -> (r: Option<usize>)
        requires
            i < self@.len(),
        ensures
            match r {
                Some(j) => j < self@[i as int].1.len() && self@[i as int].1[j as int].0 == opt@ && (
                forall|t: int| 0 <= t < j ==> self@[i as int].1[t].0 != opt@),
                None => forall|t: int| 0 <= t < self@[i as int].1.len() ==> self@[i as int].1[t].0
                    != opt@,
            },
    {
        let n = self.sections[i].entries.len();
        let mut j: usize = 0;
        while j < n
            invariant
                i < self@.len(),
                self@.len() == self.sections@.len(),
                n == self@[i as int].1.len(),
                n == self.sections@[i as int].entries@.len(),
                j <= n,
                forall|t: int| 0 <= t < j ==> self@[i as int].1[t].0 != opt@,
            decreases n - j,
        {
            if crate::strutil::str_eq(self.sections[i].entries[j].key.as_str(), opt) {
                return Some(j);
            }
            j = j + 1;
        }
        None
    }

    /// The value stored under `(key, opt)`; `None` when either the section
    /// or the option is missing.
    pub fn get(&self, key: &str, opt: &str) -> (r: Option<String>)
        ensures
            match r {
                Some(v) => spec_get(self@, key@, opt@) == Some(v@),
                None => spec_get(self@, key@, opt@) is None,
            },
    {
        match self.find_section(key) {
            Some(i) => {
                proof {
                    lemma_get_at(self@, key@, opt@, i as int);
                }
                match self.find_entry(i, opt) {
                    Some(j) => {
                        proof {
                            lemma_lookup_at(self@[i as int].1, opt@, j as int);
                        }
                        Some(self.sections[i].entries[j].value.clone())
                    },
                    None => {
                        proof {
                            lemma_lookup_none(self@[i as int].1, opt@);
                        }
                        None
                    },
                }
            },
            None => {
                proof {
                    lemma_get_none(self@, key@, opt@);
                }
                None
            },
        }
    }

    /// Inserts or replaces the value under `(key, opt)`.  A new section is
    /// created at the end of the store, a new option at the end of its
    /// section, and an existing option is overwritten in place.
    pub fn set(&mut self, key: &str, opt: &str, val: &str)
        ensures
            final(self)@ == spec_set(old(self)@, key@, opt@, val@),
    {
        let ghost s0 = self@;
        match self.find_section(key) {
            Some(i) => {
                let mut sec = self.sections.remove(i);
                let ghost sec0 = sec@;
                match Self::find_entry_in(&sec, opt) {
                    Some(j) => {
                        proof {
                            lemma_set_entries_at(sec0.1, opt@, val@, j as int);
                        }
                        sec.entries.set(
                            j,
                            Entry { key: String::from_str(opt), value: String::from_str(val) },
                        );
                    },
                    None => {
                        proof {
                            lemma_set_entries_absent(sec0.1, opt@, val@);
                        }
                        sec.entries.push(
                            Entry { key: String::from_str(opt), value: String::from_str(val) },
                        );
                    },
                }
                proof {
                    assert(sec@.1 =~= set_entries(sec0.1, opt@, val@));
                }
                self.sections.insert(i, sec);
                proof {
                    lemma_set_at(s0, key@, opt@, val@, i as int);
                    assert(sec@.0 == key@);
                    assert(self@ =~= s0.update(i as int, (key@, set_entries(s0[i as int].1, opt@, val@))));
                }
            },
            None => {
                let mut entries: Vec<Entry> = Vec::new();
                entries.push(Entry { key: String::from_str(opt), value: String::from_str(val) });
                let sec = Section { key: String::from_str(key), entries };
                self.sections.push(sec);
                proof {
                    lemma_set_absent(s0, key@, opt@, val@);
                    assert(sec@.1 =~= seq![(opt@, val@)]);
                    assert(self@ =~= s0.push((key@, seq![(opt@, val@)])));
                }
            },
        }
    }

    /// Like `find_entry`, over a section held outside the store.
    fn find_entry_in(sec: &Section, opt: &str) -> (r: Option<usize>)
        ensures
            match r {
                Some(j) => j < sec@.1.len() && sec@.1[j as int].0 == opt@ && (forall|t: int|
                    0 <= t < j ==> sec@.1[t].0 != opt@),
                None => forall|t: int| 0 <= t < sec@.1.len() ==> sec@.1[t].0 != opt@,
            },
    {
        let n = sec.entries.len();
        let mut j: usize = 0;
        while j < n
            invariant
                n == sec@.1.len(),
                n == sec.entries@.len(),
                j <= n,
                forall|t: int| 0 <= t < j ==> sec@.1[t].0 != opt@,
            decreases n - j,
        {
            if crate::strutil::str_eq(sec.entries[j].key.as_str(), opt) {
                return Some(j);
            }
            j = j + 1;
        }
        None
    }

    /// Creates an empty section keyed `key` at the end of the store when
    /// none exists; otherwise leaves the store unchanged.
    pub fn ensure_section(&mut self, key: &str)
        ensures
            final(self)@ == spec_ensure_section(old(self)@, key@),
    {
        let ghost s0 = self@;
        match self.find_section(key) {
            Some(i) => {
                proof {
                    lemma_ensure_present(s0, key@, i as int);
                }
            },
            None => {
                let sec = Section { key: String::from_str(key), entries: Vec::new() };
                self.sections.push(sec);
                proof {
                    lemma_ensure_absent(s0, key@);
                    assert(sec@.1 =~= Seq::<EntryView>::empty());
                    assert(self@ =~= s0.push((key@, Seq::<EntryView>::empty())));
                }
            },
        }
    }

    /// Deletes every section keyed `key`; a no-op when none exists.
    pub fn remove_section(&mut self, key: &str)
        ensures
            final(self)@ == spec_remove_section(old(self)@, key@),
    {
        let ghost s0 = self@;
        let mut i: usize = 0;
        proof {
            assert(self@.skip(0) =~= self@);
            assert(self@.take(0) + spec_remove_section(self@, key@) =~= spec_remove_section(
                self@,
                key@,
            ));
        }
        while i < self.sections.len()
            invariant
                i <= self@.len(),
                self@.len() == self.sections@.len(),
                forall|j: int| 0 <= j < i ==> self@[j].0 != key@,
                spec_remove_section(s0, key@) == self@.take(i as int) + spec_remove_section(
                    self@.skip(i as int),
                    key@,
                ),
            decreases self@.len() - i,
        {
            let ghost cv = self@;
            if crate::strutil::str_eq(self.sections[i].key.as_str(), key) {
                self.sections.remove(i);
                proof {
                    assert(self@ =~= cv.take(i as int) + cv.skip(i as int + 1));
                    assert(self@.take(i as int) =~= cv.take(i as int));
                    assert(self@.skip(i as int) =~= cv.skip(i as int + 1));
                    assert(cv.skip(i as int)[0] == cv[i as int]);
                    assert(cv.skip(i as int).drop_first() =~= cv.skip(i as int + 1));
                }
            } else {
                proof {
                    assert(cv.skip(i as int)[0] == cv[i as int]);
                    assert(cv.skip(i as int).drop_first() =~= cv.skip(i as int + 1));
                    assert(cv.take(i as int + 1) =~= cv.take(i as int) + seq![cv[i as int]]);
                    assert((cv.take(i as int) + seq![cv[i as int]]) + spec_remove_section(
                        cv.skip(i as int + 1),
                        key@,
                    ) =~= cv.take(i as int) + (seq![cv[i as int]] + spec_remove_section(
                        cv.skip(i as int + 1),
                        key@,
                    )));
                }
                i = i + 1;
            }
        }
        proof {
            assert(self@.take(i as int) =~= self@);
            assert(self@.skip(i as int) =~= Seq::<SectionView>::empty());
            assert(self@.take(i as int) + spec_remove_section(self@.skip(i as int), key@)
                =~= self@);
        }
    }

    /// The keys of the sections whose option `opt` equals `val` exactly,
    /// in store order.
    pub fn sections_matching(&self, opt: &str, val: &str) -> (r: Vec<String>)
        ensures
            r.deep_view() == spec_matching(self@, opt@, val@),
    {
        let n = self.sections.len();
        let mut out: Vec<String> = Vec::new();
        let mut i: usize = 0;
        proof {
            assert(self@.skip(0) =~= self@);
            assert(out.deep_view() + spec_matching(self@, opt@, val@) =~= spec_matching(
                self@,
                opt@,
                val@,
            ));
        }
        while i < n
            invariant
                n == self@.len(),
                self@.len() == self.sections@.len(),
                i <= n,
                spec_matching(self@, opt@, val@) == out.deep_view() + spec_matching(
                    self@.skip(i as int),
                    opt@,
                    val@,
                ),
            decreases n - i,
        {
            let ghost rest = self@.skip(i as int);
            proof {
                assert(rest[0] == self@[i as int]);
                assert(rest.drop_first() =~= self@.skip(i as int + 1));
            }
            let matched: bool = match self.find_entry(i, opt) {
                Some(j) => {
                    proof {
                        lemma_lookup_at(self@[i as int].1, opt@, j as int);
                    }
                    crate::strutil::str_eq(self.sections[i].entries[j].value.as_str(), val)
                },
                None => {
                    proof {
                        lemma_lookup_none(self@[i as int].1, opt@);
                    }
                    false
                },
            };
            if matched {
                let ghost out0 = out.deep_view();
                out.push(self.sections[i].key.clone());
                proof {
                    assert(out.deep_view() =~= out0.push(self@[i as int].0));
                    assert(out0.push(self@[i as int].0) =~= out0 + seq![self@[i as int].0]);
                    assert((out0 + seq![self@[i as int].0]) + spec_matching(
                        self@.skip(i as int + 1),
                        opt@,
                        val@,
                    ) =~= out0 + (seq![self@[i as int].0] + spec_matching(
                        self@.skip(i as int + 1),
                        opt@,
                        val@,
                    )));
                }
            }
            i = i + 1;
        }
        proof {
            assert(self@.skip(i as int) =~= Seq::<SectionView>::empty());
            assert(out.deep_view() + spec_matching(self@.skip(i as int), opt@, val@)
                =~= out.deep_view());
        }
        out
    }

    /// The keys of all sections, in store order.
    pub fn section_keys(&self) -> (r: Vec<String>)
        ensures
            r.deep_view() == self@.map_values(|t: SectionView| t.0),
    {
        let n = self.sections.len();
        let mut out: Vec<String> = Vec::new();
        let mut i: usize = 0;
        while i < n
            invariant
                n == self@.len(),
                self@.len() == self.sections@.len(),
                i <= n,
                out.deep_view() =~= self@.take(i as int).map_values(|t: SectionView| t.0),
            decreases n - i,
        {
            let ghost out0 = out.deep_view();
            out.push(self.sections[i].key.clone());
            proof {
                assert(self@.take(i as int + 1).map_values(|t: SectionView| t.0) =~= out0.push(
                    self@[i as int].0,
                ));
                assert(out.deep_view() =~= out0.push(self@[i as int].0));
            }
            i = i + 1;
        }
        proof {
            assert(self@.take(i as int) =~= self@);
        }
        out
    }
}

} // verus!
