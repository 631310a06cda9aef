//! The flat text format behind the store, its parser and serializer, and
//! the proof that a rendered store reloads unchanged.
//!
//! A store renders as one block per section: a header line `[key]`
//! followed by one line `option=value` per pair.  The parser splits the
//! text at line breaks, skips blank lines, folds header lines and
//! assignment lines into a store, and rejects a bracketed line without its
//! closing bracket, an assignment without `=`, and an assignment before
//! any header.

use vstd::prelude::*;

use crate::store::EntryView;
use crate::store::SectionView;
use crate::store::StoreView;
use crate::store::Store;
use crate::store::first_entry_pos;
use crate::store::first_key_pos;
use crate::store::has_section;
use crate::store::lemma_ensure_absent;
use crate::store::lemma_ensure_preserves_wf;
use crate::store::lemma_first_entry_pos;
use crate::store::lemma_first_key_pos;
use crate::store::lemma_get_after_set_other;
use crate::store::lemma_get_after_set_same;
use crate::store::lemma_has_push;
use crate::store::lemma_no_entry;
use crate::store::lemma_no_section;
use crate::store::lemma_set_absent;
use crate::store::lemma_set_at;
use crate::store::lemma_set_entries_absent;
use crate::store::lemma_set_entries_at;
use crate::store::lemma_set_preserves_wf;
use crate::store::lemma_set_sections;
use crate::store::lookup_entries;
use crate::store::set_entries;
use crate::store::spec_ensure_section;
use crate::store::spec_get;
use crate::store::spec_set;
use crate::store::wf_entries;
use crate::store::wf_store;
use crate::strutil::find_char;

verus! {

/// Malformed store text: a bracketed line without its closing bracket, an
/// assignment line without `=`, or an assignment before any section
/// header.
#[derive(Debug, Clone, Copy, PartialEq, Eq)]
pub struct ParseError;

// ------------------------------------------------------------------
// Which strings survive a render/reload cycle.
// ------------------------------------------------------------------

/// Section keys may hold any character but a line break.
pub open spec fn valid_key(k: Seq<char>) -> bool {
    forall|i: int| 0 <= i < k.len() ==> k[i] != '\n'
}

/// Option names hold no line break and no `=`, and do not begin with `[`.
pub open spec fn valid_opt(o: Seq<char>) -> bool {
    (forall|i: int| 0 <= i < o.len() ==> o[i] != '\n' && o[i] != '=') && (o.len() > 0 ==> o[0]
        != '[')
}

/// Values may hold any character but a line break.
pub open spec fn valid_val(v: Seq<char>) -> bool {
    forall|i: int| 0 <= i < v.len() ==> v[i] != '\n'
}

pub open spec fn valid_entries(es: Seq<EntryView>) -> bool {
    forall|j: int| 0 <= j < es.len() ==> valid_opt(#[trigger] es[j].0) && valid_val(es[j].1)
}

/// Every key, option name and value in the store renders unambiguously.
pub open spec fn valid_store(s: StoreView) -> bool {
    forall|i: int| 0 <= i < s.len() ==> valid_key(#[trigger] s[i].0) && valid_entries(s[i].1)
}

// ------------------------------------------------------------------
// Rendering.
// ------------------------------------------------------------------

pub open spec fn ser_entry(e: EntryView) -> Seq<char> {
    e.0 + seq!['='] + e.1 + seq!['\n']
}

pub open spec fn ser_entries(es: Seq<EntryView>) -> Seq<char>
    decreases es.len(),
{
    if es.len() == 0 {
        Seq::empty()
    } else {
        ser_entry(es[0]) + ser_entries(es.drop_first())
    }
}

pub open spec fn header_line(key: Seq<char>) -> Seq<char> {
    seq!['['] + key + seq![']']
}

pub open spec fn ser_section(t: SectionView) -> Seq<char> {
    header_line(t.0) + seq!['\n'] + ser_entries(t.1)
}

/// The whole store as text, section order and option order preserved.
pub open spec fn spec_serialize(s: StoreView) -> Seq<char>
    decreases s.len(),
{
    if s.len() == 0 {
        Seq::empty()
    } else {
        ser_section(s[0]) + spec_serialize(s.drop_first())
    }
}

// ------------------------------------------------------------------
// Splitting text into lines.
// ------------------------------------------------------------------

/// Position of the first occurrence of `c`, or the length when absent.
pub open spec fn char_pos(t: Seq<char>, c: char) -> nat
    decreases t.len(),
{
    if t.len() == 0 {
        0
    } else if t[0] == c {
        0
    } else {
        1 + char_pos(t.drop_first(), c)
    }
}

pub proof fn lemma_char_pos(t: Seq<char>, c: char)
    ensures
        char_pos(t, c) <= t.len(),
        forall|j: int| 0 <= j < char_pos(t, c) ==> t[j] != c,
        char_pos(t, c) < t.len() ==> t[char_pos(t, c) as int] == c,
    decreases t.len(),
{
    if t.len() > 0 && t[0] != c {
        lemma_char_pos(t.drop_first(), c);
        assert(forall|j: int| 1 <= j < t.len() ==> t[j] == t.drop_first()[j - 1]);
    }
}

/// `char_pos` is determined by any position with a clean prefix.
pub proof fn lemma_char_pos_at(t: Seq<char>, c: char, p: int)
    requires
        0 <= p <= t.len(),
        forall|j: int| 0 <= j < p ==> t[j] != c,
        p < t.len() ==> t[p] == c,
    ensures
        char_pos(t, c) == p,
    decreases p,
{
    if t.len() > 0 && p > 0 {
        assert(forall|j: int| 0 <= j < p - 1 ==> t.drop_first()[j] == t[j + 1]);
        assert(p - 1 < t.drop_first().len() ==> t.drop_first()[p - 1] == t[p]);
        lemma_char_pos_at(t.drop_first(), c, p - 1);
    }
}

/// The text split at line breaks.  Line terminators are dropped; a final
/// fragment without one still counts as a line; the empty text has no
/// lines.
pub open spec fn spec_lines(t: Seq<char>) -> Seq<Seq<char>>
    decreases t.len(),
    via spec_lines_dec
{
    if t.len() == 0 {
        Seq::empty()
    } else {
        let p = char_pos(t, '\n') as int;
        if p == t.len() {
            seq![t]
        } else {
            seq![t.subrange(0, p)] + spec_lines(t.subrange(p + 1, t.len() as int))
        }
    }
}

#[via_fn]
proof fn spec_lines_dec(t: Seq<char>) {
    lemma_char_pos(t, '\n');
}

/// No produced line holds a line break.
pub proof fn lemma_lines_no_nl(t: Seq<char>)
    ensures
        forall|i: int|
            0 <= i < spec_lines(t).len() ==> valid_key(#[trigger] spec_lines(t)[i]),
    decreases t.len(),
{
    if t.len() > 0 {
        lemma_char_pos(t, '\n');
        let p = char_pos(t, '\n') as int;
        if p == t.len() {
            assert(valid_key(t));
            assert(spec_lines(t) == seq![t]);
            assert(spec_lines(t)[0] == t);
        } else {
            let head = t.subrange(0, p);
            let rest = t.subrange(p + 1, t.len() as int);
            lemma_lines_no_nl(rest);
            assert(valid_key(head));
            assert(spec_lines(t) == seq![head] + spec_lines(rest));
            assert(spec_lines(t)[0] == head);
            assert(forall|i: int|
                1 <= i < spec_lines(t).len() ==> spec_lines(t)[i] == spec_lines(rest)[i - 1]);
        }
    }
}

/// Lines distribute over concatenation at a line boundary.
pub proof fn lemma_lines_concat(a: Seq<char>, b: Seq<char>)
    requires
        a.len() > 0 ==> a.last() == '\n',
    ensures
        spec_lines(a + b) == spec_lines(a) + spec_lines(b),
    decreases a.len(),
{
    if a.len() == 0 {
        assert(a + b =~= b);
        assert(spec_lines(a) + spec_lines(b) =~= spec_lines(b));
    } else {
        lemma_char_pos(a, '\n');
        let p = char_pos(a, '\n') as int;
        assert(p < a.len()) by {
            if p == a.len() {
                assert(a[a.len() - 1] == '\n');
            }
        }
        let t = a + b;
        assert(forall|j: int| 0 <= j < p ==> t[j] == a[j]);
        assert(t[p] == a[p]);
        lemma_char_pos_at(t, '\n', p);
        let a2 = a.subrange(p + 1, a.len() as int);
        assert(a2.len() > 0 ==> a2.last() == '\n') by {
            if a2.len() > 0 {
                assert(a2[a2.len() - 1] == a[a.len() - 1]);
            }
        }
        lemma_lines_concat(a2, b);
        assert(t.subrange(0, p) =~= a.subrange(0, p));
        assert(t.subrange(p + 1, t.len() as int) =~= a2 + b);
        assert(spec_lines(t) == seq![a.subrange(0, p)] + (spec_lines(a2) + spec_lines(b)));
        assert(seq![a.subrange(0, p)] + (spec_lines(a2) + spec_lines(b)) =~= (seq![
            a.subrange(0, p),
        ] + spec_lines(a2)) + spec_lines(b));
        assert(spec_lines(a) == seq![a.subrange(0, p)] + spec_lines(a2));
    }
}

/// A single line-break-free piece followed by a terminator is one line.
pub proof fn lemma_lines_single(x: Seq<char>)
    requires
        valid_key(x),
    ensures
        spec_lines(x + seq!['\n']) == seq![x],
{
    let t = x + seq!['\n'];
    assert(forall|j: int| 0 <= j < x.len() ==> t[j] == x[j]);
    assert(t[x.len() as int] == '\n');
    lemma_char_pos_at(t, '\n', x.len() as int);
    assert(t.subrange(0, x.len() as int) =~= x);
    assert(t.subrange(x.len() as int + 1, t.len() as int) =~= Seq::<char>::empty());
    assert(spec_lines(t) == seq![x] + spec_lines(Seq::<char>::empty()));
    assert(seq![x] + spec_lines(Seq::<char>::empty()) =~= seq![x]);
}

// ------------------------------------------------------------------
// Parsing.
// ------------------------------------------------------------------

/// Folds the lines into a store: `acc` is the store built so far, `cur`
/// the key of the last section header seen.  `None` reports malformed
/// text.
pub open spec fn run_lines(
    ls: Seq<Seq<char>>,
    acc: StoreView,
    cur: Option<Seq<char>>,
) -> Option<(StoreView, Option<Seq<char>>)>
    decreases ls.len(),
{
    if ls.len() == 0 {
        Some((acc, cur))
    } else {
        let l = ls[0];
        if l.len() == 0 {
            run_lines(ls.drop_first(), acc, cur)
        } else if l[0] == '[' {
            if l.len() >= 2 && l.last() == ']' {
                let key = l.subrange(1, l.len() - 1);
                run_lines(ls.drop_first(), spec_ensure_section(acc, key), Some(key))
            } else {
                None
            }
        } else {
            let p = char_pos(l, '=') as int;
            if p < l.len() {
                match cur {
                    Some(k) => run_lines(
                        ls.drop_first(),
                        spec_set(acc, k, l.subrange(0, p), l.subrange(p + 1, l.len() as int)),
                        cur,
                    ),
                    None => None,
                }
            } else {
                None
            }
        }
    }
}

/// The store a text denotes, or `None` when the text is malformed.
pub open spec fn spec_parse(t: Seq<char>) -> Option<StoreView> {
    match run_lines(spec_lines(t), Seq::empty(), None) {
        Some(r) => Some(r.0),
        None => None,
    }
}

/// What loading file contents denotes: a missing file reads as the empty
/// store.
pub open spec fn spec_load(c: Option<Seq<char>>) -> Option<StoreView> {
    match c {
        Some(t) => spec_parse(t),
        None => Some(Seq::<SectionView>::empty()),
    }
}

// ------------------------------------------------------------------
// A rendered store reloads unchanged.
// ------------------------------------------------------------------

proof fn lemma_ser_entries_ends(es: Seq<EntryView>)
    requires
        es.len() > 0,
    ensures
        ser_entries(es).len() > 0,
        ser_entries(es).last() == '\n',
    decreases es.len(),
{
    let e = es[0];
    assert(ser_entry(e).len() > 0);
    assert(ser_entry(e).last() == '\n');
    if es.len() == 1 {
        assert(ser_entries(es.drop_first()) == Seq::<char>::empty());
        assert(ser_entries(es) =~= ser_entry(e));
    } else {
        lemma_ser_entries_ends(es.drop_first());
        let rest = ser_entries(es.drop_first());
        assert(ser_entries(es).last() == (ser_entry(e) + rest).last());
        assert((ser_entry(e) + rest).last() == rest.last());
    }
}

proof fn lemma_ser_section_ends(t: SectionView)
    ensures
        ser_section(t).len() > 0,
        ser_section(t).last() == '\n',
{
    if t.1.len() == 0 {
        assert(ser_entries(t.1) == Seq::<char>::empty());
        assert(ser_section(t) =~= header_line(t.0) + seq!['\n']);
        assert((header_line(t.0) + seq!['\n']).last() == '\n');
    } else {
        lemma_ser_entries_ends(t.1);
        assert(ser_section(t).last() == ser_entries(t.1).last());
    }
}

/// Folding the rendered lines of one section's entries appends them, in
/// order, to the section at the end of the store under construction.
proof fn lemma_run_entries(
    es: Seq<EntryView>,
    done: Seq<EntryView>,
    front: StoreView,
    key: Seq<char>,
)
    requires
        valid_entries(es),
        wf_entries(done + es),
        !has_section(front, key),
    ensures
        run_lines(spec_lines(ser_entries(es)), front.push((key, done)), Some(key)) == Some(
            (front.push((key, done + es)), Some(key)),
        ),
    decreases es.len(),
{
    if es.len() == 0 {
        assert(ser_entries(es) == Seq::<char>::empty());
        assert(spec_lines(Seq::<char>::empty()) =~= Seq::<Seq<char>>::empty());
        assert(done + es =~= done);
    } else {
        let e = es[0];
        let line = e.0 + seq!['='] + e.1;
        assert(valid_opt(e.0) && valid_val(e.1));
        assert(ser_entry(e) =~= line + seq!['\n']);
        assert(valid_key(line)) by {
            assert(forall|j: int| 0 <= j < e.0.len() ==> line[j] == e.0[j]);
            assert(line[e.0.len() as int] == '=');
            assert(forall|j: int|
                e.0.len() + 1 <= j < line.len() ==> line[j] == e.1[j - (e.0.len() + 1)]);
        }
        lemma_lines_single(line);
        assert(ser_entry(e).len() > 0 && ser_entry(e).last() == '\n') by {
            assert(ser_entry(e) =~= line + seq!['\n']);
            assert((line + seq!['\n']).last() == '\n');
        }
        assert(ser_entries(es) == ser_entry(e) + ser_entries(es.drop_first()));
        lemma_lines_concat(ser_entry(e), ser_entries(es.drop_first()));
        assert(spec_lines(ser_entry(e)) == seq![line]);
        let ls = spec_lines(ser_entries(es));
        assert(ls == seq![line] + spec_lines(ser_entries(es.drop_first())));
        assert(ls[0] == line);
        assert(ls.len() > 0);
        assert(ls.drop_first() =~= spec_lines(ser_entries(es.drop_first())));
        // The line reads back as the assignment it renders.
        assert(line.len() > 0);
        assert(line[0] != '[') by {
            if e.0.len() > 0 {
                assert(line[0] == e.0[0]);
            } else {
                assert(line[0] == '=');
            }
        }
        let p = e.0.len() as int;
        assert(forall|j: int| 0 <= j < p ==> line[j] == e.0[j]);
        assert(line[p] == '=');
        lemma_char_pos_at(line, '=', p);
        assert(line.subrange(0, p) =~= e.0);
        assert(line.subrange(p + 1, line.len() as int) =~= e.1);
        // The write lands at the end of the last section.
        let acc0 = front.push((key, done));
        lemma_no_section(front, key);
        assert(forall|j: int| 0 <= j < front.len() ==> acc0[j] == front[j]);
        assert(acc0[front.len() as int] == (key, done));
        lemma_set_at(acc0, key, e.0, e.1, front.len() as int);
        assert(forall|t: int| 0 <= t < done.len() ==> (done + es)[t] == done[t]);
        assert((done + es)[done.len() as int] == e);
        assert(forall|t: int| 0 <= t < done.len() ==> done[t].0 != e.0);
        lemma_set_entries_absent(done, e.0, e.1);
        let acc1 = spec_set(acc0, key, e.0, e.1);
        assert(acc1 =~= front.push((key, done.push(e))));
        // The remaining lines extend the same section.
        assert(valid_entries(es.drop_first())) by {
            assert(forall|j: int|
                0 <= j < es.drop_first().len() ==> es.drop_first()[j] == es[j + 1]);
        }
        assert(done.push(e) + es.drop_first() =~= done + es);
        assert(wf_entries(done.push(e) + es.drop_first()));
        lemma_run_entries(es.drop_first(), done.push(e), front, key);
        assert(run_lines(ls, acc0, Some(key)) == run_lines(ls.drop_first(), acc1, Some(key)));
    }
}

/// Folding the rendered lines of one section appends that section.
proof fn lemma_run_section(t: SectionView, acc: StoreView, cur: Option<Seq<char>>)
    requires
        valid_key(t.0),
        valid_entries(t.1),
        wf_entries(t.1),
        !has_section(acc, t.0),
    ensures
        run_lines(spec_lines(ser_section(t)), acc, cur) == Some((acc.push(t), Some(t.0))),
{
    let hl = header_line(t.0);
    assert(valid_key(hl)) by {
        assert(hl[0] == '[');
        assert(forall|j: int| 1 <= j < hl.len() - 1 ==> hl[j] == t.0[j - 1]);
        assert(hl[hl.len() - 1] == ']');
    }
    assert(ser_section(t) =~= (hl + seq!['\n']) + ser_entries(t.1));
    assert((hl + seq!['\n']).last() == '\n');
    lemma_lines_concat(hl + seq!['\n'], ser_entries(t.1));
    lemma_lines_single(hl);
    let ls = spec_lines(ser_section(t));
    assert(ls == seq![hl] + spec_lines(ser_entries(t.1)));
    assert(ls[0] == hl);
    assert(ls.len() > 0);
    assert(ls.drop_first() =~= spec_lines(ser_entries(t.1)));
    // The header line reads back as the key it renders.
    assert(hl.len() >= 2);
    assert(hl[0] == '[');
    assert(hl.last() == ']');
    assert(hl.subrange(1, hl.len() - 1) =~= t.0);
    lemma_no_section(acc, t.0);
    lemma_ensure_absent(acc, t.0);
    let acc1 = spec_ensure_section(acc, t.0);
    assert(acc1 =~= acc.push((t.0, Seq::<EntryView>::empty())));
    assert(run_lines(ls, acc, cur) == run_lines(ls.drop_first(), acc1, Some(t.0)));
    assert(Seq::<EntryView>::empty() + t.1 =~= t.1);
    lemma_run_entries(t.1, Seq::<EntryView>::empty(), acc, t.0);
    assert((t.0, t.1) == t);
}

/// Folding the whole rendered store appends all its sections.
proof fn lemma_run_store(s: StoreView, acc: StoreView, cur: Option<Seq<char>>)
    requires
        wf_store(s),
        valid_store(s),
        forall|i: int| 0 <= i < s.len() ==> !has_section(acc, #[trigger] s[i].0),
    ensures
        run_lines(spec_lines(spec_serialize(s)), acc, cur) == Some(
            (
                acc + s,
                if s.len() == 0 {
                    cur
                } else {
                    Some(s.last().0)
                },
            ),
        ),
    decreases s.len(),
{
    if s.len() == 0 {
        assert(spec_serialize(s) == Seq::<char>::empty());
        assert(spec_lines(Seq::<char>::empty()) =~= Seq::<Seq<char>>::empty());
        assert(acc + s =~= acc);
    } else {
        let sec = s[0];
        lemma_ser_section_ends(sec);
        assert(spec_serialize(s) == ser_section(sec) + spec_serialize(s.drop_first()));
        lemma_lines_concat(ser_section(sec), spec_serialize(s.drop_first()));
        lemma_run_lines_concat(
            spec_lines(ser_section(sec)),
            spec_lines(spec_serialize(s.drop_first())),
            acc,
            cur,
        );
        assert(valid_key(sec.0) && valid_entries(sec.1)) by {
            assert(s[0] == sec);
        }
        assert(wf_entries(sec.1));
        assert(!has_section(acc, sec.0));
        lemma_run_section(sec, acc, cur);
        let acc1 = acc.push(sec);
        assert(wf_store(s.drop_first()) && valid_store(s.drop_first())) by {
            assert(forall|i: int|
                0 <= i < s.drop_first().len() ==> s.drop_first()[i] == s[i + 1]);
        }
        assert(forall|i: int|
            0 <= i < s.drop_first().len() ==> !has_section(
                acc1,
                #[trigger] s.drop_first()[i].0,
            )) by {
            assert forall|i: int|
                0 <= i < s.drop_first().len() implies !has_section(
                acc1,
                #[trigger] s.drop_first()[i].0,
            ) by {
                assert(s.drop_first()[i] == s[i + 1]);
                assert(s[0].0 != s[i + 1].0);
                lemma_has_push(acc, sec, s[i + 1].0);
            }
        }
        lemma_run_store(s.drop_first(), acc1, Some(sec.0));
        assert(acc1 + s.drop_first() =~= acc + s);
        if s.drop_first().len() == 0 {
            assert(s.last() == s[0]);
        } else {
            assert(s.drop_first().last() == s.last());
        }
    }
}

/// Rendering and reloading a well-formed store yields it unchanged.
pub proof fn lemma_parse_serialize(s: StoreView)
    requires
        wf_store(s),
        valid_store(s),
    ensures
        spec_parse(spec_serialize(s)) == Some(s),
{
    assert(forall|i: int|
        0 <= i < s.len() ==> !has_section(Seq::<SectionView>::empty(), #[trigger] s[i].0));
    lemma_run_store(s, Seq::<SectionView>::empty(), None);
    assert(Seq::<SectionView>::empty() + s =~= s);
}

// ------------------------------------------------------------------
// Parsing only ever builds well-formed, renderable stores.
// ------------------------------------------------------------------

proof fn lemma_set_entries_preserves_valid(es: Seq<EntryView>, opt: Seq<char>, val: Seq<char>)
    requires
        valid_entries(es),
        valid_opt(opt),
        valid_val(val),
    ensures
        valid_entries(set_entries(es, opt, val)),
{
    if lookup_entries(es, opt) is Some {
        lemma_first_entry_pos(es, opt);
        let j = first_entry_pos(es, opt);
        lemma_set_entries_at(es, opt, val, j);
        let r = es.update(j, (opt, val));
        assert(forall|t: int| 0 <= t < r.len() && t != j ==> r[t] == es[t]);
    } else {
        lemma_no_entry(es, opt);
        lemma_set_entries_absent(es, opt, val);
        let r = es.push((opt, val));
        assert(forall|t: int| 0 <= t < es.len() ==> r[t] == es[t]);
    }
}

/// A write of renderable strings keeps the store renderable.
pub proof fn lemma_set_preserves_valid(
    s: StoreView,
    key: Seq<char>,
    opt: Seq<char>,
    val: Seq<char>,
)
    requires
        valid_store(s),
        valid_key(key),
        valid_opt(opt),
        valid_val(val),
    ensures
        valid_store(spec_set(s, key, opt, val)),
{
    if has_section(s, key) {
        lemma_first_key_pos(s, key);
        let i = first_key_pos(s, key);
        lemma_set_at(s, key, opt, val, i);
        lemma_set_entries_preserves_valid(s[i].1, opt, val);
        let r = s.update(i, (key, set_entries(s[i].1, opt, val)));
        assert(forall|j: int| 0 <= j < r.len() && j != i ==> r[j] == s[j]);
    } else {
        lemma_no_section(s, key);
        lemma_set_absent(s, key, opt, val);
        let r = s.push((key, seq![(opt, val)]));
        assert(forall|j: int| 0 <= j < s.len() ==> r[j] == s[j]);
        assert(valid_entries(seq![(opt, val)]));
    }
}

/// Ensuring a section with a renderable key keeps the store renderable.
pub proof fn lemma_ensure_preserves_valid(s: StoreView, key: Seq<char>)
    requires
        valid_store(s),
        valid_key(key),
    ensures
        valid_store(spec_ensure_section(s, key)),
{
    if has_section(s, key) {
        lemma_first_key_pos(s, key);
        crate::store::lemma_ensure_present(s, key, first_key_pos(s, key));
    } else {
        lemma_no_section(s, key);
        lemma_ensure_absent(s, key);
        let r = s.push((key, Seq::<EntryView>::empty()));
        assert(forall|j: int| 0 <= j < s.len() ==> r[j] == s[j]);
        assert(valid_entries(Seq::<EntryView>::empty()));
    }
}

proof fn lemma_run_preserves(ls: Seq<Seq<char>>, acc: StoreView, cur: Option<Seq<char>>)
    requires
        wf_store(acc),
        valid_store(acc),
        cur matches Some(k) ==> valid_key(k),
        forall|i: int| 0 <= i < ls.len() ==> valid_key(#[trigger] ls[i]),
    ensures
        run_lines(ls, acc, cur) matches Some(r) ==> wf_store(r.0) && valid_store(r.0),
    decreases ls.len(),
{
    if ls.len() > 0 {
        let l = ls[0];
        assert(valid_key(l));
        assert(forall|i: int| 0 <= i < ls.drop_first().len() ==> ls.drop_first()[i] == ls[i + 1]);
        if l.len() == 0 {
            lemma_run_preserves(ls.drop_first(), acc, cur);
        } else if l[0] == '[' {
            if l.len() >= 2 && l.last() == ']' {
                let key = l.subrange(1, l.len() - 1);
                assert(valid_key(key)) by {
                    assert(forall|j: int| 0 <= j < key.len() ==> key[j] == l[j + 1]);
                }
                lemma_ensure_preserves_wf(acc, key);
                lemma_ensure_preserves_valid(acc, key);
                lemma_run_preserves(ls.drop_first(), spec_ensure_section(acc, key), Some(key));
            }
        } else {
            let p = char_pos(l, '=') as int;
            if p < l.len() && cur is Some {
                let k = cur->Some_0;
                let o = l.subrange(0, p);
                let v = l.subrange(p + 1, l.len() as int);
                lemma_char_pos(l, '=');
                assert(valid_opt(o)) by {
                    assert(forall|j: int| 0 <= j < o.len() ==> o[j] == l[j]);
                }
                assert(valid_val(v)) by {
                    assert(forall|j: int| 0 <= j < v.len() ==> v[j] == l[j + p + 1]);
                }
                lemma_set_preserves_wf(acc, k, o, v);
                lemma_set_preserves_valid(acc, k, o, v);
                lemma_run_preserves(ls.drop_first(), spec_set(acc, k, o, v), cur);
            }
        }
    }
}

/// Whatever text parses, it parses to a well-formed, renderable store.
pub proof fn lemma_parse_wf(t: Seq<char>)
    ensures
        spec_parse(t) matches Some(s) ==> wf_store(s) && valid_store(s),
{
    lemma_lines_no_nl(t);
    assert(wf_store(Seq::<SectionView>::empty()));
    assert(valid_store(Seq::<SectionView>::empty()));
    lemma_run_preserves(spec_lines(t), Seq::<SectionView>::empty(), None);
}

// ------------------------------------------------------------------
// The laws a caller relies on across a render/reload cycle.
// ------------------------------------------------------------------

/// Round trip: after any write of renderable strings, the rendered text
/// reloads to the written store, and reading the written pair back yields
/// exactly the value written.
pub proof fn lemma_set_round_trip(s: StoreView, key: Seq<char>, opt: Seq<char>, val: Seq<char>)
    requires
        wf_store(s),
        valid_store(s),
        valid_key(key),
        valid_opt(opt),
        valid_val(val),
    ensures
        spec_parse(spec_serialize(spec_set(s, key, opt, val))) == Some(spec_set(s, key, opt, val)),
        spec_get(spec_set(s, key, opt, val), key, opt) == Some(val),
{
    lemma_set_preserves_wf(s, key, opt, val);
    lemma_set_preserves_valid(s, key, opt, val);
    lemma_parse_serialize(spec_set(s, key, opt, val));
    lemma_get_after_set_same(s, key, opt, val);
}

/// A sequence of writes, applied in order.
pub open spec fn apply_writes(s: StoreView, ws: Seq<(Seq<char>, Seq<char>, Seq<char>)>) -> StoreView
    decreases ws.len(),
{
    if ws.len() == 0 {
        s
    } else {
        apply_writes(spec_set(s, ws[0].0, ws[0].1, ws[0].2), ws.drop_first())
    }
}

/// The latest value a sequence of writes gives one pair, if any write
/// touches it.
pub open spec fn last_write(
    ws: Seq<(Seq<char>, Seq<char>, Seq<char>)>,
    key: Seq<char>,
    opt: Seq<char>,
) -> Option<Seq<char>>
    decreases ws.len(),
{
    if ws.len() == 0 {
        None
    } else {
        let rest = last_write(ws.drop_first(), key, opt);
        if rest is Some {
            rest
        } else if ws[0].0 == key && ws[0].1 == opt {
            Some(ws[0].2)
        } else {
            None
        }
    }
}

/// Every string in the writes renders unambiguously.
pub open spec fn valid_writes(ws: Seq<(Seq<char>, Seq<char>, Seq<char>)>) -> bool {
    forall|i: int|
        0 <= i < ws.len() ==> valid_key(#[trigger] ws[i].0) && valid_opt(ws[i].1) && valid_val(
            ws[i].2,
        )
}

proof fn lemma_apply_writes_preserves(s: StoreView, ws: Seq<(Seq<char>, Seq<char>, Seq<char>)>)
    requires
        wf_store(s),
        valid_store(s),
        valid_writes(ws),
    ensures
        wf_store(apply_writes(s, ws)),
        valid_store(apply_writes(s, ws)),
    decreases ws.len(),
{
    if ws.len() > 0 {
        lemma_set_preserves_wf(s, ws[0].0, ws[0].1, ws[0].2);
        lemma_set_preserves_valid(s, ws[0].0, ws[0].1, ws[0].2);
        assert(forall|i: int| 0 <= i < ws.drop_first().len() ==> ws.drop_first()[i] == ws[i + 1]);
        lemma_apply_writes_preserves(spec_set(s, ws[0].0, ws[0].1, ws[0].2), ws.drop_first());
    }
}

proof fn lemma_untouched_pair_keeps_value(
    s: StoreView,
    ws: Seq<(Seq<char>, Seq<char>, Seq<char>)>,
    key: Seq<char>,
    opt: Seq<char>,
)
    requires
        last_write(ws, key, opt) is None,
    ensures
        spec_get(apply_writes(s, ws), key, opt) == spec_get(s, key, opt),
    decreases ws.len(),
{
    if ws.len() > 0 {
        assert(!(ws[0].0 == key && ws[0].1 == opt));
        lemma_get_after_set_other(s, ws[0].0, ws[0].1, ws[0].2, key, opt);
        lemma_untouched_pair_keeps_value(
            spec_set(s, ws[0].0, ws[0].1, ws[0].2),
            ws.drop_first(),
            key,
            opt,
        );
    }
}

/// Round trip over any sequence of writes: the store they build renders
/// to text that reloads to that same store, and reading any pair some
/// write touched yields the latest value written for it.
pub proof fn lemma_round_trip_writes(
    s: StoreView,
    ws: Seq<(Seq<char>, Seq<char>, Seq<char>)>,
    key: Seq<char>,
    opt: Seq<char>,
)
    requires
        wf_store(s),
        valid_store(s),
        valid_writes(ws),
        last_write(ws, key, opt) is Some,
    ensures
        ({
            let w = apply_writes(s, ws);
            spec_parse(spec_serialize(w)) == Some(w) && spec_get(w, key, opt) == last_write(
                ws,
                key,
                opt,
            )
        }),
    decreases ws.len(),
{
    lemma_apply_writes_preserves(s, ws);
    lemma_parse_serialize(apply_writes(s, ws));
    let s1 = spec_set(s, ws[0].0, ws[0].1, ws[0].2);
    assert(forall|i: int| 0 <= i < ws.drop_first().len() ==> ws.drop_first()[i] == ws[i + 1]);
    if last_write(ws.drop_first(), key, opt) is Some {
        lemma_set_preserves_wf(s, ws[0].0, ws[0].1, ws[0].2);
        lemma_set_preserves_valid(s, ws[0].0, ws[0].1, ws[0].2);
        lemma_round_trip_writes(s1, ws.drop_first(), key, opt);
    } else {
        assert(ws[0].0 == key && ws[0].1 == opt);
        lemma_get_after_set_same(s, key, opt, ws[0].2);
        lemma_untouched_pair_keeps_value(s1, ws.drop_first(), key, opt);
    }
}

/// Merge before write: writing through freshly loaded text keeps every
/// section that the text already held -- including any an external writer
/// added -- and adds the section written, and no other.
pub proof fn lemma_merge_before_write(
    disk: Seq<char>,
    key: Seq<char>,
    opt: Seq<char>,
    val: Seq<char>,
    k: Seq<char>,
)
    requires
        spec_parse(disk) is Some,
        valid_key(key),
        valid_opt(opt),
        valid_val(val),
    ensures
        ({
            let d = spec_parse(disk)->Some_0;
            let w = spec_set(d, key, opt, val);
            spec_parse(spec_serialize(w)) == Some(w) && (has_section(w, k) <==> (has_section(d, k)
                || k == key))
        }),
{
    lemma_parse_wf(disk);
    let d = spec_parse(disk)->Some_0;
    lemma_set_preserves_wf(d, key, opt, val);
    lemma_set_preserves_valid(d, key, opt, val);
    lemma_parse_serialize(spec_set(d, key, opt, val));
    lemma_set_sections(d, key, opt, val, k);
}

/// Folding distributes over concatenation of line sequences.
pub proof fn lemma_run_lines_concat(
    ls1: Seq<Seq<char>>,
    ls2: Seq<Seq<char>>,
    acc: StoreView,
    cur: Option<Seq<char>>,
)
    ensures
        run_lines(ls1 + ls2, acc, cur) == match run_lines(ls1, acc, cur) {
            Some(r) => run_lines(ls2, r.0, r.1),
            None => None,
        },
    decreases ls1.len(),
{
    if ls1.len() == 0 {
        assert(ls1 + ls2 =~= ls2);
    } else {
        let w = ls1 + ls2;
        let l = ls1[0];
        assert(w[0] == l);
        assert(w.len() > 0);
        assert(w.drop_first() =~= ls1.drop_first() + ls2);
        if l.len() == 0 {
            lemma_run_lines_concat(ls1.drop_first(), ls2, acc, cur);
        } else if l[0] == '[' {
            if l.len() >= 2 && l.last() == ']' {
                let key = l.subrange(1, l.len() - 1);
                lemma_run_lines_concat(
                    ls1.drop_first(),
                    ls2,
                    spec_ensure_section(acc, key),
                    Some(key),
                );
            }
        } else {
            let p = char_pos(l, '=') as int;
            if p < l.len() && cur is Some {
                let k = cur->Some_0;
                lemma_run_lines_concat(
                    ls1.drop_first(),
                    ls2,
                    spec_set(acc, k, l.subrange(0, p), l.subrange(p + 1, l.len() as int)),
                    cur,
                );
            }
        }
    }
}

// ------------------------------------------------------------------
// The executable parser and serializer.
// ------------------------------------------------------------------

/// The parser's section tracker, as the specification sees it.
pub open spec fn opt_view(c: Option<String>) -> Option<Seq<char>> {
    match c {
        Some(k) => Some(k@),
        None => None,
    }
}

/// File contents handed in by the caller, as the specification sees them:
/// `None` stands for a file that does not exist.
pub open spec fn text_view(c: Option<&str>) -> Option<Seq<char>> {
    match c {
        Some(t) => Some(t@),
        None => None,
    }
}

impl Store {
    /// Renders the store back to text: one `[key]` line per section
    /// followed by one `option=value` line per pair, in stored order.
    pub fn serialize(&self) -> (r: String)
        ensures
            r@ == spec_serialize(self@),
    {
        let n = self.section_count();
        let mut out = String::new();
        let mut i: usize = 0;
        proof {
            assert(self@.skip(0) =~= self@);
            assert(out@ + spec_serialize(self@) =~= spec_serialize(self@));
        }
        while i < n
            invariant
                n == self@.len(),
                i <= n,
                spec_serialize(self@) == out@ + spec_serialize(self@.skip(i as int)),
            decreases n - i,
        {
            let ghost sect = self@[i as int];
            let ghost out0 = out@;
            let ghost tail = spec_serialize(self@.skip(i as int + 1));
            proof {
                assert(self@.skip(i as int)[0] == sect);
                assert(self@.skip(i as int).drop_first() =~= self@.skip(i as int + 1));
                assert(spec_serialize(self@.skip(i as int)) == ser_section(sect) + tail);
            }
            out.append("[");
            out.append(self.section_key(i).as_str());
            out.append("]");
            out.append("\n");
            proof {
                reveal_strlit("[");
                reveal_strlit("]");
                reveal_strlit("\n");
                assert("["@ =~= seq!['[']);
                assert("]"@ =~= seq![']']);
                assert("\n"@ =~= seq!['\n']);
                assert(out@ =~= out0 + (header_line(sect.0) + seq!['\n']));
                assert(ser_section(sect) =~= (header_line(sect.0) + seq!['\n']) + ser_entries(
                    sect.1,
                ));
                assert(out0 + ((header_line(sect.0) + seq!['\n']) + ser_entries(sect.1)) + tail
                    =~= (out0 + (header_line(sect.0) + seq!['\n'])) + ser_entries(sect.1) + tail);
                assert(spec_serialize(self@) == out@ + ser_entries(sect.1.skip(0)) + tail) by {
                    assert(sect.1.skip(0) =~= sect.1);
                    assert(out0 + spec_serialize(self@.skip(i as int)) =~= out0 + (ser_section(
                        sect,
                    ) + tail));
                    assert(out0 + (ser_section(sect) + tail) =~= out0 + ser_section(sect) + tail);
                }
            }
            let m = self.entry_count(i);
            let mut j: usize = 0;
            while j < m
                invariant
                    n == self@.len(),
                    i < n,
                    sect == self@[i as int],
                    tail == spec_serialize(self@.skip(i as int + 1)),
                    m == sect.1.len(),
                    j <= m,
                    spec_serialize(self@) == out@ + ser_entries(sect.1.skip(j as int)) + tail,
                decreases m - j,
            {
                let ghost e = sect.1[j as int];
                let ghost outb = out@;
                proof {
                    assert(sect.1.skip(j as int)[0] == e);
                    assert(sect.1.skip(j as int).drop_first() =~= sect.1.skip(j as int + 1));
                    assert(ser_entries(sect.1.skip(j as int)) == ser_entry(e) + ser_entries(
                        sect.1.skip(j as int + 1),
                    ));
                }
                let ent = self.entry_at(i, j);
                out.append(ent.key.as_str());
                out.append("=");
                out.append(ent.value.as_str());
                out.append("\n");
                proof {
                    reveal_strlit("=");
                    reveal_strlit("\n");
                    assert("="@ =~= seq!['=']);
                    assert("\n"@ =~= seq!['\n']);
                    assert(out@ =~= outb + ser_entry(e));
                    assert(outb + (ser_entry(e) + ser_entries(sect.1.skip(j as int + 1))) + tail
                        =~= (outb + ser_entry(e)) + ser_entries(sect.1.skip(j as int + 1)) + tail);
                    assert(outb + ser_entries(sect.1.skip(j as int)) + tail =~= outb + (ser_entry(
                        e,
                    ) + ser_entries(sect.1.skip(j as int + 1))) + tail);
                }
                j = j + 1;
            }
            proof {
                assert(sect.1.skip(m as int) =~= Seq::<EntryView>::empty());
                assert(ser_entries(Seq::<EntryView>::empty()) == Seq::<char>::empty());
                assert(out@ + Seq::<char>::empty() + tail =~= out@ + tail);
                assert(out@ + spec_serialize(self@.skip(i as int + 1)) =~= out@ + tail);
            }
            i = i + 1;
        }
        proof {
            assert(self@.skip(n as int) =~= Seq::<SectionView>::empty());
            assert(spec_serialize(Seq::<SectionView>::empty()) == Seq::<char>::empty());
            assert(out@ + Seq::<char>::empty() =~= out@);
        }
        out
    }

    /// Parses store text.  Malformed text -- a bracketed line without its
    /// closing bracket, an assignment line without `=`, or an assignment
    /// before any section header -- is the parse error; nothing is
    /// recovered from a malformed file.
    pub fn parse(text: &str) -> (r: Result<Store, ParseError>)
        ensures
            match r {
                Ok(s) => spec_parse(text@) == Some(s@) && wf_store(s@) && valid_store(s@),
                Err(_) => spec_parse(text@) is None,
            },
    {
        let n = text.unicode_len();
        let mut store = Store::new();
        let mut cur: Option<String> = None;
        let mut i: usize = 0;
        proof {
            assert(text@.skip(0) =~= text@);
        }
        while i < n
            invariant
                n == text@.len(),
                i <= n,
                run_lines(spec_lines(text@), Seq::<SectionView>::empty(), None) == run_lines(
                    spec_lines(text@.skip(i as int)),
                    store@,
                    opt_view(cur),
                ),
            decreases n - i,
        {
            let ghost rest = text@.skip(i as int);
            let ghost acc0 = store@;
            let ghost cur0 = opt_view(cur);
            let line_end = match find_char(text, i, '\n') {
                Some(j) => j,
                None => n,
            };
            proof {
                assert(forall|t: int| 0 <= t < rest.len() ==> rest[t] == text@[t + i]);
                lemma_char_pos_at(rest, '\n', line_end - i);
            }
            let line = text.substring_char(i, line_end);
            let next_i = if line_end < n {
                line_end + 1
            } else {
                n
            };
            proof {
                assert(line@ =~= rest.subrange(0, line_end - i));
                if line_end < n {
                    assert(rest.subrange(line_end - i + 1, rest.len() as int) =~= text@.skip(
                        next_i as int,
                    ));
                    assert(spec_lines(rest) == seq![line@] + spec_lines(text@.skip(next_i as int)));
                } else {
                    assert(line@ =~= rest);
                    assert(text@.skip(next_i as int) =~= Seq::<char>::empty());
                    assert(spec_lines(text@.skip(next_i as int)) =~= Seq::<Seq<char>>::empty());
                    assert(spec_lines(rest) == seq![rest]);
                    assert(seq![line@] + Seq::<Seq<char>>::empty() =~= seq![rest]);
                }
                assert(spec_lines(rest) == seq![line@] + spec_lines(text@.skip(next_i as int)));
                assert((seq![line@] + spec_lines(text@.skip(next_i as int)))[0] == line@);
                assert((seq![line@] + spec_lines(text@.skip(next_i as int))).drop_first()
                    =~= spec_lines(text@.skip(next_i as int)));
            }
            let llen = line.unicode_len();
            if llen == 0 {
                // A blank line changes nothing.
            } else if line.get_char(0) == '[' {
                if llen >= 2 && line.get_char(llen - 1) == ']' {
                    let key = line.substring_char(1, llen - 1);
                    proof {
                        assert(key@ =~= line@.subrange(1, line@.len() - 1));
                    }
                    store.ensure_section(key);
                    cur = Some(String::from_str(key));
                } else {
                    proof {
                        assert(run_lines(spec_lines(rest), acc0, cur0) is None);
                    }
                    return Err(ParseError);
                }
            } else {
                match find_char(line, 0, '=') {
                    Some(p) => {
                        proof {
                            lemma_char_pos_at(line@, '=', p as int);
                        }
                        let o = line.substring_char(0, p);
                        let v = line.substring_char(p + 1, llen);
                        match &cur {
                            Some(k) => {
                                store.set(k.as_str(), o, v);
                                proof {
                                    assert(store@ == spec_set(
                                        acc0,
                                        k@,
                                        line@.subrange(0, p as int),
                                        line@.subrange(p as int + 1, line@.len() as int),
                                    ));
                                }
                            },
                            None => {
                                proof {
                                    assert(run_lines(spec_lines(rest), acc0, cur0) is None);
                                }
                                return Err(ParseError);
                            },
                        }
                    },
                    None => {
                        proof {
                            lemma_char_pos_at(line@, '=', llen as int);
                            assert(run_lines(spec_lines(rest), acc0, cur0) is None);
                        }
                        return Err(ParseError);
                    },
                }
            }
            i = next_i;
        }
        proof {
            assert(text@.skip(i as int) =~= Seq::<char>::empty());
            assert(spec_lines(Seq::<char>::empty()) =~= Seq::<Seq<char>>::empty());
            lemma_parse_wf(text@);
        }
        Ok(store)
    }

    /// Loads file contents: a file that does not exist (`None`) reads as
    /// the empty store, which is the first-run behaviour; malformed
    /// contents are the parse error.
    pub fn load(content: Option<&str>) -> (r: Result<Store, ParseError>)
        ensures
            match r {
                Ok(s) => spec_load(text_view(content)) == Some(s@) && wf_store(s@) && valid_store(
                    s@,
                ),
                Err(_) => spec_load(text_view(content)) is None,
            },
    {
        match content {
            Some(t) => Store::parse(t),
            None => Ok(Store::new()),
        }
    }

    /// The merge-before-write kernel: parses the freshly read on-disk
    /// text (`None` for a missing file), applies the one write, and
    /// renders the merged result for the caller to write back.  On
    /// malformed text nothing is rendered and the mutation is discarded.
    pub fn set_in_text(current: Option<&str>, key: &str, opt: &str, val: &str) -> (r: Result<
        String,
        ParseError,
    >)
        ensures
            match r {
                Ok(out) => spec_load(text_view(current)) matches Some(d) && out@ == spec_serialize(
                    spec_set(d, key@, opt@, val@),
                ),
                Err(_) => spec_load(text_view(current)) is None,
            },
    {
        match Store::load(current) {
            Ok(mut store) => {
                store.set(key, opt, val);
                Ok(store.serialize())
            },
            Err(e) => Err(e),
        }
    }
}

} // verus!
