//! The in-memory mirror of note metadata.
//!
//! The mirror is an ordered collection of `NoteMeta` records inside
//! `AppState`, kept sorted by path.  Every mutation replaces a record
//! wholesale; the record for a path reflects the last planned state.

use vstd::prelude::*;
use crate::model::AppState;
use crate::model::NoteMeta;
use crate::text::first_pos;
use crate::text::lemma_first_pos_is;
use crate::text::lemma_first_pos_none;
use crate::text::lemma_first_pos_props;

verus! {

broadcast use {vstd::seq_lib::group_to_multiset_ensures, vstd::seq_lib::to_multiset_insert};

// ---------------------------------------------------------------------------
// Lexicographic order on paths
// ---------------------------------------------------------------------------

/// Lexicographic order on character sequences, by code point.
pub open spec fn str_le(a: Seq<char>, b: Seq<char>) -> bool
    decreases a.len(),
{
    if a.len() == 0 {
        true
    } else if b.len() == 0 {
        false
    } else if (a[0] as u32) < (b[0] as u32) {
        true
    } else if (a[0] as u32) > (b[0] as u32) {
        false
    } else {
        str_le(a.skip(1), b.skip(1))
    }
}

pub proof fn lemma_str_le_total(a: Seq<char>, b: Seq<char>)
    ensures
        str_le(a, b) || str_le(b, a),
    decreases a.len(),
{
    if a.len() > 0 && b.len() > 0 && !((a[0] as u32) < (b[0] as u32))
        && !((a[0] as u32) > (b[0] as u32)) {
        lemma_str_le_total(a.skip(1), b.skip(1));
    }
}

pub proof fn lemma_str_le_trans(a: Seq<char>, b: Seq<char>, c: Seq<char>)
    requires
        str_le(a, b),
        str_le(b, c),
    ensures
        str_le(a, c),
    decreases a.len(),
{
    if a.len() == 0 {
    } else {
        assert(b.len() > 0);
        assert(c.len() > 0);
        if (a[0] as u32) < (b[0] as u32) {
            assert((b[0] as u32) <= (c[0] as u32));
        } else {
            assert((a[0] as u32) == (b[0] as u32));
            if (b[0] as u32) < (c[0] as u32) {
            } else {
                assert((b[0] as u32) == (c[0] as u32));
                lemma_str_le_trans(a.skip(1), b.skip(1), c.skip(1));
            }
        }
    }
}

/// Sharing a prefix of equal character codes reduces the comparison to the rest.
pub proof fn lemma_str_le_prefix(a: Seq<char>, b: Seq<char>, i: int)
    requires
        0 <= i <= a.len(),
        i <= b.len(),
        forall|k: int| 0 <= k < i ==> (a[k] as u32) == (b[k] as u32),
    ensures
        str_le(a, b) == str_le(a.skip(i), b.skip(i)),
    decreases i,
{
    if i == 0 {
        assert(a.skip(0) =~= a);
        assert(b.skip(0) =~= b);
    } else {
        assert(a.len() > 0);
        assert(b.len() > 0);
        assert((a[0] as u32) == (b[0] as u32));
        let a1 = a.skip(1);
        let b1 = b.skip(1);
        assert forall|k: int| 0 <= k < i - 1 implies (a1[k] as u32) == (b1[k] as u32) by {
            assert(a1[k] == a[k + 1]);
            assert(b1[k] == b[k + 1]);
        }
        lemma_str_le_prefix(a1, b1, i - 1);
        assert(a1.skip(i - 1) =~= a.skip(i));
        assert(b1.skip(i - 1) =~= b.skip(i));
    }
}

/// Compares two strings in the order `str_le` describes.
pub fn str_le_exec(a: &str, b: &str) -> (r: bool)
    ensures
        r == str_le(a@, b@),
{
    let av = crate::text::chars_of(a);
    let bv = crate::text::chars_of(b);
    let mut i: usize = 0;
    loop
        invariant
            av@ == a@,
            bv@ == b@,
            i <= a@.len(),
            i <= b@.len(),
            forall|k: int| 0 <= k < i ==> (a@[k] as u32) == (b@[k] as u32),
        decreases a@.len() - i,
    {
        proof {
            lemma_str_le_prefix(a@, b@, i as int);
        }
        if i >= av.len() {
            proof {
                assert(a@.skip(i as int).len() == 0);
            }
            return true;
        }
        if i >= bv.len() {
            proof {
                assert(a@.skip(i as int).len() > 0);
                assert(b@.skip(i as int).len() == 0);
            }
            return false;
        }
        let ca = av[i];
        let cb = bv[i];
        proof {
            assert(a@.skip(i as int)[0] == a@[i as int]);
            assert(b@.skip(i as int)[0] == b@[i as int]);
        }
        let ua: u32 = ca as u32;
        let ub: u32 = cb as u32;
        if ua < ub {
            return true;
        } else if ua > ub {
            return false;
        } else {
            i = i + 1;
        }
    }
}

// ---------------------------------------------------------------------------
// The mirror
// ---------------------------------------------------------------------------

/// The mirror's ordering invariant: records sorted by path.
pub open spec fn sorted_by_path(s: Seq<NoteMeta>) -> bool {
    forall|i: int, j: int| 0 <= i < j < s.len() ==> str_le(s[i]@.path, s[j]@.path)
}

/// The first index whose record is keyed by `path`, if any.
pub open spec fn spec_find_note(s: Seq<NoteMeta>, path: Seq<char>) -> Option<int> {
    first_pos(|i: int| s[i]@.path == path, 0, s.len() as int)
}

pub proof fn lemma_find_note_props(s: Seq<NoteMeta>, path: Seq<char>)
    ensures
        match spec_find_note(s, path) {
            Some(i) => 0 <= i < s.len() && s[i]@.path == path
                && forall|j: int| 0 <= j < i ==> s[j]@.path != path,
            None => forall|j: int| 0 <= j < s.len() ==> s[j]@.path != path,
        },
{
    let p = |i: int| s[i]@.path == path;
    lemma_first_pos_props(p, 0, s.len() as int);
    match spec_find_note(s, path) {
        Some(i) => {
            assert(p(i));
            assert forall|j: int| 0 <= j < i implies s[j]@.path != path by {
                assert(!p(j));
            }
        }
        None => {
            assert forall|j: int| 0 <= j < s.len() implies s[j]@.path != path by {
                assert(!p(j));
            }
        }
    }
}

pub proof fn lemma_find_note_is(s: Seq<NoteMeta>, path: Seq<char>, i: int)
    requires
        0 <= i < s.len(),
        s[i]@.path == path,
        forall|j: int| 0 <= j < i ==> s[j]@.path != path,
    ensures
        spec_find_note(s, path) == Some(i),
{
    let p = |k: int| s[k]@.path == path;
    assert forall|j: int| 0 <= j < i implies !#[trigger] p(j) by {
        assert(s[j]@.path != path);
    }
    lemma_first_pos_is(p, 0, s.len() as int, i);
}

pub proof fn lemma_find_note_none(s: Seq<NoteMeta>, path: Seq<char>)
    requires
        forall|j: int| 0 <= j < s.len() ==> s[j]@.path != path,
    ensures
        spec_find_note(s, path) is None,
{
    let p = |k: int| s[k]@.path == path;
    assert forall|j: int| 0 <= j < s.len() implies !#[trigger] p(j) by {
        assert(s[j]@.path != path);
    }
    lemma_first_pos_none(p, 0, s.len() as int);
}

/// Tests whether two character vectors hold the same characters.
pub fn eq_chars(a: &Vec<char>, b: &Vec<char>) -> (r: bool)
    ensures
        r == (a@ == b@),
{
    if a.len() != b.len() {
        return false;
    }
    let mut i: usize = 0;
    while i < a.len()
        invariant
            a@.len() == b@.len(),
            i <= a@.len(),
            forall|k: int| 0 <= k < i ==> a@[k] == b@[k],
        decreases a@.len() - i,
    {
        if a[i] != b[i] {
            return false;
        }
        i = i + 1;
    }
    proof {
        assert(a@ =~= b@);
    }
    true
}

/// The first mirror index keyed by `path`, as `spec_find_note` describes.
pub fn find_note_index(notes: &Vec<NoteMeta>, path: &str) -> (r: Option<usize>)
    ensures
        match r {
            Some(i) => spec_find_note(notes@, path@) == Some(i as int),
            None => spec_find_note(notes@, path@) is None,
        },
{
    let target = crate::text::chars_of(path);
    let mut i: usize = 0;
    while i < notes.len()
        invariant
            target@ == path@,
            i <= notes@.len(),
            forall|j: int| 0 <= j < i ==> notes@[j]@.path != path@,
        decreases notes@.len() - i,
    {
        let pv = crate::text::chars_of(notes[i].path.as_str());
        if eq_chars(&pv, &target) {
            proof {
                lemma_find_note_is(notes@, path@, i as int);
            }
            return Some(i);
        }
        i = i + 1;
    }
    proof {
        lemma_find_note_none(notes@, path@);
    }
    None
}

/// Sorts the mirror by path: the result is ordered and holds exactly
/// the same records.
pub fn sort_notes(notes: &mut Vec<NoteMeta>)
    ensures
        sorted_by_path(final(notes)@),
        final(notes)@.to_multiset() == old(notes)@.to_multiset(),
        final(notes)@.len() == old(notes)@.len(),
{
    let n: usize = notes.len();
    if n <= 1 {
        return;
    }
    let mut i: usize = 1;
    while i < n
        invariant
            1 <= i <= n,
            n == notes@.len(),
            sorted_by_path(notes@.take(i as int)),
            notes@.to_multiset() == old(notes)@.to_multiset(),
        decreases n - i,
    {
        let mut k: usize = 0;
        while k < i && str_le_exec(notes[k].path.as_str(), notes[i].path.as_str())
            invariant
                k <= i < n,
                n == notes@.len(),
                forall|m: int| 0 <= m < k ==> str_le(notes@[m]@.path, notes@[i as int]@.path),
            decreases i - k,
        {
            k = k + 1;
        }
        let ghost pre = notes@;
        let x = notes.remove(i);
        let ghost mid = notes@;
        notes.insert(k, x);
        proof {
            assert(mid =~= pre.take(i as int) + pre.skip(i + 1));
            assert(notes@ =~= mid.take(k as int) + seq![x] + mid.skip(k as int));
            assert forall|a: int, b: int|
                0 <= a < b < i + 1 implies str_le(notes@[a]@.path, notes@[b]@.path) by {
                let xs = pre.take(i as int);
                assert(forall|m: int| 0 <= m < k ==> notes@[m] == xs[m]);
                assert(forall|m: int| k < m <= i ==> notes@[m] == xs[m - 1]);
                assert(notes@[k as int] == x);
                if k < i {
                    assert(!str_le(xs[k as int]@.path, x@.path));
                    lemma_str_le_total(xs[k as int]@.path, x@.path);
                    assert(str_le(x@.path, xs[k as int]@.path));
                }
                assert forall|m: int| k <= m < i implies str_le(x@.path, xs[m]@.path) by {
                    assert(str_le(x@.path, xs[k as int]@.path));
                    if m > k {
                        assert(str_le(xs[k as int]@.path, xs[m]@.path));
                        lemma_str_le_trans(x@.path, xs[k as int]@.path, xs[m]@.path);
                    }
                }
                if b < k {
                    assert(str_le(xs[a]@.path, xs[b]@.path));
                } else if b == k {
                    assert(str_le(xs[a]@.path, x@.path));
                } else if a < k {
                    if b > k {
                        assert(notes@[b] == xs[b - 1]);
                        assert(str_le(xs[a]@.path, xs[b - 1]@.path));
                    }
                } else if a == k {
                    assert(str_le(x@.path, xs[b - 1]@.path));
                } else {
                    assert(str_le(xs[a - 1]@.path, xs[b - 1]@.path));
                }
            }
            assert(sorted_by_path(notes@.take(i + 1)));
            assert(pre[i as int] == x);
            assert(mid.to_multiset() == pre.to_multiset().remove(x));
            assert(notes@.to_multiset() == mid.to_multiset().insert(x));
            assert(notes@.to_multiset() =~= pre.to_multiset());
        }
        i = i + 1;
    }
    proof {
        assert(notes@.take(n as int) =~= notes@);
    }
}

/// Replaces the tracked folder and the whole mirror.
pub fn apply_set_folder(state: &mut AppState, folder: String, notes: Vec<NoteMeta>)
    ensures
        final(state).folder_path == Some(folder),
        final(state).notes == notes,
        final(state).base_path == old(state).base_path,
        final(state).selected_path == old(state).selected_path,
        final(state).active_context_menu_path == old(state).active_context_menu_path,
        final(state).active_world == old(state).active_world,
        final(state).active_tags == old(state).active_tags,
{
    state.folder_path = Some(folder);
    state.notes = notes;
}

/// Records which note is selected.
pub fn apply_select_note(state: &mut AppState, path: String)
    ensures
        final(state).selected_path == Some(path),
        final(state).notes == old(state).notes,
        final(state).base_path == old(state).base_path,
        final(state).folder_path == old(state).folder_path,
        final(state).active_context_menu_path == old(state).active_context_menu_path,
        final(state).active_world == old(state).active_world,
        final(state).active_tags == old(state).active_tags,
{
    state.selected_path = Some(path);
}

/// Adds a record to the mirror and restores the path order.
pub fn apply_add_note(state: &mut AppState, note: NoteMeta)
    ensures
        sorted_by_path(final(state).notes@),
        final(state).notes@.to_multiset() == old(state).notes@.push(note).to_multiset(),
        final(state).notes@.len() == old(state).notes@.len() + 1,
        final(state).base_path == old(state).base_path,
        final(state).folder_path == old(state).folder_path,
        final(state).selected_path == old(state).selected_path,
        final(state).active_context_menu_path == old(state).active_context_menu_path,
        final(state).active_world == old(state).active_world,
        final(state).active_tags == old(state).active_tags,
{
    state.notes.push(note);
    sort_notes(&mut state.notes);
}

/// Replaces the first record keyed by `old_path` (if one exists) with
/// `note`, wholesale, and restores the path order.
pub fn apply_update_note(state: &mut AppState, old_path: &str, note: NoteMeta)
    ensures
        sorted_by_path(final(state).notes@),
        final(state).notes@.len() == old(state).notes@.len(),
        match spec_find_note(old(state).notes@, old_path@) {
            Some(i) => final(state).notes@.to_multiset()
                == old(state).notes@.update(i, note).to_multiset(),
            None => final(state).notes@.to_multiset() == old(state).notes@.to_multiset(),
        },
        final(state).base_path == old(state).base_path,
        final(state).folder_path == old(state).folder_path,
        final(state).selected_path == old(state).selected_path,
        final(state).active_context_menu_path == old(state).active_context_menu_path,
        final(state).active_world == old(state).active_world,
        final(state).active_tags == old(state).active_tags,
{
    let found = find_note_index(&state.notes, old_path);
    match found {
        Some(i) => {
            proof {
                lemma_find_note_props(state.notes@, old_path@);
            }
            let ghost pre = state.notes@;
            let _ = state.notes.remove(i);
            state.notes.insert(i, note);
            proof {
                assert(state.notes@ =~= pre.update(i as int, note));
            }
        }
        None => {}
    }
    sort_notes(&mut state.notes);
}

/// The mirror without the records keyed by `path`.
pub open spec fn spec_remove_note(s: Seq<NoteMeta>, path: Seq<char>) -> Seq<NoteMeta> {
    s.filter(|n: NoteMeta| n@.path != path)
}

proof fn lemma_remove_note_step(s: Seq<NoteMeta>, x: NoteMeta, path: Seq<char>)
    ensures
        spec_remove_note(s.push(x), path)
            == spec_remove_note(s, path)
                + if x@.path != path { seq![x] } else { Seq::<NoteMeta>::empty() },
{
    reveal(Seq::filter);
    assert(s.push(x).drop_last() =~= s);
    assert(s.push(x).last() == x);
    if x@.path != path {
        assert(spec_remove_note(s.push(x), path) =~= spec_remove_note(s, path) + seq![x]);
    } else {
        assert(spec_remove_note(s.push(x), path) =~= spec_remove_note(s, path));
        assert(spec_remove_note(s, path) =~= spec_remove_note(s, path) + Seq::<NoteMeta>::empty());
    }
}

/// Drops every record keyed by `path` from the mirror; all other
/// records keep their order.
pub fn apply_remove_note(state: &mut AppState, path: &str)
    ensures
        final(state).notes@ == spec_remove_note(old(state).notes@, path@),
        final(state).base_path == old(state).base_path,
        final(state).folder_path == old(state).folder_path,
        final(state).selected_path == old(state).selected_path,
        final(state).active_context_menu_path == old(state).active_context_menu_path,
        final(state).active_world == old(state).active_world,
        final(state).active_tags == old(state).active_tags,
{
    let target = crate::text::chars_of(path);
    let ghost src = state.notes@;
    let ghost mut j: int = 0;
    proof {
        reveal(Seq::filter);
        assert(src.take(0) =~= Seq::<NoteMeta>::empty());
        assert(state.notes@ =~= spec_remove_note(src.take(0), path@) + src.skip(0));
    }
    let mut i: usize = 0;
    loop
        invariant
            target@ == path@,
            src == old(state).notes@,
            0 <= i as int <= j <= src.len(),
            i as int == spec_remove_note(src.take(j), path@).len(),
            state.notes@ == spec_remove_note(src.take(j), path@) + src.skip(j),
            state.base_path == old(state).base_path,
            state.folder_path == old(state).folder_path,
            state.selected_path == old(state).selected_path,
            state.active_context_menu_path == old(state).active_context_menu_path,
            state.active_world == old(state).active_world,
            state.active_tags == old(state).active_tags,
        decreases src.len() - j,
    {
        if i >= state.notes.len() {
            proof {
                assert(src.skip(j).len() == 0);
                assert(j == src.len());
                assert(src.take(j) =~= src);
                assert(state.notes@ =~= spec_remove_note(src, path@));
            }
            return;
        }
        proof {
            assert(state.notes@[i as int] == src.skip(j)[0]);
            assert(src.skip(j)[0] == src[j]);
            assert(src.take(j + 1) =~= src.take(j).push(src[j]));
            lemma_remove_note_step(src.take(j), src[j], path@);
        }
        let pv = crate::text::chars_of(state.notes[i].path.as_str());
        if eq_chars(&pv, &target) {
            let _ = state.notes.remove(i);
            proof {
                assert(state.notes@ =~= spec_remove_note(src.take(j + 1), path@) + src.skip(j + 1));
            }
        } else {
            i = i + 1;
            proof {
                assert(state.notes@ =~= spec_remove_note(src.take(j + 1), path@) + src.skip(j + 1));
            }
        }
        proof {
            j = j + 1;
        }
    }
}

// ---------------------------------------------------------------------------
// String lists
// ---------------------------------------------------------------------------

/// A string list in lexicographic order.
pub open spec fn sorted_strings(s: Seq<Seq<char>>) -> bool {
    forall|i: int, j: int| 0 <= i < j < s.len() ==> str_le(s[i], s[j])
}

/// Sorts a string list: the result is ordered and holds the same
/// entries.
pub fn sort_strings(v: &mut Vec<String>)
    ensures
        sorted_strings(final(v).deep_view()),
        final(v).deep_view().to_multiset() == old(v).deep_view().to_multiset(),
        final(v)@.len() == old(v)@.len(),
{
    let n: usize = v.len();
    proof {
        lemma_deep_view_is(v);
    }
    if n <= 1 {
        return;
    }
    let mut i: usize = 1;
    while i < n
        invariant
            1 <= i <= n,
            n == v@.len(),
            sorted_strings(v.deep_view().take(i as int)),
            v.deep_view().to_multiset() == old(v).deep_view().to_multiset(),
        decreases n - i,
    {
        proof {
            lemma_deep_view_is(v);
        }
        let mut k: usize = 0;
        while k < i && str_le_exec(v[k].as_str(), v[i].as_str())
            invariant
                k <= i < n,
                n == v@.len(),
                forall|m: int| 0 <= m < k ==> str_le(v.deep_view()[m], v.deep_view()[i as int]),
            decreases i - k,
        {
            k = k + 1;
        }
        let ghost pre = v@;
        let ghost dpre = v.deep_view();
        let x = v.remove(i);
        let ghost mid = v@;
        v.insert(k, x);
        proof {

            assert(mid =~= pre.take(i as int) + pre.skip(i + 1));
            assert(v@ =~= mid.take(k as int) + seq![x] + mid.skip(k as int));
            lemma_deep_view_remove_insert(pre, i as int, k as int, v@);
            assert(v.deep_view() =~~= dpre.remove(i as int).insert(k as int, dpre[i as int]));
            let dv = v.deep_view();
            let xs = dpre.take(i as int);
            assert forall|a: int, b: int|
                0 <= a < b < i + 1 implies str_le(dv[a], dv[b]) by {
                assert(forall|m: int| 0 <= m < i ==> dpre.remove(i as int)[m] == dpre[m]);
                assert(forall|m: int| 0 <= m < k ==> dv[m] == dpre[m]);
                assert(forall|m: int| k < m <= i ==> dv[m] == dpre[m - 1]);
                assert(dv[k as int] == dpre[i as int]);
                assert(forall|m: int| 0 <= m < i ==> xs[m] == dpre[m]);
                if k < i {
                    assert(!str_le(dpre[k as int], dpre[i as int]));
                    lemma_str_le_total(dpre[k as int], dpre[i as int]);
                }
                assert forall|m: int| k <= m < i implies str_le(dpre[i as int], dpre[m]) by {
                    assert(str_le(dpre[i as int], dpre[k as int]));
                    if m > k {
                        assert(str_le(xs[k as int], xs[m]));
                        lemma_str_le_trans(dpre[i as int], dpre[k as int], dpre[m]);
                    }
                }
                if b < k {
                    assert(str_le(xs[a], xs[b]));
                } else if b == k {
                    assert(str_le(dpre[a], dpre[i as int]));
                } else if a < k {
                    assert(str_le(xs[a], xs[b - 1]));
                } else if a == k {
                    assert(str_le(dpre[i as int], dpre[b - 1]));
                } else {
                    assert(str_le(xs[a - 1], xs[b - 1]));
                }
            }
            assert(sorted_strings(dv.take(i + 1)));
            assert(dpre[i as int] == pre[i as int]@);
            assert(dv.to_multiset() =~= dpre.to_multiset());
        }
        i = i + 1;
    }
    proof {
        lemma_deep_view_is(v);
        assert(v.deep_view().take(n as int) =~= v.deep_view());
    }
}

/// The character sequences of a string list.
pub open spec fn deep_of(s: Seq<String>) -> Seq<Seq<char>> {
    Seq::new(s.len(), |i: int| s[i]@)
}

/// A vector's deep view is `deep_of` of its view.
pub proof fn lemma_deep_view_is(v: &Vec<String>)
    ensures
        v.deep_view() == deep_of(v@),
        v.deep_view().len() == v@.len(),
        forall|k: int| 0 <= k < v@.len() ==> v.deep_view()[k] == v@[k]@,
{
    assert(v.deep_view() =~~= deep_of(v@));
}

proof fn lemma_deep_view_remove_insert(pre: Seq<String>, i: int, k: int, post: Seq<String>)
    requires
        0 <= i < pre.len(),
        0 <= k <= pre.len() - 1,
        post =~= (pre.take(i) + pre.skip(i + 1)).take(k) + seq![pre[i]] + (pre.take(i) + pre.skip(
            i + 1,
        )).skip(k),
    ensures
        deep_of(post) =~~= deep_of(pre).remove(i).insert(k, deep_of(pre)[i]),
{
}

/// Tests two strings for equality of their characters.
pub fn str_eq_exec(a: &str, b: &str) -> (r: bool)
    ensures
        r == (a@ == b@),
{
    let av = crate::text::chars_of(a);
    let bv = crate::text::chars_of(b);
    eq_chars(&av, &bv)
}

pub fn opt_string_eq(a: &Option<String>, b: &Option<String>) -> (r: bool)
    ensures
        r == (crate::model::opt_str_view(*a) == crate::model::opt_str_view(*b)),
{
    match (a, b) {
        (Some(x), Some(y)) => str_eq_exec(x.as_str(), y.as_str()),
        (None, None) => true,
        _ => false,
    }
}

pub fn opt_bool_eq(a: &Option<bool>, b: &Option<bool>) -> (r: bool)
    ensures
        r == (*a == *b),
{
    match (a, b) {
        (Some(x), Some(y)) => *x == *y,
        (None, None) => true,
        _ => false,
    }
}

pub fn opt_i64_eq(a: &Option<i64>, b: &Option<i64>) -> (r: bool)
    ensures
        r == (*a == *b),
{
    match (a, b) {
        (Some(x), Some(y)) => *x == *y,
        (None, None) => true,
        _ => false,
    }
}

/// Tests two string lists for equality of their contents.
pub fn strings_eq(a: &Vec<String>, b: &Vec<String>) -> (r: bool)
    ensures
        r == (a.deep_view() == b.deep_view()),
{
    proof {
        lemma_deep_view_is(a);
        lemma_deep_view_is(b);
    }
    if a.len() != b.len() {
        proof {
            assert(a.deep_view().len() != b.deep_view().len());
        }
        return false;
    }
    let mut i: usize = 0;
    while i < a.len()
        invariant
            a.deep_view().len() == a@.len(),
            b.deep_view().len() == b@.len(),
            a@.len() == b@.len(),
            i <= a@.len(),
            forall|k: int| 0 <= k < i ==> a.deep_view()[k] == b.deep_view()[k],
        decreases a@.len() - i,
    {
        if !str_eq_exec(a[i].as_str(), b[i].as_str()) {
            proof {
                lemma_deep_view_is(a);
                lemma_deep_view_is(b);
                assert(a.deep_view()[i as int] != b.deep_view()[i as int]);
            }
            return false;
        }
        proof {
            lemma_deep_view_is(a);
            lemma_deep_view_is(b);
        }
        i = i + 1;
    }
    proof {
        assert(a.deep_view() =~= b.deep_view());
    }
    true
}

/// Whether some entry of `v` has exactly the characters of `t`.
pub open spec fn contains_string(s: Seq<Seq<char>>, t: Seq<char>) -> bool {
    exists|k: int| 0 <= k < s.len() && s[k] == t
}

pub fn contains_string_exec(v: &Vec<String>, t: &str) -> (r: bool)
    ensures
        r == contains_string(v.deep_view(), t@),
{
    proof {
        lemma_deep_view_is(v);
    }
    let mut i: usize = 0;
    while i < v.len()
        invariant
            v.deep_view().len() == v@.len(),
            i <= v@.len(),
            forall|k: int| 0 <= k < i ==> v.deep_view()[k] != t@,
        decreases v@.len() - i,
    {
        if str_eq_exec(v[i].as_str(), t) {
            proof {
                lemma_deep_view_is(v);
                assert(v.deep_view()[i as int] == t@);
            }
            return true;
        }
        proof {
            lemma_deep_view_is(v);
        }
        i = i + 1;
    }
    false
}

/// Pushing keeps every present entry present, and makes the new one so.
pub proof fn lemma_contains_string_push(s: Seq<Seq<char>>, x: Seq<char>)
    ensures
        forall|t: Seq<char>| #[trigger] contains_string(s, t) ==> contains_string(s.push(x), t),
        contains_string(s.push(x), x),
{
    assert(s.push(x)[s.len() as int] == x);
    assert forall|t: Seq<char>| #[trigger] contains_string(s, t) implies contains_string(
        s.push(x),
        t,
    ) by {
        let k = choose|k: int| 0 <= k < s.len() && s[k] == t;
        assert(s.push(x)[k] == t);
    }
}

/// A value-equal copy of a list of strings.
pub fn clone_strings(v: &Vec<String>) -> (r: Vec<String>)
    ensures
        r@ == v@,
{
    let mut r: Vec<String> = Vec::new();
    let mut i: usize = 0;
    while i < v.len()
        invariant
            i <= v@.len(),
            r@ =~= v@.take(i as int),
        decreases v@.len() - i,
    {
        r.push(v[i].clone());
        i = i + 1;
        proof {
            assert(v@.take(i as int) =~= v@.take(i - 1) + seq![v@[i - 1]]);
        }
    }
    proof {
        assert(v@.take(v@.len() as int) =~= v@);
        assert(r@ =~= v@);
    }
    r
}

} // verus!
