//! The tag-based visibility filter.
//!
//! From the full note set and the active tag selection it computes
//! the visible note paths: with no active tags every note is visible;
//! otherwise a note is visible exactly when its tag set meets the
//! selection, comparing tags after trimming whitespace on both sides.

use vstd::prelude::*;
use crate::mirror::contains_string;
use crate::model::NoteMeta;
use crate::text::spec_trim;

verus! {

/// The active tags, each trimmed.
pub open spec fn spec_selected(active: Seq<Seq<char>>) -> Seq<Seq<char>> {
    active.map_values(|t: Seq<char>| spec_trim(t))
}

/// A note is visible when one of its tags, trimmed, is selected.
pub open spec fn note_visible(n: NoteMeta, selected: Seq<Seq<char>>) -> bool {
    exists|j: int|
        0 <= j < n@.tags.len() && contains_string(selected, spec_trim(#[trigger] n@.tags[j]))
}

/// The visible paths: all of them for an empty selection, else the
/// paths of the notes whose tag sets meet the selection, in order.
pub open spec fn spec_filter_paths(notes: Seq<NoteMeta>, active: Seq<Seq<char>>) -> Seq<Seq<char>> {
    let selected = spec_selected(active);
    if selected.len() == 0 {
        notes.map_values(|n: NoteMeta| n@.path)
    } else {
        notes.filter(|n: NoteMeta| note_visible(n, selected)).map_values(|n: NoteMeta| n@.path)
    }
}

proof fn lemma_filter_paths_step(s: Seq<NoteMeta>, x: NoteMeta, selected: Seq<Seq<char>>)
    ensures
        s.push(x).filter(|n: NoteMeta| note_visible(n, selected)).map_values(
            |n: NoteMeta| n@.path,
        ) == s.filter(|n: NoteMeta| note_visible(n, selected)).map_values(|n: NoteMeta| n@.path)
            + if note_visible(x, selected) {
            seq![x@.path]
        } else {
            Seq::<Seq<char>>::empty()
        },
{
    reveal(Seq::filter);
    let pf = |n: NoteMeta| note_visible(n, selected);
    let mf = |n: NoteMeta| n@.path;
    assert(s.push(x).drop_last() =~= s);
    assert(s.push(x).last() == x);
    if pf(x) {
        assert(s.push(x).filter(pf) =~= s.filter(pf).push(x));
        assert(s.filter(pf).push(x).map_values(mf) =~~= s.filter(pf).map_values(mf) + seq![
            x@.path,
        ]);
    } else {
        assert(s.push(x).filter(pf) =~= s.filter(pf));
        assert(s.filter(pf).map_values(mf) =~~= s.filter(pf).map_values(mf)
            + Seq::<Seq<char>>::empty());
    }
}

/// Computes the visible note paths, as `spec_filter_paths` describes.
/// Recomputed in full on every call; no incremental state.
pub fn get_filtered_note_paths(notes: &Vec<NoteMeta>, active_tags: &Vec<String>) -> (r: Vec<
    String,
>)
    ensures
        r.deep_view() == spec_filter_paths(notes@, active_tags.deep_view()),
{
    // trim the selection
    let mut selected: Vec<String> = Vec::new();
    proof {
        crate::mirror::lemma_deep_view_is(active_tags);
        crate::mirror::lemma_deep_view_is(&selected);
        assert(selected.deep_view() =~~= spec_selected(active_tags.deep_view().take(0)));
    }
    let mut i: usize = 0;
    while i < active_tags.len()
        invariant
            active_tags.deep_view().len() == active_tags@.len(),
            forall|k: int|
                0 <= k < active_tags@.len() ==> active_tags.deep_view()[k] == active_tags@[k]@,
            i <= active_tags@.len(),
            selected.deep_view() == spec_selected(active_tags.deep_view().take(i as int)),
        decreases active_tags@.len() - i,
    {
        let ghost before = selected.deep_view();
        let tv = crate::text::chars_of(active_tags[i].as_str());
        let trimmed = crate::text::trim_chars(&tv);
        selected.push(crate::text::string_of(&trimmed));
        proof {
            crate::mirror::lemma_deep_view_is(&selected);
            let dv = active_tags.deep_view();
            assert(selected.deep_view() =~~= before.push(spec_trim(dv[i as int])));
            assert(dv.take(i + 1) =~= dv.take(i as int).push(dv[i as int]));
            assert(spec_selected(dv.take(i + 1)) =~~= spec_selected(dv.take(i as int)).push(
                spec_trim(dv[i as int]),
            ));
        }
        i = i + 1;
    }
    proof {
        let dv = active_tags.deep_view();
        assert(dv.take(dv.len() as int) =~= dv);
    }
    let ghost sel = selected.deep_view();
    let mut out: Vec<String> = Vec::new();
    proof {
        crate::mirror::lemma_deep_view_is(&out);
        reveal(Seq::filter);
        assert(notes@.take(0) =~= Seq::<NoteMeta>::empty());
        if sel.len() == 0 {
            assert(out.deep_view() =~~= notes@.take(0).map_values(|n: NoteMeta| n@.path));
        } else {
            assert(out.deep_view() =~~= notes@.take(0).filter(
                |n: NoteMeta| note_visible(n, sel),
            ).map_values(|n: NoteMeta| n@.path));
        }
    }
    let sel_empty = selected.len() == 0;
    proof {
        assert(sel_empty == (sel.len() == 0));
    }
    let mut ni: usize = 0;
    while ni < notes.len()
        invariant
            sel == selected.deep_view(),
            sel_empty == (sel.len() == 0),
            ni <= notes@.len(),
            sel_empty ==> out.deep_view() == notes@.take(ni as int).map_values(
                |n: NoteMeta| n@.path,
            ),
            !sel_empty ==> out.deep_view() == notes@.take(ni as int).filter(
                |n: NoteMeta| note_visible(n, sel),
            ).map_values(|n: NoteMeta| n@.path),
        decreases notes@.len() - ni,
    {
        let ghost before = out.deep_view();
        let visible = if sel_empty {
            true
        } else {
            note_visible_exec(&notes[ni], &selected)
        };
        if visible {
            out.push(notes[ni].path.clone());
        }
        proof {
            crate::mirror::lemma_deep_view_is(&out);
            assert(notes@.take(ni + 1) =~= notes@.take(ni as int).push(notes@[ni as int]));
            if sel_empty {
                assert(notes@.take(ni + 1).map_values(|n: NoteMeta| n@.path) =~~= notes@.take(
                    ni as int,
                ).map_values(|n: NoteMeta| n@.path).push(notes@[ni as int]@.path));
                assert(out.deep_view() =~~= before.push(notes@[ni as int]@.path));
            } else {
                lemma_filter_paths_step(notes@.take(ni as int), notes@[ni as int], sel);
                if note_visible(notes@[ni as int], sel) {
                    assert(out.deep_view() =~~= before + seq![notes@[ni as int]@.path]);
                } else {
                    assert(out.deep_view() =~~= before + Seq::<Seq<char>>::empty());
                }
            }
        }
        ni = ni + 1;
    }
    proof {
        assert(notes@.take(notes@.len() as int) =~= notes@);
    }
    out
}

/// Tests whether one of the note's tags, trimmed, is selected.
fn note_visible_exec(n: &NoteMeta, selected: &Vec<String>) -> (r: bool)
    ensures
        r == note_visible(*n, selected.deep_view()),
{
    proof {
        crate::mirror::lemma_deep_view_is(&n.tags);
    }
    let mut j: usize = 0;
    while j < n.tags.len()
        invariant
            n.tags.deep_view().len() == n.tags@.len(),
            j <= n.tags@.len(),
            forall|k: int|
                0 <= k < j ==> !contains_string(
                    selected.deep_view(),
                    spec_trim(#[trigger] n@.tags[k]),
                ),
        decreases n.tags@.len() - j,
    {
        let tv = crate::text::chars_of(n.tags[j].as_str());
        let trimmed = crate::text::trim_chars(&tv);
        let ts = crate::text::string_of(&trimmed);
        if crate::mirror::contains_string_exec(selected, ts.as_str()) {
            proof {
                crate::mirror::lemma_deep_view_is(&n.tags);
                assert(n@.tags[j as int] == n.tags@[j as int]@);
                assert(contains_string(selected.deep_view(), spec_trim(n@.tags[j as int])));
            }
            return true;
        }
        proof {
            crate::mirror::lemma_deep_view_is(&n.tags);
            assert(n@.tags[j as int] == n.tags@[j as int]@);
        }
        j = j + 1;
    }
    proof {
        assert(!note_visible(*n, selected.deep_view()));
    }
    false
}

/// Every record of a filtered mirror comes from the mirror.
proof fn lemma_filter_elem(s: Seq<NoteMeta>, pred: spec_fn(NoteMeta) -> bool, k: int)
    requires
        0 <= k < s.filter(pred).len(),
    ensures
        exists|i: int| 0 <= i < s.len() && s[i] == s.filter(pred)[k],
    decreases s.len(),
{
    reveal(Seq::filter);
    if s.len() > 0 {
        let sub = s.drop_last().filter(pred);
        if k < sub.len() {
            lemma_filter_elem(s.drop_last(), pred, k);
            let i = choose|i: int| 0 <= i < s.drop_last().len() && s.drop_last()[i] == sub[k];
            assert(s[i] == s.filter(pred)[k]);
        } else {
            assert(s.filter(pred)[k] == s.last());
            assert(s[s.len() - 1] == s.filter(pred)[k]);
        }
    }
}

/// The law of the tag filter: with no active tags every note's path
/// is reported, and with a non-empty selection exactly the paths of
/// the notes whose trimmed tag sets meet the trimmed selection are,
/// in mirror order.
pub proof fn lemma_tag_filter_semantics(notes: Seq<NoteMeta>, active: Seq<Seq<char>>)
    ensures
        spec_selected(active).len() == 0 ==> spec_filter_paths(notes, active) == notes.map_values(
            |n: NoteMeta| n@.path,
        ),
        spec_selected(active).len() > 0 ==> forall|p: Seq<char>|
            #[trigger] contains_string(spec_filter_paths(notes, active), p) <==> exists|i: int|
                0 <= i < notes.len() && #[trigger] notes[i]@.path == p && note_visible(
                    notes[i],
                    spec_selected(active),
                ),
{
    let selected = spec_selected(active);
    if selected.len() > 0 {
        let pf = |n: NoteMeta| note_visible(n, selected);
        let mf = |n: NoteMeta| n@.path;
        broadcast use vstd::seq_lib::group_filter_ensures;

        let filtered = notes.filter(pf);
        let result = filtered.map_values(mf);
        assert forall|p: Seq<char>| #[trigger] contains_string(result, p) implies exists|i: int|
            0 <= i < notes.len() && #[trigger] notes[i]@.path == p && note_visible(
                notes[i],
                selected,
            ) by {
            let k = choose|k: int| 0 <= k < result.len() && result[k] == p;
            assert(result[k] == filtered[k]@.path);
            assert(pf(filtered[k]));
            lemma_filter_elem(notes, pf, k);
            let i = choose|i: int| 0 <= i < notes.len() && notes[i] == filtered[k];
            assert(notes[i]@.path == p);
        }
        assert forall|p: Seq<char>|
            (exists|i: int|
                0 <= i < notes.len() && #[trigger] notes[i]@.path == p && note_visible(
                    notes[i],
                    selected,
                )) implies #[trigger] contains_string(result, p) by {
            let i = choose|i: int|
                0 <= i < notes.len() && #[trigger] notes[i]@.path == p && note_visible(
                    notes[i],
                    selected,
                );
            assert(pf(notes[i]));
            assert(notes.contains(notes[i]));
            assert(filtered.contains(notes[i]));
            let k = choose|k: int| 0 <= k < filtered.len() && filtered[k] == notes[i];
            assert(result[k] == p);
        }
    }
}

/// The OR semantics of visibility, spelled out over the raw active
/// list: a note is visible exactly when some tag of it and some
/// active tag trim to the same text — its trimmed tag set meets the
/// trimmed selection.
pub proof fn lemma_tag_filter_or_semantics(notes: Seq<NoteMeta>, active: Seq<Seq<char>>)
    ensures
        forall|i: int|
            0 <= i < notes.len() ==> (note_visible(#[trigger] notes[i], spec_selected(active))
                <==> exists|j: int, k: int|
                0 <= j < notes[i]@.tags.len() && 0 <= k < active.len() && spec_trim(
                    #[trigger] notes[i]@.tags[j],
                ) == spec_trim(#[trigger] active[k])),
{
    let selected = spec_selected(active);
    assert forall|i: int| 0 <= i < notes.len() implies (note_visible(
        #[trigger] notes[i],
        selected,
    ) <==> exists|j: int, k: int|
        0 <= j < notes[i]@.tags.len() && 0 <= k < active.len() && spec_trim(
            #[trigger] notes[i]@.tags[j],
        ) == spec_trim(#[trigger] active[k])) by {
        let n = notes[i];
        if note_visible(n, selected) {
            let j = choose|j: int|
                0 <= j < n@.tags.len() && contains_string(
                    selected,
                    spec_trim(#[trigger] n@.tags[j]),
                );
            let k = choose|k: int|
                0 <= k < selected.len() && selected[k] == spec_trim(n@.tags[j]);
            assert(selected[k] == spec_trim(active[k]));
            assert(spec_trim(n@.tags[j]) == spec_trim(active[k]));
        }
        if exists|j: int, k: int|
            0 <= j < n@.tags.len() && 0 <= k < active.len() && spec_trim(#[trigger] n@.tags[j])
                == spec_trim(#[trigger] active[k]) {
            let (j, k) = choose|j: int, k: int|
                0 <= j < n@.tags.len() && 0 <= k < active.len() && spec_trim(
                    #[trigger] n@.tags[j],
                ) == spec_trim(#[trigger] active[k]);
            assert(selected[k] == spec_trim(active[k]));
            assert(contains_string(selected, spec_trim(n@.tags[j])));
            assert(note_visible(n, selected));
        }
    }
}

} // verus!