//! The effect planner.
//!
//! Pure decision logic: given the mirrored state and a proposed edit,
//! it computes the minimal filesystem mutation — nothing, a write, or
//! a rename followed by a write — together with the new metadata
//! snapshot for the mirror.  It performs no I/O itself; an outer
//! layer interprets the returned `Effect`.

use vstd::prelude::*;
use crate::codec::spec_generate_filename;
use crate::codec::spec_parse_filename;
use crate::codec::spec_path_err;
use crate::codec::spec_sanitize;
use crate::codec::spec_split_path;
use crate::frontmatter::run_end;
use crate::frontmatter::spec_aot_field;
use crate::frontmatter::spec_color_field;
use crate::frontmatter::spec_extract_tags;
use crate::frontmatter::spec_num_field;
use crate::frontmatter::spec_num_i64;
use crate::frontmatter::spec_update_updated;
use crate::mirror::spec_find_note;
use crate::mirror::sorted_by_path;
use crate::model::AppState;
use crate::model::Effect;
use crate::model::NoteMeta;
use crate::model::NoteMetaView;
use crate::model::opt_i64_view;
use crate::text::spec_trim;

verus! {

// ---------------------------------------------------------------------------
// Field views of a note's text
// ---------------------------------------------------------------------------

pub open spec fn spec_field_x(s: Seq<char>) -> Option<int> {
    opt_i64_view(spec_num_i64(spec_num_field(s, "x:"@, "x:"@)))
}

pub open spec fn spec_field_y(s: Seq<char>) -> Option<int> {
    opt_i64_view(spec_num_i64(spec_num_field(s, "y:"@, "y:"@)))
}

pub open spec fn spec_field_width(s: Seq<char>) -> Option<int> {
    opt_i64_view(spec_num_i64(spec_num_field(s, "width:"@, "w:"@)))
}

pub open spec fn spec_field_height(s: Seq<char>) -> Option<int> {
    opt_i64_view(spec_num_i64(spec_num_field(s, "height:"@, "h:"@)))
}

/// The first line of a body, trimmed; empty for an empty body.
pub open spec fn spec_first_line(body: Seq<char>) -> Seq<char> {
    spec_trim(body.take(run_end(body, 0, |c: char| c != '\n')))
}

// ---------------------------------------------------------------------------
// The save plan
// ---------------------------------------------------------------------------

/// Everything a save decides: whether the path was usable, the final
/// path, whether a rename and a write are due, the assembled content,
/// and the new metadata snapshot.
pub ghost struct SavePlan {
    pub ok: bool,
    pub err: Seq<char>,
    pub final_path: Seq<char>,
    pub renamed: bool,
    pub write: bool,
    pub content: Seq<char>,
    pub meta: NoteMetaView,
}

pub open spec fn empty_meta_view() -> NoteMetaView {
    NoteMetaView {
        path: Seq::<char>::empty(),
        seq: 0,
        context: Seq::<char>::empty(),
        updated: Seq::<char>::empty(),
        x: None,
        y: None,
        width: None,
        height: None,
        background_color: None,
        always_on_top: None,
        tags: Seq::<Seq<char>>::empty(),
    }
}

/// The full decision of a save.
///
/// The current filename supplies the fixed sequence number and
/// creation date.  Content counts as changed when the body differs
/// from the old body or the header's color, always-on-top flag or tag
/// set differs from the mirrored record; only then does the `updated`
/// date move to `today`.  With renaming allowed, a non-empty
/// sanitized first body line that differs from the current title
/// renames the file, keeping the original sequence number and
/// creation date.  A save with no rename, no content change, and
/// unchanged geometry writes nothing.  The new snapshot always
/// reflects the assembled content, whether or not anything is
/// written.
pub open spec fn spec_plan_save(
    notes: Seq<NoteMeta>,
    path: Seq<char>,
    body: Seq<char>,
    old_body: Seq<char>,
    fm: Seq<char>,
    allow_rename: bool,
    today: Seq<char>,
) -> SavePlan {
    match spec_split_path(path) {
        None => SavePlan {
            ok: false,
            err: spec_path_err(path),
            final_path: path,
            renamed: false,
            write: false,
            content: Seq::<char>::empty(),
            meta: empty_meta_view(),
        },
        Some((prefix, filename)) => {
            let parsed = spec_parse_filename(filename);
            let seqn = parsed.0;
            let created = parsed.1;
            let old_ctx = parsed.2;
            let first_line = spec_first_line(body);
            let old_meta = match spec_find_note(notes, path) {
                Some(i) => Some(notes[i]@),
                None => None,
            };
            let old_updated = match old_meta {
                Some(m) => m.updated,
                None => today,
            };
            let ncolor = spec_color_field(fm);
            let naot = spec_aot_field(fm);
            let ntags = spec_extract_tags(fm);
            let content_changed = body != old_body || match old_meta {
                None => true,
                Some(m) => m.background_color != ncolor || m.always_on_top != naot || m.tags
                    != ntags,
            };
            let final_updated = if content_changed {
                today
            } else {
                old_updated
            };
            let content = spec_update_updated(fm, final_updated) + seq!['\n', '\n'] + body;
            let x2 = spec_field_x(content);
            let y2 = spec_field_y(content);
            let w2 = spec_field_width(content);
            let h2 = spec_field_height(content);
            let geom_same = match old_meta {
                None => false,
                Some(m) => m.x == x2 && m.y == y2 && m.width == w2 && m.height == h2,
            };
            let safe = spec_sanitize(first_line);
            let should_rename = allow_rename && first_line.len() > 0 && safe.len() > 0 && safe
                != old_ctx;
            let new_ctx = if should_rename {
                safe
            } else {
                old_ctx
            };
            let fpath = if should_rename {
                prefix + spec_generate_filename(seqn, created, new_ctx)
            } else {
                path
            };
            let nothing = !should_rename && !content_changed && geom_same;
            SavePlan {
                ok: true,
                err: Seq::<char>::empty(),
                final_path: fpath,
                renamed: should_rename,
                write: !nothing,
                content,
                meta: NoteMetaView {
                    path: fpath,
                    seq: seqn,
                    context: new_ctx,
                    updated: final_updated,
                    x: x2,
                    y: y2,
                    width: w2,
                    height: h2,
                    background_color: spec_color_field(content),
                    always_on_top: spec_aot_field(content),
                    tags: spec_extract_tags(content),
                },
            }
        },
    }
}

/// The mirror after replacing the first record at `path` with `nm`:
/// still sorted, the same records but for that one.
pub open spec fn mirror_updated(
    pre: Seq<NoteMeta>,
    path: Seq<char>,
    nm: NoteMeta,
    post: Seq<NoteMeta>,
) -> bool {
    &&& sorted_by_path(post)
    &&& match spec_find_note(pre, path) {
        Some(i) => post.to_multiset() == pre.update(i, nm).to_multiset(),
        None => post.to_multiset() == pre.to_multiset(),
    }
}

/// The shape of the planned effect value.
pub open spec fn effect_matches(e: Effect, path: Seq<char>, plan: SavePlan, allow_rename: bool) -> bool {
    if !allow_rename {
        if !plan.write {
            e matches Effect::Batch(v) && v@.len() == 0
        } else {
            e matches Effect::WriteNote { path: wp, content: wc } && wp@ == plan.final_path && wc@
                == plan.content
        }
    } else {
        match e {
            Effect::Batch(v) => {
                if plan.renamed {
                    &&& v@.len() == 2
                    &&& v@[0] matches Effect::RenameNote { old_path, new_path } && old_path@ == path
                        && new_path@ == plan.final_path
                    &&& v@[1] matches Effect::WriteNote { path: wp, content: wc } && wp@
                        == plan.final_path && wc@ == plan.content
                } else if plan.write {
                    &&& v@.len() == 1
                    &&& v@[0] matches Effect::WriteNote { path: wp, content: wc } && wp@
                        == plan.final_path && wc@ == plan.content
                } else {
                    v@.len() == 0
                }
            },
            _ => false,
        }
    }
}

/// The full contract of a save call, for the date `today`.
pub open spec fn save_post(
    pre: AppState,
    path: Seq<char>,
    body: Seq<char>,
    old_body: Seq<char>,
    fm: Seq<char>,
    allow_rename: bool,
    today: Seq<char>,
    post: AppState,
    r: Result<(String, Effect), String>,
) -> bool {
    let plan = spec_plan_save(pre.notes@, path, body, old_body, fm, allow_rename, today);
    &&& post.base_path == pre.base_path
    &&& post.folder_path == pre.folder_path
    &&& post.selected_path == pre.selected_path
    &&& post.active_context_menu_path == pre.active_context_menu_path
    &&& post.active_world == pre.active_world
    &&& post.active_tags == pre.active_tags
    &&& if !plan.ok {
        &&& r matches Err(e) && e@ == plan.err
        &&& post.notes == pre.notes
    } else {
        &&& r matches Ok(p) && p.0@ == plan.final_path && effect_matches(
            p.1,
            path,
            plan,
            allow_rename,
        )
        &&& exists|nm: NoteMeta|
            #[trigger] nm@ == plan.meta && mirror_updated(pre.notes@, path, nm, post.notes@)
    }
}

/// Plans a save for an explicitly given date.  This is the whole
/// decision logic of saving; `handle_save_note` supplies today's date.
pub fn handle_save_note_dated(
    state: &mut AppState,
    current_path: &str,
    body: &str,
    old_body: &str,
    frontmatter_raw: &str,
    allow_rename: bool,
    today: &str,
) -> (r: Result<(String, Effect), String>)
    ensures
        save_post(
            *old(state),
            current_path@,
            body@,
            old_body@,
            frontmatter_raw@,
            allow_rename,
            today@,
            *final(state),
            r,
        ),
{
    let ghost plan = spec_plan_save(
        old(state).notes@,
        current_path@,
        body@,
        old_body@,
        frontmatter_raw@,
        allow_rename,
        today@,
    );
    let sp = crate::codec::split_path(current_path);
    let (prefix, filename) = match sp {
        Some(pr) => pr,
        None => {
            return Err(crate::codec::path_err_string(current_path));
        }
    };
    let parsed = crate::codec::parse_filename(filename.as_str());
    let seqn: i32 = parsed.0;
    let created: String = parsed.1;
    let old_ctx: String = parsed.2;
    // the first body line, trimmed
    let bodyv = crate::text::chars_of(body);
    let le = crate::frontmatter::line_end_exec(&bodyv, 0);
    let flraw = crate::text::copy_range(&bodyv, 0, le);
    let flv = crate::text::trim_chars(&flraw);
    proof {
        assert(flraw@ =~= bodyv@.take(le as int));
        assert(flv@ == spec_first_line(body@));
    }
    // the mirrored record, if any
    let idx = crate::mirror::find_note_index(&state.notes, current_path);
    proof {
        crate::mirror::lemma_find_note_props(state.notes@, current_path@);
    }
    // fields of the incoming header
    let nfields = crate::frontmatter::extract_meta_from_content(frontmatter_raw);
    let ncolor = nfields.4;
    let naot = nfields.5;
    let ntags = nfields.6;
    // content change
    let body_same = crate::mirror::str_eq_exec(body, old_body);
    let content_changed = !body_same || match idx {
        None => true,
        Some(i) => {
            !crate::mirror::opt_string_eq(&state.notes[i].background_color, &ncolor)
                || !crate::mirror::opt_bool_eq(&state.notes[i].always_on_top, &naot)
                || !crate::mirror::strings_eq(&state.notes[i].tags, &ntags)
        }
    };
    let old_updated: String = match idx {
        Some(i) => state.notes[i].updated.clone(),
        None => today.to_owned(),
    };
    let final_updated: String = if content_changed {
        today.to_owned()
    } else {
        old_updated
    };
    let ffm = crate::frontmatter::update_updated_field(frontmatter_raw, final_updated.as_str());
    let mut cv = crate::text::chars_of(ffm.as_str());
    cv.push('\n');
    cv.push('\n');
    crate::text::push_all(&mut cv, &bodyv);
    let content = crate::text::string_of(&cv);
    proof {
        assert(content@ =~= spec_update_updated(frontmatter_raw@, final_updated@) + seq!['\n', '\n']
            + body@);
    }
    let cfields = crate::frontmatter::extract_meta_from_content(content.as_str());
    let geom_same = match idx {
        None => false,
        Some(i) => {
            crate::mirror::opt_i64_eq(&state.notes[i].x, &cfields.0)
                && crate::mirror::opt_i64_eq(&state.notes[i].y, &cfields.1)
                && crate::mirror::opt_i64_eq(&state.notes[i].width, &cfields.2)
                && crate::mirror::opt_i64_eq(&state.notes[i].height, &cfields.3)
        }
    };
    // rename decision
    let safev = crate::codec::sanitize_context(crate::text::string_of(&flv).as_str());
    let old_ctx_same = crate::mirror::str_eq_exec(safev.as_str(), old_ctx.as_str());
    let safe_empty = safev.as_str().is_empty();
    let should_rename = allow_rename && flv.len() > 0 && !safe_empty && !old_ctx_same;
    let new_ctx: String = if should_rename {
        safev
    } else {
        old_ctx
    };
    let final_path: String = if should_rename {
        proof {
            crate::codec::lemma_parse_filename_shape(filename@);
        }
        let gen = crate::codec::generate_filename(seqn, created.as_str(), new_ctx.as_str());
        let mut fp = crate::text::chars_of(prefix.as_str());
        let genv = crate::text::chars_of(gen.as_str());
        crate::text::push_all(&mut fp, &genv);
        crate::text::string_of(&fp)
    } else {
        let mut fp = crate::text::chars_of(current_path);
        crate::text::string_of(&fp)
    };
    let nothing = !should_rename && !content_changed && geom_same;
    // assemble the effect
    let effect: Effect = if !allow_rename {
        if nothing {
            Effect::Batch(Vec::new())
        } else {
            Effect::WriteNote { path: final_path.clone(), content: content.clone() }
        }
    } else {
        let mut effs: Vec<Effect> = Vec::new();
        if should_rename {
            effs.push(Effect::RenameNote {
                old_path: current_path.to_owned(),
                new_path: final_path.clone(),
            });
        }
        if !nothing {
            effs.push(Effect::WriteNote { path: final_path.clone(), content: content.clone() });
        }
        Effect::Batch(effs)
    };
    // the new snapshot
    let meta = NoteMeta {
        path: final_path.clone(),
        seq: seqn,
        context: new_ctx,
        updated: final_updated,
        x: cfields.0,
        y: cfields.1,
        width: cfields.2,
        height: cfields.3,
        background_color: cfields.4,
        always_on_top: cfields.5,
        tags: cfields.6,
    };
    proof {
        assert(plan.ok);
        assert(meta@ == plan.meta);
        assert(final_path@ == plan.final_path);
        assert(effect_matches(effect, current_path@, plan, allow_rename));
    }
    let ghost meta_w = meta;
    crate::mirror::apply_update_note(state, current_path, meta);
    proof {
        assert(mirror_updated(old(state).notes@, current_path@, meta_w, state.notes@));
    }
    Ok((final_path, effect))
}

// ---------------------------------------------------------------------------
// Single-field mutations
// ---------------------------------------------------------------------------

/// The record at `i` with its tag list replaced.
pub open spec fn with_tags(m: NoteMetaView, ts: Seq<Seq<char>>) -> NoteMetaView {
    NoteMetaView { tags: ts, ..m }
}

/// The mirror after a single-field in-place patch of the first record
/// at `path`: the record replaced by `f` of itself, order untouched;
/// without such a record, the mirror untouched.
pub open spec fn mirror_patched(
    pre: Seq<NoteMeta>,
    path: Seq<char>,
    nmv: NoteMetaView,
    post: Seq<NoteMeta>,
) -> bool {
    match spec_find_note(pre, path) {
        Some(i) => exists|nm: NoteMeta|
            #[trigger] nm@ == nmv && post == pre.update(i, nm),
        None => post == pre,
    }
}

/// A bracketed tag-list value, `[a, b]`.
pub open spec fn spec_tags_value(ts: Seq<Seq<char>>) -> Seq<char> {
    seq!['['] + crate::frontmatter::spec_join_sep(ts, ", "@) + seq![']']
}

pub open spec fn other_state_unchanged(pre: AppState, post: AppState) -> bool {
    &&& post.base_path == pre.base_path
    &&& post.folder_path == pre.folder_path
    &&& post.selected_path == pre.selected_path
    &&& post.active_context_menu_path == pre.active_context_menu_path
    &&& post.active_world == pre.active_world
    &&& post.active_tags == pre.active_tags
}

/// What adding a tag does: the tag set of the text, with the new tag
/// put in and the whole list sorted unless it was already there, is
/// written back as a bracketed list, and the mirrored record's tag
/// list is patched to match.
pub open spec fn add_tag_post(
    pre: AppState,
    path: Seq<char>,
    content: Seq<char>,
    tag: Seq<char>,
    post: AppState,
    r: Result<Effect, String>,
) -> bool {
    let tags0 = spec_extract_tags(content);
    &&& other_state_unchanged(pre, post)
    &&& match r {
        Ok(e) => match e {
            Effect::WriteNote { path: wp, content: wc } => {
                &&& wp@ == path
                &&& exists|ts: Seq<Seq<char>>|
                    {
                        &&& #[trigger] trigger_tags(ts)
                        &&& if crate::mirror::contains_string(tags0, tag) {
                            ts == tags0
                        } else {
                            crate::mirror::sorted_strings(ts) && ts.to_multiset() == tags0.push(
                                tag,
                            ).to_multiset()
                        }
                        &&& wc@ == crate::frontmatter::spec_update_field(
                            content,
                            "tags"@,
                            spec_tags_value(ts),
                        )
                        &&& tags_patched(pre.notes@, path, ts, post.notes@)
                    }
            },
            _ => false,
        },
        Err(_) => false,
    }
}

pub open spec fn trigger_tags(ts: Seq<Seq<char>>) -> bool {
    true
}

/// The mirror with the record at `path` carrying tag list `ts`.
pub open spec fn tags_patched(
    pre: Seq<NoteMeta>,
    path: Seq<char>,
    ts: Seq<Seq<char>>,
    post: Seq<NoteMeta>,
) -> bool {
    match spec_find_note(pre, path) {
        Some(i) => mirror_patched(pre, path, with_tags(pre[i]@, ts), post),
        None => post == pre,
    }
}

/// Adds a tag to a note: deduplicated, kept sorted; always a write.
pub fn handle_add_tag(
    state: &mut AppState,
    path: &str,
    current_content: &str,
    tag: &str,
) -> (r: Result<Effect, String>)
    ensures
        add_tag_post(*old(state), path@, current_content@, tag@, *final(state), r),
        r is Ok,
{
    let fields = crate::frontmatter::extract_meta_from_content(current_content);
    let mut tags = fields.6;
    if !crate::mirror::contains_string_exec(&tags, tag) {
        let ghost dv_before = tags.deep_view();
        tags.push(tag.to_owned());
        proof {
            crate::mirror::lemma_deep_view_is(&tags);
            assert(tags.deep_view() =~~= dv_before.push(tag@));
        }
        let ghost pushed_dv = tags.deep_view();
        crate::mirror::sort_strings(&mut tags);
        proof {
            assert(tags.deep_view().to_multiset()
                == spec_extract_tags(current_content@).push(tag@).to_multiset()) by {
                assert(pushed_dv == dv_before.push(tag@));
                assert(dv_before == spec_extract_tags(current_content@));
            }
        }
    }
    let joined = crate::frontmatter::join_strings(&tags, ", ");
    let mut valv: Vec<char> = Vec::new();
    valv.push('[');
    crate::text::push_all(&mut valv, &joined);
    valv.push(']');
    proof {
        assert(valv@ =~= spec_tags_value(tags.deep_view()));
    }
    let vals = crate::text::string_of(&valv);
    let new_content = crate::frontmatter::update_frontmatter_value(
        current_content,
        "tags",
        vals.as_str(),
    );
    let idx = crate::mirror::find_note_index(&state.notes, path);
    proof {
        crate::mirror::lemma_find_note_props(state.notes@, path@);
    }
    match idx {
        Some(i) => {
            let ghost pre_notes = state.notes@;
            let tags2 = crate::mirror::clone_strings(&tags);
            proof {
                crate::mirror::lemma_deep_view_is(&tags);
                crate::mirror::lemma_deep_view_is(&tags2);
                assert(tags2.deep_view() =~~= tags.deep_view());
            }
            state.notes[i].tags = tags2;
            proof {
                let nm = state.notes@[i as int];
                assert(state.notes@ =~= pre_notes.update(i as int, nm));
                assert(nm@ == with_tags(pre_notes[i as int]@, tags.deep_view()));
            }
        }
        None => {}
    }
    proof {
        let ghost ts = tags.deep_view();
        assert(trigger_tags(ts));
    }
    Ok(Effect::WriteNote { path: path.to_owned(), content: new_content })
}

/// The tag list without `tag`, by exact comparison.
pub open spec fn spec_without_tag(ts: Seq<Seq<char>>, tag: Seq<char>) -> Seq<Seq<char>> {
    ts.filter(|t: Seq<char>| t != tag)
}

/// What removing a tag does: entries equal to the tag are dropped
/// from the text's tag set, the rest written back in order, and the
/// mirrored record's tag list patched to match.
pub open spec fn remove_tag_post(
    pre: AppState,
    path: Seq<char>,
    content: Seq<char>,
    tag: Seq<char>,
    post: AppState,
    r: Result<Effect, String>,
) -> bool {
    let ts = spec_without_tag(spec_extract_tags(content), tag);
    &&& other_state_unchanged(pre, post)
    &&& match r {
        Ok(e) => match e {
            Effect::WriteNote { path: wp, content: wc } => {
                &&& wp@ == path
                &&& wc@ == crate::frontmatter::spec_update_field(
                    content,
                    "tags"@,
                    spec_tags_value(ts),
                )
                &&& tags_patched(pre.notes@, path, ts, post.notes@)
            },
            _ => false,
        },
        Err(_) => false,
    }
}

proof fn lemma_without_tag_step(s: Seq<Seq<char>>, x: Seq<char>, tag: Seq<char>)
    ensures
        spec_without_tag(s.push(x), tag) == spec_without_tag(s, tag) + if x != tag {
            seq![x]
        } else {
            Seq::<Seq<char>>::empty()
        },
{
    reveal(Seq::filter);
    assert(s.push(x).drop_last() =~= s);
    assert(s.push(x).last() == x);
    if x != tag {
        assert(spec_without_tag(s.push(x), tag) =~~= spec_without_tag(s, tag) + seq![x]);
    } else {
        assert(spec_without_tag(s.push(x), tag) =~~= spec_without_tag(s, tag)
            + Seq::<Seq<char>>::empty());
    }
}

/// Removes a tag from a note by exact match; always a write.
pub fn handle_remove_tag(
    state: &mut AppState,
    path: &str,
    current_content: &str,
    tag: &str,
) -> (r: Result<Effect, String>)
    ensures
        remove_tag_post(*old(state), path@, current_content@, tag@, *final(state), r),
        r is Ok,
{
    let fields = crate::frontmatter::extract_meta_from_content(current_content);
    let tags0 = fields.6;
    let ghost dv0 = tags0.deep_view();
    let mut tags: Vec<String> = Vec::new();
    proof {
        crate::mirror::lemma_deep_view_is(&tags0);
        reveal(Seq::filter);
        assert(dv0.take(0) =~= Seq::<Seq<char>>::empty());
        assert(tags.deep_view() =~~= spec_without_tag(dv0.take(0), tag@));
    }
    let mut i: usize = 0;
    while i < tags0.len()
        invariant
            dv0 == tags0.deep_view(),
            dv0.len() == tags0@.len(),
            forall|k: int| 0 <= k < tags0@.len() ==> dv0[k] == tags0@[k]@,
            i <= tags0@.len(),
            tags.deep_view() == spec_without_tag(dv0.take(i as int), tag@),
        decreases tags0@.len() - i,
    {
        let ghost before = tags.deep_view();
        let keep = !crate::mirror::str_eq_exec(tags0[i].as_str(), tag);
        if keep {
            tags.push(tags0[i].clone());
        }
        proof {
            crate::mirror::lemma_deep_view_is(&tags);
            assert(dv0.take(i + 1) =~= dv0.take(i as int).push(dv0[i as int]));
            lemma_without_tag_step(dv0.take(i as int), dv0[i as int], tag@);
            if dv0[i as int] != tag@ {
                assert(tags.deep_view() =~~= before + seq![dv0[i as int]]);
            } else {
                assert(tags.deep_view() =~~= before + Seq::<Seq<char>>::empty());
            }
            assert(tags.deep_view() =~~= spec_without_tag(dv0.take(i + 1), tag@));
        }
        i = i + 1;
    }
    proof {
        assert(dv0.take(tags0@.len() as int) =~= dv0);
    }
    let joined = crate::frontmatter::join_strings(&tags, ", ");
    let mut valv: Vec<char> = Vec::new();
    valv.push('[');
    crate::text::push_all(&mut valv, &joined);
    valv.push(']');
    proof {
        assert(valv@ =~= spec_tags_value(tags.deep_view()));
    }
    let vals = crate::text::string_of(&valv);
    let new_content = crate::frontmatter::update_frontmatter_value(
        current_content,
        "tags",
        vals.as_str(),
    );
    let idx = crate::mirror::find_note_index(&state.notes, path);
    proof {
        crate::mirror::lemma_find_note_props(state.notes@, path@);
    }
    match idx {
        Some(i) => {
            let ghost pre_notes = state.notes@;
            let tags2 = crate::mirror::clone_strings(&tags);
            proof {
                crate::mirror::lemma_deep_view_is(&tags);
                crate::mirror::lemma_deep_view_is(&tags2);
                assert(tags2.deep_view() =~~= tags.deep_view());
            }
            state.notes[i].tags = tags2;
            proof {
                let nm = state.notes@[i as int];
                assert(state.notes@ =~= pre_notes.update(i as int, nm));
                assert(nm@ == with_tags(pre_notes[i as int]@, tags.deep_view()));
            }
        }
        None => {}
    }
    Ok(Effect::WriteNote { path: path.to_owned(), content: new_content })
}

/// What a geometry update does: all four fields are rewritten in the
/// text (width and height under their long keys), a write is always
/// planned, and the mirrored record's four geometry fields are set.
pub open spec fn geometry_post(
    pre: AppState,
    path: Seq<char>,
    content: Seq<char>,
    x: int,
    y: int,
    w: int,
    h: int,
    post: AppState,
    r: Result<Effect, String>,
) -> bool {
    let c1 = crate::frontmatter::spec_update_field(content, "x"@, crate::text::spec_i64_str(x));
    let c2 = crate::frontmatter::spec_update_field(c1, "y"@, crate::text::spec_i64_str(y));
    let c3 = crate::frontmatter::spec_update_field(c2, "width"@, crate::text::spec_i64_str(w));
    let c4 = crate::frontmatter::spec_update_field(c3, "height"@, crate::text::spec_i64_str(h));
    &&& other_state_unchanged(pre, post)
    &&& match r {
        Ok(e) => match e {
            Effect::WriteNote { path: wp, content: wc } => {
                &&& wp@ == path
                &&& wc@ == c4
                &&& match spec_find_note(pre.notes@, path) {
                    Some(i) => mirror_patched(
                        pre.notes@,
                        path,
                        NoteMetaView {
                            x: Some(x),
                            y: Some(y),
                            width: Some(w),
                            height: Some(h),
                            ..pre.notes@[i]@
                        },
                        post.notes@,
                    ),
                    None => post.notes == pre.notes,
                }
            },
            _ => false,
        },
        Err(_) => false,
    }
}

/// Rewrites all four geometry fields and patches the mirror; always a
/// write.  Coordinates arrive already rounded to whole numbers.
pub fn handle_update_geometry(
    state: &mut AppState,
    path: &str,
    current_content: &str,
    x: i64,
    y: i64,
    w: i64,
    h: i64,
) -> (r: Result<Effect, String>)
    requires
        x > i64::MIN,
        y > i64::MIN,
        w > i64::MIN,
        h > i64::MIN,
    ensures
        geometry_post(
            *old(state),
            path@,
            current_content@,
            x as int,
            y as int,
            w as int,
            h as int,
            *final(state),
            r,
        ),
        r is Ok,
{
    let xs = crate::text::string_of(&crate::text::i64_string_chars(x));
    let ys = crate::text::string_of(&crate::text::i64_string_chars(y));
    let ws = crate::text::string_of(&crate::text::i64_string_chars(w));
    let hs = crate::text::string_of(&crate::text::i64_string_chars(h));
    let c1 = crate::frontmatter::update_frontmatter_value(current_content, "x", xs.as_str());
    let c2 = crate::frontmatter::update_frontmatter_value(c1.as_str(), "y", ys.as_str());
    let c3 = crate::frontmatter::update_frontmatter_value(c2.as_str(), "width", ws.as_str());
    let c4 = crate::frontmatter::update_frontmatter_value(c3.as_str(), "height", hs.as_str());
    let idx = crate::mirror::find_note_index(&state.notes, path);
    proof {
        crate::mirror::lemma_find_note_props(state.notes@, path@);
    }
    match idx {
        Some(i) => {
            let ghost pre_notes = state.notes@;
            state.notes[i].x = Some(x);
            state.notes[i].y = Some(y);
            state.notes[i].width = Some(w);
            state.notes[i].height = Some(h);
            proof {
                let nm = state.notes@[i as int];
                assert(state.notes@ =~= pre_notes.update(i as int, nm));
                assert(nm@ == NoteMetaView {
                    x: Some(x as int),
                    y: Some(y as int),
                    width: Some(w as int),
                    height: Some(h as int),
                    ..pre_notes[i as int]@
                });
            }
        }
        None => {}
    }
    Ok(Effect::WriteNote { path: path.to_owned(), content: c4 })
}

/// What toggling always-on-top does: the flag is rewritten in the
/// text and the mirrored record patched.
pub open spec fn aot_post(
    pre: AppState,
    path: Seq<char>,
    content: Seq<char>,
    enabled: bool,
    post: AppState,
    r: Result<Effect, String>,
) -> bool {
    let value: Seq<char> = if enabled {
        "true"@
    } else {
        "false"@
    };
    &&& other_state_unchanged(pre, post)
    &&& match r {
        Ok(e) => match e {
            Effect::WriteNote { path: wp, content: wc } => {
                &&& wp@ == path
                &&& wc@ == crate::frontmatter::spec_update_field(content, "alwaysOnTop"@, value)
                &&& match spec_find_note(pre.notes@, path) {
                    Some(i) => mirror_patched(
                        pre.notes@,
                        path,
                        NoteMetaView { always_on_top: Some(enabled), ..pre.notes@[i]@ },
                        post.notes@,
                    ),
                    None => post.notes == pre.notes,
                }
            },
            _ => false,
        },
        Err(_) => false,
    }
}

/// Rewrites the always-on-top flag and patches the mirror; always a
/// write.
pub fn handle_toggle_always_on_top(
    state: &mut AppState,
    path: &str,
    current_content: &str,
    enabled: bool,
) -> (r: Result<Effect, String>)
    ensures
        aot_post(*old(state), path@, current_content@, enabled, *final(state), r),
        r is Ok,
{
    let new_content = if enabled {
        crate::frontmatter::update_frontmatter_value(current_content, "alwaysOnTop", "true")
    } else {
        crate::frontmatter::update_frontmatter_value(current_content, "alwaysOnTop", "false")
    };
    let idx = crate::mirror::find_note_index(&state.notes, path);
    proof {
        crate::mirror::lemma_find_note_props(state.notes@, path@);
    }
    match idx {
        Some(i) => {
            let ghost pre_notes = state.notes@;
            state.notes[i].always_on_top = Some(enabled);
            proof {
                let nm = state.notes@[i as int];
                assert(state.notes@ =~= pre_notes.update(i as int, nm));
                assert(nm@ == NoteMetaView { always_on_top: Some(enabled), ..pre_notes[i as int]@ });
            }
        }
        None => {}
    }
    Ok(Effect::WriteNote { path: path.to_owned(), content: new_content })
}

/// Some mirrored note carries tag `t`.
pub open spec fn has_tag(notes: Seq<NoteMeta>, t: Seq<char>) -> bool {
    exists|i: int, j: int|
        0 <= i < notes.len() && 0 <= j < notes[i]@.tags.len() && #[trigger] notes[i]@.tags[j] == t
}

/// Every tag of every mirrored note, each once, in sorted order.
pub fn get_all_unique_tags(state: &AppState) -> (r: Vec<String>)
    ensures
        crate::mirror::sorted_strings(r.deep_view()),
        r.deep_view().no_duplicates(),
        forall|t: Seq<char>|
            #[trigger] crate::mirror::contains_string(r.deep_view(), t) == has_tag(
                state.notes@,
                t,
            ),
{
    broadcast use vstd::seq_lib::group_to_multiset_ensures;

    let mut acc: Vec<String> = Vec::new();
    let n: usize = state.notes.len();
    let mut i: usize = 0;
    proof {
        crate::mirror::lemma_deep_view_is(&acc);
    }
    while i < n
        invariant
            n == state.notes@.len(),
            i <= n,
            acc.deep_view().no_duplicates(),
            forall|k: int|
                0 <= k < acc.deep_view().len() ==> has_tag(state.notes@, #[trigger] acc.deep_view()[k]),
            forall|i2: int, j2: int|
                0 <= i2 < i && 0 <= j2 < state.notes@[i2]@.tags.len()
                    ==> crate::mirror::contains_string(
                    acc.deep_view(),
                    #[trigger] state.notes@[i2]@.tags[j2],
                ),
        decreases n - i,
    {
        let tlen: usize = state.notes[i].tags.len();
        let mut j: usize = 0;
        while j < tlen
            invariant
                n == state.notes@.len(),
                i < n,
                tlen == state.notes@[i as int]@.tags.len(),
                j <= tlen,
                acc.deep_view().no_duplicates(),
                forall|k: int|
                    0 <= k < acc.deep_view().len() ==> has_tag(
                        state.notes@,
                        #[trigger] acc.deep_view()[k],
                    ),
                forall|i2: int, j2: int|
                    0 <= i2 < i && 0 <= j2 < state.notes@[i2]@.tags.len()
                        ==> crate::mirror::contains_string(
                        acc.deep_view(),
                        #[trigger] state.notes@[i2]@.tags[j2],
                    ),
                forall|j2: int|
                    0 <= j2 < j ==> crate::mirror::contains_string(
                        acc.deep_view(),
                        #[trigger] state.notes@[i as int]@.tags[j2],
                    ),
            decreases tlen - j,
        {
            let tag = &state.notes[i].tags[j];
            let ghost tv = state.notes@[i as int]@.tags[j as int];
            proof {
                crate::mirror::lemma_deep_view_is(&state.notes@[i as int].tags);
                assert(tag@ == tv);
            }
            if !crate::mirror::contains_string_exec(&acc, tag.as_str()) {
                let ghost before = acc.deep_view();
                acc.push(tag.clone());
                proof {
                    crate::mirror::lemma_deep_view_is(&acc);
                    assert(acc.deep_view() =~~= before.push(tv));
                    crate::mirror::lemma_contains_string_push(before, tv);
                    assert(has_tag(state.notes@, tv));
                    assert forall|k: int|
                        0 <= k < acc.deep_view().len() implies has_tag(
                        state.notes@,
                        #[trigger] acc.deep_view()[k],
                    ) by {
                        if k < before.len() {
                            assert(acc.deep_view()[k] == before[k]);
                        } else {
                            assert(acc.deep_view()[k] == tv);
                        }
                    }
                    assert(acc.deep_view().no_duplicates()) by {
                        assert(forall|k: int|
                            0 <= k < before.len() ==> acc.deep_view()[k] == before[k]);
                        assert(!crate::mirror::contains_string(before, tv));
                    }
                }
            }
            proof {
                assert(crate::mirror::contains_string(acc.deep_view(), tv));
            }
            j = j + 1;
        }
        i = i + 1;
    }
    let ghost pre_sort = acc.deep_view();
    crate::mirror::sort_strings(&mut acc);
    proof {
        let post = acc.deep_view();
        assert(post.to_multiset() == pre_sort.to_multiset());
        assert forall|t: Seq<char>|
            #[trigger] crate::mirror::contains_string(post, t) == has_tag(state.notes@, t) by {
            assert(crate::mirror::contains_string(post, t) == post.contains(t));
            assert(crate::mirror::contains_string(pre_sort, t) == pre_sort.contains(t));
            assert(post.contains(t) == (post.to_multiset().count(t) > 0));
            assert(pre_sort.contains(t) == (pre_sort.to_multiset().count(t) > 0));
            if crate::mirror::contains_string(pre_sort, t) {
            } else {
                if has_tag(state.notes@, t) {
                    let (i2, j2) = choose|i2: int, j2: int|
                        0 <= i2 < state.notes@.len() && 0 <= j2 < state.notes@[i2]@.tags.len()
                            && #[trigger] state.notes@[i2]@.tags[j2] == t;
                    assert(crate::mirror::contains_string(pre_sort, state.notes@[i2]@.tags[j2]));
                }
            }
        }
        pre_sort.lemma_multiset_has_no_duplicates();
        assert forall|x: Seq<char>| post.to_multiset().contains(x) implies post.to_multiset().count(x) == 1 by {
            assert(pre_sort.to_multiset().count(x) == post.to_multiset().count(x));
            assert(pre_sort.contains(x));
        }
        post.lemma_multiset_has_no_duplicates_conv();
    }
    acc
}

// ---------------------------------------------------------------------------
// Note creation
// ---------------------------------------------------------------------------

/// Everything a fresh note is made of.
pub struct CreateNoteData {
    pub filename: String,
    pub content: String,
    pub frontmatter: String,
    pub body: String,
    pub path_str: String,
    pub meta: NoteMeta,
}

/// A directory path joined with a file name.
pub open spec fn spec_join_path(dir: Seq<char>, name: Seq<char>) -> Seq<char> {
    if dir.len() == 0 {
        name
    } else if crate::codec::is_sep_char(dir[dir.len() - 1]) {
        dir + name
    } else {
        dir + seq!['/'] + name
    }
}

/// The fixed starter body of a fresh note.
pub open spec fn spec_default_body() -> Seq<char> {
    "ここにコンテキストを書く！"@
}

/// Builds everything a fresh note needs: its file name from the next
/// sequence number and today's date, a full default header with the
/// default color and no tags, the starter body, and the metadata
/// record for the mirror.
pub fn build_create_note_data(folder_path: &str, context: &str, next_seq: i32, today: &str) -> (r:
    CreateNoteData)
    requires
        next_seq >= 0,
    ensures
        r.filename@ == spec_generate_filename(next_seq as int, today@, context@),
        r.path_str@ == spec_join_path(folder_path@, r.filename@),
        r.frontmatter@ == crate::frontmatter::spec_generate_frontmatter(
            next_seq as int,
            context@,
            today@,
            today@,
            Some("#f7e9b0"@),
            Seq::<Seq<char>>::empty(),
        ),
        r.body@ == spec_default_body(),
        r.content@ == r.frontmatter@ + seq!['\n', '\n'] + r.body@,
        r.meta@.path == r.path_str@,
        r.meta@.seq == next_seq as int,
        r.meta@.context == context@,
        r.meta@.updated == today@,
        r.meta@.x is None,
        r.meta@.y is None,
        r.meta@.width is None,
        r.meta@.height is None,
        r.meta@.background_color is None,
        r.meta@.always_on_top is None,
        r.meta@.tags == Seq::<Seq<char>>::empty(),
{
    let filename = crate::codec::generate_filename(next_seq, today, context);
    let mut pv = crate::text::chars_of(folder_path);
    let last_is_sep = if pv.len() > 0 {
        let c = pv[pv.len() - 1];
        c == '/' || c == '\\'
    } else {
        false
    };
    if pv.len() > 0 && !last_is_sep {
        pv.push('/');
    }
    let fnv = crate::text::chars_of(filename.as_str());
    crate::text::push_all(&mut pv, &fnv);
    proof {
        assert(pv@ =~= spec_join_path(folder_path@, filename@));
    }
    let path_str = crate::text::string_of(&pv);
    let no_tags: Vec<String> = Vec::new();
    proof {
        crate::mirror::lemma_deep_view_is(&no_tags);
        assert(no_tags.deep_view() =~~= Seq::<Seq<char>>::empty());
    }
    let frontmatter = crate::frontmatter::generate_frontmatter(
        next_seq,
        context,
        today,
        today,
        Some("#f7e9b0"),
        &no_tags,
    );
    let mut bodyv: Vec<char> = Vec::new();
    let lit = crate::text::chars_of("ここにコンテキストを書く！");
    crate::text::push_all(&mut bodyv, &lit);
    let body = crate::text::string_of(&bodyv);
    proof {
        assert(body@ =~= spec_default_body());
    }
    let mut cv = crate::text::chars_of(frontmatter.as_str());
    cv.push('\n');
    cv.push('\n');
    crate::text::push_all(&mut cv, &bodyv);
    let content = crate::text::string_of(&cv);
    proof {
        assert(content@ =~= frontmatter@ + seq!['\n', '\n'] + body@);
    }
    let empty_tags: Vec<String> = Vec::new();
    proof {
        crate::mirror::lemma_deep_view_is(&empty_tags);
        assert(empty_tags.deep_view() =~~= Seq::<Seq<char>>::empty());
    }
    let meta = NoteMeta {
        path: path_str.clone(),
        seq: next_seq,
        context: context.to_owned(),
        updated: today.to_owned(),
        x: None,
        y: None,
        width: None,
        height: None,
        background_color: None,
        always_on_top: None,
        tags: empty_tags,
    };
    CreateNoteData { filename, content, frontmatter, body, path_str, meta }
}

/// The next sequence number: one past the largest sequence among the
/// given directory entries.
pub fn next_seq_from_names(names: &Vec<String>) -> (r: i32)
    ensures
        ({
            let m = max_seq_of(names.deep_view(), names.deep_view().len() as int);
            r as int == if m < i32::MAX { m + 1 } else { m }
        }),
{
    proof {
        crate::mirror::lemma_deep_view_is(names);
    }
    let mut max_seq: i32 = 0;
    let mut i: usize = 0;
    while i < names.len()
        invariant
            names.deep_view().len() == names@.len(),
            forall|k: int| 0 <= k < names@.len() ==> names.deep_view()[k] == names@[k]@,
            i <= names@.len(),
            max_seq as int == max_seq_of(names.deep_view(), i as int),
            0 <= max_seq <= i32::MAX,
        decreases names@.len() - i,
    {
        let parsed = crate::codec::parse_filename(names[i].as_str());
        proof {
            crate::codec::lemma_parse_filename_shape(names@[i as int]@);
        }
        if parsed.0 > max_seq {
            max_seq = parsed.0;
        }
        i = i + 1;
    }
    if max_seq == i32::MAX {
        max_seq
    } else {
        max_seq + 1
    }
}

/// The largest sequence number among the first `n` names, or 0.
pub open spec fn max_seq_of(names: Seq<Seq<char>>, n: int) -> int
    decreases n,
{
    if n <= 0 {
        0
    } else {
        let prev = max_seq_of(names, n - 1);
        let cur = spec_parse_filename(names[n - 1]).0;
        if cur > prev {
            cur
        } else {
            prev
        }
    }
}

/// Plans a save against today's date: decodes the filename, decides
/// rename and write, and replaces the mirrored record.  The date is
/// the one thing taken from the outside world; everything else is
/// fixed by `spec_plan_save`.
pub fn handle_save_note(
    state: &mut AppState,
    current_path: &str,
    body: &str,
    old_body: &str,
    frontmatter_raw: &str,
    allow_rename: bool,
) -> (r: Result<(String, Effect), String>)
    ensures
        exists|d: Seq<char>|
            #[trigger] save_post(
                *old(state),
                current_path@,
                body@,
                old_body@,
                frontmatter_raw@,
                allow_rename,
                d,
                *final(state),
                r,
            ),
{
    let today = crate::clock::today_string();
    let r = handle_save_note_dated(
        state,
        current_path,
        body,
        old_body,
        frontmatter_raw,
        allow_rename,
        today.as_str(),
    );
    proof {
        assert(save_post(
            *old(state),
            current_path@,
            body@,
            old_body@,
            frontmatter_raw@,
            allow_rename,
            today@,
            *state,
            r,
        ));
    }
    r
}

} // verus!
