//! Tests of the effect planner and the in-memory mirror.

use fusen_core::model::AppState;
use fusen_core::model::Effect;
use fusen_core::model::NoteMeta;
use fusen_core::planner::build_create_note_data;
use fusen_core::planner::get_all_unique_tags;
use fusen_core::planner::handle_add_tag;
use fusen_core::planner::handle_remove_tag;
use fusen_core::planner::handle_save_note_dated;
use fusen_core::planner::handle_toggle_always_on_top;
use fusen_core::planner::handle_update_geometry;
use fusen_core::planner::next_seq_from_names;
use fusen_core::mirror::apply_add_note;
use fusen_core::mirror::apply_remove_note;
use fusen_core::mirror::apply_select_note;
use fusen_core::mirror::apply_set_folder;
use fusen_core::mirror::apply_update_note;

#[test]
fn test_handle_add_tag() {
    let mut state = AppState::default();
    state.notes.push(NoteMeta { path: "/test.md".to_string(), ..Default::default() });
    let content = "---\ntags: [work]\n---";
    let res = handle_add_tag(&mut state, "/test.md", content, "personal");
    assert!(res.is_ok());
    if let Effect::WriteNote { content, .. } = res.unwrap() {
        assert!(content.contains("tags: [personal, work]"));
    }
    assert!(state.notes[0].tags.contains(&"personal".to_string()));
}

#[test]
fn test_get_all_unique_tags() {
    let mut state = AppState::default();
    state.notes.push(NoteMeta {
        tags: vec!["a".to_string(), "b".to_string()],
        ..Default::default()
    });
    state.notes.push(NoteMeta {
        tags: vec!["b".to_string(), "c".to_string()],
        ..Default::default()
    });
    let tags = get_all_unique_tags(&state);
    assert_eq!(tags, vec!["a", "b", "c"]);
}

#[test]
fn test_build_create_note_data() {
    let data = build_create_note_data("/test/folder", "テストメモ", 42, "2026-01-12");

    assert_eq!(data.filename, "0042_2026-01-12_テストメモ.md");

    assert!(data.path_str.contains("0042_2026-01-12_テストメモ.md"));

    assert_eq!(data.meta.seq, 42);
    assert_eq!(data.meta.context, "テストメモ");
    assert_eq!(data.meta.updated, "2026-01-12");

    assert!(data.content.contains("---"));
    assert!(data.content.contains("seq: 42"));
    assert!(data.content.contains("ここにコンテキストを書く！"));
}

#[test]
fn test_apply_set_folder() {
    let mut state = AppState::default();
    let notes = vec![
        NoteMeta { seq: 1, context: "Note1".to_string(), ..Default::default() },
        NoteMeta { seq: 2, context: "Note2".to_string(), ..Default::default() },
    ];

    apply_set_folder(&mut state, "/test/folder".to_string(), notes);

    assert_eq!(state.folder_path, Some("/test/folder".to_string()));
    assert_eq!(state.notes.len(), 2);
}

#[test]
fn test_apply_add_note() {
    let mut state = AppState::default();
    let note = NoteMeta {
        path: "/test/note.md".to_string(),
        seq: 1,
        context: "Test".to_string(),
        ..Default::default()
    };

    apply_add_note(&mut state, note);

    assert_eq!(state.notes.len(), 1);
    assert_eq!(state.notes[0].seq, 1);
}

#[test]
fn test_apply_add_note_sorts_by_path() {
    let mut state = AppState::default();

    apply_add_note(&mut state, NoteMeta { path: "/z.md".to_string(), ..Default::default() });
    apply_add_note(&mut state, NoteMeta { path: "/a.md".to_string(), ..Default::default() });

    assert_eq!(state.notes[0].path, "/a.md");
    assert_eq!(state.notes[1].path, "/z.md");
}

#[test]
fn test_apply_update_note() {
    let mut state = AppState::default();

    apply_add_note(&mut state, NoteMeta {
        path: "/test.md".to_string(),
        context: "Old".to_string(),
        ..Default::default()
    });

    apply_update_note(&mut state, "/test.md", NoteMeta {
        path: "/test_new.md".to_string(),
        context: "New".to_string(),
        ..Default::default()
    });

    assert_eq!(state.notes.len(), 1);
    assert_eq!(state.notes[0].context, "New");
    assert_eq!(state.notes[0].path, "/test_new.md");
}

#[test]
fn test_apply_remove_note() {
    let mut state = AppState::default();

    apply_add_note(&mut state, NoteMeta { path: "/test1.md".to_string(), ..Default::default() });
    apply_add_note(&mut state, NoteMeta { path: "/test2.md".to_string(), ..Default::default() });

    assert_eq!(state.notes.len(), 2);

    apply_remove_note(&mut state, "/test1.md");

    assert_eq!(state.notes.len(), 1);
    assert_eq!(state.notes[0].path, "/test2.md");
}

#[test]
fn test_apply_select_note() {
    let mut state = AppState::default();
    apply_select_note(&mut state, "/picked.md".to_string());
    assert_eq!(state.selected_path, Some("/picked.md".to_string()));
}

#[test]
fn test_handle_update_geometry() {
    let mut state = AppState::default();

    apply_add_note(&mut state, NoteMeta {
        path: "/test.md".to_string(),
        x: Some(100),
        y: Some(200),
        ..Default::default()
    });

    let content = "---\nseq: 1\nx: 100\ny: 200\n---\n\n本文";

    let result = handle_update_geometry(&mut state, "/test.md", content, 150, 250, 400, 300);

    assert!(result.is_ok());

    match result.unwrap() {
        Effect::WriteNote { path, content } => {
            assert_eq!(path, "/test.md");
            assert!(content.contains("x: 150"));
            assert!(content.contains("y: 250"));
            assert!(content.contains("width: 400"));
            assert!(content.contains("height: 300"));
        }
        _ => panic!("Expected WriteNote effect"),
    }

    assert_eq!(state.notes[0].x, Some(150));
    assert_eq!(state.notes[0].y, Some(250));
    assert_eq!(state.notes[0].width, Some(400));
    assert_eq!(state.notes[0].height, Some(300));
}

#[test]
fn test_handle_toggle_always_on_top_enable() {
    let mut state = AppState::default();

    apply_add_note(&mut state, NoteMeta {
        path: "/test.md".to_string(),
        always_on_top: Some(false),
        ..Default::default()
    });

    let content = "---\nseq: 1\nalwaysOnTop: false\n---\n\n本文";

    let result = handle_toggle_always_on_top(&mut state, "/test.md", content, true);

    assert!(result.is_ok());

    match result.unwrap() {
        Effect::WriteNote { content, .. } => {
            assert!(content.contains("alwaysOnTop: true"));
        }
        _ => panic!("Expected WriteNote effect"),
    }

    assert_eq!(state.notes[0].always_on_top, Some(true));
}

#[test]
fn test_handle_toggle_always_on_top_disable() {
    let mut state = AppState::default();

    apply_add_note(&mut state, NoteMeta {
        path: "/test.md".to_string(),
        always_on_top: Some(true),
        ..Default::default()
    });

    let content = "---\nalwaysOnTop: true\n---\n";

    let result = handle_toggle_always_on_top(&mut state, "/test.md", content, false);

    assert!(result.is_ok());
    assert_eq!(state.notes[0].always_on_top, Some(false));
}

#[test]
fn logic_test_handle_remove_tag_logic() {
    let mut state = AppState::default();
    let path1 = "/note1.md".to_string();
    let path2 = "/note2.md".to_string();

    let content1 = "---\ntags: [delete_me, keep_me]\n---\nBody1";
    let content2 = "---\ntags: [delete_me]\n---\nBody2";

    state.notes.push(NoteMeta {
        path: path1.clone(),
        tags: vec!["delete_me".to_string(), "keep_me".to_string()],
        ..Default::default()
    });
    state.notes.push(NoteMeta {
        path: path2.clone(),
        tags: vec!["delete_me".to_string()],
        ..Default::default()
    });

    let tag_to_remove = "delete_me";

    let res1 = handle_remove_tag(&mut state, &path1, content1, tag_to_remove).unwrap();
    if let Effect::WriteNote { content, .. } = res1 {
        assert!(!content.contains("delete_me"));
        assert!(content.contains("keep_me"));
    }

    let res2 = handle_remove_tag(&mut state, &path2, content2, tag_to_remove).unwrap();
    if let Effect::WriteNote { content, .. } = res2 {
        assert!(!content.contains("delete_me"));
    }

    let updated_note1 = state.notes.iter().find(|n| n.path == path1).unwrap();
    assert_eq!(updated_note1.tags, vec!["keep_me"]);

    let updated_note2 = state.notes.iter().find(|n| n.path == path2).unwrap();
    assert!(updated_note2.tags.is_empty());

    let all_tags = get_all_unique_tags(&state);
    assert!(!all_tags.contains(&"delete_me".to_string()));
    assert!(all_tags.contains(&"keep_me".to_string()));
}

#[test]
fn logic_test_temp_test_handle_remove_tag_logic() {
    let mut state = AppState::default();
    let path1 = "/note1.md".to_string();
    let path2 = "/note2.md".to_string();

    let content1 = "---\ntags: [delete_me, keep_me]\n---\nBody1";
    let content2 = "---\ntags: [delete_me]\n---\nBody2";

    state.notes.push(NoteMeta {
        path: path1.clone(),
        tags: vec!["delete_me".to_string(), "keep_me".to_string()],
        ..Default::default()
    });
    state.notes.push(NoteMeta {
        path: path2.clone(),
        tags: vec!["delete_me".to_string()],
        ..Default::default()
    });

    let tag_to_remove = "delete_me";

    let res1 = handle_remove_tag(&mut state, &path1, content1, tag_to_remove).unwrap();
    if let Effect::WriteNote { content, .. } = res1 {
        assert!(!content.contains("delete_me"));
        assert!(content.contains("keep_me"));
    }

    let res2 = handle_remove_tag(&mut state, &path2, content2, tag_to_remove).unwrap();
    if let Effect::WriteNote { content, .. } = res2 {
        assert!(!content.contains("delete_me"));
    }

    let updated_note1 = state.notes.iter().find(|n| n.path == path1).unwrap();
    assert_eq!(updated_note1.tags, vec!["keep_me"]);

    let updated_note2 = state.notes.iter().find(|n| n.path == path2).unwrap();
    assert!(updated_note2.tags.is_empty());

    let all_tags = get_all_unique_tags(&state);
    assert!(!all_tags.contains(&"delete_me".to_string()));
    assert!(all_tags.contains(&"keep_me".to_string()));
}

#[test]
fn tag_add_remove_round_trip() {
    // adding a fresh tag and then removing it restores the tag set
    let mut state = AppState::default();
    state.notes.push(NoteMeta {
        path: "/n.md".to_string(),
        tags: vec!["work".to_string(), "alpha".to_string()],
        ..Default::default()
    });
    let content = "---\ntags: [work, alpha]\n---\n\nbody";
    let added = handle_add_tag(&mut state, "/n.md", content, "zeta").unwrap();
    let content_after_add = match added {
        Effect::WriteNote { content, .. } => content,
        _ => panic!("expected a write"),
    };
    let removed = handle_remove_tag(&mut state, "/n.md", &content_after_add, "zeta").unwrap();
    let content_after_remove = match removed {
        Effect::WriteNote { content, .. } => content,
        _ => panic!("expected a write"),
    };
    let (_, _, _, _, _, _, tags) =
        fusen_core::frontmatter::extract_meta_from_content(&content_after_remove);
    let mut sorted = tags.clone();
    sorted.sort();
    assert_eq!(sorted, vec!["alpha", "work"]);
    let mirror_tags = state.notes[0].tags.clone();
    let mut mirror_sorted = mirror_tags.clone();
    mirror_sorted.sort();
    assert_eq!(mirror_sorted, vec!["alpha", "work"]);
}

#[test]
fn save_renames_on_new_first_line() {
    // a new first body line retitles the file, keeping sequence and
    // creation date; the write lands at the new path only
    let mut state = AppState::default();
    state.notes.push(NoteMeta {
        path: "0001_2026-01-01_Hello.md".to_string(),
        seq: 1,
        context: "Hello".to_string(),
        updated: "2026-01-01".to_string(),
        ..Default::default()
    });
    let r = handle_save_note_dated(
        &mut state,
        "0001_2026-01-01_Hello.md",
        "World\nmore text",
        "Hello\nolder text",
        "---\nseq: 1\nupdated: 2026-01-01\n---",
        true,
        "2026-02-02",
    );
    let (final_path, effect) = r.unwrap();
    assert_eq!(final_path, "0001_2026-01-01_World.md");
    match effect {
        Effect::Batch(effs) => {
            assert_eq!(effs.len(), 2);
            match &effs[0] {
                Effect::RenameNote { old_path, new_path } => {
                    assert_eq!(old_path, "0001_2026-01-01_Hello.md");
                    assert_eq!(new_path, "0001_2026-01-01_World.md");
                }
                _ => panic!("expected the rename first"),
            }
            match &effs[1] {
                Effect::WriteNote { path, .. } => {
                    assert_eq!(path, "0001_2026-01-01_World.md");
                }
                _ => panic!("expected the write second"),
            }
        }
        _ => panic!("expected a batch"),
    }
    assert_eq!(state.notes[0].path, "0001_2026-01-01_World.md");
}

#[test]
fn save_twice_second_is_no_op() {
    // an unchanged save plans no effect the second time
    let mut state = AppState::default();
    state.notes.push(NoteMeta {
        path: "0001_2026-01-01_Hello.md".to_string(),
        seq: 1,
        context: "Hello".to_string(),
        updated: "2026-01-01".to_string(),
        ..Default::default()
    });
    let fm = "---\nseq: 1\nupdated: 2026-01-01\n---";
    let body = "Hello\nsome text";
    let r1 = handle_save_note_dated(
        &mut state,
        "0001_2026-01-01_Hello.md",
        body,
        body,
        fm,
        true,
        "2026-02-02",
    );
    let (p1, _) = r1.unwrap();
    assert_eq!(p1, "0001_2026-01-01_Hello.md");
    let r2 = handle_save_note_dated(&mut state, &p1, body, body, fm, true, "2026-02-03");
    let (p2, effect2) = r2.unwrap();
    assert_eq!(p2, p1);
    match effect2 {
        Effect::Batch(effs) => assert!(effs.is_empty()),
        _ => panic!("expected an empty batch"),
    }
}

#[test]
fn save_rejects_bad_paths() {
    let mut state = AppState::default();
    let r = handle_save_note_dated(&mut state, "", "b", "b", "---\n---", true, "2026-01-01");
    match r {
        Err(e) => assert_eq!(e, "No parent"),
        Ok(_) => panic!("expected a path error"),
    }
    let r2 = handle_save_note_dated(&mut state, "a/..", "b", "b", "---\n---", true, "2026-01-01");
    match r2 {
        Err(e) => assert_eq!(e, "Invalid path"),
        Ok(_) => panic!("expected a path error"),
    }
    let r3 = handle_save_note_dated(&mut state, ".", "b", "b", "---\n---", true, "2026-01-01");
    match r3 {
        Err(e) => assert_eq!(e, "Invalid path"),
        Ok(_) => panic!("expected a path error"),
    }
}

#[test]
fn save_accepts_trailing_dot_segment() {
    // `<file>/.` names the file itself, as the standard path reader
    // has it, so the save proceeds
    let mut state = AppState::default();
    state.notes.push(NoteMeta {
        path: "0001_2026-01-01_Hello.md/.".to_string(),
        seq: 1,
        context: "Hello".to_string(),
        updated: "2026-01-01".to_string(),
        ..Default::default()
    });
    let r = handle_save_note_dated(
        &mut state,
        "0001_2026-01-01_Hello.md/.",
        "Hello\ntext",
        "Hello\ntext",
        "---\nseq: 1\nupdated: 2026-01-01\n---",
        true,
        "2026-02-02",
    );
    assert!(r.is_ok());
}

#[test]
fn next_seq_is_one_past_the_largest() {
    let names = vec![
        "0001_2026-01-12_Test.md".to_string(),
        "0005_2026-01-12_Test.md".to_string(),
        "ignore.txt".to_string(),
    ];
    assert_eq!(next_seq_from_names(&names), 6);
    let empty: Vec<String> = vec![];
    assert_eq!(next_seq_from_names(&empty), 1);
}
