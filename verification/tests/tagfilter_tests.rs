//! Tests of the tag-based visibility filter and the import helpers.

use fusen_core::importer::build_import_note;
use fusen_core::importer::is_image_extension;
use fusen_core::importer::is_target_extension;
use fusen_core::model::NoteMeta;
use fusen_core::tagfilter::get_filtered_note_paths;

#[test]
fn filter_with_no_active_tags_shows_all() {
    // a vault of three notes, two tagged and one untagged
    let notes = vec![
        NoteMeta { path: "/a.md".to_string(), tags: vec!["work".to_string()], ..Default::default() },
        NoteMeta { path: "/b.md".to_string(), tags: vec!["work".to_string()], ..Default::default() },
        NoteMeta { path: "/c.md".to_string(), ..Default::default() },
    ];
    let active: Vec<String> = vec![];
    let visible = get_filtered_note_paths(&notes, &active);
    assert_eq!(visible, vec!["/a.md", "/b.md", "/c.md"]);
}

#[test]
fn filter_with_one_tag_shows_tagged_notes() {
    let notes = vec![
        NoteMeta { path: "/a.md".to_string(), tags: vec!["work".to_string()], ..Default::default() },
        NoteMeta { path: "/b.md".to_string(), tags: vec!["work".to_string()], ..Default::default() },
        NoteMeta { path: "/c.md".to_string(), ..Default::default() },
    ];
    let active = vec!["work".to_string()];
    let visible = get_filtered_note_paths(&notes, &active);
    assert_eq!(visible, vec!["/a.md", "/b.md"]);
}

#[test]
fn filter_uses_or_semantics_and_trims() {
    let notes = vec![
        NoteMeta {
            path: "/a.md".to_string(),
            tags: vec!["home ".to_string()],
            ..Default::default()
        },
        NoteMeta {
            path: "/b.md".to_string(),
            tags: vec!["work".to_string()],
            ..Default::default()
        },
        NoteMeta {
            path: "/c.md".to_string(),
            tags: vec!["misc".to_string()],
            ..Default::default()
        },
    ];
    let active = vec![" home".to_string(), "work".to_string()];
    let visible = get_filtered_note_paths(&notes, &active);
    assert_eq!(visible, vec!["/a.md", "/b.md"]);
}

#[test]
fn target_and_image_extensions() {
    assert!(is_target_extension("md"));
    assert!(is_target_extension("png"));
    assert!(is_image_extension("svg"));
    assert!(!is_image_extension("md"));
    assert!(!is_target_extension("txt"));
}

#[test]
fn import_rebuilds_a_note() {
    let original = "---\nold: header\n---\n\nMy Imported Note\nbody line";
    let note = build_import_note(original, 7, "2026-05-06");
    assert_eq!(note.context, "My Imported Note");
    assert_eq!(note.filename, "0007_2026-05-06_My Imported Note.md");
    assert!(note.content.starts_with("---\ntype: sticky\nseq: 7\n"));
    assert!(note.content.contains("My Imported Note\nbody line"));
    assert!(!note.content.contains("old: header"));
}

#[test]
fn import_empty_body_titles_imported() {
    let note = build_import_note("", 1, "2026-05-06");
    assert_eq!(note.context, "imported");
}

#[test]
fn search_skips_header_and_counts_body_lines() {
    let content = "---\nseq: 1\ntags: [x]\n---\n\nHello World\nsecond line\nhello again";
    let hits = fusen_core::search::search_in_content("/n.md", content, "hello");
    assert_eq!(hits.len(), 2);
    assert_eq!(hits[0].line, 1);
    assert_eq!(hits[0].preview, "Hello World");
    assert_eq!(hits[1].line, 3);
    assert_eq!(hits[1].preview, "hello again");
}

#[test]
fn search_previews_cap_at_eighty() {
    let long = "x".repeat(100);
    let content = format!("needle {}", long);
    let hits = fusen_core::search::search_in_content("/n.md", &content, "needle");
    assert_eq!(hits.len(), 1);
    assert!(hits[0].preview.ends_with("..."));
    assert_eq!(hits[0].preview.chars().count(), 83);
}

#[test]
fn asset_references_are_found() {
    let content = "text ![shot](assets/a.png) more ![x](other/b.png) ![](assets/c.jpg)";
    let refs = fusen_core::archive::find_asset_references(content);
    assert_eq!(refs, vec!["assets/a.png", "assets/c.jpg"]);
}

#[test]
fn archive_plan_tagless_goes_to_archive_dir() {
    let tags: Vec<String> = vec![];
    let plan = fusen_core::archive::plan_archive("/vault", "/vault/0001_2026-01-01_A.md", &tags).unwrap();
    assert_eq!(plan.dest_dir, "/vault/Archive");
    assert_eq!(plan.new_path, "/vault/Archive/0001_2026-01-01_A.md");
    assert!(plan.link_paths.is_empty());
}

#[test]
fn archive_plan_fans_out_extra_tags() {
    let tags = vec!["work".to_string(), "home".to_string(), "misc".to_string()];
    let plan = fusen_core::archive::plan_archive("/vault", "/vault/0001_2026-01-01_A.md", &tags).unwrap();
    assert_eq!(plan.dest_dir, "/vault/tags/work");
    assert_eq!(plan.new_path, "/vault/tags/work/0001_2026-01-01_A.md");
    assert_eq!(
        plan.link_paths,
        vec![
            "/vault/tags/home/0001_2026-01-01_A.md".to_string(),
            "/vault/tags/misc/0001_2026-01-01_A.md".to_string()
        ]
    );
}

#[test]
fn collision_name_keeps_a_free_name() {
    let used = vec!["other.md".to_string()];
    let r = fusen_core::importer::resolve_collision_name("note.md", &used);
    assert_eq!(r, "note.md");
}

#[test]
fn collision_name_numbers_taken_names() {
    let used = vec!["note.md".to_string(), "note_1.md".to_string()];
    let r = fusen_core::importer::resolve_collision_name("note.md", &used);
    assert_eq!(r, "note_2.md");
}

#[test]
fn collision_name_compares_case_insensitively() {
    let used = vec!["photo.png".to_string()];
    let r = fusen_core::importer::resolve_collision_name("Photo.png", &used);
    assert_eq!(r, "Photo_1.png");
}

#[test]
fn collision_name_without_extension() {
    let used = vec!["readme".to_string()];
    let r = fusen_core::importer::resolve_collision_name("README", &used);
    assert_eq!(r, "README_1");
}

