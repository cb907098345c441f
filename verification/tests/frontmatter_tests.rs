//! Tests of the frontmatter field store: header generation, field
//! extraction, and targeted field updates.

use fusen_core::frontmatter::extract_meta_from_content;
use fusen_core::frontmatter::generate_frontmatter;
use fusen_core::frontmatter::split_frontmatter;
use fusen_core::frontmatter::update_frontmatter_value;
use fusen_core::frontmatter::update_updated_field;

#[test]
fn extract_meta_with_tags() {
    let content = "---\ntags: [work, personal,  hoge]\n---";
    let (_, _, _, _, _, _, tags) = extract_meta_from_content(content);
    assert_eq!(tags, vec!["work", "personal", "hoge"]);
}

#[test]
fn generate_frontmatter_with_tags() {
    let fm = generate_frontmatter(
        1,
        "ctx",
        "2024-01-01",
        "2024-01-01",
        None,
        &vec!["tag1".to_string(), "tag2".to_string()],
    );
    assert!(fm.contains("tags: [tag1, tag2]"));
}

#[test]
fn generate_frontmatter_with_default_color() {
    let frontmatter = generate_frontmatter(1, "テストメモ", "2026-01-12", "2026-01-12", None, &vec![]);

    assert!(frontmatter.contains("type: sticky"));
    assert!(frontmatter.contains("seq: 1"));
    assert!(frontmatter.contains("context: テストメモ"));
    assert!(frontmatter.contains("created: 2026-01-12"));
    assert!(frontmatter.contains("updated: 2026-01-12"));

    assert!(frontmatter.contains("backgroundColor: #f7e9b0"));

    assert!(frontmatter.contains("x: 100"));
    assert!(frontmatter.contains("y: 100"));
    assert!(frontmatter.contains("width: 400"));
    assert!(frontmatter.contains("height: 300"));
}

#[test]
fn generate_frontmatter_with_custom_color() {
    let frontmatter =
        generate_frontmatter(42, "青いメモ", "2026-01-12", "2026-01-12", Some("#80d8ff"), &vec![]);

    assert!(frontmatter.contains("backgroundColor: #80d8ff"));
    assert!(frontmatter.contains("seq: 42"));
}

#[test]
fn generate_frontmatter_format() {
    let frontmatter = generate_frontmatter(1, "test", "2026-01-12", "2026-01-12", None, &vec![]);

    assert!(frontmatter.starts_with("---\n"));
    assert!(frontmatter.contains("---\n") && frontmatter.matches("---").count() == 2);
}

#[test]
fn extract_meta_all_fields_present() {
    let content = "---\ntype: sticky\nseq: 1\nx: 150\ny: 200\nwidth: 500\nheight: 400\nbackgroundColor: #ffcdd2\nalwaysOnTop: true\n---\n\nメモの本文\n";

    let (x, y, width, height, color, aot, _tags) = extract_meta_from_content(content);

    assert_eq!(x, Some(150));
    assert_eq!(y, Some(200));
    assert_eq!(width, Some(500));

    assert_eq!(height, Some(400));

    assert_eq!(color, Some("#ffcdd2".to_string()));
    assert_eq!(aot, Some(true));
}

#[test]
fn extract_meta_partial_fields() {
    let content = "---\nx: 100\nbackgroundColor: #f7e9b0\n---";

    let (x, y, width, height, color, aot, _tags) = extract_meta_from_content(content);

    assert_eq!(x, Some(100));
    assert_eq!(y, None);
    assert_eq!(width, None);
    assert_eq!(height, None);
    assert_eq!(color, Some("#f7e9b0".to_string()));
    assert_eq!(aot, None);
}

#[test]
fn extract_meta_no_frontmatter() {
    let content = "ただのテキスト";

    let (x, y, width, height, color, aot, _tags) = extract_meta_from_content(content);

    assert_eq!(x, None);
    assert_eq!(y, None);
    assert_eq!(width, None);
    assert_eq!(height, None);
    assert_eq!(color, None);
    assert_eq!(aot, None);
}

#[test]
fn extract_meta_float_values() {
    // fractional coordinates are read as their whole part
    let content = "x: 123.45\ny: 678.9";

    let (x, y, _, _, _, _, _) = extract_meta_from_content(content);

    assert_eq!(x, Some(123));
    assert_eq!(y, Some(678));
}

#[test]
fn update_updated_field_replaces_date() {
    let frontmatter = "---\ncreated: 2026-01-10\nupdated: 2026-01-10\n---\n";
    let result = update_updated_field(frontmatter, "2026-01-12");

    assert!(result.contains("updated: 2026-01-12"));
    assert!(!result.contains("updated: 2026-01-10"));
}

#[test]
fn update_updated_field_preserves_other_fields() {
    let frontmatter = "---\nseq: 1\ncreated: 2026-01-10\nupdated: 2026-01-10\ncontext: test\n---\n";
    let result = update_updated_field(frontmatter, "2026-01-12");

    assert!(result.contains("seq: 1"));
    assert!(result.contains("created: 2026-01-10"));
    assert!(result.contains("context: test"));
    assert!(result.contains("updated: 2026-01-12"));
}

#[test]
fn update_frontmatter_value_updates_existing_field() {
    let content = "---\nx: 100\ny: 200\n---\n\n本文";
    let result = update_frontmatter_value(content, "x", "150");

    assert!(result.contains("x: 150"));
    assert!(!result.contains("x: 100"));
    assert!(result.contains("本文"));
}

#[test]
fn update_frontmatter_value_adds_new_field() {
    let content = "---\nx: 100\n---\n\n本文";
    let result = update_frontmatter_value(content, "y", "200");

    assert!(result.contains("x: 100"));
    assert!(result.contains("y: 200"));
    assert!(result.contains("本文"));
}

#[test]
fn update_frontmatter_value_creates_frontmatter_if_missing() {
    let content = "ただの本文";
    let result = update_frontmatter_value(content, "x", "100");

    assert!(result.contains("---"));
    assert!(result.contains("x: 100"));
    assert!(result.contains("ただの本文"));
}

#[test]
fn update_frontmatter_value_handles_multiline_body() {
    let content = "---\nseq: 1\n---\n\n行1\n行2\n行3";
    let result = update_frontmatter_value(content, "x", "100");

    assert!(result.contains("x: 100"));
    assert!(result.contains("行1\n行2\n行3"));
}

#[test]
fn update_frontmatter_value_with_special_chars_in_key() {
    let content = "---\ntest: 1\n---\n\n本文";
    let result = update_frontmatter_value(content, "backgroundColor", "#f7e9b0");

    assert!(result.contains("backgroundColor: #f7e9b0"));
}

#[test]
fn regression_no1_height_not_confused_with_width() {
    let content = "---\ntype: sticky\nseq: 28\ncontext:\ncreated: 2026-01-14\nupdated: 2026-01-14\nbackgroundColor: #ffcdd2\nx: 1425\ny: 551\nwidth: 413\nheight: 241\nfontFamily: BIZ UDGothic\nfontSize: 8\nlineHeight: 1.0\ntags: [OreNoFusen, 開発プロセス]\n---\n\nロードマップ";

    let (x, y, width, height, color, _, tags) = extract_meta_from_content(content);

    assert_eq!(width, Some(413), "width は 413 であるべき");
    assert_eq!(height, Some(241), "height は 241 であるべき (width の値ではない!)");

    assert_eq!(x, Some(1425));
    assert_eq!(y, Some(551));
    assert_eq!(color, Some("#ffcdd2".to_string()));
    assert!(tags.contains(&"OreNoFusen".to_string()));
}

#[test]
fn regression_no1_order_independent() {
    let content = "---\nheight: 300\nwidth: 400\n---";

    let (_, _, width, height, _, _, _) = extract_meta_from_content(content);

    assert_eq!(width, Some(400));
    assert_eq!(height, Some(300));
}

#[test]
fn regression_no1_short_form_w_and_h() {
    let content = "---\nw: 500\nh: 250\n---";

    let (_, _, width, height, _, _, _) = extract_meta_from_content(content);

    assert_eq!(width, Some(500));
    assert_eq!(height, Some(250));
}

#[test]
fn split_frontmatter_separates_header_and_body() {
    let (front, body) = split_frontmatter("---\nseq: 1\n---\n\nbody text");
    assert_eq!(front, "---\nseq: 1\n---");
    assert_eq!(body, "body text");
}

#[test]
fn split_frontmatter_without_header() {
    let (front, body) = split_frontmatter("plain text");
    assert_eq!(front, "");
    assert_eq!(body, "plain text");
}

#[test]
fn update_twice_equals_update_once() {
    // applying the same field update twice changes nothing more
    let cases = vec![
        "---\nx: 100\ny: 200\n---\n\n本文",
        "---\nx: 100\n---\n\n本文",
        "no header at all",
        "---\nnever closed",
    ];
    for content in cases {
        let once = update_frontmatter_value(content, "width", "413");
        let twice = update_frontmatter_value(&once, "width", "413");
        assert_eq!(once, twice);
    }
}

#[test]
fn extract_tags_unbracketed_and_quoted() {
    let content = "---\ntags: work, \"personal\", 'quoted'\n---";
    let (_, _, _, _, _, _, tags) = extract_meta_from_content(content);
    assert_eq!(tags, vec!["work", "personal", "quoted"]);
}

#[test]
fn extract_tags_absent_line_gives_empty() {
    let content = "---\nseq: 1\n---\n\nbody";
    let (_, _, _, _, _, _, tags) = extract_meta_from_content(content);
    assert!(tags.is_empty());
}

#[test]
fn extract_rejects_malformed_number() {
    // two dots make no number, and the lookup does not continue past it
    let content = "---\nx: 1.2.3\n---";
    let (x, _, _, _, _, _, _) = extract_meta_from_content(content);
    assert_eq!(x, None);
}
