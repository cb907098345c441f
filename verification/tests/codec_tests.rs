//! Tests of the filename codec: sanitizing titles, parsing and
//! generating file names, and their round trip.

use fusen_core::codec::generate_filename;
use fusen_core::codec::parse_filename;
use fusen_core::codec::sanitize_context;
use fusen_core::codec::sanitize_path;
use fusen_core::codec::split_path;

#[test]
fn sanitize_basic() {
    let out = sanitize_context("foo/bar");
    assert!(!out.contains("/"));
}

#[test]
fn sanitize_removes_all_forbidden_chars() {
    let input = "test/file\\name:with*forbidden?chars\"<>|end";
    let output = sanitize_context(input);

    assert!(!output.contains('/'));
    assert!(!output.contains('\\'));
    assert!(!output.contains(':'));
    assert!(!output.contains('*'));
    assert!(!output.contains('?'));
    assert!(!output.contains('"'));
    assert!(!output.contains('<'));
    assert!(!output.contains('>'));
    assert!(!output.contains('|'));
}

#[test]
fn sanitize_preserves_japanese() {
    let input = "日本語のメモ";
    let output = sanitize_context(input);
    assert_eq!(output, "日本語のメモ");
}

#[test]
fn sanitize_preserves_alphanumeric() {
    let input = "Test123ABC";
    let output = sanitize_context(input);
    assert_eq!(output, "Test123ABC");
}

#[test]
fn sanitize_trims_whitespace() {
    let input = "  space around  ";
    let output = sanitize_context(input);
    assert_eq!(output, "space around");
}

#[test]
fn sanitize_empty_string() {
    let output = sanitize_context("");
    assert_eq!(output, "");
}

#[test]
fn sanitize_real_world_example() {
    let input = "C:\\Users\\test\\Documents";
    let output = sanitize_context(input);
    assert_eq!(output, "C  Users test Documents");
}

#[test]
fn parse_filename_standard_format() {
    let (seq, date, context) = parse_filename("0001_2026-01-12_メモタイトル.md");

    assert_eq!(seq, 1);
    assert_eq!(date, "2026-01-12");
    assert_eq!(context, "メモタイトル");
}

#[test]
fn parse_filename_large_seq_number() {
    let (seq, _date, _context) = parse_filename("9999_2026-01-12_テスト.md");
    assert_eq!(seq, 9999);
}

#[test]
fn parse_filename_multi_word_context() {
    let (seq, _date, context) = parse_filename("0042_2026-01-12_これは_複数語の_タイトル.md");

    assert_eq!(seq, 42);
    assert_eq!(context, "これは_複数語の_タイトル");
}

#[test]
fn parse_filename_invalid_format() {
    let (seq, date, context) = parse_filename("invalid.md");

    assert_eq!(seq, 0);
    assert_eq!(date, "unknown");
    assert_eq!(context, "invalid.md");
}

#[test]
fn generate_filename_standard() {
    let filename = generate_filename(1, "2026-01-12", "テストメモ");
    assert_eq!(filename, "0001_2026-01-12_テストメモ.md");
}

#[test]
fn generate_filename_zero_padding() {
    let filename = generate_filename(42, "2026-01-12", "メモ");
    assert_eq!(filename, "0042_2026-01-12_メモ.md");
}

#[test]
fn generate_filename_large_number() {
    let filename = generate_filename(9999, "2026-01-12", "最後のメモ");
    assert_eq!(filename, "9999_2026-01-12_最後のメモ.md");
}

#[test]
fn roundtrip_parse_and_generate() {
    let original_seq = 123;
    let original_date = "2026-01-12";
    let original_context = "往復テスト";

    let filename = generate_filename(original_seq, original_date, original_context);
    let (parsed_seq, parsed_date, parsed_context) = parse_filename(&filename);

    assert_eq!(parsed_seq, original_seq);
    assert_eq!(parsed_date, original_date);
    assert_eq!(parsed_context, original_context);
}

#[test]
fn roundtrip_title_with_separator() {
    let filename = generate_filename(7, "2026-03-04", "a_b_c");
    let (seq, date, context) = parse_filename(&filename);
    assert_eq!(seq, 7);
    assert_eq!(date, "2026-03-04");
    assert_eq!(context, "a_b_c");
}

#[test]
fn roundtrip_empty_title() {
    let filename = generate_filename(5, "2026-03-04", "");
    let (seq, date, context) = parse_filename(&filename);
    assert_eq!(seq, 5);
    assert_eq!(date, "2026-03-04");
    assert_eq!(context, "");
}

#[test]
fn parse_strips_every_md_suffix() {
    let (seq, date, context) = parse_filename("0002_2026-01-01_draft.md.md");
    assert_eq!(seq, 2);
    assert_eq!(date, "2026-01-01");
    assert_eq!(context, "draft");
}

#[test]
fn split_path_plain_file() {
    let (prefix, name) = split_path("notes/0001_2026-01-01_A.md").unwrap();
    assert_eq!(prefix, "notes/");
    assert_eq!(name, "0001_2026-01-01_A.md");
}

#[test]
fn split_path_bare_file() {
    let (prefix, name) = split_path("a.md").unwrap();
    assert_eq!(prefix, "");
    assert_eq!(name, "a.md");
}

#[test]
fn split_path_rejects_empty_and_dot_dot() {
    assert!(split_path("").is_none());
    assert!(split_path("/").is_none());
    assert!(split_path("a/..").is_none());
    assert!(split_path(".").is_none());
    assert!(split_path("./").is_none());
}

#[test]
fn split_path_skips_trailing_dot_segments() {
    // `a/.` names `a`, as the standard path reader has it
    let (prefix, name) = split_path("a/.").unwrap();
    assert_eq!(prefix, "");
    assert_eq!(name, "a");
    let (prefix2, name2) = split_path("dir/sub/./").unwrap();
    assert_eq!(prefix2, "dir/");
    assert_eq!(name2, "sub");
    // a dot inside a name is no segment
    let (_, name3) = split_path("dir/a.").unwrap();
    assert_eq!(name3, "a.");
}

#[test]
fn sanitize_path_takes_file_name() {
    assert_eq!(sanitize_path("dir/sub/file.md"), "file.md");
    assert_eq!(sanitize_path(""), "[unknown]");
    assert_eq!(sanitize_path("a/."), "a");
    assert_eq!(sanitize_path(".."), "[unknown]");
}
