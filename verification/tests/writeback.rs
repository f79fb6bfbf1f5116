use directive_memory::error::CoreError;
use directive_memory::writeback::{
    bullet_for, check_read_path, check_write_path, fact_file_text, insert_fact, titlecase,
    written_text,
};

#[test]
fn write_creates_file() {
    assert_eq!(written_text(None, "# hi\nbody", false), "# hi\nbody");
}

#[test]
fn append_preserves_trailing_newline() {
    let first = written_text(None, "line one", false);
    let body = written_text(Some(&first), "line two", true);
    assert!(body.starts_with("line one\n"));
    assert!(body.contains("line two"));
}

#[test]
fn append_does_not_double_newline() {
    assert_eq!(written_text(Some("a\n"), "b", true), "a\nb");
    assert_eq!(written_text(Some(""), "b", true), "\nb");
    assert_eq!(written_text(Some("old"), "new", false), "new");
}

#[test]
fn writeback_rejects_path_traversal() {
    assert!(check_write_path("../evil.md").is_err());
    assert!(check_write_path("a/../b.md").is_err());
    assert!(check_write_path("/etc/passwd.md").is_err());
}

#[test]
fn rejects_non_markdown_extension() {
    assert!(check_write_path("note.txt").is_err());
}

#[test]
fn accepted_paths_are_trimmed() {
    assert_eq!(check_write_path("  notes/daily-log_1.md ").unwrap(), "notes/daily-log_1.md");
    assert!(check_write_path(".md").is_err());
    assert!(check_write_path("a.b.md").is_err());
    assert!(check_write_path("space name.md").is_err());
    match check_write_path(" x.txt") {
        Err(CoreError::InvalidPath(p)) => assert_eq!(p, " x.txt"),
        _ => panic!("expected an invalid path"),
    }
}

#[test]
fn read_path_drops_leading_slashes() {
    assert_eq!(check_read_path(" //notes/a.md").unwrap(), "notes/a.md");
    assert!(check_read_path("x/../y.md").is_err());
    assert_eq!(check_read_path("secret.md").unwrap(), "secret.md");
}

#[test]
fn add_fact_creates_file_and_section_when_missing() {
    let body = fact_file_text(None, "learnings.md", "## Patterns", "use sqlx");
    assert!(body.contains("# Learnings"));
    assert!(body.contains("## Patterns"));
    assert!(body.contains("- use sqlx"));
    assert_eq!(body, "# Learnings\n\n## Patterns\n- use sqlx\n");
}

#[test]
fn add_fact_appends_under_existing_section() {
    let old = "# X\n\n## Patterns\n- old one\n\n## Other\ndata\n";
    let body = fact_file_text(Some(old), "x.md", "## Patterns", "new fact");
    let patterns_idx = body.find("## Patterns").unwrap();
    let other_idx = body.find("## Other").unwrap();
    let slice = &body[patterns_idx..other_idx];
    assert!(slice.contains("- old one"));
    assert!(slice.contains("- new fact"));
    assert_eq!(body, "# X\n\n## Patterns\n- old one\n- new fact\n\n## Other\ndata\n");
}

#[test]
fn add_fact_appends_new_section_when_heading_absent() {
    let body = fact_file_text(Some("# X\n\nbody\n"), "x.md", "## New", "added");
    assert!(body.contains("## New"));
    assert!(body.contains("- added"));
    assert_eq!(body, "# X\n\nbody\n\n\n## New\n- added");
}

#[test]
fn fact_bullet_is_not_doubled() {
    assert_eq!(bullet_for("- already"), "- already");
    assert_eq!(bullet_for("plain"), "- plain");
}

#[test]
fn h4_headings_stay_inside_the_section() {
    let text = "## A\n#### detail\nx\n## B\n";
    assert_eq!(insert_fact(text, " ## A ", "- f"), "## A\n#### detail\nx\n- f\n## B\n");
}

#[test]
fn bullet_goes_right_after_heading_when_section_is_empty() {
    assert_eq!(insert_fact("## A\n\n\n## B", "## A", "- f"), "## A\n- f\n\n\n## B");
}

#[test]
fn missing_section_after_text_without_final_newline() {
    assert_eq!(insert_fact("body", "## S", "- f"), "body\n\n\n## S\n- f");
}

#[test]
fn new_file_title_is_title_cased() {
    let body = fact_file_text(None, "projects/my-big_plan.md.md", "## S", "f");
    assert_eq!(body, "# Projects — My Big_plan\n\n## S\n- f\n");
    assert_eq!(titlecase("  hELLO   wORLD "), "Hello World");
    assert_eq!(titlecase(""), "");
}

#[test]
fn fact_lines_are_old_lines_with_the_bullet_inserted() {
    let old = "# T\n\n## A\n- one\n\n## B\nrest";
    let body = fact_file_text(Some(old), "t.md", "## A", "two");
    let mut expected: Vec<&str> = old.split('\n').collect();
    expected.insert(4, "- two");
    assert_eq!(body.split('\n').collect::<Vec<_>>(), expected);
}

#[test]
fn ascii_titles_are_plainly_capitalized() {
    assert_eq!(titlecase("learnings"), "Learnings");
    assert_eq!(titlecase("projects — my plan"), "Projects — My Plan");
    let body = fact_file_text(None, "user/preferences.md", "## Style", "- short");
    assert_eq!(body, "# User — Preferences\n\n## Style\n- short\n");
}
