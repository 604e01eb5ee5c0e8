use dupehunter::hash_grouper::{group_by_digest, DuplicateGroup, HashedFile};
use dupehunter::report::render_report;
use dupehunter::text::decimal_text;

fn group(digest: &str, members: &[&str]) -> DuplicateGroup {
    DuplicateGroup::new(digest.to_string(), members.iter().map(|m| m.to_string()).collect()).unwrap()
}

#[test]
fn no_groups_empty_report() {
    assert_eq!(render_report(&Vec::new()), "");
}

#[test]
fn one_group_one_section() {
    let groups = vec![group("d", &["dir/a.txt", "dir/b.txt"])];
    assert_eq!(render_report(&groups), "Duplicate Group 1:\n  dir/a.txt\n  dir/b.txt\n\n");
}

#[test]
fn sections_are_numbered_from_one() {
    let groups = vec![group("x", &["a", "b"]), group("y", &["c", "d", "e"])];
    assert_eq!(
        render_report(&groups),
        "Duplicate Group 1:\n  a\n  b\n\nDuplicate Group 2:\n  c\n  d\n  e\n\n"
    );
}

#[test]
fn the_original_comes_first() {
    let files = vec![
        HashedFile::new("second-by-name-first-by-hashing".to_string(), "d".to_string()),
        HashedFile::new("a".to_string(), "d".to_string()),
    ];
    let groups = group_by_digest(&files);
    assert_eq!(
        render_report(&groups),
        "Duplicate Group 1:\n  second-by-name-first-by-hashing\n  a\n\n"
    );
}

#[test]
fn numbers_beyond_nine_are_written_in_full() {
    let mut groups = Vec::new();
    for _ in 0..12 {
        groups.push(group("d", &["a", "b"]));
    }
    let text = render_report(&groups);
    assert!(text.contains("Duplicate Group 9:\n"));
    assert!(text.contains("Duplicate Group 10:\n"));
    assert!(text.contains("Duplicate Group 12:\n"));
    assert!(!text.contains("Duplicate Group 13:\n"));
    assert!(!text.contains("Duplicate Group 0:\n"));
    assert_eq!(text.matches("Duplicate Group ").count(), 12);
    assert!(text.ends_with("  b\n\n"));
}

#[test]
fn nothing_follows_the_last_separator() {
    let groups = vec![group("x", &["a", "b"])];
    let text = render_report(&groups);
    assert!(text.ends_with("\n\n"));
    assert!(!text.ends_with("\n\n\n"));
}

#[test]
fn decimal_numerals() {
    assert_eq!(decimal_text(0), "0");
    assert_eq!(decimal_text(7), "7");
    assert_eq!(decimal_text(9), "9");
    assert_eq!(decimal_text(10), "10");
    assert_eq!(decimal_text(99), "99");
    assert_eq!(decimal_text(100), "100");
    assert_eq!(decimal_text(12345), "12345");
    assert_eq!(decimal_text(1_000_000), "1000000");
    assert_eq!(decimal_text(usize::MAX), usize::MAX.to_string());
}
