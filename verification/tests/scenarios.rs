use dupehunter::error::ScanError;
use dupehunter::filter::ExtensionFilter;
use dupehunter::hash_grouper::{group_by_digest, DuplicateGroup, HashedFile};
use dupehunter::hasher::digest_of_bytes;
use dupehunter::report::render_report;
use dupehunter::resolver::{Resolver, ResolverAction, ResolverEvent};
use dupehunter::size_grouper::{group_by_size, CandidateFile};

fn texts(paths: &[&str]) -> Vec<String> {
    paths.iter().map(|p| p.to_string()).collect()
}

/// Runs detection over files given as (path, extension, content).
fn detect(files: &[(&str, Option<&str>, &[u8])], filter: &ExtensionFilter) -> Vec<DuplicateGroup> {
    let mut candidates = Vec::new();
    for (path, extension, content) in files {
        if filter.admits(*extension) {
            candidates.push(CandidateFile::new(path.to_string(), content.len() as u64));
        }
    }
    let mut hashed = Vec::new();
    for bucket in group_by_size(&candidates) {
        for path in bucket.paths() {
            let (_, _, content) = files.iter().find(|(p, _, _)| p == path).unwrap();
            hashed.push(HashedFile::new(path.clone(), digest_of_bytes(content)));
        }
    }
    group_by_digest(&hashed)
}

#[test]
fn two_copies_and_a_stranger() {
    let files: Vec<(&str, Option<&str>, &[u8])> = vec![
        ("a.txt", Some("txt"), b"hello"),
        ("b.txt", Some("txt"), b"hello"),
        ("c.txt", Some("txt"), b"world"),
    ];
    let groups = detect(&files, &ExtensionFilter::any());
    assert_eq!(groups.len(), 1);
    assert_eq!(groups[0].members(), &texts(&["a.txt", "b.txt"]));
    for group in &groups {
        assert!(!group.members().contains(&"c.txt".to_string()));
    }
}

#[test]
fn an_invalid_directory_exits_with_one() {
    let error = ScanError::FatalConfig;
    assert!(error.is_fatal());
    assert_eq!(error.exit_code(), 1);
}

#[test]
fn the_extension_filter_excludes_a_matching_copy() {
    let files: Vec<(&str, Option<&str>, &[u8])> = vec![
        ("x.mp3", Some("mp3"), b"same bytes"),
        ("y.mp3", Some("mp3"), b"same bytes"),
        ("x.txt", Some("txt"), b"same bytes"),
    ];
    let groups = detect(&files, &ExtensionFilter::parse("mp3"));
    assert_eq!(groups.len(), 1);
    assert_eq!(groups[0].members(), &texts(&["x.mp3", "y.mp3"]));

    let unfiltered = detect(&files, &ExtensionFilter::any());
    assert_eq!(unfiltered.len(), 1);
    assert_eq!(unfiltered[0].members(), &texts(&["x.mp3", "y.mp3", "x.txt"]));
}

#[test]
fn auto_delete_keeps_the_original_of_three() {
    let files: Vec<(&str, Option<&str>, &[u8])> = vec![
        ("one", None, b"identical"),
        ("two", None, b"identical"),
        ("three", None, b"identical"),
    ];
    let groups = detect(&files, &ExtensionFilter::any());
    assert_eq!(groups.len(), 1);
    let mut resolver = Resolver::new(false, false, true, None, groups);
    let mut deleted: Vec<String> = Vec::new();
    let mut action = resolver.advance(ResolverEvent::Begin);
    loop {
        match action {
            ResolverAction::Delete(paths) => {
                deleted.extend(paths);
                action = resolver.advance(ResolverEvent::Completed);
            }
            ResolverAction::Finish => break,
            other => panic!("unexpected action {:?}", other),
        }
    }
    assert_eq!(deleted, texts(&["two", "three"]));
    assert!(!deleted.contains(&"one".to_string()));
}

#[test]
fn a_report_on_two_groups() {
    let files: Vec<(&str, Option<&str>, &[u8])> = vec![
        ("a.txt", Some("txt"), b"hello"),
        ("p.bin", Some("bin"), b"0123456789"),
        ("b.txt", Some("txt"), b"hello"),
        ("q.bin", Some("bin"), b"0123456789"),
        ("c.txt", Some("txt"), b"world"),
    ];
    let groups = detect(&files, &ExtensionFilter::any());
    assert_eq!(groups.len(), 2);
    let text = render_report(&groups);
    assert_eq!(text.matches("Duplicate Group").count(), 2);
    assert_eq!(
        text,
        "Duplicate Group 1:\n  a.txt\n  b.txt\n\nDuplicate Group 2:\n  p.bin\n  q.bin\n\n"
    );

    let mut resolver = Resolver::new(false, false, false, Some("out.txt".to_string()), groups);
    assert_eq!(
        resolver.advance(ResolverEvent::Begin),
        ResolverAction::WriteReport { path: "out.txt".to_string(), text }
    );
}

#[test]
fn equal_sizes_with_different_content_are_hashed_but_not_grouped() {
    let files: Vec<(&str, Option<&str>, &[u8])> = vec![
        ("a", None, b"hello"),
        ("b", None, b"world"),
        ("c", None, b"12345"),
    ];
    let mut candidates = Vec::new();
    for (path, _, content) in &files {
        candidates.push(CandidateFile::new(path.to_string(), content.len() as u64));
    }
    let buckets = group_by_size(&candidates);
    assert_eq!(buckets.len(), 1);
    assert_eq!(buckets[0].paths(), &texts(&["a", "b", "c"]));
    assert!(detect(&files, &ExtensionFilter::any()).is_empty());
}

#[test]
fn identical_content_is_grouped_whatever_the_names() {
    let files: Vec<(&str, Option<&str>, &[u8])> = vec![
        ("photos/2019/img_001.jpg", Some("jpg"), b"\xff\xd8\xff\xe0 picture"),
        ("notes.txt", Some("txt"), b"something else entirely"),
        ("backup/old/COPY OF IMG.JPEG", Some("JPEG"), b"\xff\xd8\xff\xe0 picture"),
        ("unnamed", None, b"\xff\xd8\xff\xe0 picture"),
    ];
    let groups = detect(&files, &ExtensionFilter::any());
    assert_eq!(groups.len(), 1);
    assert_eq!(
        groups[0].members(),
        &texts(&["photos/2019/img_001.jpg", "backup/old/COPY OF IMG.JPEG", "unnamed"])
    );
    assert_eq!(groups[0].digest(), &digest_of_bytes(b"\xff\xd8\xff\xe0 picture"));
}

#[test]
fn a_file_that_could_not_be_hashed_is_in_no_group() {
    let candidates = vec![
        CandidateFile::new("a".to_string(), 5),
        CandidateFile::new("unreadable".to_string(), 5),
        CandidateFile::new("b".to_string(), 5),
    ];
    let mut hashed = Vec::new();
    for bucket in group_by_size(&candidates) {
        for path in bucket.paths() {
            if path != "unreadable" {
                hashed.push(HashedFile::new(path.clone(), digest_of_bytes(b"hello")));
            }
        }
    }
    let groups = group_by_digest(&hashed);
    assert_eq!(groups.len(), 1);
    assert_eq!(groups[0].members(), &texts(&["a", "b"]));
}

#[test]
fn two_read_only_runs_find_the_same_groups() {
    let files: Vec<(&str, Option<&str>, &[u8])> = vec![
        ("a", None, b"hello"),
        ("b", None, b"hello"),
        ("c", None, b"world"),
        ("d", None, b"world"),
        ("e", None, b"alone"),
    ];
    let first = detect(&files, &ExtensionFilter::any());
    let mut dry = Resolver::new(true, false, false, None, first);
    assert_eq!(dry.advance(ResolverEvent::Begin), ResolverAction::Preview(texts(&["b", "d"])));
    let second = detect(&files, &ExtensionFilter::any());
    assert_eq!(dry.groups().len(), second.len());
    for (one, other) in dry.groups().iter().zip(second.iter()) {
        assert_eq!(one.digest(), other.digest());
        assert_eq!(one.members(), other.members());
    }
}

#[test]
fn a_report_is_written_though_nothing_was_found() {
    let files: Vec<(&str, Option<&str>, &[u8])> = vec![
        ("a.txt", Some("txt"), b"hello"),
        ("b.txt", Some("txt"), b"world"),
        ("c.txt", Some("txt"), b"longer than the others"),
    ];
    let groups = detect(&files, &ExtensionFilter::any());
    assert!(groups.is_empty());
    let mut resolver = Resolver::new(false, false, true, Some("out.txt".to_string()), groups);
    assert_eq!(
        resolver.advance(ResolverEvent::Begin),
        ResolverAction::WriteReport { path: "out.txt".to_string(), text: String::new() }
    );
    assert_eq!(resolver.advance(ResolverEvent::Completed), ResolverAction::NothingFound);
    assert_eq!(resolver.advance(ResolverEvent::Completed), ResolverAction::Finish);
}
