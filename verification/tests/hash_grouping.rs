use dupehunter::hash_grouper::{group_by_digest, DuplicateGroup, HashedFile};

fn hashed(path: &str, digest: &str) -> HashedFile {
    HashedFile::new(path.to_string(), digest.to_string())
}

fn texts(paths: &[&str]) -> Vec<String> {
    paths.iter().map(|p| p.to_string()).collect()
}

#[test]
fn no_files_no_groups() {
    assert!(group_by_digest(&Vec::new()).is_empty());
}

#[test]
fn distinct_digests_form_no_group() {
    let files = vec![hashed("a", "d1"), hashed("b", "d2"), hashed("c", "d3")];
    assert!(group_by_digest(&files).is_empty());
}

#[test]
fn equal_digests_form_one_group() {
    let files = vec![hashed("a", "d1"), hashed("b", "d2"), hashed("c", "d1")];
    let groups = group_by_digest(&files);
    assert_eq!(groups.len(), 1);
    assert_eq!(groups[0].digest(), "d1");
    assert_eq!(groups[0].members(), &texts(&["a", "c"]));
    assert_eq!(groups[0].len(), 2);
}

#[test]
fn the_first_hashed_is_the_original() {
    let files = vec![hashed("z-last-name", "d"), hashed("a-first-name", "d"), hashed("m", "d")];
    let groups = group_by_digest(&files);
    assert_eq!(groups.len(), 1);
    assert_eq!(groups[0].original(), "z-last-name");
    assert_eq!(groups[0].duplicates(), texts(&["a-first-name", "m"]));
}

#[test]
fn groups_follow_their_first_file() {
    let files = vec![
        hashed("a", "x"),
        hashed("b", "y"),
        hashed("c", "z"),
        hashed("d", "y"),
        hashed("e", "x"),
        hashed("f", "y"),
    ];
    let groups = group_by_digest(&files);
    assert_eq!(groups.len(), 2);
    assert_eq!(groups[0].digest(), "x");
    assert_eq!(groups[0].members(), &texts(&["a", "e"]));
    assert_eq!(groups[1].digest(), "y");
    assert_eq!(groups[1].members(), &texts(&["b", "d", "f"]));
}

#[test]
fn digests_are_compared_exactly() {
    let files = vec![hashed("a", "ab"), hashed("b", "AB"), hashed("c", "ab ")];
    assert!(group_by_digest(&files).is_empty());
}

#[test]
fn grouped_paths_are_the_paths_with_a_recurring_digest() {
    let files = vec![
        hashed("a", "1"),
        hashed("b", "2"),
        hashed("c", "1"),
        hashed("d", "3"),
        hashed("e", "2"),
        hashed("f", "4"),
        hashed("g", "1"),
    ];
    let groups = group_by_digest(&files);
    let mut grouped: Vec<String> = Vec::new();
    for group in &groups {
        grouped.extend(group.members().iter().cloned());
    }
    grouped.sort();
    let mut expected: Vec<String> = Vec::new();
    for file in &files {
        let count = files.iter().filter(|other| other.digest == file.digest).count();
        if count >= 2 {
            expected.push(file.path.clone());
        }
    }
    expected.sort();
    assert_eq!(grouped, expected);
    assert_eq!(grouped, texts(&["a", "b", "c", "e", "g"]));
}

#[test]
fn grouping_twice_gives_the_same_groups() {
    let files = vec![hashed("a", "1"), hashed("b", "2"), hashed("c", "1"), hashed("d", "2")];
    let first = group_by_digest(&files);
    let second = group_by_digest(&files);
    assert_eq!(first.len(), second.len());
    for (one, other) in first.iter().zip(second.iter()) {
        assert_eq!(one.digest(), other.digest());
        assert_eq!(one.members(), other.members());
    }
}

#[test]
fn another_order_gives_the_same_membership() {
    let forward = vec![hashed("a", "1"), hashed("b", "2"), hashed("c", "1"), hashed("d", "2")];
    let backward = vec![hashed("d", "2"), hashed("c", "1"), hashed("b", "2"), hashed("a", "1")];
    let mut first: Vec<Vec<String>> = group_by_digest(&forward)
        .iter()
        .map(|g| {
            let mut members = g.members().clone();
            members.sort();
            members
        })
        .collect();
    let mut second: Vec<Vec<String>> = group_by_digest(&backward)
        .iter()
        .map(|g| {
            let mut members = g.members().clone();
            members.sort();
            members
        })
        .collect();
    first.sort();
    second.sort();
    assert_eq!(first, second);
}

#[test]
fn different_digests_are_never_grouped_together() {
    let files = vec![hashed("a", "1"), hashed("b", "2"), hashed("c", "1"), hashed("d", "2")];
    for group in group_by_digest(&files) {
        let has_a = group.members().contains(&"a".to_string());
        let has_b = group.members().contains(&"b".to_string());
        assert!(!(has_a && has_b));
    }
}

#[test]
fn a_group_needs_two_members() {
    assert!(DuplicateGroup::new("d".to_string(), Vec::new()).is_none());
    assert!(DuplicateGroup::new("d".to_string(), texts(&["a"])).is_none());
    let group = DuplicateGroup::new("d".to_string(), texts(&["a", "b"])).unwrap();
    assert_eq!(group.digest(), "d");
    assert_eq!(group.original(), "a");
    assert_eq!(group.duplicates(), texts(&["b"]));
    assert_eq!(group.len(), 2);
}

#[test]
fn digests_that_end_alike_are_still_told_apart() {
    let files = vec![
        hashed("a", "aaaa-0123456789abcdef"),
        hashed("b", "bbbb-0123456789abcdef"),
        hashed("c", "aaaa-0123456789abcdef"),
        hashed("d", "cccc-0123456789abcdef"),
        hashed("e", "bbbb-0123456789abcdef"),
    ];
    let groups = group_by_digest(&files);
    assert_eq!(groups.len(), 2);
    assert_eq!(groups[0].digest(), "aaaa-0123456789abcdef");
    assert_eq!(groups[0].members(), &texts(&["a", "c"]));
    assert_eq!(groups[1].digest(), "bbbb-0123456789abcdef");
    assert_eq!(groups[1].members(), &texts(&["b", "e"]));
}

#[test]
fn short_and_empty_digests_are_keys_like_any_other() {
    let files = vec![hashed("a", ""), hashed("b", "0"), hashed("c", ""), hashed("d", "00")];
    let groups = group_by_digest(&files);
    assert_eq!(groups.len(), 1);
    assert_eq!(groups[0].digest(), "");
    assert_eq!(groups[0].members(), &texts(&["a", "c"]));
}

#[test]
fn many_files_many_groups() {
    let mut files = Vec::new();
    for i in 0..3000usize {
        files.push(hashed(&format!("file-{}", i), &format!("{:064x}", i % 1000)));
    }
    for i in 0..50usize {
        files.push(hashed(&format!("single-{}", i), &format!("{:064x}", 5000 + i)));
    }
    let groups = group_by_digest(&files);
    assert_eq!(groups.len(), 1000);
    for (k, group) in groups.iter().enumerate() {
        assert_eq!(group.digest(), &format!("{:064x}", k));
        assert_eq!(
            group.members(),
            &vec![format!("file-{}", k), format!("file-{}", k + 1000), format!("file-{}", k + 2000)]
        );
    }
}
