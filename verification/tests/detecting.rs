use dupehunter::detection::{collect_hashed, hash_worklist};
use dupehunter::hash_grouper::group_by_digest;
use dupehunter::hasher::digest_of_bytes;
use dupehunter::size_grouper::{group_by_size, CandidateFile};

fn texts(paths: &[&str]) -> Vec<String> {
    paths.iter().map(|p| p.to_string()).collect()
}

fn candidate(path: &str, size: u64) -> CandidateFile {
    CandidateFile::new(path.to_string(), size)
}

#[test]
fn the_worklist_goes_bucket_by_bucket() {
    let candidates = vec![
        candidate("a", 30),
        candidate("b", 10),
        candidate("c", 20),
        candidate("d", 10),
        candidate("e", 30),
        candidate("f", 10),
    ];
    let worklist = hash_worklist(&group_by_size(&candidates));
    assert_eq!(worklist, texts(&["a", "e", "b", "d", "f"]));
}

#[test]
fn an_empty_worklist() {
    assert_eq!(hash_worklist(&Vec::new()), Vec::<String>::new());
    let candidates = vec![candidate("a", 1), candidate("b", 2)];
    assert_eq!(hash_worklist(&group_by_size(&candidates)), Vec::<String>::new());
}

#[test]
fn a_unique_size_is_not_on_the_worklist() {
    let candidates = vec![candidate("a", 5), candidate("lonely", 6), candidate("b", 5)];
    let worklist = hash_worklist(&group_by_size(&candidates));
    assert_eq!(worklist, texts(&["a", "b"]));
    assert!(!worklist.contains(&"lonely".to_string()));
}

#[test]
fn unreadable_files_are_left_out() {
    let outcomes = vec![
        ("a".to_string(), Some("d1".to_string())),
        ("b".to_string(), None),
        ("c".to_string(), Some("d2".to_string())),
        ("d".to_string(), None),
    ];
    let files = collect_hashed(&outcomes);
    assert_eq!(files.len(), 2);
    assert_eq!(files[0].path, "a");
    assert_eq!(files[0].digest, "d1");
    assert_eq!(files[1].path, "c");
    assert_eq!(files[1].digest, "d2");
}

#[test]
fn no_outcomes_no_files() {
    assert!(collect_hashed(&Vec::new()).is_empty());
    assert!(collect_hashed(&vec![("a".to_string(), None)]).is_empty());
}

#[test]
fn an_unreadable_copy_is_in_no_group() {
    let outcomes = vec![
        ("a".to_string(), Some("same".to_string())),
        ("unreadable-copy".to_string(), None),
        ("b".to_string(), Some("same".to_string())),
    ];
    let groups = group_by_digest(&collect_hashed(&outcomes));
    assert_eq!(groups.len(), 1);
    assert_eq!(groups[0].members(), &texts(&["a", "b"]));
}

#[test]
fn a_copy_left_alone_by_a_failure_is_no_duplicate() {
    let outcomes = vec![
        ("a".to_string(), Some("same".to_string())),
        ("b".to_string(), None),
    ];
    assert!(group_by_digest(&collect_hashed(&outcomes)).is_empty());
}

#[test]
fn the_stages_together() {
    let contents: Vec<(&str, &[u8])> = vec![
        ("one", b"aaaa"),
        ("two", b"bbbb"),
        ("three", b"aaaa"),
        ("four", b"cc"),
        ("five", b"bbbb"),
        ("six", b"dddddd"),
    ];
    let candidates: Vec<CandidateFile> =
        contents.iter().map(|(p, c)| candidate(p, c.len() as u64)).collect();
    let worklist = hash_worklist(&group_by_size(&candidates));
    assert_eq!(worklist, texts(&["one", "two", "three", "five"]));
    let mut outcomes = Vec::new();
    for path in worklist {
        let (_, content) = contents.iter().find(|(p, _)| *p == path).unwrap();
        outcomes.push((path, Some(digest_of_bytes(content))));
    }
    let groups = group_by_digest(&collect_hashed(&outcomes));
    assert_eq!(groups.len(), 2);
    assert_eq!(groups[0].members(), &texts(&["one", "three"]));
    assert_eq!(groups[1].members(), &texts(&["two", "five"]));
}

fn detected_paths_of(order: &[usize]) -> Vec<String> {
    let files: Vec<(&str, &[u8])> = vec![
        ("one", b"aaaa"),
        ("two", b"bbbb"),
        ("three", b"aaaa"),
        ("four", b"cc"),
        ("five", b"bbbb"),
        ("six", b"dddddd"),
        ("seven", b"aaaa"),
        ("eight", b"eeee"),
    ];
    let candidates: Vec<CandidateFile> =
        order.iter().map(|&k| candidate(files[k].0, files[k].1.len() as u64)).collect();
    let mut outcomes = Vec::new();
    for path in hash_worklist(&group_by_size(&candidates)) {
        let (_, content) = files.iter().find(|(p, _)| *p == path).unwrap();
        outcomes.push((path, Some(digest_of_bytes(content))));
    }
    let mut paths: Vec<String> = Vec::new();
    for group in group_by_digest(&collect_hashed(&outcomes)) {
        paths.extend(group.members().iter().cloned());
    }
    paths.sort();
    paths
}

#[test]
fn the_order_of_the_candidates_does_not_change_what_is_detected() {
    let expected = {
        let mut paths = texts(&["one", "three", "seven", "two", "five"]);
        paths.sort();
        paths
    };
    assert_eq!(detected_paths_of(&[0, 1, 2, 3, 4, 5, 6, 7]), expected);
    assert_eq!(detected_paths_of(&[7, 6, 5, 4, 3, 2, 1, 0]), expected);
    assert_eq!(detected_paths_of(&[3, 0, 7, 4, 6, 1, 5, 2]), expected);
    assert_eq!(detected_paths_of(&[4, 2, 0, 6, 1, 3, 5, 7]), expected);
}

#[test]
fn the_order_of_the_candidates_decides_the_original() {
    let forward = vec![candidate("a", 4), candidate("b", 4)];
    let backward = vec![candidate("b", 4), candidate("a", 4)];
    let digest = digest_of_bytes(b"same");
    let run = |candidates: &Vec<CandidateFile>| {
        let outcomes: Vec<(String, Option<String>)> = hash_worklist(&group_by_size(candidates))
            .into_iter()
            .map(|path| (path, Some(digest.clone())))
            .collect();
        group_by_digest(&collect_hashed(&outcomes))
    };
    assert_eq!(run(&forward)[0].original(), "a");
    assert_eq!(run(&backward)[0].original(), "b");
}
