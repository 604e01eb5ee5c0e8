use dupehunter::size_grouper::{group_by_size, CandidateFile};

fn candidate(path: &str, size: u64) -> CandidateFile {
    CandidateFile::new(path.to_string(), size)
}

fn texts(paths: &[&str]) -> Vec<String> {
    paths.iter().map(|p| p.to_string()).collect()
}

#[test]
fn no_candidates_no_buckets() {
    assert!(group_by_size(&Vec::new()).is_empty());
}

#[test]
fn a_single_candidate_is_pruned() {
    assert!(group_by_size(&vec![candidate("only", 10)]).is_empty());
}

#[test]
fn unique_sizes_are_pruned() {
    let candidates = vec![candidate("a", 1), candidate("b", 2), candidate("c", 3)];
    assert!(group_by_size(&candidates).is_empty());
}

#[test]
fn equal_sizes_share_a_bucket() {
    let candidates = vec![candidate("a", 5), candidate("b", 7), candidate("c", 5)];
    let buckets = group_by_size(&candidates);
    assert_eq!(buckets.len(), 1);
    assert_eq!(buckets[0].size(), 5);
    assert_eq!(buckets[0].paths(), &texts(&["a", "c"]));
}

#[test]
fn a_unique_size_is_never_forwarded() {
    let candidates = vec![
        candidate("a", 5),
        candidate("lonely", 6),
        candidate("b", 5),
        candidate("c", 9),
        candidate("d", 9),
    ];
    let buckets = group_by_size(&candidates);
    for bucket in &buckets {
        assert_ne!(bucket.size(), 6);
        assert!(!bucket.paths().contains(&"lonely".to_string()));
    }
    let forwarded: usize = buckets.iter().map(|b| b.paths().len()).sum();
    assert_eq!(forwarded, 4);
}

#[test]
fn buckets_follow_their_first_candidate() {
    let candidates = vec![
        candidate("a", 30),
        candidate("b", 10),
        candidate("c", 20),
        candidate("d", 10),
        candidate("e", 30),
        candidate("f", 10),
    ];
    let buckets = group_by_size(&candidates);
    assert_eq!(buckets.len(), 2);
    assert_eq!(buckets[0].size(), 30);
    assert_eq!(buckets[0].paths(), &texts(&["a", "e"]));
    assert_eq!(buckets[1].size(), 10);
    assert_eq!(buckets[1].paths(), &texts(&["b", "d", "f"]));
}

#[test]
fn empty_files_are_grouped_like_any_other() {
    let candidates = vec![candidate("x", 0), candidate("y", 0)];
    let buckets = group_by_size(&candidates);
    assert_eq!(buckets.len(), 1);
    assert_eq!(buckets[0].size(), 0);
    assert_eq!(buckets[0].paths(), &texts(&["x", "y"]));
}

#[test]
fn largest_size_is_a_size_like_any_other() {
    let candidates = vec![candidate("x", u64::MAX), candidate("y", u64::MAX - 1), candidate("z", u64::MAX)];
    let buckets = group_by_size(&candidates);
    assert_eq!(buckets.len(), 1);
    assert_eq!(buckets[0].size(), u64::MAX);
    assert_eq!(buckets[0].paths(), &texts(&["x", "z"]));
}

#[test]
fn every_bucket_has_at_least_two_paths() {
    let mut candidates = Vec::new();
    for i in 0..40u64 {
        candidates.push(candidate(&format!("f{}", i), i % 7 + (i / 35) * 100));
    }
    let buckets = group_by_size(&candidates);
    assert!(!buckets.is_empty());
    for bucket in &buckets {
        assert!(bucket.paths().len() >= 2);
    }
}

#[test]
fn the_same_path_twice_is_two_candidates() {
    let candidates = vec![candidate("a", 4), candidate("a", 4)];
    let buckets = group_by_size(&candidates);
    assert_eq!(buckets.len(), 1);
    assert_eq!(buckets[0].paths(), &texts(&["a", "a"]));
}

#[test]
fn many_candidates_many_sizes() {
    let mut candidates = Vec::new();
    for i in 0..5000u64 {
        candidates.push(candidate(&format!("f{}", i), i % 1250));
    }
    candidates.push(candidate("lonely", 999_999));
    let buckets = group_by_size(&candidates);
    assert_eq!(buckets.len(), 1250);
    for (k, bucket) in buckets.iter().enumerate() {
        assert_eq!(bucket.size(), k as u64);
        assert_eq!(
            bucket.paths(),
            &vec![
                format!("f{}", k),
                format!("f{}", k + 1250),
                format!("f{}", k + 2500),
                format!("f{}", k + 3750)
            ]
        );
    }
}
