//! Size grouping: candidate files are partitioned by exact byte length, and
//! only the lengths that at least two candidates share are kept. A file whose
//! length is unique cannot have a duplicate and is never hashed.

use crate::grouping::{
    group_items, groups_among, keys_of, lemma_duplicate_group, lemma_equal_keys_share_a_group,
    lemma_groups_follow_first_positions,
    lemma_positions, lemma_recurring_keys, lemma_recurs, paths_of, positions, recurring_keys,
    recurs, select, views_of, Keyed,
};
use crate::text::text_views;
use vstd::prelude::*;

verus! {

/// A file considered for duplicate detection: its path and its byte length.
pub struct CandidateFile {
    pub path: String,
    pub size: u64,
}

/// A candidate file as a mathematical value.
pub struct CandidateView {
    pub path: Seq<char>,
    pub size: u64,
}

impl View for CandidateFile {
    type V = CandidateView;

    open spec fn view(&self) -> CandidateView {
        CandidateView { path: self.path@, size: self.size }
    }
}

impl CandidateFile {
    /// A candidate with the given path and byte length.
    pub fn new(path: String, size: u64) -> (candidate: CandidateFile)
        ensures
            candidate@ == (CandidateView { path: path@, size }),
    {
        CandidateFile { path, size }
    }
}

impl Keyed for CandidateFile {
    type Key = u64;

    type Group = SizeBucket;

    open spec fn key(&self) -> u64 {
        self.size
    }

    open spec fn path(&self) -> Seq<char> {
        self.path@
    }

    open spec fn hint_of(key: u64) -> u64 {
        key
    }

    fn same_key(&self, other: &Self) -> (same: bool) {
        self.size == other.size
    }

    fn hint(&self) -> (hint: u64) {
        self.size
    }

    open spec fn group_of(key: u64, paths: Seq<Seq<char>>) -> SizeBucketView {
        SizeBucketView { size: key, paths }
    }

    fn path_text(&self) -> (text: String) {
        self.path.clone()
    }

    fn form_group(&self, paths: Vec<String>) -> (group: SizeBucket) {
        SizeBucket { size: self.size, paths }
    }
}

/// The candidates that share one byte length, in the order in which they
/// were found. There are always at least two.
pub struct SizeBucket {
    size: u64,
    paths: Vec<String>,
}

/// A size bucket as a mathematical value.
pub struct SizeBucketView {
    pub size: u64,
    pub paths: Seq<Seq<char>>,
}

impl View for SizeBucket {
    type V = SizeBucketView;

    closed spec fn view(&self) -> SizeBucketView {
        SizeBucketView { size: self.size, paths: text_views(self.paths@) }
    }
}

impl SizeBucket {
    #[verifier::type_invariant]
    spec fn well_formed(self) -> bool {
        self.paths@.len() >= 2
    }

    /// The byte length that the files of this bucket share.
    pub fn size(&self) -> (size: u64)
        ensures
            size == self@.size,
    {
        self.size
    }

    /// The paths of the files of this bucket.
    pub fn paths(&self) -> (paths: &Vec<String>)
        ensures
            text_views(paths@) == self@.paths,
            paths@.len() >= 2,
    {
        proof {
            use_type_invariant(self);
        }
        &self.paths
    }
}

/// Candidates as mathematical values, position by position.
pub open spec fn candidate_views(candidates: Seq<CandidateFile>) -> Seq<CandidateView> {
    candidates.map_values(|candidate: CandidateFile| candidate@)
}

/// Buckets as mathematical values, position by position.
pub open spec fn bucket_views(buckets: Seq<SizeBucket>) -> Seq<SizeBucketView> {
    buckets.map_values(|bucket: SizeBucket| bucket@)
}

/// The byte lengths of `candidates`, position by position.
pub open spec fn sizes(candidates: Seq<CandidateView>) -> Seq<u64> {
    candidates.map_values(|candidate: CandidateView| candidate.size)
}

/// The paths of `candidates`, position by position.
pub open spec fn candidate_paths(candidates: Seq<CandidateView>) -> Seq<Seq<char>> {
    candidates.map_values(|candidate: CandidateView| candidate.path)
}

/// The bucket of one byte length: the paths of the candidates of that
/// length, in the order of `candidates`.
pub open spec fn bucket_of(candidates: Seq<CandidateView>) -> spec_fn(u64) -> SizeBucketView {
    |size: u64|
        SizeBucketView {
            size,
            paths: select(candidate_paths(candidates), positions(sizes(candidates), size)),
        }
}

/// The buckets that size grouping forwards: one per byte length that at
/// least two candidates share, ordered by the first candidate of each.
pub open spec fn size_buckets(candidates: Seq<CandidateView>) -> Seq<SizeBucketView> {
    recurring_keys(sizes(candidates)).map_values(bucket_of(candidates))
}

/// Partitions `candidates` by byte length and keeps the lengths that occur
/// at least twice.
pub fn group_by_size(candidates: &Vec<CandidateFile>) -> (buckets: Vec<SizeBucket>)
    ensures
        bucket_views(buckets@) == size_buckets(candidate_views(candidates@)),
{
    let buckets = group_items(candidates);
    proof {
        let views = candidate_views(candidates@);
        assert(keys_of(candidates@) =~= sizes(views));
        assert(paths_of(candidates@) =~= candidate_paths(views));
        assert(views_of(buckets@) =~= bucket_views(buckets@));
        assert(groups_among(candidates@) =~= size_buckets(views));
    }
    buckets
}

/// The positions of the candidates that the bucket at index `b` holds.
pub open spec fn bucket_positions(candidates: Seq<CandidateView>, b: int) -> Seq<int> {
    positions(sizes(candidates), size_buckets(candidates)[b].size)
}

/// Whether the candidate at position `i` is handed on to hashing: some
/// bucket holds it.
pub open spec fn is_forwarded(candidates: Seq<CandidateView>, i: int) -> bool {
    exists|b: int|
        0 <= b < size_buckets(candidates).len() && #[trigger] bucket_positions(
            candidates,
            b,
        ).contains(i)
}

/// Every bucket holds at least two candidates, all of the byte length of the
/// bucket, and lists their paths in the order of the candidates. No two
/// buckets are of the same byte length.
pub proof fn law_buckets_share_a_size(candidates: Seq<CandidateView>, b: int)
    requires
        0 <= b < size_buckets(candidates).len(),
    ensures
        bucket_positions(candidates, b).len() >= 2,
        size_buckets(candidates)[b].paths == select(
            candidate_paths(candidates),
            bucket_positions(candidates, b),
        ),
        forall|m: int|
            0 <= m < bucket_positions(candidates, b).len() ==> 0 <= #[trigger] bucket_positions(
                candidates,
                b,
            )[m] < candidates.len() && candidates[bucket_positions(candidates, b)[m]].size
                == size_buckets(candidates)[b].size,
        forall|other: int|
            0 <= other < size_buckets(candidates).len() && other != b
                ==> #[trigger] size_buckets(candidates)[other].size != size_buckets(
                candidates,
            )[b].size,
{
    let keys = sizes(candidates);
    lemma_duplicate_group(keys, b);
    lemma_recurring_keys(keys);
}

/// The buckets come in the order in which their first candidates were found.
pub proof fn law_buckets_follow_their_first_candidates(
    candidates: Seq<CandidateView>,
    b: int,
    c: int,
)
    requires
        0 <= b < c < size_buckets(candidates).len(),
    ensures
        bucket_positions(candidates, b)[0] < bucket_positions(candidates, c)[0],
{
    let keys = sizes(candidates);
    lemma_duplicate_group(keys, b);
    lemma_duplicate_group(keys, c);
    lemma_groups_follow_first_positions(keys, b, c);
}

/// Candidates of equal byte length are handed on to hashing together: one
/// bucket holds both.
pub proof fn law_equal_sizes_are_hashed(candidates: Seq<CandidateView>, i: int, j: int)
    requires
        0 <= i < candidates.len(),
        0 <= j < candidates.len(),
        i != j,
        candidates[i].size == candidates[j].size,
    ensures
        exists|b: int|
            0 <= b < size_buckets(candidates).len() && #[trigger] bucket_positions(
                candidates,
                b,
            ).contains(i) && bucket_positions(candidates, b).contains(j),
        is_forwarded(candidates, i),
        is_forwarded(candidates, j),
{
    let b = lemma_equal_keys_share_a_group(sizes(candidates), i, j);
    assert(bucket_positions(candidates, b).contains(i));
    assert(bucket_positions(candidates, b).contains(j));
}

/// A candidate whose byte length no other candidate has is never hashed: no
/// bucket holds it, and no bucket is of its length.
pub proof fn law_unique_size_is_never_hashed(candidates: Seq<CandidateView>, i: int)
    requires
        0 <= i < candidates.len(),
        forall|j: int|
            0 <= j < candidates.len() && j != i ==> (#[trigger] candidates[j]).size
                != candidates[i].size,
    ensures
        !is_forwarded(candidates, i),
        forall|b: int|
            0 <= b < size_buckets(candidates).len() ==> (#[trigger] size_buckets(
                candidates,
            )[b]).size != candidates[i].size,
{
    let keys = sizes(candidates);
    let size = candidates[i].size;
    lemma_recurring_keys(keys);
    lemma_recurs(keys, size);
    if recurs(keys, size) {
        let (p, q) = choose|p: int, q: int|
            0 <= p < q < keys.len() && #[trigger] keys[p] == size && #[trigger] keys[q] == size;
        if p != i {
            assert(candidates[p].size == size);
        } else {
            assert(candidates[q].size == size);
        }
    }
    assert forall|b: int| 0 <= b < size_buckets(candidates).len() implies (#[trigger] size_buckets(
        candidates,
    )[b]).size != size by {
        assert(recurring_keys(keys).contains(recurring_keys(keys)[b]));
    }
    assert forall|b: int| 0 <= b < size_buckets(candidates).len() implies !(
    #[trigger] bucket_positions(candidates, b)).contains(i) by {
        lemma_positions(keys, size_buckets(candidates)[b].size);
        if bucket_positions(candidates, b).contains(i) {
            let m = choose|m: int|
                0 <= m < bucket_positions(candidates, b).len() && bucket_positions(
                    candidates,
                    b,
                )[m] == i;
            assert(keys[bucket_positions(candidates, b)[m]] == size_buckets(candidates)[b].size);
        }
    }
}

} // verus!
