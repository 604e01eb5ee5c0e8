//! Detection from end to end: what is hashed, what becomes of a file that
//! could not be hashed, and what the two grouping stages find together.
//!
//! Size grouping comes first and is complete before any file is hashed; all
//! files are hashed before they are grouped by digest. Reading the files is
//! the caller's part: the library says which paths to hash, in which order,
//! and takes the outcomes back.

use crate::grouping::{
    lemma_positions, lemma_recurring_keys, lemma_recurs, lemma_reordered_recurs, recurring_keys,
    recurs, reordered,
};
use crate::hash_grouper::{
    digests, duplicate_groups, grouped_paths, hashed_views, law_equal_digests_share_a_group,
    law_grouped_paths_are_recurring_paths, law_groups_share_a_digest, member_positions, GroupView,
    HashedFile, HashedView,
};
use crate::hasher::hex_digest;
use crate::size_grouper::{
    bucket_positions, bucket_views, law_buckets_share_a_size, law_equal_sizes_are_hashed,
    law_unique_size_is_never_hashed, size_buckets, sizes, CandidateView, SizeBucket,
    SizeBucketView,
};
use crate::text::{append_texts, text_views};
use vstd::prelude::*;

verus! {

/// The paths of each bucket.
pub open spec fn bucket_paths(buckets: Seq<SizeBucketView>) -> Seq<Seq<Seq<char>>> {
    buckets.map_values(|bucket: SizeBucketView| bucket.paths)
}

/// The paths that are hashed, in the order in which they are hashed: bucket
/// by bucket, and within a bucket in the order of the bucket.
pub open spec fn paths_to_hash(buckets: Seq<SizeBucketView>) -> Seq<Seq<char>> {
    bucket_paths(buckets).flatten()
}

/// The outcome of hashing one file: its path, and its digest unless its
/// content could not be read.
pub type HashOutcome = (String, Option<String>);

/// An outcome as a mathematical value.
pub open spec fn outcome_view(outcome: HashOutcome) -> (Seq<char>, Option<Seq<char>>) {
    (
        outcome.0@,
        match outcome.1 {
            Some(digest) => Some(digest@),
            None => None,
        },
    )
}

/// Outcomes as mathematical values, position by position.
pub open spec fn outcome_views(outcomes: Seq<HashOutcome>) -> Seq<(Seq<char>, Option<Seq<char>>)> {
    outcomes.map_values(|outcome: HashOutcome| outcome_view(outcome))
}

/// The hashed file that an outcome stands for, if it stands for one.
pub open spec fn hashed_entry() -> spec_fn((Seq<char>, Option<Seq<char>>)) -> Option<HashedView> {
    |outcome: (Seq<char>, Option<Seq<char>>)|
        match outcome.1 {
            Some(digest) => Some(HashedView { path: outcome.0, digest }),
            None => None,
        }
}

/// The files that were hashed, in the order of the outcomes. A file that
/// could not be read is left out.
pub open spec fn successfully_hashed(outcomes: Seq<(Seq<char>, Option<Seq<char>>)>) -> Seq<
    HashedView,
> {
    outcomes.filter_map(hashed_entry())
}

/// The outcomes of hashing `paths` when `digest_of` tells the digest of each
/// path, or that there is none.
pub open spec fn hashing_outcomes(
    paths: Seq<Seq<char>>,
    digest_of: spec_fn(Seq<char>) -> Option<Seq<char>>,
) -> Seq<(Seq<char>, Option<Seq<char>>)> {
    paths.map_values(|path: Seq<char>| (path, digest_of(path)))
}

/// What hashing tells of each path when `content_of` is the content of each
/// file and `readable` says which files can be read.
pub open spec fn digests_of(
    content_of: spec_fn(Seq<char>) -> Seq<u8>,
    readable: spec_fn(Seq<char>) -> bool,
) -> spec_fn(Seq<char>) -> Option<Seq<char>> {
    |path: Seq<char>|
        if readable(path) {
            Some(hex_digest(content_of(path)))
        } else {
            None
        }
}

/// The files that detection hashes with success, in the order in which they
/// are hashed, when `digest_of` tells the digest of each path, or that there
/// is none.
pub open spec fn hashed(
    candidates: Seq<CandidateView>,
    digest_of: spec_fn(Seq<char>) -> Option<Seq<char>>,
) -> Seq<HashedView> {
    successfully_hashed(hashing_outcomes(paths_to_hash(size_buckets(candidates)), digest_of))
}

/// The duplicate groups that detection finds among `candidates` when
/// `digest_of` tells the digest of each path, or that there is none.
pub open spec fn detected(
    candidates: Seq<CandidateView>,
    digest_of: spec_fn(Seq<char>) -> Option<Seq<char>>,
) -> Seq<GroupView> {
    duplicate_groups(hashed(candidates, digest_of))
}

/// The paths that detection finds to be duplicates or originals: the paths
/// that occur in some group.
pub open spec fn detected_paths(
    candidates: Seq<CandidateView>,
    digest_of: spec_fn(Seq<char>) -> Option<Seq<char>>,
) -> Set<Seq<char>> {
    grouped_paths(hashed(candidates, digest_of))
}

/// Copies of the paths to hash, in the order in which to hash them.
pub fn hash_worklist(buckets: &Vec<SizeBucket>) -> (paths: Vec<String>)
    ensures
        text_views(paths@) == paths_to_hash(bucket_views(buckets@)),
{
    let ghost lists = bucket_paths(bucket_views(buckets@));
    let mut paths: Vec<String> = Vec::new();
    let mut b: usize = 0;
    assert(lists.take(0).flatten() =~= Seq::<Seq<char>>::empty());
    while b < buckets.len()
        invariant
            b <= buckets@.len(),
            lists == bucket_paths(bucket_views(buckets@)),
            text_views(paths@) == lists.take(b as int).flatten(),
        decreases buckets@.len() - b,
    {
        let more = buckets[b].paths();
        proof {
            assert(lists.take(b + 1) =~= lists.take(b as int).push(text_views(more@)));
            lists.take(b as int).lemma_flatten_push(text_views(more@));
        }
        append_texts(&mut paths, more);
        b += 1;
    }
    assert(lists.take(buckets@.len() as int) =~= lists);
    paths
}

/// The files that were hashed, with their digests. A file that could not be
/// read is left out: it will be in no group.
pub fn collect_hashed(outcomes: &Vec<HashOutcome>) -> (files: Vec<HashedFile>)
    ensures
        hashed_views(files@) == successfully_hashed(outcome_views(outcomes@)),
{
    let ghost views = outcome_views(outcomes@);
    let mut files: Vec<HashedFile> = Vec::new();
    let mut k: usize = 0;
    assert(views.take(0).filter_map(hashed_entry()) =~= Seq::<HashedView>::empty());
    while k < outcomes.len()
        invariant
            k <= outcomes@.len(),
            views == outcome_views(outcomes@),
            hashed_views(files@) == views.take(k as int).filter_map(hashed_entry()),
        decreases outcomes@.len() - k,
    {
        proof {
            views.lemma_filter_map_take_succ(hashed_entry(), k as int);
        }
        match &outcomes[k].1 {
            Some(digest) => {
                let file = HashedFile::new(outcomes[k].0.clone(), digest.clone());
                let ghost earlier = files@;
                files.push(file);
                assert(hashed_views(files@) =~= hashed_views(earlier).push(file@));
            },
            None => {},
        }
        k += 1;
    }
    assert(views.take(outcomes@.len() as int) =~= views);
    files
}

/// A member of a member of `lists` is a member of the flattened list.
proof fn lemma_flatten_holds<A>(lists: Seq<Seq<A>>, b: int, m: int)
    requires
        0 <= b < lists.len(),
        0 <= m < lists[b].len(),
    ensures
        lists.flatten().contains(lists[b][m]),
    decreases lists.len(),
{
    let rest = lists.drop_first();
    if b == 0 {
        assert(lists.flatten()[m] == lists[b][m]);
    } else {
        lemma_flatten_holds(rest, b - 1, m);
        let at = choose|at: int|
            0 <= at < rest.flatten().len() && rest.flatten()[at] == lists[b][m];
        assert(lists.flatten()[lists.first().len() + at] == lists[b][m]);
    }
}

/// A member of the flattened list is a member of a member of `lists`.
proof fn lemma_flatten_held<A>(lists: Seq<Seq<A>>, item: A)
    requires
        lists.flatten().contains(item),
    ensures
        exists|b: int, m: int|
            0 <= b < lists.len() && 0 <= m < lists[b].len() && #[trigger] lists[b][m] == item,
    decreases lists.len(),
{
    if lists.len() > 0 {
        let rest = lists.drop_first();
        let at = choose|at: int| 0 <= at < lists.flatten().len() && lists.flatten()[at] == item;
        if at < lists.first().len() {
            assert(lists[0][at] == item);
        } else {
            assert(rest.flatten()[at - lists.first().len()] == item);
            lemma_flatten_held(rest, item);
            let (b, m) = choose|b: int, m: int|
                0 <= b < rest.len() && 0 <= m < rest[b].len() && #[trigger] rest[b][m] == item;
            assert(lists[b + 1][m] == item);
        }
    }
}

/// An outcome with a digest stands among the hashed files.
proof fn lemma_hashed_holds(
    outcomes: Seq<(Seq<char>, Option<Seq<char>>)>,
    k: int,
)
    requires
        0 <= k < outcomes.len(),
        outcomes[k].1 is Some,
    ensures
        successfully_hashed(outcomes).contains(
            HashedView { path: outcomes[k].0, digest: outcomes[k].1->0 },
        ),
    decreases outcomes.len(),
{
    let rest = outcomes.drop_last();
    let file = HashedView { path: outcomes[k].0, digest: outcomes[k].1->0 };
    let all = successfully_hashed(outcomes);
    if k == outcomes.len() - 1 {
        assert(all[all.len() - 1] == file);
    } else {
        lemma_hashed_holds(rest, k);
        let at = choose|at: int|
            0 <= at < successfully_hashed(rest).len() && successfully_hashed(rest)[at] == file;
        assert(all[at] == file);
    }
}

/// Two outcomes with digests stand among the hashed files, in the same
/// order.
proof fn lemma_hashed_keeps_order(
    outcomes: Seq<(Seq<char>, Option<Seq<char>>)>,
    k: int,
    l: int,
)
    requires
        0 <= k < l < outcomes.len(),
        outcomes[k].1 is Some,
        outcomes[l].1 is Some,
    ensures
        exists|h: int, i: int|
            0 <= h < i < successfully_hashed(outcomes).len() && #[trigger] successfully_hashed(
                outcomes,
            )[h] == (HashedView { path: outcomes[k].0, digest: outcomes[k].1->0 })
                && #[trigger] successfully_hashed(outcomes)[i] == (HashedView {
                path: outcomes[l].0,
                digest: outcomes[l].1->0,
            }),
    decreases outcomes.len(),
{
    let rest = outcomes.drop_last();
    let first = HashedView { path: outcomes[k].0, digest: outcomes[k].1->0 };
    let second = HashedView { path: outcomes[l].0, digest: outcomes[l].1->0 };
    let all = successfully_hashed(outcomes);
    if l == outcomes.len() - 1 {
        lemma_hashed_holds(rest, k);
        let h = choose|h: int|
            0 <= h < successfully_hashed(rest).len() && successfully_hashed(rest)[h] == first;
        assert(all[h] == first && all[all.len() - 1] == second);
    } else {
        lemma_hashed_keeps_order(rest, k, l);
        let (h, i) = choose|h: int, i: int|
            0 <= h < i < successfully_hashed(rest).len() && #[trigger] successfully_hashed(
                rest,
            )[h] == first && #[trigger] successfully_hashed(rest)[i] == second;
        assert(all[h] == first && all[i] == second);
    }
}

/// Every candidate of a bucket is hashed: its path is among the paths to
/// hash.
proof fn lemma_bucket_members_are_hashed(candidates: Seq<CandidateView>, b: int, i: int)
    requires
        0 <= b < size_buckets(candidates).len(),
        bucket_positions(candidates, b).contains(i),
    ensures
        0 <= i < candidates.len(),
        paths_to_hash(size_buckets(candidates)).contains(candidates[i].path),
{
    let found = bucket_positions(candidates, b);
    let lists = bucket_paths(size_buckets(candidates));
    law_buckets_share_a_size(candidates, b);
    let m = choose|m: int| 0 <= m < found.len() && found[m] == i;
    assert(found[m] == i);
    assert(lists[b][m] == candidates[i].path);
    lemma_flatten_holds(lists, b, m);
}

/// Every file that was hashed has the digest that `digest_of` tells for its
/// path, and its path is among `paths`.
proof fn lemma_hashed_as_told(
    paths: Seq<Seq<char>>,
    digest_of: spec_fn(Seq<char>) -> Option<Seq<char>>,
    h: int,
)
    requires
        0 <= h < successfully_hashed(hashing_outcomes(paths, digest_of)).len(),
    ensures
        digest_of(successfully_hashed(hashing_outcomes(paths, digest_of))[h].path) == Some(
            successfully_hashed(hashing_outcomes(paths, digest_of))[h].digest,
        ),
        paths.contains(successfully_hashed(hashing_outcomes(paths, digest_of))[h].path),
{
    let outcomes = hashing_outcomes(paths, digest_of);
    let files = successfully_hashed(outcomes);
    assert(files.contains(files[h]));
    outcomes.lemma_filter_map_contains(hashed_entry(), files[h]);
    let outcome = choose|outcome: (Seq<char>, Option<Seq<char>>)|
        #[trigger] outcomes.contains(outcome) && hashed_entry()(outcome) == Some(files[h]);
    let k = choose|k: int| 0 <= k < outcomes.len() && outcomes[k] == outcome;
    assert(outcomes[k] == (paths[k], digest_of(paths[k])));
}

/// Two candidates of one size that are hashed to one digest are members of
/// one group.
proof fn lemma_equal_size_equal_digest_is_detected(
    candidates: Seq<CandidateView>,
    digest_of: spec_fn(Seq<char>) -> Option<Seq<char>>,
    i: int,
    j: int,
)
    requires
        0 <= i < j < candidates.len(),
        candidates[i].size == candidates[j].size,
        digest_of(candidates[i].path) is Some,
        digest_of(candidates[i].path) == digest_of(candidates[j].path),
    ensures
        exists|g: int|
            0 <= g < detected(candidates, digest_of).len() && (#[trigger] detected(
                candidates,
                digest_of,
            )[g]).members.contains(candidates[i].path) && detected(
                candidates,
                digest_of,
            )[g].members.contains(candidates[j].path),
{
    let first = candidates[i].path;
    let second = candidates[j].path;
    let lists = bucket_paths(size_buckets(candidates));
    let paths = paths_to_hash(size_buckets(candidates));
    let outcomes = hashing_outcomes(paths, digest_of);
    let files = successfully_hashed(outcomes);
    let digest = digest_of(first)->0;
    law_equal_sizes_are_hashed(candidates, i, j);
    let b = choose|b: int|
        0 <= b < size_buckets(candidates).len() && #[trigger] bucket_positions(
            candidates,
            b,
        ).contains(i) && bucket_positions(candidates, b).contains(j);
    let held = bucket_positions(candidates, b);
    law_buckets_share_a_size(candidates, b);
    lemma_positions(sizes(candidates), size_buckets(candidates)[b].size);
    let m = choose|m: int| 0 <= m < held.len() && held[m] == i;
    let n = choose|n: int| 0 <= n < held.len() && held[n] == j;
    assert(held[m] == i && held[n] == j);
    assert(m < n);
    assert(lists[b][m] == first && lists[b][n] == second);
    lemma_flatten_forth(lists, b, m, b, n);
    let (v, w) = choose|v: int, w: int|
        0 <= v < w < paths.len() && #[trigger] paths[v] == first && #[trigger] paths[w] == second;
    assert(outcomes[v] == (first, Some(digest)));
    assert(outcomes[w] == (second, Some(digest)));
    lemma_hashed_keeps_order(outcomes, v, w);
    let (hi, hj) = choose|hi: int, hj: int|
        0 <= hi < hj < files.len() && #[trigger] files[hi] == (HashedView { path: first, digest })
            && #[trigger] files[hj] == (HashedView { path: second, digest });
    law_equal_digests_share_a_group(files, hi, hj);
    let g = choose|g: int|
        0 <= g < duplicate_groups(files).len() && #[trigger] member_positions(files, g).contains(
            hi,
        ) && member_positions(files, g).contains(hj);
    law_groups_share_a_digest(files, g);
    let found = member_positions(files, g);
    let mi = choose|m: int| 0 <= m < found.len() && found[m] == hi;
    let mj = choose|m: int| 0 <= m < found.len() && found[m] == hj;
    let group = detected(candidates, digest_of)[g];
    assert(group.members[mi] == first);
    assert(group.members[mj] == second);
    assert(group.members.contains(first) && group.members.contains(second));
}

/// Files of identical content are found as duplicates of each other,
/// whatever their paths: two candidates whose contents are the same bytes,
/// whose sizes are the lengths of their contents, and which can both be
/// read, are members of one group.
pub proof fn law_identical_content_is_detected(
    candidates: Seq<CandidateView>,
    content_of: spec_fn(Seq<char>) -> Seq<u8>,
    readable: spec_fn(Seq<char>) -> bool,
    i: int,
    j: int,
)
    requires
        forall|k: int|
            0 <= k < candidates.len() ==> (#[trigger] candidates[k]).size == content_of(
                candidates[k].path,
            ).len(),
        0 <= i < candidates.len(),
        0 <= j < candidates.len(),
        i != j,
        content_of(candidates[i].path) == content_of(candidates[j].path),
        readable(candidates[i].path),
        readable(candidates[j].path),
    ensures
        exists|g: int|
            0 <= g < detected(candidates, digests_of(content_of, readable)).len() && (
            #[trigger] detected(candidates, digests_of(content_of, readable))[g]).members.contains(
                candidates[i].path,
            ) && detected(candidates, digests_of(content_of, readable))[g].members.contains(
                candidates[j].path,
            ),
{
    let digest_of = digests_of(content_of, readable);
    if i < j {
        lemma_equal_size_equal_digest_is_detected(candidates, digest_of, i, j);
    } else {
        lemma_equal_size_equal_digest_is_detected(candidates, digest_of, j, i);
    }
}

/// Files of equal size are both hashed, and if their digests differ no group
/// holds both.
pub proof fn law_equal_size_distinct_digest_is_told_apart(
    candidates: Seq<CandidateView>,
    digest_of: spec_fn(Seq<char>) -> Option<Seq<char>>,
    i: int,
    j: int,
)
    requires
        0 <= i < candidates.len(),
        0 <= j < candidates.len(),
        i != j,
        candidates[i].size == candidates[j].size,
        digest_of(candidates[i].path) != digest_of(candidates[j].path),
    ensures
        paths_to_hash(size_buckets(candidates)).contains(candidates[i].path),
        paths_to_hash(size_buckets(candidates)).contains(candidates[j].path),
        forall|g: int|
            0 <= g < detected(candidates, digest_of).len() ==> !((#[trigger] detected(
                candidates,
                digest_of,
            )[g]).members.contains(candidates[i].path) && detected(
                candidates,
                digest_of,
            )[g].members.contains(candidates[j].path)),
{
    let first = candidates[i].path;
    let second = candidates[j].path;
    let paths = paths_to_hash(size_buckets(candidates));
    let files = successfully_hashed(hashing_outcomes(paths, digest_of));
    let groups = detected(candidates, digest_of);
    law_equal_sizes_are_hashed(candidates, i, j);
    let b = choose|b: int|
        0 <= b < size_buckets(candidates).len() && #[trigger] bucket_positions(
            candidates,
            b,
        ).contains(i) && bucket_positions(candidates, b).contains(j);
    lemma_bucket_members_are_hashed(candidates, b, i);
    lemma_bucket_members_are_hashed(candidates, b, j);
    assert forall|g: int| 0 <= g < groups.len() implies !((#[trigger] groups[g]).members.contains(
        first,
    ) && groups[g].members.contains(second)) by {
        if groups[g].members.contains(first) && groups[g].members.contains(second) {
            law_groups_share_a_digest(files, g);
            let found = member_positions(files, g);
            let mi = choose|m: int|
                0 <= m < groups[g].members.len() && groups[g].members[m] == first;
            let mj = choose|m: int|
                0 <= m < groups[g].members.len() && groups[g].members[m] == second;
            lemma_hashed_as_told(paths, digest_of, found[mi]);
            lemma_hashed_as_told(paths, digest_of, found[mj]);
            assert(files[found[mi]].path == first);
            assert(files[found[mj]].path == second);
        }
    }
}

/// A file whose size no other candidate has is never hashed: its path is not
/// among the paths to hash, and so it is in no group.
pub proof fn law_unique_size_is_not_among_paths_to_hash(candidates: Seq<CandidateView>, i: int)
    requires
        0 <= i < candidates.len(),
        forall|j: int|
            0 <= j < candidates.len() && j != i ==> (#[trigger] candidates[j]).size
                != candidates[i].size && candidates[j].path != candidates[i].path,
    ensures
        !paths_to_hash(size_buckets(candidates)).contains(candidates[i].path),
        forall|digest_of: spec_fn(Seq<char>) -> Option<Seq<char>>, g: int|
            0 <= g < detected(candidates, digest_of).len() ==> !(#[trigger] detected(
                candidates,
                digest_of,
            )[g]).members.contains(candidates[i].path),
{
    let lonely = candidates[i].path;
    let lists = bucket_paths(size_buckets(candidates));
    let paths = paths_to_hash(size_buckets(candidates));
    law_unique_size_is_never_hashed(candidates, i);
    if paths.contains(lonely) {
        lemma_flatten_held(lists, lonely);
        let (b, m) = choose|b: int, m: int|
            0 <= b < lists.len() && 0 <= m < lists[b].len() && #[trigger] lists[b][m] == lonely;
        law_buckets_share_a_size(candidates, b);
        let p = bucket_positions(candidates, b)[m];
        assert(candidates[p].path == lonely);
        assert(bucket_positions(candidates, b).contains(i));
    }
    assert forall|digest_of: spec_fn(Seq<char>) -> Option<Seq<char>>, g: int|
        0 <= g < detected(candidates, digest_of).len() implies !(#[trigger] detected(
        candidates,
        digest_of,
    )[g]).members.contains(lonely) by {
        let files = successfully_hashed(hashing_outcomes(paths, digest_of));
        let group = detected(candidates, digest_of)[g];
        if group.members.contains(lonely) {
            law_groups_share_a_digest(files, g);
            let m = choose|m: int| 0 <= m < group.members.len() && group.members[m] == lonely;
            lemma_hashed_as_told(paths, digest_of, member_positions(files, g)[m]);
        }
    }
}

/// Detection is repeatable: two runs over the same candidates, in the same
/// order, in which every file hashes to the same digest or fails alike, find
/// the same groups in the same order.
pub proof fn law_detection_is_repeatable(
    first: Seq<CandidateView>,
    second: Seq<CandidateView>,
    digest_then: spec_fn(Seq<char>) -> Option<Seq<char>>,
    digest_now: spec_fn(Seq<char>) -> Option<Seq<char>>,
)
    requires
        first.len() == second.len(),
        forall|i: int| 0 <= i < first.len() ==> first[i] == second[i],
        forall|path: Seq<char>| #[trigger] digest_then(path) == digest_now(path),
    ensures
        detected(first, digest_then) == detected(second, digest_now),
{
    assert(first =~= second);
    let paths = paths_to_hash(size_buckets(first));
    assert(hashing_outcomes(paths, digest_then) =~= hashing_outcomes(paths, digest_now));
}

/// Whether the candidate at position `i` is hashed with success: another
/// candidate has its size, and its content can be read.
pub open spec fn is_hashed(
    candidates: Seq<CandidateView>,
    digest_of: spec_fn(Seq<char>) -> Option<Seq<char>>,
    i: int,
) -> bool {
    &&& 0 <= i < candidates.len()
    &&& recurs(sizes(candidates), candidates[i].size)
    &&& digest_of(candidates[i].path) is Some
}

/// Whether the candidates at the positions `i` and `j` are two files that
/// are both hashed with success, to one digest.
pub open spec fn is_copy_of(
    candidates: Seq<CandidateView>,
    digest_of: spec_fn(Seq<char>) -> Option<Seq<char>>,
    i: int,
    j: int,
) -> bool {
    &&& i != j
    &&& is_hashed(candidates, digest_of, i)
    &&& is_hashed(candidates, digest_of, j)
    &&& digest_of(candidates[i].path) == digest_of(candidates[j].path)
}

/// Whether some candidate with the path `path` has a copy among the
/// candidates.
pub open spec fn has_copy(
    candidates: Seq<CandidateView>,
    digest_of: spec_fn(Seq<char>) -> Option<Seq<char>>,
    path: Seq<char>,
) -> bool {
    exists|i: int, j: int| #[trigger]
        is_copy_of(candidates, digest_of, i, j) && candidates[i].path == path
}

/// Whether `(b, m)` comes before `(c, n)` when the members of `lists` are
/// read one list after the other.
spec fn comes_before<A>(lists: Seq<Seq<A>>, b: int, m: int, c: int, n: int) -> bool {
    &&& 0 <= b <= c < lists.len()
    &&& 0 <= m < lists[b].len()
    &&& 0 <= n < lists[c].len()
    &&& b < c || m < n
}

/// Two members of `lists` are members of the flattened list, in the order in
/// which they come.
proof fn lemma_flatten_forth<A>(lists: Seq<Seq<A>>, b: int, m: int, c: int, n: int)
    requires
        comes_before(lists, b, m, c, n),
    ensures
        exists|v: int, w: int|
            0 <= v < w < lists.flatten().len() && #[trigger] lists.flatten()[v] == lists[b][m]
                && #[trigger] lists.flatten()[w] == lists[c][n],
    decreases lists.len(),
{
    let rest = lists.drop_first();
    let flat = lists.flatten();
    let shift = lists.first().len();
    if b == 0 {
        if c == 0 {
            assert(flat[m] == lists[b][m] && flat[n] == lists[c][n]);
        } else {
            lemma_flatten_holds(rest, c - 1, n);
            let at = choose|at: int|
                0 <= at < rest.flatten().len() && rest.flatten()[at] == lists[c][n];
            assert(flat[m] == lists[b][m] && flat[shift + at] == lists[c][n]);
        }
    } else {
        lemma_flatten_forth(rest, b - 1, m, c - 1, n);
        let (v, w) = choose|v: int, w: int|
            0 <= v < w < rest.flatten().len() && #[trigger] rest.flatten()[v] == lists[b][m]
                && #[trigger] rest.flatten()[w] == lists[c][n];
        assert(flat[shift + v] == lists[b][m] && flat[shift + w] == lists[c][n]);
    }
}

/// Two members of the flattened list are members of `lists`, and come in the
/// same order there.
proof fn lemma_flatten_back<A>(lists: Seq<Seq<A>>, v: int, w: int)
    requires
        0 <= v < w < lists.flatten().len(),
    ensures
        exists|b: int, m: int, c: int, n: int| #[trigger]
            comes_before(lists, b, m, c, n) && lists[b][m] == lists.flatten()[v] && lists[c][n]
                == lists.flatten()[w],
    decreases lists.len(),
{
    let rest = lists.drop_first();
    let flat = lists.flatten();
    let shift = lists.first().len();
    if lists.len() == 0 {
    } else if w < shift {
        assert(comes_before(lists, 0, v, 0, w));
    } else if v < shift {
        assert(rest.flatten()[w - shift] == flat[w]);
        lemma_flatten_held(rest, flat[w]);
        let (c, n) = choose|c: int, n: int|
            0 <= c < rest.len() && 0 <= n < rest[c].len() && #[trigger] rest[c][n] == flat[w];
        assert(comes_before(lists, 0, v, c + 1, n));
    } else {
        assert(rest.flatten()[v - shift] == flat[v] && rest.flatten()[w - shift] == flat[w]);
        lemma_flatten_back(rest, v - shift, w - shift);
        let (b, m, c, n) = choose|b: int, m: int, c: int, n: int| #[trigger]
            comes_before(rest, b, m, c, n) && rest[b][m] == rest.flatten()[v - shift]
                && rest[c][n] == rest.flatten()[w - shift];
        assert(comes_before(lists, b + 1, m, c + 1, n));
    }
}

/// Two hashed files stand for two outcomes, which come in the same order.
proof fn lemma_hashed_back(outcomes: Seq<(Seq<char>, Option<Seq<char>>)>, h: int, i: int)
    requires
        0 <= h < i < successfully_hashed(outcomes).len(),
    ensures
        exists|k: int, l: int|
            0 <= k < l < outcomes.len() && hashed_entry()(#[trigger] outcomes[k]) == Some(
                successfully_hashed(outcomes)[h],
            ) && hashed_entry()(#[trigger] outcomes[l]) == Some(successfully_hashed(outcomes)[i]),
    decreases outcomes.len(),
{
    let rest = outcomes.drop_last();
    let all = successfully_hashed(outcomes);
    let earlier = successfully_hashed(rest);
    if outcomes.len() == 0 {
    } else if i < earlier.len() {
        lemma_hashed_back(rest, h, i);
        let (k, l) = choose|k: int, l: int|
            0 <= k < l < rest.len() && hashed_entry()(#[trigger] rest[k]) == Some(earlier[h])
                && hashed_entry()(#[trigger] rest[l]) == Some(earlier[i]);
        assert(outcomes[k] == rest[k] && outcomes[l] == rest[l]);
    } else {
        assert(earlier.contains(earlier[h]));
        rest.lemma_filter_map_contains(hashed_entry(), earlier[h]);
        let outcome = choose|outcome: (Seq<char>, Option<Seq<char>>)|
            #[trigger] rest.contains(outcome) && hashed_entry()(outcome) == Some(earlier[h]);
        let k = choose|k: int| 0 <= k < rest.len() && rest[k] == outcome;
        let l = outcomes.len() - 1;
        assert(outcomes[k] == rest[k]);
        assert(hashed_entry()(outcomes[l]) == Some(all[i]));
    }
}

/// The bucket that holds the candidate at position `i`, and the place of the
/// candidate in it.
proof fn lemma_place_in_bucket(candidates: Seq<CandidateView>, i: int) -> (place: (int, int))
    requires
        0 <= i < candidates.len(),
        recurs(sizes(candidates), candidates[i].size),
    ensures
        0 <= place.0 < size_buckets(candidates).len(),
        0 <= place.1 < bucket_positions(candidates, place.0).len(),
        bucket_positions(candidates, place.0)[place.1] == i,
        bucket_paths(size_buckets(candidates))[place.0].len() == bucket_positions(
            candidates,
            place.0,
        ).len(),
        bucket_paths(size_buckets(candidates))[place.0][place.1] == candidates[i].path,
{
    let keys = sizes(candidates);
    let size = candidates[i].size;
    lemma_recurring_keys(keys);
    assert(recurring_keys(keys).contains(size));
    let b = choose|b: int| 0 <= b < recurring_keys(keys).len() && recurring_keys(keys)[b] == size;
    law_buckets_share_a_size(candidates, b);
    lemma_positions(keys, size);
    assert(keys[i] == size);
    let m = choose|m: int|
        0 <= m < bucket_positions(candidates, b).len() && bucket_positions(candidates, b)[m] == i;
    (b, m)
}

/// The candidate at a place in a bucket: its size recurs, and its path is
/// the path at that place.
proof fn lemma_candidate_at_place(candidates: Seq<CandidateView>, b: int, m: int) -> (i: int)
    requires
        0 <= b < size_buckets(candidates).len(),
        0 <= m < bucket_paths(size_buckets(candidates))[b].len(),
    ensures
        0 <= i < candidates.len(),
        recurs(sizes(candidates), candidates[i].size),
        candidates[i].size == size_buckets(candidates)[b].size,
        m < bucket_positions(candidates, b).len(),
        i == bucket_positions(candidates, b)[m],
        bucket_paths(size_buckets(candidates))[b][m] == candidates[i].path,
{
    let keys = sizes(candidates);
    law_buckets_share_a_size(candidates, b);
    lemma_recurring_keys(keys);
    assert(recurring_keys(keys).contains(recurring_keys(keys)[b]));
    bucket_positions(candidates, b)[m]
}

/// A path is detected exactly when a candidate of that path has a copy.
proof fn lemma_detected_paths(
    candidates: Seq<CandidateView>,
    digest_of: spec_fn(Seq<char>) -> Option<Seq<char>>,
    path: Seq<char>,
)
    ensures
        detected_paths(candidates, digest_of).contains(path) <==> has_copy(
            candidates,
            digest_of,
            path,
        ),
{
    let lists = bucket_paths(size_buckets(candidates));
    let paths = paths_to_hash(size_buckets(candidates));
    let outcomes = hashing_outcomes(paths, digest_of);
    let files = hashed(candidates, digest_of);
    let keys = digests(files);
    law_grouped_paths_are_recurring_paths(files);
    if detected_paths(candidates, digest_of).contains(path) {
        let h = choose|h: int|
            0 <= h < files.len() && (#[trigger] files[h]).path == path && recurs(
                keys,
                files[h].digest,
            );
        lemma_recurs(keys, files[h].digest);
        let (q, r) = choose|q: int, r: int|
            0 <= q < r < keys.len() && #[trigger] keys[q] == files[h].digest
                && #[trigger] keys[r] == files[h].digest;
        let other = if q == h {
            r
        } else {
            q
        };
        let (low, high) = if h < other {
            (h, other)
        } else {
            (other, h)
        };
        assert(files[other].digest == files[h].digest);
        lemma_hashed_back(outcomes, low, high);
        let (k, l) = choose|k: int, l: int|
            0 <= k < l < outcomes.len() && hashed_entry()(#[trigger] outcomes[k]) == Some(
                files[low],
            ) && hashed_entry()(#[trigger] outcomes[l]) == Some(files[high]);
        assert(outcomes[k] == (paths[k], digest_of(paths[k])));
        assert(outcomes[l] == (paths[l], digest_of(paths[l])));
        lemma_flatten_back(lists, k, l);
        let (b, m, c, n) = choose|b: int, m: int, c: int, n: int| #[trigger]
            comes_before(lists, b, m, c, n) && lists[b][m] == paths[k] && lists[c][n] == paths[l];
        let i = lemma_candidate_at_place(candidates, b, m);
        let j = lemma_candidate_at_place(candidates, c, n);
        law_buckets_share_a_size(candidates, b);
        lemma_positions(sizes(candidates), size_buckets(candidates)[b].size);
        assert(i != j);
        if h < other {
            assert(is_copy_of(candidates, digest_of, i, j) && candidates[i].path == path);
        } else {
            assert(is_copy_of(candidates, digest_of, j, i) && candidates[j].path == path);
        }
    }
    if has_copy(candidates, digest_of, path) {
        let (i, j) = choose|i: int, j: int| #[trigger]
            is_copy_of(candidates, digest_of, i, j) && candidates[i].path == path;
        let digest = digest_of(path)->0;
        let (b, m) = lemma_place_in_bucket(candidates, i);
        let (c, n) = lemma_place_in_bucket(candidates, j);
        let first = HashedView { path: candidates[i].path, digest };
        let second = HashedView { path: candidates[j].path, digest };
        if comes_before(lists, b, m, c, n) {
            lemma_flatten_forth(lists, b, m, c, n);
            let (v, w) = choose|v: int, w: int|
                0 <= v < w < paths.len() && #[trigger] paths[v] == lists[b][m]
                    && #[trigger] paths[w] == lists[c][n];
            assert(outcomes[v] == (candidates[i].path, Some(digest)));
            assert(outcomes[w] == (candidates[j].path, Some(digest)));
            lemma_hashed_keeps_order(outcomes, v, w);
            let (hi, hj) = choose|hi: int, hj: int|
                0 <= hi < hj < files.len() && #[trigger] files[hi] == first
                    && #[trigger] files[hj] == second;
            lemma_recurs(keys, digest);
            assert(keys[hi] == digest && keys[hj] == digest);
            assert(files[hi].path == path && recurs(keys, files[hi].digest));
        } else {
            assert(comes_before(lists, c, n, b, m));
            lemma_flatten_forth(lists, c, n, b, m);
            let (v, w) = choose|v: int, w: int|
                0 <= v < w < paths.len() && #[trigger] paths[v] == lists[c][n]
                    && #[trigger] paths[w] == lists[b][m];
            assert(outcomes[v] == (candidates[j].path, Some(digest)));
            assert(outcomes[w] == (candidates[i].path, Some(digest)));
            lemma_hashed_keeps_order(outcomes, v, w);
            let (hj, hi) = choose|hj: int, hi: int|
                0 <= hj < hi < files.len() && #[trigger] files[hj] == second
                    && #[trigger] files[hi] == first;
            lemma_recurs(keys, digest);
            assert(keys[hj] == digest && keys[hi] == digest);
            assert(files[hi].path == path && recurs(keys, files[hi].digest));
        }
    }
}

/// A candidate that has a copy has one among the same candidates in another
/// order.
proof fn lemma_reordered_copy(
    first: Seq<CandidateView>,
    second: Seq<CandidateView>,
    order: Seq<int>,
    back: Seq<int>,
    digest_of: spec_fn(Seq<char>) -> Option<Seq<char>>,
    path: Seq<char>,
)
    requires
        reordered(first, second, order, back),
        has_copy(first, digest_of, path),
    ensures
        has_copy(second, digest_of, path),
{
    let (i, j) = choose|i: int, j: int| #[trigger]
        is_copy_of(first, digest_of, i, j) && first[i].path == path;
    assert(reordered(sizes(second), sizes(first), back, order));
    lemma_reordered_recurs(sizes(second), sizes(first), back, order, first[i].size);
    lemma_reordered_recurs(sizes(second), sizes(first), back, order, first[j].size);
    assert(second[back[i]] == first[i] && second[back[j]] == first[j]);
    assert(is_copy_of(second, digest_of, back[i], back[j]));
}

/// The order in which the candidates are found does not change which paths
/// are detected. It does change the order of the buckets, of the hashing, of
/// the groups and of their members, and so which member of a group is its
/// original.
pub proof fn law_candidate_order_does_not_change_detected_paths(
    first: Seq<CandidateView>,
    second: Seq<CandidateView>,
    order: Seq<int>,
    back: Seq<int>,
    digest_of: spec_fn(Seq<char>) -> Option<Seq<char>>,
)
    requires
        reordered(first, second, order, back),
    ensures
        detected_paths(first, digest_of) == detected_paths(second, digest_of),
        forall|path: Seq<char>|
            detected_paths(first, digest_of).contains(path) <==> #[trigger] has_copy(
                first,
                digest_of,
                path,
            ),
{
    assert(reordered(second, first, back, order));
    assert forall|path: Seq<char>|
        detected_paths(first, digest_of).contains(path) <==> #[trigger] has_copy(
            first,
            digest_of,
            path,
        ) by {
        lemma_detected_paths(first, digest_of, path);
    }
    assert forall|path: Seq<char>|
        detected_paths(first, digest_of).contains(path) <==> detected_paths(
            second,
            digest_of,
        ).contains(path) by {
        lemma_detected_paths(first, digest_of, path);
        lemma_detected_paths(second, digest_of, path);
        if has_copy(first, digest_of, path) {
            lemma_reordered_copy(first, second, order, back, digest_of, path);
        }
        if has_copy(second, digest_of, path) {
            lemma_reordered_copy(second, first, back, order, digest_of, path);
        }
    }
    assert(detected_paths(first, digest_of) =~= detected_paths(second, digest_of));
}

} // verus!
