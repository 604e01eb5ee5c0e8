//! Hash grouping: hashed files are partitioned by digest, and the digests
//! that at least two files share become duplicate groups. Within a group the
//! files keep the order in which they were hashed; the first is called the
//! original, the others its duplicates.

use crate::grouping::{
    group_items, groups_among, keys_of, lemma_duplicate_group, lemma_equal_keys_share_a_group,
    lemma_groups_follow_first_positions,
    lemma_positions, lemma_recurring_keys, lemma_reordered_recurs, paths_of,
    positions, recurring_keys, recurs, reordered, select, views_of, Keyed,
};
use crate::hasher::hex_digest;
use crate::text::{lemma_text_views_push, text_views};
use vstd::prelude::*;
use vstd::utf8::encode_utf8;

verus! {

/// A file whose content was read in full: its path and its digest text.
pub struct HashedFile {
    pub path: String,
    pub digest: String,
}

/// A hashed file as a mathematical value.
pub struct HashedView {
    pub path: Seq<char>,
    pub digest: Seq<char>,
}

impl View for HashedFile {
    type V = HashedView;

    open spec fn view(&self) -> HashedView {
        HashedView { path: self.path@, digest: self.digest@ }
    }
}

impl HashedFile {
    /// A hashed file with the given path and digest text.
    pub fn new(path: String, digest: String) -> (file: HashedFile)
        ensures
            file@ == (HashedView { path: path@, digest: digest@ }),
    {
        HashedFile { path, digest }
    }
}

impl Keyed for HashedFile {
    type Key = Seq<char>;

    type Group = DuplicateGroup;

    open spec fn key(&self) -> Seq<char> {
        self.digest@
    }

    open spec fn path(&self) -> Seq<char> {
        self.path@
    }

    open spec fn hint_of(key: Seq<char>) -> u64 {
        folded(encode_utf8(key))
    }

    fn same_key(&self, other: &Self) -> (same: bool) {
        self.digest == other.digest
    }

    fn hint(&self) -> (hint: u64) {
        fold_bytes(self.digest.as_str().as_bytes())
    }

    open spec fn group_of(key: Seq<char>, paths: Seq<Seq<char>>) -> GroupView {
        GroupView { digest: key, members: paths }
    }

    fn path_text(&self) -> (text: String) {
        self.path.clone()
    }

    fn form_group(&self, paths: Vec<String>) -> (group: DuplicateGroup) {
        DuplicateGroup { digest: self.digest.clone(), members: paths }
    }
}

/// The bytes of a text folded into one number, eight bits at a time: the
/// last eight bytes decide.
pub open spec fn folded(bytes: Seq<u8>) -> u64
    decreases bytes.len(),
{
    if bytes.len() == 0 {
        0
    } else {
        (folded(bytes.drop_last()) << 8) | (bytes.last() as u64)
    }
}

/// Folds `bytes` into one number.
fn fold_bytes(bytes: &[u8]) -> (value: u64)
    ensures
        value == folded(bytes@),
{
    let mut value: u64 = 0;
    let mut k: usize = 0;
    while k < bytes.len()
        invariant
            k <= bytes@.len(),
            value == folded(bytes@.take(k as int)),
        decreases bytes@.len() - k,
    {
        proof {
            assert(bytes@.take(k + 1).drop_last() =~= bytes@.take(k as int));
        }
        value = (value << 8) | (bytes[k] as u64);
        k += 1;
    }
    assert(bytes@.take(bytes@.len() as int) =~= bytes@);
    value
}

/// At least two files with one digest, in the order in which they were
/// hashed.
pub struct DuplicateGroup {
    digest: String,
    members: Vec<String>,
}

/// A duplicate group as a mathematical value.
pub struct GroupView {
    pub digest: Seq<char>,
    pub members: Seq<Seq<char>>,
}

impl View for DuplicateGroup {
    type V = GroupView;

    closed spec fn view(&self) -> GroupView {
        GroupView { digest: self.digest@, members: text_views(self.members@) }
    }
}

impl DuplicateGroup {
    #[verifier::type_invariant]
    spec fn well_formed(self) -> bool {
        self.members@.len() >= 2
    }

    /// A group of the files at `members`, which share `digest`. There is no
    /// group of fewer than two files.
    pub fn new(digest: String, members: Vec<String>) -> (group: Option<DuplicateGroup>)
        ensures
            members@.len() < 2 ==> group is None,
            members@.len() >= 2 ==> group is Some && group->0@ == (GroupView {
                digest: digest@,
                members: text_views(members@),
            }),
    {
        if members.len() < 2 {
            None
        } else {
            Some(DuplicateGroup { digest, members })
        }
    }

    /// The digest that the members share.
    pub fn digest(&self) -> (digest: &String)
        ensures
            digest@ == self@.digest,
    {
        &self.digest
    }

    /// All members: the original first, then its duplicates.
    pub fn members(&self) -> (members: &Vec<String>)
        ensures
            text_views(members@) == self@.members,
            members@.len() >= 2,
    {
        proof {
            use_type_invariant(self);
        }
        &self.members
    }

    /// The number of members, which is at least two.
    pub fn len(&self) -> (n: usize)
        ensures
            n == self@.members.len(),
            n >= 2,
    {
        proof {
            use_type_invariant(self);
        }
        self.members.len()
    }

    /// The member that was hashed first.
    pub fn original(&self) -> (path: &String)
        ensures
            self@.members.len() >= 2,
            path@ == self@.members[0],
    {
        proof {
            use_type_invariant(self);
        }
        &self.members[0]
    }

    /// Copies of the members after the first, in order.
    pub fn duplicates(&self) -> (paths: Vec<String>)
        ensures
            text_views(paths@) == duplicates_of(self@),
    {
        proof {
            use_type_invariant(self);
        }
        let mut paths: Vec<String> = Vec::new();
        let mut m: usize = 1;
        while m < self.members.len()
            invariant
                1 <= m <= self.members@.len(),
                text_views(paths@) == text_views(self.members@).subrange(1, m as int),
            decreases self.members@.len() - m,
        {
            let path = self.members[m].clone();
            proof {
                lemma_text_views_push(paths@, path);
            }
            paths.push(path);
            assert(text_views(paths@) =~= text_views(self.members@).subrange(1, m + 1));
            m += 1;
        }
        assert(text_views(self.members@).subrange(1, self.members@.len() as int) =~= text_views(
            self.members@,
        ).skip(1));
        paths
    }
}

/// The members of `group` after the first.
pub open spec fn duplicates_of(group: GroupView) -> Seq<Seq<char>> {
    group.members.skip(1)
}

/// Hashed files as mathematical values, position by position.
pub open spec fn hashed_views(files: Seq<HashedFile>) -> Seq<HashedView> {
    files.map_values(|file: HashedFile| file@)
}

/// Groups as mathematical values, position by position.
pub open spec fn group_views(groups: Seq<DuplicateGroup>) -> Seq<GroupView> {
    groups.map_values(|group: DuplicateGroup| group@)
}

/// The digests of `files`, position by position.
pub open spec fn digests(files: Seq<HashedView>) -> Seq<Seq<char>> {
    files.map_values(|file: HashedView| file.digest)
}

/// The paths of `files`, position by position.
pub open spec fn hashed_paths(files: Seq<HashedView>) -> Seq<Seq<char>> {
    files.map_values(|file: HashedView| file.path)
}

/// The group of one digest: the paths of the files with that digest, in the
/// order of `files`.
pub open spec fn group_of(files: Seq<HashedView>) -> spec_fn(Seq<char>) -> GroupView {
    |digest: Seq<char>|
        GroupView {
            digest,
            members: select(hashed_paths(files), positions(digests(files), digest)),
        }
}

/// The duplicate groups among `files`: one per digest that at least two
/// files share, ordered by the first file of each.
pub open spec fn duplicate_groups(files: Seq<HashedView>) -> Seq<GroupView> {
    recurring_keys(digests(files)).map_values(group_of(files))
}

/// Partitions `files` by digest and keeps the digests that occur at least
/// twice.
pub fn group_by_digest(files: &Vec<HashedFile>) -> (groups: Vec<DuplicateGroup>)
    ensures
        group_views(groups@) == duplicate_groups(hashed_views(files@)),
{
    let groups = group_items(files);
    proof {
        let views = hashed_views(files@);
        assert(keys_of(files@) =~= digests(views));
        assert(paths_of(files@) =~= hashed_paths(views));
        assert(views_of(groups@) =~= group_views(groups@));
        assert(groups_among(files@) =~= duplicate_groups(views));
    }
    groups
}

/// The positions of the files that the group at index `g` holds.
pub open spec fn member_positions(files: Seq<HashedView>, g: int) -> Seq<int> {
    positions(digests(files), duplicate_groups(files)[g].digest)
}

/// Whether one group holds both the file at position `i` and the file at
/// position `j`.
pub open spec fn grouped_together(files: Seq<HashedView>, i: int, j: int) -> bool {
    exists|g: int|
        0 <= g < duplicate_groups(files).len() && #[trigger] member_positions(files, g).contains(i)
            && member_positions(files, g).contains(j)
}

/// The paths that occur in some group.
pub open spec fn grouped_paths(files: Seq<HashedView>) -> Set<Seq<char>> {
    Set::new(
        |path: Seq<char>|
            exists|g: int, m: int|
                0 <= g < duplicate_groups(files).len() && 0 <= m < duplicate_groups(
                    files,
                )[g].members.len() && #[trigger] duplicate_groups(files)[g].members[m] == path,
    )
}

/// The paths of the files whose digest at least two files have.
pub open spec fn recurring_paths(files: Seq<HashedView>) -> Set<Seq<char>> {
    Set::new(
        |path: Seq<char>|
            exists|i: int|
                0 <= i < files.len() && (#[trigger] files[i]).path == path && recurs(
                    digests(files),
                    files[i].digest,
                ),
    )
}

/// Every group holds at least two files, all of the digest of the group, and
/// lists their paths in the order of the files. No two groups are of the
/// same digest.
pub proof fn law_groups_share_a_digest(files: Seq<HashedView>, g: int)
    requires
        0 <= g < duplicate_groups(files).len(),
    ensures
        member_positions(files, g).len() >= 2,
        duplicate_groups(files)[g].members == select(
            hashed_paths(files),
            member_positions(files, g),
        ),
        forall|m: int|
            0 <= m < member_positions(files, g).len() ==> 0 <= #[trigger] member_positions(
                files,
                g,
            )[m] < files.len() && files[member_positions(files, g)[m]].digest
                == duplicate_groups(files)[g].digest,
        forall|other: int|
            0 <= other < duplicate_groups(files).len() && other != g
                ==> #[trigger] duplicate_groups(files)[other].digest != duplicate_groups(
                files,
            )[g].digest,
{
    let keys = digests(files);
    lemma_duplicate_group(keys, g);
    lemma_recurring_keys(keys);
}

/// The groups come in the order in which their originals were hashed.
pub proof fn law_groups_follow_their_originals(files: Seq<HashedView>, g: int, h: int)
    requires
        0 <= g < h < duplicate_groups(files).len(),
    ensures
        member_positions(files, g)[0] < member_positions(files, h)[0],
{
    let keys = digests(files);
    lemma_duplicate_group(keys, g);
    lemma_duplicate_group(keys, h);
    lemma_groups_follow_first_positions(keys, g, h);
}

/// Two files of one digest are in one group.
pub proof fn law_equal_digests_share_a_group(files: Seq<HashedView>, i: int, j: int)
    requires
        0 <= i < files.len(),
        0 <= j < files.len(),
        i != j,
        files[i].digest == files[j].digest,
    ensures
        grouped_together(files, i, j),
{
    let g = lemma_equal_keys_share_a_group(digests(files), i, j);
    assert(member_positions(files, g).contains(i));
    assert(member_positions(files, g).contains(j));
}

/// Files of identical content are in one group, whatever their paths:
/// `contents` gives, for each file, the bytes that its digest was computed
/// from.
pub proof fn law_identical_content_shares_a_group(
    files: Seq<HashedView>,
    contents: Seq<Seq<u8>>,
    i: int,
    j: int,
)
    requires
        contents.len() == files.len(),
        forall|k: int|
            0 <= k < files.len() ==> (#[trigger] files[k]).digest == hex_digest(contents[k]),
        0 <= i < files.len(),
        0 <= j < files.len(),
        i != j,
        contents[i] == contents[j],
    ensures
        grouped_together(files, i, j),
{
    law_equal_digests_share_a_group(files, i, j);
}

/// Two files of different digests are in no group together.
pub proof fn law_distinct_digests_never_share_a_group(files: Seq<HashedView>, i: int, j: int)
    requires
        0 <= i < files.len(),
        0 <= j < files.len(),
        files[i].digest != files[j].digest,
    ensures
        !grouped_together(files, i, j),
{
    let keys = digests(files);
    assert forall|g: int| 0 <= g < duplicate_groups(files).len() implies !(
    #[trigger] member_positions(files, g).contains(i) && member_positions(files, g).contains(
        j,
    )) by {
        let found = member_positions(files, g);
        lemma_positions(keys, duplicate_groups(files)[g].digest);
        if found.contains(i) && found.contains(j) {
            let a = choose|a: int| 0 <= a < found.len() && found[a] == i;
            let b = choose|b: int| 0 <= b < found.len() && found[b] == j;
            assert(keys[found[a]] == keys[found[b]]);
        }
    }
}

/// The paths that occur in the groups are exactly the paths of the files
/// whose digest at least two files have.
pub proof fn law_grouped_paths_are_recurring_paths(files: Seq<HashedView>)
    ensures
        grouped_paths(files) == recurring_paths(files),
{
    let keys = digests(files);
    let groups = duplicate_groups(files);
    lemma_recurring_keys(keys);
    assert forall|path: Seq<char>| grouped_paths(files).contains(path) implies recurring_paths(
        files,
    ).contains(path) by {
        let (g, m) = choose|g: int, m: int|
            0 <= g < groups.len() && 0 <= m < groups[g].members.len()
                && #[trigger] groups[g].members[m] == path;
        law_groups_share_a_digest(files, g);
        let i = member_positions(files, g)[m];
        assert(recurring_keys(keys).contains(recurring_keys(keys)[g]));
        assert(files[i].path == path);
    }
    assert forall|path: Seq<char>| recurring_paths(files).contains(path) implies grouped_paths(
        files,
    ).contains(path) by {
        let i = choose|i: int|
            0 <= i < files.len() && (#[trigger] files[i]).path == path && recurs(
                keys,
                files[i].digest,
            );
        let digest = files[i].digest;
        assert(recurring_keys(keys).contains(digest));
        let g = choose|g: int|
            0 <= g < recurring_keys(keys).len() && recurring_keys(keys)[g] == digest;
        law_groups_share_a_digest(files, g);
        lemma_positions(keys, digest);
        assert(keys[i] == digest);
        let m = choose|m: int|
            0 <= m < member_positions(files, g).len() && member_positions(files, g)[m] == i;
        assert(groups[g].members[m] == path);
    }
    assert(grouped_paths(files) =~= recurring_paths(files));
}

/// Two runs that hash the same files in the same order find the same
/// groups, in the same order.
pub proof fn law_same_files_same_groups(first: Seq<HashedView>, second: Seq<HashedView>)
    requires
        first.len() == second.len(),
        forall|i: int| 0 <= i < first.len() ==> first[i] == second[i],
    ensures
        duplicate_groups(first) == duplicate_groups(second),
{
    assert(first =~= second);
}

/// Two files are in one group exactly when they have one digest and at
/// least two files have it.
pub proof fn lemma_grouped_together(files: Seq<HashedView>, i: int, j: int)
    requires
        0 <= i < files.len(),
        0 <= j < files.len(),
    ensures
        grouped_together(files, i, j) <==> files[i].digest == files[j].digest && recurs(
            digests(files),
            files[i].digest,
        ),
{
    let keys = digests(files);
    let digest = files[i].digest;
    lemma_recurring_keys(keys);
    if grouped_together(files, i, j) {
        let g = choose|g: int|
            0 <= g < duplicate_groups(files).len() && #[trigger] member_positions(
                files,
                g,
            ).contains(i) && member_positions(files, g).contains(j);
        let found = member_positions(files, g);
        law_groups_share_a_digest(files, g);
        let a = choose|a: int| 0 <= a < found.len() && found[a] == i;
        let b = choose|b: int| 0 <= b < found.len() && found[b] == j;
        assert(files[found[a]].digest == files[found[b]].digest);
        assert(recurring_keys(keys).contains(recurring_keys(keys)[g]));
    }
    if files[i].digest == files[j].digest && recurs(keys, digest) {
        assert(recurring_keys(keys).contains(digest));
        let g = choose|g: int|
            0 <= g < recurring_keys(keys).len() && recurring_keys(keys)[g] == digest;
        lemma_positions(keys, digest);
        assert(keys[i] == digest && keys[j] == digest);
        assert(member_positions(files, g).contains(i));
        assert(member_positions(files, g).contains(j));
    }
}

/// The digests of files in another order are the digests of the files, in
/// that other order.
proof fn lemma_reordered_digests(
    first: Seq<HashedView>,
    second: Seq<HashedView>,
    order: Seq<int>,
    back: Seq<int>,
)
    requires
        reordered(first, second, order, back),
    ensures
        reordered(digests(first), digests(second), order, back),
        reordered(digests(second), digests(first), back, order),
        reordered(second, first, back, order),
{
}

/// The order in which the files are hashed does not change which files are
/// grouped together, nor which paths are grouped at all. It does change the
/// order of the groups and of the members, and so which member is the
/// original.
pub proof fn law_order_does_not_change_membership(
    first: Seq<HashedView>,
    second: Seq<HashedView>,
    order: Seq<int>,
    back: Seq<int>,
)
    requires
        reordered(first, second, order, back),
    ensures
        forall|i: int, j: int|
            0 <= i < second.len() && 0 <= j < second.len() ==> (#[trigger] grouped_together(
                second,
                i,
                j,
            ) <==> grouped_together(first, order[i], order[j])),
        grouped_paths(first) == grouped_paths(second),
{
    lemma_reordered_digests(first, second, order, back);
    let then = digests(first);
    let now = digests(second);
    assert forall|i: int, j: int| 0 <= i < second.len() && 0 <= j < second.len() implies (
    #[trigger] grouped_together(second, i, j) <==> grouped_together(
        first,
        order[i],
        order[j],
    )) by {
        lemma_grouped_together(second, i, j);
        lemma_grouped_together(first, order[i], order[j]);
        assert(second[i] == first[order[i]] && second[j] == first[order[j]]);
        if recurs(now, second[i].digest) {
            lemma_reordered_recurs(then, now, order, back, second[i].digest);
        }
        if recurs(then, second[i].digest) {
            lemma_reordered_recurs(now, then, back, order, second[i].digest);
        }
    }
    law_grouped_paths_are_recurring_paths(first);
    law_grouped_paths_are_recurring_paths(second);
    assert forall|path: Seq<char>| recurring_paths(first).contains(path) implies recurring_paths(
        second,
    ).contains(path) by {
        let p = choose|p: int|
            0 <= p < first.len() && (#[trigger] first[p]).path == path && recurs(
                then,
                first[p].digest,
            );
        lemma_reordered_recurs(now, then, back, order, first[p].digest);
        assert(second[back[p]] == first[p]);
    }
    assert forall|path: Seq<char>| recurring_paths(second).contains(path) implies recurring_paths(
        first,
    ).contains(path) by {
        let i = choose|i: int|
            0 <= i < second.len() && (#[trigger] second[i]).path == path && recurs(
                now,
                second[i].digest,
            );
        lemma_reordered_recurs(then, now, order, back, second[i].digest);
        assert(first[order[i]] == second[i]);
    }
    assert(recurring_paths(first) =~= recurring_paths(second));
}

} // verus!
