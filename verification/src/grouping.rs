//! Grouping a sequence of items by key.
//!
//! Both detection stages are the same computation over different keys: files
//! are grouped by byte length, then by digest. A group is the ascending list
//! of positions that hold one key; groups are ordered by the first position
//! they contain; only keys held by at least two positions form a group.

use crate::text::text_views;
use std::collections::HashMap;
use vstd::prelude::*;

verus! {

/// An item that is grouped with the items whose key equals its own.
pub trait Keyed: Sized {
    /// The value that the members of one group share.
    type Key;

    /// What a group of such items is.
    type Group: View;

    /// The key of this item.
    spec fn key(&self) -> Self::Key;

    /// The path of this item, as text.
    spec fn path(&self) -> Seq<char>;

    /// A number that keys are looked up by. It says nothing of a key but
    /// where to look for it: equal keys have equal hints, and unequal keys
    /// may.
    spec fn hint_of(key: Self::Key) -> u64;

    /// The group of the items of key `key`, whose paths are `paths`.
    spec fn group_of(key: Self::Key, paths: Seq<Seq<char>>) -> <Self::Group as View>::V;

    /// Whether two items have the same key.
    fn same_key(&self, other: &Self) -> (same: bool)
        ensures
            same == (self.key() == other.key()),
    ;

    /// The hint of the key of this item.
    fn hint(&self) -> (hint: u64)
        ensures
            hint == Self::hint_of(self.key()),
    ;

    /// A copy of the path of this item.
    fn path_text(&self) -> (text: String)
        ensures
            text@ == self.path(),
    ;

    /// The group of the items that have the key of this item, given copies
    /// of their paths. There is no group of fewer than two.
    fn form_group(&self, paths: Vec<String>) -> (group: Self::Group)
        requires
            paths@.len() >= 2,
        ensures
            group@ == Self::group_of(self.key(), text_views(paths@)),
    ;
}

/// The keys of `items`, position by position.
pub open spec fn keys_of<T: Keyed>(items: Seq<T>) -> Seq<T::Key> {
    items.map_values(|item: T| item.key())
}

/// The paths of `items`, position by position.
pub open spec fn paths_of<T: Keyed>(items: Seq<T>) -> Seq<Seq<char>> {
    items.map_values(|item: T| item.path())
}

/// The values found at the positions `at`, in the order of `at`.
pub open spec fn select<A>(values: Seq<A>, at: Seq<int>) -> Seq<A> {
    at.map_values(|p: int| values[p])
}

/// The positions of `keys` that hold `k`, in ascending order.
pub open spec fn positions<K>(keys: Seq<K>, k: K) -> Seq<int>
    decreases keys.len(),
{
    if keys.len() == 0 {
        Seq::empty()
    } else {
        let earlier = positions(keys.drop_last(), k);
        if keys.last() == k {
            earlier.push(keys.len() - 1)
        } else {
            earlier
        }
    }
}

/// The keys that occur in `keys`, each once, in the order in which they
/// first occur.
pub open spec fn distinct_keys<K>(keys: Seq<K>) -> Seq<K>
    decreases keys.len(),
{
    if keys.len() == 0 {
        Seq::empty()
    } else {
        let earlier = distinct_keys(keys.drop_last());
        if earlier.contains(keys.last()) {
            earlier
        } else {
            earlier.push(keys.last())
        }
    }
}

/// Whether at least two positions of `keys` hold `k`.
pub open spec fn recurs<K>(keys: Seq<K>, k: K) -> bool {
    positions(keys, k).len() >= 2
}

/// The test `recurs(keys, _)` as a function value.
pub open spec fn recurs_in<K>(keys: Seq<K>) -> spec_fn(K) -> bool {
    |k: K| recurs(keys, k)
}

/// The function `positions(keys, _)` as a function value.
pub open spec fn positions_in<K>(keys: Seq<K>) -> spec_fn(K) -> Seq<int> {
    |k: K| positions(keys, k)
}

/// The keys held by at least two positions, in the order in which they first
/// occur.
pub open spec fn recurring_keys<K>(keys: Seq<K>) -> Seq<K> {
    distinct_keys(keys).filter(recurs_in(keys))
}

/// One list of positions per recurring key.
pub open spec fn duplicate_positions<K>(keys: Seq<K>) -> Seq<Seq<int>> {
    recurring_keys(keys).map_values(positions_in(keys))
}

/// The group of one key among `items`: its members are the items of that
/// key, in the order of `items`.
pub open spec fn group_in<T: Keyed>(items: Seq<T>) -> spec_fn(T::Key) -> <T::Group as View>::V {
    |k: T::Key| T::group_of(k, select(paths_of(items), positions(keys_of(items), k)))
}

/// The groups among `items`: one per key that at least two items share,
/// ordered by the first item of each.
pub open spec fn groups_among<T: Keyed>(items: Seq<T>) -> Seq<<T::Group as View>::V> {
    recurring_keys(keys_of(items)).map_values(group_in(items))
}

/// Groups as mathematical values, position by position.
pub open spec fn views_of<G: View>(groups: Seq<G>) -> Seq<G::V> {
    groups.map_values(|group: G| group@)
}

/// A list of positions as mathematical integers.
pub open spec fn index_view(group: Vec<usize>) -> Seq<int> {
    group@.map_values(|p: usize| p as int)
}

/// Lists of positions as mathematical integers.
pub open spec fn index_views(groups: Seq<Vec<usize>>) -> Seq<Seq<int>> {
    groups.map_values(|group: Vec<usize>| index_view(group))
}

/// `positions(keys, k)` lists exactly the positions that hold `k`, each
/// once, in ascending order.
pub proof fn lemma_positions<K>(keys: Seq<K>, k: K)
    ensures
        forall|i: int|
            0 <= i < positions(keys, k).len() ==> 0 <= #[trigger] positions(keys, k)[i]
                < keys.len() && keys[positions(keys, k)[i]] == k,
        forall|i: int, j: int|
            0 <= i < j < positions(keys, k).len() ==> #[trigger] positions(keys, k)[i]
                < #[trigger] positions(keys, k)[j],
        forall|p: int|
            0 <= p < keys.len() && #[trigger] keys[p] == k ==> positions(keys, k).contains(p),
    decreases keys.len(),
{
    if keys.len() > 0 {
        let shorter = keys.drop_last();
        let earlier = positions(shorter, k);
        lemma_positions(shorter, k);
        let all = positions(keys, k);
        assert forall|p: int| 0 <= p < keys.len() && #[trigger] keys[p] == k implies all.contains(
            p,
        ) by {
            if p < keys.len() - 1 {
                assert(shorter[p] == k);
                let at = choose|at: int| 0 <= at < earlier.len() && earlier[at] == p;
                assert(all[at] == p);
            } else {
                assert(all[all.len() - 1] == p);
            }
        }
    }
}

/// `distinct_keys(keys)` holds every key of `keys`, and none twice.
pub proof fn lemma_distinct_keys<K>(keys: Seq<K>)
    ensures
        distinct_keys(keys).no_duplicates(),
        forall|k: K| #[trigger] distinct_keys(keys).contains(k) <==> keys.contains(k),
    decreases keys.len(),
{
    if keys.len() > 0 {
        let shorter = keys.drop_last();
        let earlier = distinct_keys(shorter);
        let all = distinct_keys(keys);
        lemma_distinct_keys(shorter);
        assert forall|k: K| #[trigger] all.contains(k) <==> keys.contains(k) by {
            if all.contains(k) {
                let at = choose|at: int| 0 <= at < all.len() && all[at] == k;
                if at < earlier.len() {
                    assert(earlier[at] == k);
                    assert(earlier.contains(k));
                    assert(shorter.contains(k));
                    let p = choose|p: int| 0 <= p < shorter.len() && shorter[p] == k;
                    assert(keys[p] == k);
                } else {
                    assert(keys[keys.len() - 1] == k);
                }
            }
            if keys.contains(k) {
                let p = choose|p: int| 0 <= p < keys.len() && keys[p] == k;
                if p < keys.len() - 1 {
                    assert(shorter[p] == k);
                    assert(earlier.contains(k));
                    let at = choose|at: int| 0 <= at < earlier.len() && earlier[at] == k;
                    assert(all[at] == k);
                } else if earlier.contains(k) {
                    let at = choose|at: int| 0 <= at < earlier.len() && earlier[at] == k;
                    assert(all[at] == k);
                } else {
                    assert(all[all.len() - 1] == k);
                }
            }
        }
    }
}

/// A key that occurs nowhere has no positions.
pub proof fn lemma_absent_key<K>(keys: Seq<K>, k: K)
    requires
        !keys.contains(k),
    ensures
        positions(keys, k).len() == 0,
{
    lemma_positions(keys, k);
    if positions(keys, k).len() > 0 {
        let p = positions(keys, k)[0];
        assert(keys[p] == k);
    }
}

/// Every distinct key has a first position, and that position holds it.
pub proof fn lemma_group_head<K>(keys: Seq<K>, g: int)
    requires
        0 <= g < distinct_keys(keys).len(),
    ensures
        positions(keys, distinct_keys(keys)[g]).len() >= 1,
        0 <= positions(keys, distinct_keys(keys)[g])[0] < keys.len(),
        keys[positions(keys, distinct_keys(keys)[g])[0]] == distinct_keys(keys)[g],
{
    let k = distinct_keys(keys)[g];
    lemma_distinct_keys(keys);
    lemma_positions(keys, k);
    assert(distinct_keys(keys).contains(k));
    let p = choose|p: int| 0 <= p < keys.len() && keys[p] == k;
    assert(positions(keys, k).contains(p));
}

/// A key recurs exactly when two different positions hold it.
pub proof fn lemma_recurs<K>(keys: Seq<K>, k: K)
    ensures
        recurs(keys, k) <==> exists|p: int, q: int|
            0 <= p < q < keys.len() && #[trigger] keys[p] == k && #[trigger] keys[q] == k,
{
    let found = positions(keys, k);
    lemma_positions(keys, k);
    if recurs(keys, k) {
        assert(found[0] < found[1]);
        assert(keys[found[0]] == k && keys[found[1]] == k);
    }
    if exists|p: int, q: int|
        0 <= p < q < keys.len() && #[trigger] keys[p] == k && #[trigger] keys[q] == k {
        let (p, q) = choose|p: int, q: int|
            0 <= p < q < keys.len() && #[trigger] keys[p] == k && #[trigger] keys[q] == k;
        assert(found.contains(p));
        assert(found.contains(q));
        let a = choose|a: int| 0 <= a < found.len() && found[a] == p;
        let b = choose|b: int| 0 <= b < found.len() && found[b] == q;
        assert(a != b);
    }
}

/// Two positions that hold one key are in one group: the key recurs, and
/// its positions hold both.
pub proof fn lemma_equal_keys_share_a_group<K>(keys: Seq<K>, i: int, j: int) -> (g: int)
    requires
        0 <= i < keys.len(),
        0 <= j < keys.len(),
        i != j,
        keys[i] == keys[j],
    ensures
        0 <= g < recurring_keys(keys).len(),
        recurring_keys(keys)[g] == keys[i],
        positions(keys, keys[i]).contains(i),
        positions(keys, keys[i]).contains(j),
{
    let k = keys[i];
    lemma_recurring_keys(keys);
    lemma_recurs(keys, k);
    lemma_positions(keys, k);
    if i < j {
        assert(keys[i] == k && keys[j] == k);
    } else {
        assert(keys[j] == k && keys[i] == k);
    }
    assert(recurring_keys(keys).contains(k));
    choose|g: int| 0 <= g < recurring_keys(keys).len() && recurring_keys(keys)[g] == k
}

/// Whether `second` holds the items of `first` in another order: position
/// `i` of `second` holds the item at position `order[i]` of `first`, and
/// `back` undoes `order`.
pub open spec fn reordered<A>(
    first: Seq<A>,
    second: Seq<A>,
    order: Seq<int>,
    back: Seq<int>,
) -> bool {
    &&& second.len() == first.len()
    &&& order.len() == first.len()
    &&& back.len() == first.len()
    &&& forall|i: int|
        0 <= i < second.len() ==> 0 <= #[trigger] order[i] < first.len() && back[order[i]] == i
            && second[i] == first[order[i]]
    &&& forall|p: int|
        0 <= p < first.len() ==> 0 <= #[trigger] back[p] < second.len() && order[back[p]] == p
}

/// A key that recurs among keys recurs among the same keys in another
/// order.
pub proof fn lemma_reordered_recurs<K>(
    first: Seq<K>,
    second: Seq<K>,
    order: Seq<int>,
    back: Seq<int>,
    k: K,
)
    requires
        reordered(first, second, order, back),
        recurs(second, k),
    ensures
        recurs(first, k),
{
    lemma_recurs(second, k);
    lemma_recurs(first, k);
    let (p, q) = choose|p: int, q: int|
        0 <= p < q < second.len() && #[trigger] second[p] == k && #[trigger] second[q] == k;
    let a = order[p];
    let b = order[q];
    assert(back[a] == p && back[b] == q);
    assert(second[p] == first[a] && second[q] == first[b]);
    if a < b {
        assert(first[a] == k && first[b] == k);
    } else {
        assert(first[b] == k && first[a] == k);
    }
}

/// Filtering a sequence without repetitions leaves it without repetitions.
proof fn lemma_filter_no_duplicates<A>(items: Seq<A>, keep: spec_fn(A) -> bool)
    requires
        items.no_duplicates(),
    ensures
        items.filter(keep).no_duplicates(),
    decreases items.len(),
{
    reveal(Seq::filter);
    if items.len() > 0 {
        let rest = items.drop_last();
        lemma_filter_no_duplicates(rest, keep);
        if keep(items.last()) && rest.filter(keep).contains(items.last()) {
            rest.lemma_filter_contains_rev(keep, items.last());
            let p = choose|p: int| 0 <= p < rest.len() && rest[p] == items.last();
            assert(items[p] == items[items.len() - 1]);
        }
    }
}

/// `recurring_keys(keys)` holds exactly the keys that recur, and none twice.
pub proof fn lemma_recurring_keys<K>(keys: Seq<K>)
    ensures
        recurring_keys(keys).no_duplicates(),
        forall|k: K| #[trigger] recurring_keys(keys).contains(k) <==> recurs(keys, k),
{
    let known = distinct_keys(keys);
    let shared = recurring_keys(keys);
    lemma_distinct_keys(keys);
    lemma_filter_no_duplicates(known, recurs_in(keys));
    assert forall|k: K| #[trigger] shared.contains(k) <==> recurs(keys, k) by {
        if shared.contains(k) {
            let g = choose|g: int| 0 <= g < shared.len() && shared[g] == k;
            known.lemma_filter_pred(recurs_in(keys), g);
        }
        if recurs(keys, k) {
            lemma_positions(keys, k);
            let p = positions(keys, k)[0];
            assert(keys[p] == k);
            assert(keys.contains(k));
            assert(known.contains(k));
            let at = choose|at: int| 0 <= at < known.len() && known[at] == k;
            known.lemma_filter_contains(recurs_in(keys), at);
        }
    }
}

/// The distinct keys are in the order of their first positions.
proof fn lemma_distinct_keys_order<K>(keys: Seq<K>, a: int, b: int)
    requires
        0 <= a < b < distinct_keys(keys).len(),
    ensures
        positions(keys, distinct_keys(keys)[a]).len() >= 1,
        positions(keys, distinct_keys(keys)[b]).len() >= 1,
        positions(keys, distinct_keys(keys)[a])[0] < positions(keys, distinct_keys(keys)[b])[0],
    decreases keys.len(),
{
    let shorter = keys.drop_last();
    let earlier = distinct_keys(shorter);
    lemma_group_head(keys, a);
    lemma_group_head(keys, b);
    lemma_distinct_keys(shorter);
    if b < earlier.len() {
        lemma_distinct_keys_order(shorter, a, b);
    } else {
        lemma_group_head(shorter, a);
        lemma_absent_key(shorter, keys.last());
        lemma_positions(shorter, earlier[a]);
    }
}

/// Filtering keeps the order of what it keeps.
proof fn lemma_filter_order<A>(items: Seq<A>, keep: spec_fn(A) -> bool, g: int, h: int)
    requires
        0 <= g < h < items.filter(keep).len(),
    ensures
        exists|a: int, b: int|
            0 <= a < b < items.len() && #[trigger] items[a] == items.filter(keep)[g]
                && #[trigger] items[b] == items.filter(keep)[h],
    decreases items.len(),
{
    reveal(Seq::filter);
    let rest = items.drop_last();
    if keep(items.last()) && h == rest.filter(keep).len() {
        assert(rest.filter(keep).contains(rest.filter(keep)[g]));
        rest.lemma_filter_contains_rev(keep, rest.filter(keep)[g]);
        let a = choose|a: int| 0 <= a < rest.len() && rest[a] == rest.filter(keep)[g];
        let b = items.len() - 1;
        assert(items[a] == items.filter(keep)[g] && items[b] == items.filter(keep)[h]);
    } else {
        lemma_filter_order(rest, keep, g, h);
        let (a, b) = choose|a: int, b: int|
            0 <= a < b < rest.len() && #[trigger] rest[a] == rest.filter(keep)[g]
                && #[trigger] rest[b] == rest.filter(keep)[h];
        assert(items[a] == items.filter(keep)[g] && items[b] == items.filter(keep)[h]);
    }
}

/// The groups are in the order of their first positions.
pub proof fn lemma_groups_follow_first_positions<K>(keys: Seq<K>, g: int, h: int)
    requires
        0 <= g < h < recurring_keys(keys).len(),
    ensures
        duplicate_positions(keys)[g][0] < duplicate_positions(keys)[h][0],
{
    let known = distinct_keys(keys);
    lemma_duplicate_group(keys, g);
    lemma_duplicate_group(keys, h);
    lemma_distinct_keys(keys);
    lemma_filter_order(known, recurs_in(keys), g, h);
    let (a, b) = choose|a: int, b: int|
        0 <= a < b < known.len() && #[trigger] known[a] == recurring_keys(keys)[g]
            && #[trigger] known[b] == recurring_keys(keys)[h];
    lemma_distinct_keys_order(keys, a, b);
}

/// The group at index `g` lists the positions of one key, of which there are
/// at least two, all of them positions of `keys` that hold that key.
pub proof fn lemma_duplicate_group<K>(keys: Seq<K>, g: int)
    requires
        0 <= g < recurring_keys(keys).len(),
    ensures
        duplicate_positions(keys).len() == recurring_keys(keys).len(),
        duplicate_positions(keys)[g] == positions(keys, recurring_keys(keys)[g]),
        duplicate_positions(keys)[g].len() >= 2,
        forall|m: int|
            0 <= m < duplicate_positions(keys)[g].len() ==> 0
                <= #[trigger] duplicate_positions(keys)[g][m] < keys.len()
                && keys[duplicate_positions(keys)[g][m]] == recurring_keys(keys)[g],
{
    distinct_keys(keys).lemma_filter_pred(recurs_in(keys), g);
    lemma_positions(keys, recurring_keys(keys)[g]);
}

/// Whether `all` holds, for each distinct key among the first `n` keys, the
/// positions of that key among the first `n`.
spec fn tracks<K>(all: Seq<Vec<usize>>, keys: Seq<K>, n: int) -> bool {
    let seen = keys.take(n);
    &&& all.len() == distinct_keys(seen).len()
    &&& forall|g: int|
        0 <= g < all.len() ==> index_view(#[trigger] all[g]) == positions(
            seen,
            distinct_keys(seen)[g],
        )
}

/// Whether `list` names the group with index `g`.
spec fn names(list: Seq<usize>, g: int) -> bool {
    exists|n: int| 0 <= n < list.len() && #[trigger] list[n] == g
}

/// Whether `index` lists every group under the hint of its key, and lists
/// nothing but groups.
spec fn indexes<T: Keyed>(index: Map<u64, Vec<usize>>, known: Seq<T::Key>) -> bool {
    &&& forall|g: int|
        0 <= g < known.len() ==> index.contains_key(T::hint_of(#[trigger] known[g]))
            && names(index[T::hint_of(known[g])]@, g)
    &&& forall|hint: u64, n: int|
        index.contains_key(hint) && 0 <= n < index[hint]@.len() ==> (#[trigger] index[hint]@[n])
            < known.len()
}

/// Finds the group that the item at position `i` belongs to, among the
/// groups that `nominees` names.
fn find_group<T: Keyed>(
    items: &Vec<T>,
    all: &Vec<Vec<usize>>,
    nominees: &Vec<usize>,
    i: usize,
) -> (found: Option<usize>)
    requires
        i < items@.len(),
        tracks(all@, keys_of(items@), i as int),
        forall|n: int| 0 <= n < nominees@.len() ==> #[trigger] nominees@[n] < all@.len(),
        forall|g: int|
            0 <= g < all@.len() && #[trigger] distinct_keys(keys_of(items@).take(i as int))[g]
                == items@[i as int].key() ==> names(nominees@, g),
    ensures
        match found {
            Some(g) => g < all@.len() && distinct_keys(keys_of(items@).take(i as int))[g as int]
                == items@[i as int].key(),
            None => !distinct_keys(keys_of(items@).take(i as int)).contains(items@[i as int].key()),
        },
{
    let ghost seen = keys_of(items@).take(i as int);
    let ghost known = distinct_keys(seen);
    let mut n: usize = 0;
    while n < nominees.len()
        invariant
            n <= nominees@.len(),
            i < items@.len(),
            seen == keys_of(items@).take(i as int),
            known == distinct_keys(seen),
            tracks(all@, keys_of(items@), i as int),
            forall|n: int| 0 <= n < nominees@.len() ==> #[trigger] nominees@[n] < all@.len(),
            forall|m: int|
                0 <= m < n ==> known[#[trigger] nominees@[m] as int] != items@[i as int].key(),
        decreases nominees@.len() - n,
    {
        let g = nominees[n];
        proof {
            lemma_group_head(seen, g as int);
            assert(index_view(all@[g as int]) == positions(seen, known[g as int]));
        }
        let head = all[g][0];
        assert(head as int == index_view(all@[g as int])[0]);
        if items[head].same_key(&items[i]) {
            return Some(g);
        }
        n += 1;
    }
    proof {
        if known.contains(items@[i as int].key()) {
            let g = choose|g: int| 0 <= g < known.len() && known[g] == items@[i as int].key();
            assert(names(nominees@, g));
            let m = choose|m: int| 0 <= m < nominees@.len() && #[trigger] nominees@[m] == g;
            assert(known[nominees@[m] as int] != items@[i as int].key());
        }
    }
    None
}

/// Finds the group that the item at position `i` belongs to, among the
/// groups formed by the items before it.
fn lookup_group<T: Keyed>(
    items: &Vec<T>,
    all: &Vec<Vec<usize>>,
    index: &HashMap<u64, Vec<usize>>,
    i: usize,
    hint: u64,
) -> (found: Option<usize>)
    requires
        i < items@.len(),
        hint == T::hint_of(items@[i as int].key()),
        tracks(all@, keys_of(items@), i as int),
        indexes::<T>(index@, distinct_keys(keys_of(items@).take(i as int))),
    ensures
        match found {
            Some(g) => g < all@.len() && distinct_keys(keys_of(items@).take(i as int))[g as int]
                == items@[i as int].key(),
            None => !distinct_keys(keys_of(items@).take(i as int)).contains(items@[i as int].key()),
        },
{
    broadcast use vstd::std_specs::hash::group_hash_axioms;

    let ghost known = distinct_keys(keys_of(items@).take(i as int));
    match index.get(&hint) {
        Some(nominees) => find_group(items, all, nominees, i),
        None => {
            proof {
                if known.contains(items@[i as int].key()) {
                    let g = choose|g: int|
                        0 <= g < known.len() && known[g] == items@[i as int].key();
                    assert(index@.contains_key(T::hint_of(known[g])));
                }
            }
            None
        },
    }
}

/// Lists a new group, the one with index `group`, under `hint`.
fn list_group<T: Keyed>(
    index: &mut HashMap<u64, Vec<usize>>,
    hint: u64,
    group: usize,
    Ghost(known): Ghost<Seq<T::Key>>,
    Ghost(key): Ghost<T::Key>,
)
    requires
        indexes::<T>(old(index)@, known),
        group == known.len(),
        hint == T::hint_of(key),
    ensures
        indexes::<T>(final(index)@, known.push(key)),
{
    broadcast use vstd::std_specs::hash::group_hash_axioms;

    let ghost before = index@;
    let mut listed = match index.remove(&hint) {
        Some(listed) => listed,
        None => Vec::new(),
    };
    let ghost earlier = listed@;
    listed.push(group);
    index.insert(hint, listed);
    proof {
        let after = known.push(key);
        assert forall|g: int| 0 <= g < after.len() implies index@.contains_key(
            T::hint_of(#[trigger] after[g]),
        ) && names(index@[T::hint_of(after[g])]@, g) by {
            if g < known.len() {
                let under = T::hint_of(known[g]);
                assert(before.contains_key(under) && names(before[under]@, g));
                let at = choose|at: int|
                    0 <= at < before[under]@.len() && #[trigger] before[under]@[at] == g;
                if under == hint {
                    assert(listed@[at] == g);
                } else {
                    assert(index@[under]@[at] == g);
                }
            } else {
                assert(listed@[earlier.len() as int] == g);
            }
        }
        assert forall|other: u64, n: int|
            index@.contains_key(other) && 0 <= n < index@[other]@.len() implies (
        #[trigger] index@[other]@[n]) < after.len() by {
            if other == hint {
                if n < earlier.len() {
                    assert(before[hint]@[n] < known.len());
                }
            } else {
                assert(before[other]@[n] < known.len());
            }
        }
    }
}

/// Groups the positions of `items` by key.
///
/// The result holds one list per key that at least two items share: the
/// positions of the items with that key, ascending. The lists are ordered by
/// their first position. The group of an item is looked up by the hint of
/// its key, among the groups of that hint.
pub fn group_positions<T: Keyed>(items: &Vec<T>) -> (groups: Vec<Vec<usize>>)
    ensures
        index_views(groups@) == duplicate_positions(keys_of(items@)),
{
    let ghost keys = keys_of(items@);
    let mut all: Vec<Vec<usize>> = Vec::new();
    let mut index: HashMap<u64, Vec<usize>> = HashMap::new();
    let mut i: usize = 0;
    while i < items.len()
        invariant
            i <= items@.len(),
            keys == keys_of(items@),
            tracks(all@, keys, i as int),
            indexes::<T>(index@, distinct_keys(keys.take(i as int))),
        decreases items@.len() - i,
    {
        let ghost seen = keys.take(i as int);
        let ghost next = keys.take(i + 1);
        let ghost known = distinct_keys(seen);
        let ghost x = keys[i as int];
        let ghost before = all@;
        proof {
            assert(next.drop_last() =~= seen);
            assert(next.last() == x);
            lemma_distinct_keys(seen);
        }
        let hint = items[i].hint();
        match lookup_group(items, &all, &index, i, hint) {
            Some(g) => {
                all[g].push(i);
                proof {
                    assert(known.contains(x));
                    assert forall|j: int| 0 <= j < all@.len() implies index_view(
                        #[trigger] all@[j],
                    ) == positions(next, distinct_keys(next)[j]) by {
                        if j == g {
                            assert(index_view(all@[j]) =~= index_view(before[j]).push(i as int));
                        } else {
                            assert(all@[j] == before[j]);
                        }
                    }
                }
            },
            None => {
                let group = all.len();
                let mut fresh: Vec<usize> = Vec::new();
                fresh.push(i);
                all.push(fresh);
                list_group::<T>(&mut index, hint, group, Ghost(known), Ghost(x));
                proof {
                    lemma_absent_key(seen, x);
                    assert forall|j: int| 0 <= j < all@.len() implies index_view(
                        #[trigger] all@[j],
                    ) == positions(next, distinct_keys(next)[j]) by {
                        if j < before.len() {
                            assert(all@[j] == before[j]);
                            assert(known.contains(known[j]));
                        } else {
                            assert(index_view(all@[j]) =~= Seq::<int>::empty().push(i as int));
                        }
                    }
                }
            },
        }
        i += 1;
    }
    assert(keys.take(items@.len() as int) =~= keys);
    let ghost known = distinct_keys(keys);
    let mut groups: Vec<Vec<usize>> = Vec::new();
    let mut g: usize = 0;
    while g < all.len()
        invariant
            g <= all@.len(),
            known == distinct_keys(keys),
            all@.len() == known.len(),
            forall|j: int|
                0 <= j < all@.len() ==> index_view(#[trigger] all@[j]) == positions(keys, known[j]),
            index_views(groups@) == known.take(g as int).filter(recurs_in(keys)).map_values(
                positions_in(keys),
            ),
        decreases all@.len() - g,
    {
        let ghost kept = known.take(g as int).filter(recurs_in(keys));
        proof {
            reveal(Seq::filter);
            assert(known.take(g + 1).drop_last() =~= known.take(g as int));
            assert(index_view(all@[g as int]) == positions(keys, known[g as int]));
        }
        if all[g].len() >= 2 {
            let members = all[g].clone();
            let ghost earlier = groups@;
            groups.push(members);
            proof {
                assert(members@ =~= all@[g as int]@);
                assert(index_view(members) == positions_in(keys)(known[g as int]));
                assert(index_views(earlier).len() == earlier.len());
                assert(kept.map_values(positions_in(keys)).len() == kept.len());
                assert forall|j: int| 0 <= j < groups@.len() implies index_views(groups@)[j]
                    == kept.push(known[g as int]).map_values(positions_in(keys))[j] by {
                    if j < earlier.len() {
                        assert(index_views(groups@)[j] == index_views(earlier)[j]);
                        assert(index_views(earlier)[j] == kept.map_values(positions_in(keys))[j]);
                    }
                }
                assert(index_views(groups@) =~= kept.push(known[g as int]).map_values(
                    positions_in(keys),
                ));
            }
        }
        g += 1;
    }
    assert(known.take(all@.len() as int) =~= known);
    groups
}

/// Copies of the paths of the items at the positions of `group`, in the
/// order of `group`.
pub fn paths_at<T: Keyed>(items: &Vec<T>, group: &Vec<usize>) -> (paths: Vec<String>)
    requires
        forall|m: int| 0 <= m < group@.len() ==> group@[m] < items@.len(),
    ensures
        text_views(paths@) == select(paths_of(items@), index_view(*group)),
{
    let mut paths: Vec<String> = Vec::new();
    let mut m: usize = 0;
    while m < group.len()
        invariant
            m <= group@.len(),
            forall|m: int| 0 <= m < group@.len() ==> group@[m] < items@.len(),
            text_views(paths@) == select(paths_of(items@), index_view(*group).take(m as int)),
        decreases group@.len() - m,
    {
        let text = items[group[m]].path_text();
        let ghost earlier = paths@;
        paths.push(text);
        proof {
            let at = index_view(*group);
            let wanted = select(paths_of(items@), at.take(m + 1));
            assert(text_views(earlier).len() == earlier.len());
            assert forall|j: int| 0 <= j < paths@.len() implies text_views(paths@)[j]
                == wanted[j] by {
                if j < m {
                    assert(text_views(paths@)[j] == text_views(earlier)[j]);
                    assert(at.take(m as int)[j] == at.take(m + 1)[j]);
                } else {
                    assert(at.take(m + 1)[j] == group@[j] as int);
                }
            }
            assert(text_views(paths@) =~= wanted);
        }
        m += 1;
    }
    assert(index_view(*group).take(group@.len() as int) =~= index_view(*group));
    paths
}

/// Groups `items` by key and keeps the keys that at least two items share.
pub fn group_items<T: Keyed>(items: &Vec<T>) -> (groups: Vec<T::Group>)
    ensures
        views_of(groups@) == groups_among(items@),
{
    let found = group_positions(items);
    let ghost keys = keys_of(items@);
    let ghost shared = recurring_keys(keys);
    proof {
        assert(index_views(found@).len() == found@.len());
        assert(duplicate_positions(keys).len() == shared.len());
    }
    let mut groups: Vec<T::Group> = Vec::new();
    let mut g: usize = 0;
    while g < found.len()
        invariant
            g <= found@.len(),
            found@.len() == shared.len(),
            keys == keys_of(items@),
            shared == recurring_keys(keys),
            index_views(found@) == duplicate_positions(keys),
            views_of(groups@) == shared.take(g as int).map_values(group_in(items@)),
        decreases found@.len() - g,
    {
        let at = &found[g];
        proof {
            lemma_duplicate_group(keys, g as int);
            assert(index_views(found@)[g as int] == index_view(*at));
            assert(index_view(*at).len() == at@.len());
            assert forall|m: int| 0 <= m < at@.len() implies at@[m] < items@.len() by {
                assert(index_view(*at)[m] == at@[m] as int);
            }
            assert(index_view(*at)[0] == at@[0] as int);
        }
        let paths = paths_at(items, at);
        proof {
            assert(text_views(paths@).len() == paths@.len());
        }
        let group = items[at[0]].form_group(paths);
        let ghost earlier = groups@;
        groups.push(group);
        proof {
            let wanted = shared.take(g + 1).map_values(group_in(items@));
            assert(views_of(earlier).len() == earlier.len());
            assert(group@ == group_in(items@)(shared[g as int]));
            assert forall|j: int| 0 <= j < groups@.len() implies views_of(groups@)[j]
                == wanted[j] by {
                if j < g {
                    assert(views_of(groups@)[j] == views_of(earlier)[j]);
                    assert(shared.take(g as int)[j] == shared.take(g + 1)[j]);
                }
            }
            assert(views_of(groups@) =~= wanted);
        }
        g += 1;
    }
    assert(shared.take(found@.len() as int) =~= shared);
    groups
}

} // verus!
