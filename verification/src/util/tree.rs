//! The tree that an environment stands for, and what the operations on
//! environments do, stated on such trees.

use crate::name::Name;
use crate::util::assoc::{
    distinct, has_key, lemma_lookup_at, lemma_overlay, lemma_put, lookup, overlay, position, put,
};
use crate::util::mbe::MbeError;
use vstd::prelude::*;
use vstd::std_specs::cmp::PartialEqSpec;

verus! {

/// What an environment holds, as a value of mathematics.
pub struct Tree<T> {
    /// The values that do not repeat, by name.
    pub leaves: Seq<(Seq<char>, T)>,
    /// The repetition groups, each a sequence of environments.
    pub groups: Seq<Seq<Tree<T>>>,
    /// For each group, the place of the element that may stand for any
    /// number of repetitions.
    pub markers: Seq<Option<usize>>,
    /// For each name that repeats, the group under which it is found.
    pub leaf_index: Seq<(Seq<char>, Option<usize>)>,
    /// For each named group, its place; `None` once the name was erased.
    pub group_index: Seq<(Seq<char>, Option<usize>)>,
}

/// Every group that `ix` points at lies below `n`.
pub open spec fn index_in_range(ix: Seq<(Seq<char>, Option<usize>)>, n: nat) -> bool {
    forall|k: Seq<char>| (#[trigger] lookup(ix, k)) matches Some(Some(g)) ==> g < n
}

/// Is the tree sound? No name is bound twice in one table, there is a
/// marker for each group, the tables point at groups that exist, and the
/// same holds of every element of every group.
pub open spec fn tree_wf<T>(t: Tree<T>) -> bool
    decreases t,
{
    &&& distinct(t.leaves)
    &&& distinct(t.leaf_index)
    &&& distinct(t.group_index)
    &&& t.markers.len() == t.groups.len()
    &&& t.groups.len() <= usize::MAX
    &&& index_in_range(t.leaf_index, t.groups.len())
    &&& index_in_range(t.group_index, t.groups.len())
    &&& forall|i: int, j: int|
        0 <= i < t.groups.len() && 0 <= j < t.groups[i].len() ==> tree_wf(
            #[trigger] t.groups[i][j],
        )
}

/// The tree without leaves and without groups.
pub open spec fn empty_tree<T>() -> Tree<T> {
    Tree {
        leaves: Seq::empty(),
        groups: Seq::empty(),
        markers: Seq::empty(),
        leaf_index: Seq::empty(),
        group_index: Seq::empty(),
    }
}

/// One pointer of an index table, moved up by `by` groups.
pub open spec fn shifted_entry(p: (Seq<char>, Option<usize>), by: nat) -> (Seq<char>, Option<usize>) {
    (
        p.0,
        match p.1 {
            Some(g) => Some((g + by) as usize),
            None => None,
        },
    )
}

/// An index table with every pointer moved up by `by` groups.
pub open spec fn shifted(ix: Seq<(Seq<char>, Option<usize>)>, by: nat) -> Seq<
    (Seq<char>, Option<usize>),
> {
    Seq::new(ix.len(), |i: int| shifted_entry(ix[i], by))
}

/// `l` with `r` laid over it: the leaves of both, those of `r` standing
/// where both have one; the groups of `l`, then those of `r`; the tables
/// of `r` pointing at the new places of its groups.
pub open spec fn combine<T>(l: Tree<T>, r: Tree<T>) -> Tree<T> {
    Tree {
        leaves: overlay(l.leaves, r.leaves),
        groups: l.groups + r.groups,
        markers: l.markers + r.markers,
        leaf_index: overlay(l.leaf_index, shifted(r.leaf_index, l.groups.len())),
        group_index: overlay(l.group_index, shifted(r.group_index, l.groups.len())),
    }
}

/// A shifted table binds the keys of the table it came from, to the
/// shifted pointers.
pub proof fn lemma_shifted(ix: Seq<(Seq<char>, Option<usize>)>, by: nat)
    requires
        distinct(ix),
    ensures
        distinct(shifted(ix, by)),
        forall|k: Seq<char>|
            #![trigger has_key(shifted(ix, by), k)]
            has_key(shifted(ix, by), k) == has_key(ix, k),
        forall|k: Seq<char>|
            #![trigger lookup(shifted(ix, by), k)]
            lookup(shifted(ix, by), k) == (match lookup(ix, k) {
                Some(v) => Some(shifted_entry((k, v), by).1),
                None => None,
            }),
{
    let sh = shifted(ix, by);
    assert forall|i: int, j: int| 0 <= i < j < sh.len() implies (#[trigger] sh[i]).0 != (
    #[trigger] sh[j]).0 by {
        assert(ix[i].0 != ix[j].0);
    }
    assert forall|k: Seq<char>|
        #![trigger has_key(sh, k)]
        #![trigger lookup(sh, k)]
        has_key(sh, k) == has_key(ix, k) && lookup(sh, k) == (match lookup(ix, k) {
            Some(v) => Some(shifted_entry((k, v), by).1),
            None => None,
        }) by {
        if has_key(ix, k) {
            let j = position(ix, k);
            assert(sh[j].0 == k);
            lemma_lookup_at(ix, j);
            lemma_lookup_at(sh, j);
        }
        if has_key(sh, k) {
            let j = position(sh, k);
            assert(ix[j].0 == k);
        }
    }
}

/// Two sound trees combine to a sound tree.
pub proof fn lemma_combine_wf<T>(l: Tree<T>, r: Tree<T>)
    requires
        tree_wf(l),
        tree_wf(r),
        l.groups.len() + r.groups.len() <= usize::MAX,
    ensures
        tree_wf(combine(l, r)),
{
    let c = combine(l, r);
    let by = l.groups.len();
    lemma_overlay(l.leaves, r.leaves);
    lemma_shifted(r.leaf_index, by);
    lemma_shifted(r.group_index, by);
    lemma_overlay(l.leaf_index, shifted(r.leaf_index, by));
    lemma_overlay(l.group_index, shifted(r.group_index, by));
    assert forall|k: Seq<char>| (#[trigger] lookup(c.leaf_index, k)) matches Some(Some(g)) ==> g
        < c.groups.len() by {
        let _ = lookup(shifted(r.leaf_index, by), k);
        let _ = lookup(r.leaf_index, k);
        let _ = lookup(l.leaf_index, k);
    }
    assert forall|k: Seq<char>| (#[trigger] lookup(c.group_index, k)) matches Some(
        Some(g),
    ) ==> g < c.groups.len() by {
        let _ = lookup(shifted(r.group_index, by), k);
        let _ = lookup(r.group_index, k);
        let _ = lookup(l.group_index, k);
    }
    assert forall|i: int, j: int|
        0 <= i < c.groups.len() && 0 <= j < c.groups[i].len() implies tree_wf(
        #[trigger] c.groups[i][j],
    ) by {
        if i < by {
            assert(c.groups[i][j] == l.groups[i][j]);
        } else {
            assert(c.groups[i][j] == r.groups[i - by][j]);
        }
    }
}

/// The keys of a table, in its order.
pub open spec fn keys_of<V>(s: Seq<(Seq<char>, V)>) -> Seq<Seq<char>> {
    Seq::new(s.len(), |i: int| s[i].0)
}

/// `ix` with each of `keys` bound to `v`.
pub open spec fn put_all<V>(ix: Seq<(Seq<char>, V)>, keys: Seq<Seq<char>>, v: V) -> Seq<
    (Seq<char>, V),
>
    decreases keys.len(),
{
    if keys.len() == 0 {
        ix
    } else {
        put(put_all(ix, keys.drop_last(), v), keys.last(), v)
    }
}

/// The table of leaves `ix` after every name that can be seen in the
/// elements `sub` was pointed at group `at`: the names that repeat further
/// down, and the leaves.
pub open spec fn linked_leaves<T>(
    ix: Seq<(Seq<char>, Option<usize>)>,
    sub: Seq<Tree<T>>,
    at: usize,
) -> Seq<(Seq<char>, Option<usize>)>
    decreases sub.len(),
{
    if sub.len() == 0 {
        ix
    } else {
        put_all(
            put_all(
                linked_leaves(ix, sub.drop_last(), at),
                keys_of(sub.last().leaf_index),
                Some(at),
            ),
            keys_of(sub.last().leaves),
            Some(at),
        )
    }
}

/// The table of named groups `ix` after every group name of the elements
/// `sub` was pointed at group `at`.
pub open spec fn linked_groups<T>(
    ix: Seq<(Seq<char>, Option<usize>)>,
    sub: Seq<Tree<T>>,
    at: usize,
) -> Seq<(Seq<char>, Option<usize>)>
    decreases sub.len(),
{
    if sub.len() == 0 {
        ix
    } else {
        put_all(linked_groups(ix, sub.drop_last(), at), keys_of(sub.last().group_index), Some(at))
    }
}

/// `t` with the group `sub` added at the end, without a name. An empty
/// group is not added.
pub open spec fn with_anon_group<T>(t: Tree<T>, sub: Seq<Tree<T>>, marker: Option<usize>) -> Tree<
    T,
> {
    if sub.len() == 0 {
        t
    } else {
        Tree {
            leaves: t.leaves,
            groups: t.groups.push(sub),
            markers: t.markers.push(marker),
            leaf_index: linked_leaves(t.leaf_index, sub, t.groups.len() as usize),
            group_index: linked_groups(t.group_index, sub, t.groups.len() as usize),
        }
    }
}

/// The group that `name` stands for in `t`, unless the name is unknown or
/// was erased.
pub open spec fn named_slot<T>(t: Tree<T>, name: Seq<char>) -> Option<usize> {
    match lookup(t.group_index, name) {
        Some(Some(g)) => Some(g),
        _ => None,
    }
}

/// The group under which the leaf `name` repeats in `t`, if it does.
pub open spec fn leaf_slot<T>(t: Tree<T>, name: Seq<char>) -> Option<usize> {
    match lookup(t.leaf_index, name) {
        Some(Some(g)) => Some(g),
        _ => None,
    }
}

/// Two groups of one length, combined element by element.
pub open spec fn zip_combine<T>(a: Seq<Tree<T>>, b: Seq<Tree<T>>) -> Seq<Tree<T>> {
    Seq::new(a.len(), |j: int| combine(a[j], b[j]))
}

/// Why the group `sub` cannot be added to `t` under `name`, if it cannot:
/// the name stands for a group of another length, or of the same length
/// with another marker.
pub open spec fn named_group_error<T>(
    t: Tree<T>,
    name: Seq<char>,
    sub: Seq<Tree<T>>,
    marker: Option<usize>,
) -> Option<MbeError> {
    if sub.len() == 0 {
        None
    } else {
        match named_slot(t, name) {
            None => None,
            Some(g) => if t.groups[g as int].len() != sub.len() {
                Some(MbeError::ArityMismatch)
            } else if t.markers[g as int] != marker {
                Some(MbeError::ElideMismatch)
            } else {
                None
            },
        }
    }
}

/// `t` with the group `sub` added under `name`: as a new group where the
/// name is free, element by element into the group that the name stands
/// for where it is not.
pub open spec fn with_named_group<T>(
    t: Tree<T>,
    name: Seq<char>,
    sub: Seq<Tree<T>>,
    marker: Option<usize>,
) -> Tree<T> {
    if sub.len() == 0 {
        t
    } else {
        match named_slot(t, name) {
            None => {
                let a = with_anon_group(t, sub, marker);
                Tree { group_index: put(a.group_index, name, Some(t.groups.len() as usize)), ..a }
            },
            Some(g) => Tree {
                leaves: t.leaves,
                groups: t.groups.update(g as int, zip_combine(t.groups[g as int], sub)),
                markers: t.markers,
                leaf_index: linked_leaves(t.leaf_index, sub, g),
                group_index: linked_groups(t.group_index, sub, g),
            },
        }
    }
}

/// Every tree of `s` is sound.
pub open spec fn all_wf<T>(s: Seq<Tree<T>>) -> bool {
    forall|i: int| 0 <= i < s.len() ==> tree_wf(#[trigger] s[i])
}

/// What a table binds after `put_all`.
pub proof fn lemma_put_all<V>(ix: Seq<(Seq<char>, V)>, keys: Seq<Seq<char>>, v: V)
    requires
        distinct(ix),
    ensures
        distinct(put_all(ix, keys, v)),
        forall|k: Seq<char>|
            #![trigger lookup(put_all(ix, keys, v), k)]
            lookup(put_all(ix, keys, v), k) == (if keys.contains(k) {
                Some(v)
            } else {
                lookup(ix, k)
            }),
    decreases keys.len(),
{
    if keys.len() > 0 {
        let front = keys.drop_last();
        lemma_put_all(ix, front, v);
        lemma_put(put_all(ix, front, v), keys.last(), v);
        assert forall|k: Seq<char>|
            #![trigger lookup(put_all(ix, keys, v), k)]
            lookup(put_all(ix, keys, v), k) == (if keys.contains(k) {
                Some(v)
            } else {
                lookup(ix, k)
            }) by {
            assert(keys[keys.len() - 1] == keys.last());
            if k != keys.last() {
                assert(lookup(put_all(ix, keys, v), k) == lookup(put_all(ix, front, v), k));
                if front.contains(k) {
                    let j = choose|j: int| 0 <= j < front.len() && front[j] == k;
                    assert(keys[j] == k);
                }
                if keys.contains(k) {
                    let j = choose|j: int| 0 <= j < keys.len() && keys[j] == k;
                    assert(front[j] == k);
                }
            }
        }
    }
}

/// Linking keeps a table of leaves sound.
pub proof fn lemma_linked_leaves<T>(
    ix: Seq<(Seq<char>, Option<usize>)>,
    sub: Seq<Tree<T>>,
    at: usize,
    n: nat,
)
    requires
        distinct(ix),
        index_in_range(ix, n),
        at < n,
    ensures
        distinct(linked_leaves(ix, sub, at)),
        index_in_range(linked_leaves(ix, sub, at), n),
    decreases sub.len(),
{
    if sub.len() > 0 {
        lemma_linked_leaves(ix, sub.drop_last(), at, n);
        let a = linked_leaves(ix, sub.drop_last(), at);
        lemma_put_all(a, keys_of(sub.last().leaf_index), Some(at));
        let b = put_all(a, keys_of(sub.last().leaf_index), Some(at));
        lemma_put_all(b, keys_of(sub.last().leaves), Some(at));
        let c = put_all(b, keys_of(sub.last().leaves), Some(at));
        assert forall|k: Seq<char>| (#[trigger] lookup(c, k)) matches Some(Some(g)) ==> g < n by {
            let _ = lookup(b, k);
            let _ = lookup(a, k);
        }
    }
}

/// Linking keeps a table of named groups sound.
pub proof fn lemma_linked_groups<T>(
    ix: Seq<(Seq<char>, Option<usize>)>,
    sub: Seq<Tree<T>>,
    at: usize,
    n: nat,
)
    requires
        distinct(ix),
        index_in_range(ix, n),
        at < n,
    ensures
        distinct(linked_groups(ix, sub, at)),
        index_in_range(linked_groups(ix, sub, at), n),
    decreases sub.len(),
{
    if sub.len() > 0 {
        lemma_linked_groups(ix, sub.drop_last(), at, n);
        let a = linked_groups(ix, sub.drop_last(), at);
        lemma_put_all(a, keys_of(sub.last().group_index), Some(at));
        let b = put_all(a, keys_of(sub.last().group_index), Some(at));
        assert forall|k: Seq<char>| (#[trigger] lookup(b, k)) matches Some(Some(g)) ==> g < n by {
            let _ = lookup(a, k);
        }
    }
}

/// `s` with the element at `at` standing `extra` times instead of once;
/// `s` itself where there is no such element.
pub open spec fn stretched<S>(s: Seq<S>, at: int, extra: nat) -> Seq<S> {
    if 0 <= at < s.len() {
        s.subrange(0, at) + Seq::new(extra, |i: int| s[at]) + s.subrange(at + 1, s.len() as int)
    } else {
        s
    }
}

/// The two sequences side by side, as far as the shorter one goes.
pub open spec fn pair_up<A>(l: Seq<A>, r: Seq<A>) -> Seq<(A, A)> {
    Seq::new(
        if l.len() <= r.len() {
            l.len()
        } else {
            r.len()
        },
        |i: int| (l[i], r[i]),
    )
}

/// Why two groups cannot be paired, if they cannot. Without a marker the
/// lengths must agree; a marker on one side lets that side be shorter, or
/// longer by one; a marker on both sides decides nothing.
pub open spec fn resolve_error(
    l_len: nat,
    l_marker: Option<usize>,
    r_len: nat,
    r_marker: Option<usize>,
) -> Option<MbeError> {
    match (l_marker, r_marker) {
        (None, None) => if l_len != r_len {
            Some(MbeError::ArityMismatch)
        } else {
            None
        },
        (Some(_), None) => if l_len > r_len + 1 {
            Some(MbeError::ArityMismatch)
        } else {
            None
        },
        (None, Some(_)) => if r_len > l_len + 1 {
            Some(MbeError::ArityMismatch)
        } else {
            None
        },
        (Some(_), Some(_)) => Some(MbeError::AmbiguousElision),
    }
}

/// The pairs of two groups that can be paired: the side with the marker is
/// stretched to the length of the other.
pub open spec fn resolved<A>(
    l: Seq<A>,
    l_marker: Option<usize>,
    r: Seq<A>,
    r_marker: Option<usize>,
) -> Seq<(A, A)> {
    match (l_marker, r_marker) {
        (Some(i), None) => pair_up(stretched(l, i as int, (r.len() + 1 - l.len()) as nat), r),
        (None, Some(j)) => pair_up(l, stretched(r, j as int, (l.len() + 1 - r.len()) as nat)),
        _ => pair_up(l, r),
    }
}

/// The names, spelled out.
pub open spec fn spellings(names: Seq<Name>) -> Seq<Seq<char>> {
    Seq::new(names.len(), |i: int| names[i]@)
}

/// None of `names` repeats in `t`.
pub open spec fn none_repeats<T>(t: Tree<T>, names: Seq<Seq<char>>) -> bool {
    forall|i: int| 0 <= i < names.len() ==> leaf_slot(t, #[trigger] names[i]) is None
}

/// Two of `names` repeat under different groups of `t`.
pub open spec fn drive_clash<T>(t: Tree<T>, names: Seq<Seq<char>>) -> bool {
    exists|i: int, j: int|
        0 <= i < names.len() && 0 <= j < names.len() && leaf_slot(t, #[trigger] names[i]) is Some
            && leaf_slot(t, #[trigger] names[j]) is Some && leaf_slot(t, names[i]) != leaf_slot(
            t,
            names[j],
        )
}

/// One environment for each element of group `g` of `t`: `t` with the
/// element laid over it.
pub open spec fn marched<T>(t: Tree<T>, g: int) -> Seq<Tree<T>> {
    Seq::new(t.groups[g].len(), |i: int| combine(t, t.groups[g][i]))
}

/// The values of the leaf `name` in the elements of the group under which
/// it repeats, if it repeats and every element has it.
pub open spec fn rep_leaf<T>(t: Tree<T>, name: Seq<char>) -> Option<Seq<T>> {
    match leaf_slot(t, name) {
        None => None,
        Some(g) => {
            let group = t.groups[g as int];
            if forall|j: int| 0 <= j < group.len() ==> lookup((#[trigger] group[j]).leaves, name) is Some {
                Some(Seq::new(group.len(), |j: int| lookup(group[j].leaves, name)->0))
            } else {
                None
            }
        },
    }
}

/// Is group `g` of `r` named by one of the first `upto` entries of its
/// table of names?
pub open spec fn is_named_upto<T>(r: Tree<T>, g: int, upto: int) -> bool {
    exists|i: int| 0 <= i < upto && i < r.group_index.len() && (#[trigger] r.group_index[i]).1 == Some(g as usize)
}

/// `acc` after the groups that the first `upto` names of `r` stand for
/// were added under those names, one after the other; the first refusal,
/// if one of them is refused.
pub open spec fn merge_named<T>(acc: Tree<T>, r: Tree<T>, upto: nat) -> Result<Tree<T>, MbeError>
    decreases upto,
{
    if upto == 0 {
        Ok(acc)
    } else {
        match merge_named(acc, r, (upto - 1) as nat) {
            Err(e) => Err(e),
            Ok(a) => {
                let entry = r.group_index[upto - 1];
                match entry.1 {
                    None => Ok(a),
                    Some(g) => match named_group_error(
                        a,
                        entry.0,
                        r.groups[g as int],
                        r.markers[g as int],
                    ) {
                        Some(e) => Err(e),
                        None => Ok(
                            with_named_group(a, entry.0, r.groups[g as int], r.markers[g as int]),
                        ),
                    },
                }
            },
        }
    }
}

/// `acc` after those of the first `upto` groups of `r` that have no name
/// were added without one.
pub open spec fn merge_anon<T>(acc: Tree<T>, r: Tree<T>, upto: nat) -> Tree<T>
    decreases upto,
{
    if upto == 0 {
        acc
    } else {
        let a = merge_anon(acc, r, (upto - 1) as nat);
        if is_named_upto(r, upto - 1, r.group_index.len() as int) {
            a
        } else {
            with_anon_group(a, r.groups[upto - 1], r.markers[upto - 1])
        }
    }
}

/// `l` and `r` merged: the named groups of `r` go into the groups of the
/// same name, its other groups are added, and its leaves are laid over
/// those of `l`.
pub open spec fn merged<T>(l: Tree<T>, r: Tree<T>) -> Result<Tree<T>, MbeError> {
    match merge_named(l, r, r.group_index.len()) {
        Err(e) => Err(e),
        Ok(a) => Ok(
            Tree { leaves: overlay(l.leaves, r.leaves), ..merge_anon(a, r, r.groups.len()) },
        ),
    }
}

/// Does one of `names` repeat under group `g` of `t`?
pub open spec fn drives<T>(t: Tree<T>, names: Seq<Seq<char>>, g: usize) -> bool {
    exists|i: int| 0 <= i < names.len() && leaf_slot(t, #[trigger] names[i]) == Some(g)
}

/// Once a name was refused, the merge stays refused.
pub proof fn lemma_merge_named_stuck<T>(acc: Tree<T>, r: Tree<T>, upto: nat, later: nat)
    requires
        merge_named(acc, r, upto) is Err,
        upto <= later,
    ensures
        merge_named(acc, r, later) == merge_named(acc, r, upto),
    decreases later,
{
    if upto < later {
        lemma_merge_named_stuck(acc, r, upto, (later - 1) as nat);
    }
}

/// Does `p` hold of every leaf of `t`, at every depth?
pub open spec fn all_leaves<T>(t: Tree<T>, p: spec_fn(T) -> bool) -> bool
    decreases t,
{
    &&& forall|i: int| 0 <= i < t.leaves.len() ==> p((#[trigger] t.leaves[i]).1)
    &&& forall|i: int, j: int|
        0 <= i < t.groups.len() && 0 <= j < t.groups[i].len() ==> all_leaves(
            #[trigger] t.groups[i][j],
            p,
        )
}

/// Is `b` the tree `a` with every leaf replaced by one that `rel` relates
/// it to? The names, the shape, the markers and the tables are those of
/// `a`.
pub open spec fn mapped<T, U>(a: Tree<T>, b: Tree<U>, rel: spec_fn(T, U) -> bool) -> bool
    decreases a,
{
    &&& b.leaves.len() == a.leaves.len()
    &&& forall|i: int|
        0 <= i < a.leaves.len() ==> (#[trigger] b.leaves[i]).0 == a.leaves[i].0 && rel(
            a.leaves[i].1,
            b.leaves[i].1,
        )
    &&& b.groups.len() == a.groups.len()
    &&& forall|i: int| 0 <= i < a.groups.len() ==> (#[trigger] b.groups[i]).len() == a.groups[i].len()
    &&& forall|i: int, j: int|
        0 <= i < a.groups.len() && 0 <= j < a.groups[i].len() ==> mapped(
            a.groups[i][j],
            #[trigger] b.groups[i][j],
            rel,
        )
    &&& b.markers == a.markers
    &&& b.leaf_index == a.leaf_index
    &&& b.group_index == a.group_index
}

/// The values on which `f` may be called.
pub open spec fn callable<T, U, F: Fn(&T) -> U>(f: F) -> spec_fn(T) -> bool {
    |x: T| f.requires((&x,))
}

/// The values that `f` may return for a value.
pub open spec fn outcome<T, U, F: Fn(&T) -> U>(f: F) -> spec_fn(T, U) -> bool {
    |x: T, y: U| f.ensures((&x,), y)
}

/// A success goes to a copy of what it holds; a failure goes to nothing.
pub open spec fn unwrapped<T: Clone, E>() -> spec_fn(Result<T, E>, T) -> bool {
    |x: Result<T, E>, y: T| x matches Ok(v) && cloned(v, y)
}

/// The first failure among the first `upto` leaves.
pub open spec fn leaves_failure<T, E>(leaves: Seq<(Seq<char>, Result<T, E>)>, upto: int) -> Option<
    E,
>
    decreases upto,
{
    if upto <= 0 {
        None
    } else {
        match leaves_failure(leaves, upto - 1) {
            Some(e) => Some(e),
            None => match leaves[upto - 1].1 {
                Err(e) => Some(e),
                Ok(_) => None,
            },
        }
    }
}

/// The first failure in `t`: among its leaves in their order, then in its
/// groups in their order, each element searched in the same way before
/// the next.
pub open spec fn first_failure<T, E>(t: Tree<Result<T, E>>) -> Option<E>
    decreases t, 2int, 0int,
{
    match leaves_failure(t.leaves, t.leaves.len() as int) {
        Some(e) => Some(e),
        None => groups_failure(t, t.groups.len() as int),
    }
}

/// The first failure in the first `upto` groups of `t`.
pub open spec fn groups_failure<T, E>(t: Tree<Result<T, E>>, upto: int) -> Option<E>
    decreases t, 1int, upto,
{
    if upto <= 0 {
        None
    } else {
        match groups_failure(t, upto - 1) {
            Some(e) => Some(e),
            None => if upto - 1 < t.groups.len() {
                elems_failure(t, upto - 1, t.groups[upto - 1].len() as int)
            } else {
                None
            },
        }
    }
}

/// The first failure in the first `upto` elements of group `i` of `t`.
pub open spec fn elems_failure<T, E>(t: Tree<Result<T, E>>, i: int, upto: int) -> Option<E>
    decreases t, 0int, upto,
{
    if upto <= 0 {
        None
    } else {
        match elems_failure(t, i, upto - 1) {
            Some(e) => Some(e),
            None => if 0 <= i < t.groups.len() && upto - 1 < t.groups[i].len() {
                first_failure(t.groups[i][upto - 1])
            } else {
                None
            },
        }
    }
}

/// A tree that `mapped` relates to a sound tree is sound.
pub proof fn lemma_mapped_wf<T, U>(a: Tree<T>, b: Tree<U>, rel: spec_fn(T, U) -> bool)
    requires
        tree_wf(a),
        mapped(a, b, rel),
    ensures
        tree_wf(b),
    decreases a,
{
    assert forall|i: int, j: int| 0 <= i < j < b.leaves.len() implies (#[trigger] b.leaves[i]).0 != (
    #[trigger] b.leaves[j]).0 by {
        assert(a.leaves[i].0 != a.leaves[j].0);
    }
    assert forall|i: int, j: int|
        0 <= i < b.groups.len() && 0 <= j < b.groups[i].len() implies tree_wf(
        #[trigger] b.groups[i][j],
    ) by {
        assert(tree_wf(a.groups[i][j]));
        lemma_mapped_wf(a.groups[i][j], b.groups[i][j], rel);
    }
}

/// A failure among the first leaves is the first failure among more.
pub proof fn lemma_leaves_failure_stuck<T, E>(
    leaves: Seq<(Seq<char>, Result<T, E>)>,
    upto: int,
    later: int,
)
    requires
        leaves_failure(leaves, upto) is Some,
        upto <= later,
    ensures
        leaves_failure(leaves, later) == leaves_failure(leaves, upto),
    decreases later,
{
    if upto < later {
        lemma_leaves_failure_stuck(leaves, upto, later - 1);
    }
}

/// A failure among the first elements is the first failure among more.
pub proof fn lemma_elems_failure_stuck<T, E>(t: Tree<Result<T, E>>, i: int, upto: int, later: int)
    requires
        elems_failure(t, i, upto) is Some,
        upto <= later,
    ensures
        elems_failure(t, i, later) == elems_failure(t, i, upto),
    decreases later,
{
    if upto < later {
        lemma_elems_failure_stuck(t, i, upto, later - 1);
    }
}

/// A failure among the first groups is the first failure among more.
pub proof fn lemma_groups_failure_stuck<T, E>(t: Tree<Result<T, E>>, upto: int, later: int)
    requires
        groups_failure(t, upto) is Some,
        upto <= later,
    ensures
        groups_failure(t, later) == groups_failure(t, upto),
    decreases later,
{
    if upto < later {
        lemma_groups_failure_stuck(t, upto, later - 1);
    }
}

/// The place in a sequence of length `len` from which the `k`-th element
/// of its stretched form comes.
pub open spec fn source_of(len: int, at: int, extra: int, k: int) -> int {
    if 0 <= at < len {
        if k < at {
            k
        } else if k < at + extra {
            at
        } else {
            k - extra + 1
        }
    } else {
        k
    }
}

/// The place in the left group from which the left half of the `k`-th
/// pair comes.
pub open spec fn left_source(
    l_len: int,
    l_marker: Option<usize>,
    r_len: int,
    r_marker: Option<usize>,
    k: int,
) -> int {
    match (l_marker, r_marker) {
        (Some(at), None) => source_of(l_len, at as int, r_len + 1 - l_len, k),
        _ => k,
    }
}

/// The place in the right group from which the right half of the `k`-th
/// pair comes.
pub open spec fn right_source(
    l_len: int,
    l_marker: Option<usize>,
    r_len: int,
    r_marker: Option<usize>,
    k: int,
) -> int {
    match (l_marker, r_marker) {
        (None, Some(at)) => source_of(r_len, at as int, l_len + 1 - r_len, k),
        _ => k,
    }
}

/// Every element of a stretched sequence is an element of the sequence.
pub proof fn lemma_stretched<S>(s: Seq<S>, at: int, extra: nat)
    ensures
        stretched(s, at, extra).len() == (if 0 <= at < s.len() {
            s.len() - 1 + extra
        } else {
            s.len() as int
        }),
        forall|k: int|
            0 <= k < stretched(s, at, extra).len() ==> 0 <= source_of(s.len() as int, at, extra as int, k)
                < s.len() && #[trigger] stretched(s, at, extra)[k] == s[source_of(
                s.len() as int,
                at,
                extra as int,
                k,
            )],
{
}

/// The pairs of two groups, by the places they come from.
pub proof fn lemma_resolved<A>(
    l: Seq<A>,
    l_marker: Option<usize>,
    r: Seq<A>,
    r_marker: Option<usize>,
)
    requires
        resolve_error(l.len(), l_marker, r.len(), r_marker) is None,
    ensures
        forall|k: int|
            0 <= k < resolved(l, l_marker, r, r_marker).len() ==> {
                let li = left_source(l.len() as int, l_marker, r.len() as int, r_marker, k);
                let ri = right_source(l.len() as int, l_marker, r.len() as int, r_marker, k);
                0 <= li < l.len() && 0 <= ri < r.len() && #[trigger] resolved(
                    l,
                    l_marker,
                    r,
                    r_marker,
                )[k] == (l[li], r[ri])
            },
{
    match (l_marker, r_marker) {
        (Some(i), None) => {
            lemma_stretched(l, i as int, (r.len() + 1 - l.len()) as nat);
        },
        (None, Some(j)) => {
            lemma_stretched(r, j as int, (l.len() + 1 - r.len()) as nat);
        },
        _ => {},
    }
}

/// Do the two tables bind the same names?
pub open spec fn same_keys<T>(a: Seq<(Seq<char>, T)>, b: Seq<(Seq<char>, T)>) -> bool {
    a.len() == b.len() && forall|i: int| 0 <= i < a.len() ==> has_key(b, (#[trigger] a[i]).0)
}

/// Why `a` and `b` cannot be paired leaf by leaf, if they cannot: the
/// first obstacle met, leaves before groups, each group's elements before
/// the next group. Leaves that do not go by the same names are
/// `MissingLeaf`; another number of groups is `ArityMismatch`.
pub open spec fn zip_error<T>(a: Tree<T>, b: Tree<T>) -> Option<MbeError>
    decreases a, 2int, 0int,
{
    if !same_keys(a.leaves, b.leaves) {
        Some(MbeError::MissingLeaf)
    } else if a.groups.len() != b.groups.len() {
        Some(MbeError::ArityMismatch)
    } else {
        zip_groups_error(a, b, a.groups.len() as int)
    }
}

/// The first obstacle in the first `upto` groups.
pub open spec fn zip_groups_error<T>(a: Tree<T>, b: Tree<T>, upto: int) -> Option<MbeError>
    decreases a, 1int, upto,
{
    if upto <= 0 {
        None
    } else {
        match zip_groups_error(a, b, upto - 1) {
            Some(e) => Some(e),
            None => if upto - 1 < a.groups.len() {
                let i = upto - 1;
                match resolve_error(
                    a.groups[i].len(),
                    a.markers[i],
                    b.groups[i].len(),
                    b.markers[i],
                ) {
                    Some(e) => Some(e),
                    None => zip_elems_error(
                        a,
                        b,
                        i,
                        resolved(a.groups[i], a.markers[i], b.groups[i], b.markers[i]).len() as int,
                    ),
                }
            } else {
                None
            },
        }
    }
}

/// The first obstacle in the first `upto` pairs of group `i`.
pub open spec fn zip_elems_error<T>(a: Tree<T>, b: Tree<T>, i: int, upto: int) -> Option<MbeError>
    decreases a, 0int, upto,
{
    if upto <= 0 {
        None
    } else {
        match zip_elems_error(a, b, i, upto - 1) {
            Some(e) => Some(e),
            None => {
                let li = left_source(
                    a.groups[i].len() as int,
                    a.markers[i],
                    b.groups[i].len() as int,
                    b.markers[i],
                    upto - 1,
                );
                let ri = right_source(
                    a.groups[i].len() as int,
                    a.markers[i],
                    b.groups[i].len() as int,
                    b.markers[i],
                    upto - 1,
                );
                if 0 <= i < a.groups.len() && 0 <= li < a.groups[i].len() {
                    zip_error(a.groups[i][li], b.groups[i][ri])
                } else {
                    None
                }
            },
        }
    }
}

/// Is `c` the tree of `a` and `b` paired leaf by leaf? Each leaf of `c`
/// is related by `rel` to the leaves of that name in `a` and `b`; each
/// group of `c` has one element for each pair of the groups of `a` and
/// `b` at its place; `c` has no marker, and the tables of `a`.
pub open spec fn zipped<T, U>(a: Tree<T>, b: Tree<T>, c: Tree<U>, rel: spec_fn(T, T, U) -> bool) -> bool
    decreases a,
{
    &&& c.leaves.len() == a.leaves.len()
    &&& forall|i: int|
        0 <= i < a.leaves.len() ==> (#[trigger] c.leaves[i]).0 == a.leaves[i].0 && lookup(
            b.leaves,
            a.leaves[i].0,
        ) is Some && rel(a.leaves[i].1, lookup(b.leaves, a.leaves[i].0)->0, c.leaves[i].1)
    &&& c.groups.len() == a.groups.len()
    &&& forall|i: int|
        0 <= i < a.groups.len() ==> (#[trigger] c.groups[i]).len() == resolved(
            a.groups[i],
            a.markers[i],
            b.groups[i],
            b.markers[i],
        ).len()
    &&& forall|i: int, k: int|
        0 <= i < a.groups.len() && 0 <= k < c.groups[i].len() ==> {
            let li = left_source(
                a.groups[i].len() as int,
                a.markers[i],
                b.groups[i].len() as int,
                b.markers[i],
                k,
            );
            let ri = right_source(
                a.groups[i].len() as int,
                a.markers[i],
                b.groups[i].len() as int,
                b.markers[i],
                k,
            );
            0 <= li < a.groups[i].len() ==> zipped(
                a.groups[i][li],
                b.groups[i][ri],
                #[trigger] c.groups[i][k],
                rel,
            )
        }
    &&& c.markers == Seq::new(a.groups.len(), |i: int| None::<usize>)
    &&& c.leaf_index == a.leaf_index
    &&& c.group_index == a.group_index
}

/// The values that `f` may return for a pair of values.
pub open spec fn outcome2<T, U, F: Fn(&T, &T) -> U>(f: F) -> spec_fn(T, T, U) -> bool {
    |x: T, y: T, z: U| f.ensures((&x, &y), z)
}

/// An obstacle among the first pairs is the first obstacle among more.
pub proof fn lemma_zip_elems_error_stuck<T>(a: Tree<T>, b: Tree<T>, i: int, upto: int, later: int)
    requires
        zip_elems_error(a, b, i, upto) is Some,
        upto <= later,
    ensures
        zip_elems_error(a, b, i, later) == zip_elems_error(a, b, i, upto),
    decreases later,
{
    if upto < later {
        lemma_zip_elems_error_stuck(a, b, i, upto, later - 1);
    }
}

/// An obstacle among the first groups is the first obstacle among more.
pub proof fn lemma_zip_groups_error_stuck<T>(a: Tree<T>, b: Tree<T>, upto: int, later: int)
    requires
        zip_groups_error(a, b, upto) is Some,
        upto <= later,
    ensures
        zip_groups_error(a, b, later) == zip_groups_error(a, b, upto),
    decreases later,
{
    if upto < later {
        lemma_zip_groups_error_stuck(a, b, upto, later - 1);
    }
}

/// Does one of the first `upto` entries of `ix` point at group `g`?
pub open spec fn pointed_upto(ix: Seq<(Seq<char>, Option<usize>)>, g: int, upto: int) -> bool {
    exists|d: int| 0 <= d < upto && d < ix.len() && (#[trigger] ix[d]).1 == Some(g as usize)
}

/// Is entry `e` of `ix` the first that points at its group?
pub open spec fn first_pointer(ix: Seq<(Seq<char>, Option<usize>)>, e: int) -> bool {
    ix[e].1 matches Some(g) && !pointed_upto(ix, g as int, e)
}

/// The values that `red` may return for a new value and what was
/// gathered so far.
pub open spec fn reduction<U, R: Fn(&U, &U) -> U>(red: R) -> spec_fn(U, U, U) -> bool {
    |v: U, acc: U, out: U| red.ensures((&v, &acc), out)
}

/// Why `a` and `b` cannot be folded together, if they cannot: the first
/// obstacle met. Leaves that do not go by the same names are
/// `MissingLeaf`, and so is a name that repeats in `a` and not in `b`.
pub open spec fn fold_error<T>(a: Tree<T>, b: Tree<T>) -> Option<MbeError>
    decreases a, 2int, 0int,
{
    if !same_keys(a.leaves, b.leaves) {
        Some(MbeError::MissingLeaf)
    } else {
        fold_entries_error(a, b, a.leaf_index.len() as int)
    }
}

/// The first obstacle met on the groups that the first `upto` entries of
/// the table of leaves of `a` point at. A group is looked at once, when
/// the first entry points at it; its partner is the group of `b` under
/// which the name of that entry repeats.
pub open spec fn fold_entries_error<T>(a: Tree<T>, b: Tree<T>, upto: int) -> Option<MbeError>
    decreases a, 1int, upto,
{
    if upto <= 0 {
        None
    } else {
        match fold_entries_error(a, b, upto - 1) {
            Some(e) => Some(e),
            None => if upto - 1 < a.leaf_index.len() && first_pointer(a.leaf_index, upto - 1) {
                let g = a.leaf_index[upto - 1].1->0 as int;
                match leaf_slot(b, a.leaf_index[upto - 1].0) {
                    None => Some(MbeError::MissingLeaf),
                    Some(og) => match resolve_error(
                        a.groups[g].len(),
                        a.markers[g],
                        b.groups[og as int].len(),
                        b.markers[og as int],
                    ) {
                        Some(e) => Some(e),
                        None => fold_elems_error(
                            a,
                            b,
                            g,
                            og as int,
                            resolved(
                                a.groups[g],
                                a.markers[g],
                                b.groups[og as int],
                                b.markers[og as int],
                            ).len() as int,
                        ),
                    },
                }
            } else {
                None
            },
        }
    }
}

/// The first obstacle met in the first `upto` pairs of group `g` of `a`
/// and group `og` of `b`.
pub open spec fn fold_elems_error<T>(a: Tree<T>, b: Tree<T>, g: int, og: int, upto: int) -> Option<
    MbeError,
>
    decreases a, 0int, upto,
{
    if upto <= 0 {
        None
    } else {
        match fold_elems_error(a, b, g, og, upto - 1) {
            Some(e) => Some(e),
            None => {
                let li = left_source(
                    a.groups[g].len() as int,
                    a.markers[g],
                    b.groups[og].len() as int,
                    b.markers[og],
                    upto - 1,
                );
                let ri = right_source(
                    a.groups[g].len() as int,
                    a.markers[g],
                    b.groups[og].len() as int,
                    b.markers[og],
                    upto - 1,
                );
                if 0 <= g < a.groups.len() && 0 <= li < a.groups[g].len() {
                    fold_error(a.groups[g][li], b.groups[og][ri])
                } else {
                    None
                }
            },
        }
    }
}

/// Marks a value as what was gathered at some point of a fold. It holds
/// of every value.
pub open spec fn gathered<U>(mid: U) -> bool {
    true
}

/// Marks two values as what was gathered at some point of a fold and the
/// value that is put to it next. It holds of every two values.
pub open spec fn gathered_with<U>(mid: U, v: U) -> bool {
    true
}

/// Can `out` be what is gathered from the first `upto` leaves, starting
/// from `seed`? Each leaf is paired with the leaf of its name, the pair
/// is turned into a value, and the value is put to what was gathered.
pub open spec fn fold_leaves<T, U>(
    al: Seq<(Seq<char>, T)>,
    bl: Seq<(Seq<char>, T)>,
    f: spec_fn(T, T, U) -> bool,
    red: spec_fn(U, U, U) -> bool,
    upto: int,
    seed: U,
    out: U,
) -> bool
    decreases upto, 0int,
{
    if upto <= 0 {
        out == seed
    } else {
        fold_leaf(al, bl, f, red, upto - 1, seed, out)
    }
}

/// Can `out` be what is gathered from the leaves up to and with the one
/// at `at`?
pub open spec fn fold_leaf<T, U>(
    al: Seq<(Seq<char>, T)>,
    bl: Seq<(Seq<char>, T)>,
    f: spec_fn(T, T, U) -> bool,
    red: spec_fn(U, U, U) -> bool,
    at: int,
    seed: U,
    out: U,
) -> bool
    decreases at, 1int,
{
    at >= 0 && exists|mid: U, v: U|
        #![trigger gathered_with(mid, v)]
        gathered_with(mid, v) && fold_leaves(al, bl, f, red, at, seed, mid) && f(al[at].1, lookup(bl, al[at].0)->0, v)
            && red(v, mid, out)
}

/// Can `out` be what is gathered from `a` and `b`, starting from `seed`?
/// First the leaves, then the groups, each pair of elements in turn.
pub open spec fn folded<T, U>(
    a: Tree<T>,
    b: Tree<T>,
    f: spec_fn(T, T, U) -> bool,
    red: spec_fn(U, U, U) -> bool,
    seed: U,
    out: U,
) -> bool
    decreases a, 2int, 0int, 0int,
{
    exists|mid: U|
        #![trigger gathered(mid)]
        gathered(mid) && fold_leaves(a.leaves, b.leaves, f, red, a.leaves.len() as int, seed, mid) && fold_entries(
            a,
            b,
            f,
            red,
            a.leaf_index.len() as int,
            mid,
            out,
        )
}

/// Can `out` be what is gathered from the groups that the first `upto`
/// entries of the table of leaves of `a` point at?
pub open spec fn fold_entries<T, U>(
    a: Tree<T>,
    b: Tree<T>,
    f: spec_fn(T, T, U) -> bool,
    red: spec_fn(U, U, U) -> bool,
    upto: int,
    seed: U,
    out: U,
) -> bool
    decreases a, 1int, upto, 0int,
{
    if upto <= 0 {
        out == seed
    } else {
        fold_entry(a, b, f, red, upto - 1, seed, out)
    }
}

/// Can `out` be what is gathered from the groups that the entries up to
/// and with the one at `at` point at?
pub open spec fn fold_entry<T, U>(
    a: Tree<T>,
    b: Tree<T>,
    f: spec_fn(T, T, U) -> bool,
    red: spec_fn(U, U, U) -> bool,
    at: int,
    seed: U,
    out: U,
) -> bool
    decreases a, 1int, at, 1int,
{
    at >= 0 && exists|mid: U|
        #![trigger gathered(mid)]
        gathered(mid) && fold_entries(a, b, f, red, at, seed, mid) && (if at < a.leaf_index.len() && first_pointer(
            a.leaf_index,
            at,
        ) {
            let g = a.leaf_index[at].1->0 as int;
            let og = leaf_slot(b, a.leaf_index[at].0)->0 as int;
            fold_elems(
                a,
                b,
                f,
                red,
                g,
                og,
                resolved(a.groups[g], a.markers[g], b.groups[og], b.markers[og]).len() as int,
                mid,
                out,
            )
        } else {
            out == mid
        })
}

/// Can `out` be what is gathered from the first `upto` pairs of group
/// `g` of `a` and group `og` of `b`?
pub open spec fn fold_elems<T, U>(
    a: Tree<T>,
    b: Tree<T>,
    f: spec_fn(T, T, U) -> bool,
    red: spec_fn(U, U, U) -> bool,
    g: int,
    og: int,
    upto: int,
    seed: U,
    out: U,
) -> bool
    decreases a, 0int, upto, 0int,
{
    if upto <= 0 {
        out == seed
    } else {
        fold_elem(a, b, f, red, g, og, upto - 1, seed, out)
    }
}

/// Can `out` be what is gathered from the pairs up to and with the one at
/// `at`?
pub open spec fn fold_elem<T, U>(
    a: Tree<T>,
    b: Tree<T>,
    f: spec_fn(T, T, U) -> bool,
    red: spec_fn(U, U, U) -> bool,
    g: int,
    og: int,
    at: int,
    seed: U,
    out: U,
) -> bool
    decreases a, 0int, at, 1int,
{
    at >= 0 && exists|mid: U|
        #![trigger gathered(mid)]
        gathered(mid) && fold_elems(a, b, f, red, g, og, at, seed, mid) && {
            let li = left_source(
                a.groups[g].len() as int,
                a.markers[g],
                b.groups[og].len() as int,
                b.markers[og],
                at,
            );
            let ri = right_source(
                a.groups[g].len() as int,
                a.markers[g],
                b.groups[og].len() as int,
                b.markers[og],
                at,
            );
            if 0 <= g < a.groups.len() && 0 <= li < a.groups[g].len() {
                folded(a.groups[g][li], b.groups[og][ri], f, red, mid, out)
            } else {
                out == mid
            }
        }
}

/// An obstacle among the first pairs is the first obstacle among more.
pub proof fn lemma_fold_elems_error_stuck<T>(
    a: Tree<T>,
    b: Tree<T>,
    g: int,
    og: int,
    upto: int,
    later: int,
)
    requires
        fold_elems_error(a, b, g, og, upto) is Some,
        upto <= later,
    ensures
        fold_elems_error(a, b, g, og, later) == fold_elems_error(a, b, g, og, upto),
    decreases later,
{
    if upto < later {
        lemma_fold_elems_error_stuck(a, b, g, og, upto, later - 1);
    }
}

/// An obstacle among the first entries is the first obstacle among more.
pub proof fn lemma_fold_entries_error_stuck<T>(a: Tree<T>, b: Tree<T>, upto: int, later: int)
    requires
        fold_entries_error(a, b, upto) is Some,
        upto <= later,
    ensures
        fold_entries_error(a, b, later) == fold_entries_error(a, b, upto),
    decreases later,
{
    if upto < later {
        lemma_fold_entries_error_stuck(a, b, upto, later - 1);
    }
}

/// Is every leaf of `a` a leaf of `b`, with a value that `==` takes for
/// the same?
pub open spec fn leaves_within<T: PartialEq>(a: Seq<(Seq<char>, T)>, b: Seq<(Seq<char>, T)>) -> bool {
    forall|i: int|
        0 <= i < a.len() ==> lookup(b, (#[trigger] a[i]).0) is Some && a[i].1.eq_spec(
            &lookup(b, a[i].0)->0,
        )
}

/// Does `b` point every name at the group that `a` points it at? A name
/// that `a` binds to no group is passed over.
pub open spec fn pointers_within(
    a: Seq<(Seq<char>, Option<usize>)>,
    b: Seq<(Seq<char>, Option<usize>)>,
) -> bool {
    forall|i: int|
        0 <= i < a.len() && (#[trigger] a[i]).1 is Some ==> lookup(b, a[i].0) == Some(a[i].1)
}

/// Are the two trees the same? They have the same leaves, whatever the
/// order, with values that `==` takes for the same; the same groups and
/// markers, place by place; and tables that point the same names at the
/// same groups, where a name whose group was erased counts as not bound.
pub open spec fn tree_eq<T: PartialEq>(a: Tree<T>, b: Tree<T>) -> bool
    decreases a,
{
    &&& leaves_within(a.leaves, b.leaves)
    &&& leaves_within(b.leaves, a.leaves)
    &&& a.groups.len() == b.groups.len()
    &&& forall|i: int| 0 <= i < a.groups.len() ==> (#[trigger] a.groups[i]).len() == b.groups[i].len()
    &&& forall|i: int, j: int|
        0 <= i < a.groups.len() && 0 <= j < a.groups[i].len() ==> tree_eq(
            #[trigger] a.groups[i][j],
            b.groups[i][j],
        )
    &&& a.markers == b.markers
    &&& pointers_within(a.leaf_index, b.leaf_index)
    &&& pointers_within(b.leaf_index, a.leaf_index)
    &&& pointers_within(a.group_index, b.group_index)
    &&& pointers_within(b.group_index, a.group_index)
}

/// Marks a pair of places. It holds of every two places.
pub open spec fn pair_at(i: int, k: int) -> bool {
    true
}

/// The pairs of values on which `f` may be called.
pub open spec fn callable2<T, U, F: Fn(&T, &T) -> U>(f: F) -> spec_fn(T, T) -> bool {
    |x: T, y: T| f.requires((&x, &y))
}

/// Does `p` hold of every two leaves that `map_with` brings together
/// when it pairs `a` with `b`? Leaves of one name, and the leaves of the
/// elements that stand at one place in the pairs of two groups at one
/// place.
pub open spec fn zip_pairs_all<T>(a: Tree<T>, b: Tree<T>, p: spec_fn(T, T) -> bool) -> bool
    decreases a,
{
    &&& forall|i: int|
        0 <= i < a.leaves.len() && lookup(b.leaves, (#[trigger] a.leaves[i]).0) is Some ==> p(
            a.leaves[i].1,
            lookup(b.leaves, a.leaves[i].0)->0,
        )
    &&& forall|i: int, k: int|
        #![trigger pair_at(i, k)]
        pair_at(i, k) && 0 <= i < a.groups.len() && 0 <= k < resolved(
            a.groups[i],
            a.markers[i],
            b.groups[i],
            b.markers[i],
        ).len() ==> {
            let li = left_source(
                a.groups[i].len() as int,
                a.markers[i],
                b.groups[i].len() as int,
                b.markers[i],
                k,
            );
            let ri = right_source(
                a.groups[i].len() as int,
                a.markers[i],
                b.groups[i].len() as int,
                b.markers[i],
                k,
            );
            0 <= li < a.groups[i].len() ==> zip_pairs_all(a.groups[i][li], b.groups[i][ri], p)
        }
}

/// Does `p` hold of every two leaves that `map_reduce_with` brings
/// together when it pairs `a` with `b`? Leaves of one name, and the
/// leaves of the elements that stand at one place in the pairs of a group
/// of `a` and its partner in `b`, for each entry `e` of the table of
/// leaves of `a` that is the first to point at its group.
pub open spec fn fold_pairs_all<T>(a: Tree<T>, b: Tree<T>, p: spec_fn(T, T) -> bool) -> bool
    decreases a,
{
    &&& forall|i: int|
        0 <= i < a.leaves.len() && lookup(b.leaves, (#[trigger] a.leaves[i]).0) is Some ==> p(
            a.leaves[i].1,
            lookup(b.leaves, a.leaves[i].0)->0,
        )
    &&& forall|e: int, k: int|
        #![trigger pair_at(e, k)]
        pair_at(e, k) && 0 <= e < a.leaf_index.len() && first_pointer(a.leaf_index, e) && leaf_slot(
            b,
            a.leaf_index[e].0,
        ) is Some ==> {
            let g = a.leaf_index[e].1->0 as int;
            let og = leaf_slot(b, a.leaf_index[e].0)->0 as int;
            let li = left_source(
                a.groups[g].len() as int,
                a.markers[g],
                b.groups[og].len() as int,
                b.markers[og],
                k,
            );
            let ri = right_source(
                a.groups[g].len() as int,
                a.markers[g],
                b.groups[og].len() as int,
                b.markers[og],
                k,
            );
            0 <= k < resolved(a.groups[g], a.markers[g], b.groups[og], b.markers[og]).len() && 0
                <= g < a.groups.len() && 0 <= li < a.groups[g].len() ==> fold_pairs_all(
                a.groups[g][li],
                b.groups[og][ri],
                p,
            )
        }
}

/// What holds of every value holds of every leaf.
pub proof fn lemma_all_leaves_of_all<T>(t: Tree<T>, p: spec_fn(T) -> bool)
    requires
        forall|x: T| #[trigger] p(x),
    ensures
        all_leaves(t, p),
    decreases t,
{
    assert forall|i: int, j: int|
        0 <= i < t.groups.len() && 0 <= j < t.groups[i].len() implies all_leaves(
        #[trigger] t.groups[i][j],
        p,
    ) by {
        lemma_all_leaves_of_all(t.groups[i][j], p);
    }
}

/// What holds of every two values holds of every two leaves that
/// `map_with` brings together.
pub proof fn lemma_zip_pairs_of_all<T>(a: Tree<T>, b: Tree<T>, p: spec_fn(T, T) -> bool)
    requires
        forall|x: T, y: T| #[trigger] p(x, y),
    ensures
        zip_pairs_all(a, b, p),
    decreases a,
{
    assert forall|i: int, k: int|
        #![trigger pair_at(i, k)]
        pair_at(i, k) && 0 <= i < a.groups.len() && 0 <= k < resolved(
            a.groups[i],
            a.markers[i],
            b.groups[i],
            b.markers[i],
        ).len() implies {
        let li = left_source(
            a.groups[i].len() as int,
            a.markers[i],
            b.groups[i].len() as int,
            b.markers[i],
            k,
        );
        let ri = right_source(
            a.groups[i].len() as int,
            a.markers[i],
            b.groups[i].len() as int,
            b.markers[i],
            k,
        );
        0 <= li < a.groups[i].len() ==> zip_pairs_all(a.groups[i][li], b.groups[i][ri], p)
    } by {
        let li = left_source(
            a.groups[i].len() as int,
            a.markers[i],
            b.groups[i].len() as int,
            b.markers[i],
            k,
        );
        let ri = right_source(
            a.groups[i].len() as int,
            a.markers[i],
            b.groups[i].len() as int,
            b.markers[i],
            k,
        );
        if 0 <= li < a.groups[i].len() {
            lemma_zip_pairs_of_all(a.groups[i][li], b.groups[i][ri], p);
        }
    }
}

/// What holds of every two values holds of every two leaves that
/// `map_reduce_with` brings together.
pub proof fn lemma_fold_pairs_of_all<T>(a: Tree<T>, b: Tree<T>, p: spec_fn(T, T) -> bool)
    requires
        forall|x: T, y: T| #[trigger] p(x, y),
    ensures
        fold_pairs_all(a, b, p),
    decreases a,
{
    assert forall|e: int, k: int|
        #![trigger pair_at(e, k)]
        pair_at(e, k) && 0 <= e < a.leaf_index.len() && first_pointer(a.leaf_index, e) && leaf_slot(
            b,
            a.leaf_index[e].0,
        ) is Some implies {
        let g = a.leaf_index[e].1->0 as int;
        let og = leaf_slot(b, a.leaf_index[e].0)->0 as int;
        let li = left_source(
            a.groups[g].len() as int,
            a.markers[g],
            b.groups[og].len() as int,
            b.markers[og],
            k,
        );
        let ri = right_source(
            a.groups[g].len() as int,
            a.markers[g],
            b.groups[og].len() as int,
            b.markers[og],
            k,
        );
        0 <= k < resolved(a.groups[g], a.markers[g], b.groups[og], b.markers[og]).len() && 0 <= g
            < a.groups.len() && 0 <= li < a.groups[g].len() ==> fold_pairs_all(
            a.groups[g][li],
            b.groups[og][ri],
            p,
        )
    } by {
        let g = a.leaf_index[e].1->0 as int;
        let og = leaf_slot(b, a.leaf_index[e].0)->0 as int;
        let li = left_source(
            a.groups[g].len() as int,
            a.markers[g],
            b.groups[og].len() as int,
            b.markers[og],
            k,
        );
        let ri = right_source(
            a.groups[g].len() as int,
            a.markers[g],
            b.groups[og].len() as int,
            b.markers[og],
            k,
        );
        if 0 <= g < a.groups.len() && 0 <= li < a.groups[g].len() {
            lemma_fold_pairs_of_all(a.groups[g][li], b.groups[og][ri], p);
        }
    }
}

} // verus!
