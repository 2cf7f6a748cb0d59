//! What holds of the operations on environments, whatever they are
//! applied to. Each statement is over the trees that the environments
//! stand for.

use crate::util::assoc::{has_key, lemma_overlay, lookup};
use crate::util::tree::{
    all_leaves, all_wf, combine, elems_failure, first_failure, groups_failure, leaves_failure,
    mapped, marched, named_group_error, named_slot, tree_wf, with_named_group, zip_elems_error,
    zip_error, zip_groups_error, zipped, Tree,
};
use crate::util::mbe::MbeError;
use vstd::prelude::*;

verus! {

/// Mapping with a function that hands back what it is given changes
/// nothing: the result is the tree that was mapped.
pub proof fn law_map_identity<T>(a: Tree<T>, b: Tree<T>, rel: spec_fn(T, T) -> bool)
    requires
        mapped(a, b, rel),
        forall|x: T, y: T| #[trigger] rel(x, y) ==> y == x,
    ensures
        b == a,
    decreases a,
{
    assert(b.leaves =~= a.leaves) by {
        assert forall|i: int| 0 <= i < a.leaves.len() implies b.leaves[i] == a.leaves[i] by {
            assert(b.leaves[i].0 == a.leaves[i].0);
            assert(rel(a.leaves[i].1, b.leaves[i].1));
        }
    }
    assert(b.groups =~= a.groups) by {
        assert forall|i: int| 0 <= i < a.groups.len() implies b.groups[i] == a.groups[i] by {
            assert(b.groups[i].len() == a.groups[i].len());
            assert forall|j: int| 0 <= j < a.groups[i].len() implies b.groups[i][j]
                == a.groups[i][j] by {
                assert(mapped(a.groups[i][j], b.groups[i][j], rel));
                law_map_identity(a.groups[i][j], b.groups[i][j], rel);
            }
            assert(b.groups[i] =~= a.groups[i]);
        }
    }
}

/// No group of the tree carries a marker, at any depth.
pub open spec fn unmarked<T>(t: Tree<T>) -> bool
    decreases t,
{
    &&& forall|i: int| 0 <= i < t.markers.len() ==> (#[trigger] t.markers[i]) is None
    &&& forall|i: int, j: int|
        0 <= i < t.groups.len() && 0 <= j < t.groups[i].len() ==> unmarked(
            #[trigger] t.groups[i][j],
        )
}

/// A tree without markers can be paired with itself: no pair of its
/// first `upto` elements of group `i` is an obstacle.
proof fn lemma_self_zip_elems<T>(a: Tree<T>, i: int, upto: int)
    requires
        tree_wf(a),
        unmarked(a),
        0 <= i < a.groups.len(),
        upto <= a.groups[i].len(),
    ensures
        zip_elems_error(a, a, i, upto) is None,
    decreases a, 0int, upto,
{
    if upto > 0 {
        lemma_self_zip_elems(a, i, upto - 1);
        assert(a.markers[i] is None);
        assert(tree_wf(a.groups[i][upto - 1]));
        assert(unmarked(a.groups[i][upto - 1]));
        lemma_self_zip(a.groups[i][upto - 1]);
    }
}

/// A tree without markers can be paired with itself: none of its first
/// `upto` groups is an obstacle.
proof fn lemma_self_zip_groups<T>(a: Tree<T>, upto: int)
    requires
        tree_wf(a),
        unmarked(a),
        upto <= a.groups.len(),
    ensures
        zip_groups_error(a, a, upto) is None,
    decreases a, 1int, upto,
{
    if upto > 0 {
        lemma_self_zip_groups(a, upto - 1);
        let i = upto - 1;
        assert(a.markers[i] is None);
        lemma_self_zip_elems(a, i, a.groups[i].len() as int);
    }
}

/// A tree without markers can be paired with itself.
pub proof fn lemma_self_zip<T>(a: Tree<T>)
    requires
        tree_wf(a),
        unmarked(a),
    ensures
        zip_error(a, a) is None,
    decreases a, 2int, 0int,
{
    lemma_self_zip_groups(a, a.groups.len() as int);
}

/// Pairing a tree without markers with itself, and keeping the left
/// value of each pair, gives the tree back. (With a marker the pairing is
/// refused: both sides carry it.)
pub proof fn law_zip_self_left<T>(a: Tree<T>, c: Tree<T>, rel: spec_fn(T, T, T) -> bool)
    requires
        tree_wf(a),
        unmarked(a),
        zipped(a, a, c, rel),
        forall|x: T, y: T, z: T| #[trigger] rel(x, y, z) ==> z == x,
    ensures
        zip_error(a, a) is None,
        c == a,
    decreases a,
{
    lemma_self_zip(a);
    assert(c.leaves =~= a.leaves) by {
        assert forall|i: int| 0 <= i < a.leaves.len() implies c.leaves[i] == a.leaves[i] by {
            assert(c.leaves[i].0 == a.leaves[i].0);
            assert(rel(a.leaves[i].1, lookup(a.leaves, a.leaves[i].0)->0, c.leaves[i].1));
        }
    }
    assert(c.markers =~= a.markers);
    assert(c.groups =~= a.groups) by {
        assert forall|i: int| 0 <= i < a.groups.len() implies c.groups[i] == a.groups[i] by {
            assert(a.markers[i] is None);
            assert(c.groups[i].len() == a.groups[i].len());
            assert forall|k: int| 0 <= k < a.groups[i].len() implies c.groups[i][k]
                == a.groups[i][k] by {
                assert(zipped(a.groups[i][k], a.groups[i][k], c.groups[i][k], rel));
                assert(tree_wf(a.groups[i][k]));
                assert(unmarked(a.groups[i][k]));
                law_zip_self_left(a.groups[i][k], c.groups[i][k], rel);
            }
            assert(c.groups[i] =~= a.groups[i]);
        }
    }
}

/// Where both trees have a leaf of one name, the combined tree has the
/// value of the right one; else the value of the one that has it.
pub proof fn law_combine_right_biased<T>(l: Tree<T>, r: Tree<T>, k: Seq<char>)
    requires
        tree_wf(l),
        tree_wf(r),
    ensures
        lookup(combine(l, r).leaves, k) == (if has_key(r.leaves, k) {
            lookup(r.leaves, k)
        } else {
            lookup(l.leaves, k)
        }),
{
    lemma_overlay(l.leaves, r.leaves);
}

/// Marching over a group gives one tree for each element. In the `i`-th
/// of them a name is bound to what the `i`-th element binds it to, and
/// where the element has no such leaf, to what the marched tree itself
/// binds it to; a name that neither has as a leaf is not bound.
pub proof fn law_march<T>(t: Tree<T>, g: int, i: int, k: Seq<char>)
    requires
        tree_wf(t),
        0 <= g < t.groups.len(),
        0 <= i < t.groups[g].len(),
    ensures
        marched(t, g).len() == t.groups[g].len(),
        marched(t, g)[i] == combine(t, t.groups[g][i]),
        lookup(marched(t, g)[i].leaves, k) == (if has_key(t.groups[g][i].leaves, k) {
            lookup(t.groups[g][i].leaves, k)
        } else {
            lookup(t.leaves, k)
        }),
{
    assert(tree_wf(t.groups[g][i]));
    law_combine_right_biased(t, t.groups[g][i], k);
}

/// A group added again under its name must have the length it had: with
/// another length it is refused as `ArityMismatch`. With the same length
/// and marker, each element is laid over the element that was there, so
/// that the leaves of both stand together.
pub proof fn law_named_group_again<T>(
    t: Tree<T>,
    name: Seq<char>,
    sub: Seq<Tree<T>>,
    marker: Option<usize>,
    j: int,
    k: Seq<char>,
)
    requires
        tree_wf(t),
        all_wf(sub),
        sub.len() > 0,
        named_slot(t, name) is Some,
        0 <= j < sub.len(),
    ensures
        t.groups[named_slot(t, name)->0 as int].len() != sub.len() ==> named_group_error(
            t,
            name,
            sub,
            marker,
        ) == Some(MbeError::ArityMismatch),
        named_group_error(t, name, sub, marker) is None ==> {
            let g = named_slot(t, name)->0 as int;
            let after = with_named_group(t, name, sub, marker).groups[g][j];
            &&& after == combine(t.groups[g][j], sub[j])
            &&& lookup(after.leaves, k) == (if has_key(sub[j].leaves, k) {
                lookup(sub[j].leaves, k)
            } else {
                lookup(t.groups[g][j].leaves, k)
            })
        },
{
    let g = named_slot(t, name)->0 as int;
    assert(0 <= g < t.groups.len());
    if named_group_error(t, name, sub, marker) is None {
        assert(tree_wf(t.groups[g][j]));
        assert(tree_wf(sub[j]));
        law_combine_right_biased(t.groups[g][j], sub[j], k);
    }
}

/// The results that are successes.
pub open spec fn succeeded<T, E>() -> spec_fn(Result<T, E>) -> bool {
    |x: Result<T, E>| x is Ok
}

/// There is no failure among the first leaves exactly if each of them is
/// a success.
proof fn lemma_leaves_succeed<T, E>(leaves: Seq<(Seq<char>, Result<T, E>)>, upto: int)
    requires
        upto <= leaves.len(),
    ensures
        leaves_failure(leaves, upto) is None <==> forall|i: int|
            0 <= i < upto ==> (#[trigger] leaves[i]).1 is Ok,
    decreases upto,
{
    if upto > 0 {
        lemma_leaves_succeed(leaves, upto - 1);
        if leaves_failure(leaves, upto) is None {
            assert forall|i: int| 0 <= i < upto implies (#[trigger] leaves[i]).1 is Ok by {}
        } else {
            if leaves_failure(leaves, upto - 1) is None {
                assert(!(leaves[upto - 1].1 is Ok));
            }
        }
    }
}

/// There is no failure in the first elements of a group exactly if each
/// of them holds successes only.
proof fn lemma_elems_succeed<T, E>(t: Tree<Result<T, E>>, i: int, upto: int)
    requires
        0 <= i < t.groups.len(),
        upto <= t.groups[i].len(),
    ensures
        elems_failure(t, i, upto) is None <==> forall|j: int|
            0 <= j < upto ==> all_leaves(#[trigger] t.groups[i][j], succeeded()),
    decreases t, 0int, upto,
{
    if upto > 0 {
        lemma_elems_succeed(t, i, upto - 1);
        law_hoist_succeeds(t.groups[i][upto - 1]);
        if elems_failure(t, i, upto) is None {
            assert forall|j: int| 0 <= j < upto implies all_leaves(
                #[trigger] t.groups[i][j],
                succeeded(),
            ) by {}
        } else {
            if elems_failure(t, i, upto - 1) is None {
                assert(!all_leaves(t.groups[i][upto - 1], succeeded()));
            }
        }
    }
}

/// There is no failure in the first groups exactly if every element of
/// each of them holds successes only.
proof fn lemma_groups_succeed<T, E>(t: Tree<Result<T, E>>, upto: int)
    requires
        upto <= t.groups.len(),
    ensures
        groups_failure(t, upto) is None <==> forall|i: int, j: int|
            0 <= i < upto && 0 <= j < t.groups[i].len() ==> all_leaves(
                #[trigger] t.groups[i][j],
                succeeded(),
            ),
    decreases t, 1int, upto,
{
    if upto > 0 {
        lemma_groups_succeed(t, upto - 1);
        let g = upto - 1;
        lemma_elems_succeed(t, g, t.groups[g].len() as int);
        if groups_failure(t, upto) is None {
            assert forall|i: int, j: int|
                0 <= i < upto && 0 <= j < t.groups[i].len() implies all_leaves(
                #[trigger] t.groups[i][j],
                succeeded(),
            ) by {}
        } else {
            if groups_failure(t, upto - 1) is None {
                let j = choose|j: int|
                    0 <= j < t.groups[g].len() && !all_leaves(
                        #[trigger] t.groups[g][j],
                        succeeded(),
                    );
                assert(!all_leaves(t.groups[g][j], succeeded()));
            }
        }
    }
}

/// A tree of results has no first failure exactly if every leaf of it,
/// at every depth, is a success.
pub proof fn law_hoist_succeeds<T, E>(t: Tree<Result<T, E>>)
    ensures
        first_failure(t) is None <==> all_leaves(t, succeeded()),
    decreases t, 2int, 0int,
{
    lemma_leaves_succeed(t.leaves, t.leaves.len() as int);
    lemma_groups_succeed(t, t.groups.len() as int);
    if all_leaves(t, succeeded()) {
        assert forall|i: int| 0 <= i < t.leaves.len() implies (#[trigger] t.leaves[i]).1 is Ok by {
            assert(succeeded::<T, E>()(t.leaves[i].1));
        }
    }
    if first_failure(t) is None {
        assert forall|i: int| 0 <= i < t.leaves.len() implies succeeded::<T, E>()(
            (#[trigger] t.leaves[i]).1,
        ) by {}
    }
}

} // verus!
