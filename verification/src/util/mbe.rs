//! Environments in which some names repeat.

use crate::name::Name;
use crate::util::assoc::{
    distinct, has_key, lemma_lookup_at, lemma_overlay, lemma_put, lookup, position, put, share,
    Assoc,
};
use crate::util::tree::{
    all_leaves, all_wf, callable, callable2, combine, drive_clash, drives, elems_failure,
    empty_tree, first_failure, first_pointer, fold_elem, fold_elems, fold_elems_error,
    fold_entries, fold_entries_error, fold_entry, fold_error, fold_leaf, fold_leaves,
    fold_pairs_all, folded, gathered, gathered_with, groups_failure, index_in_range,
    is_named_upto, keys_of, leaf_slot, leaves_failure, leaves_within, left_source,
    lemma_combine_wf, lemma_elems_failure_stuck, lemma_fold_elems_error_stuck,
    lemma_fold_entries_error_stuck, lemma_groups_failure_stuck, lemma_leaves_failure_stuck,
    lemma_linked_groups, lemma_linked_leaves, lemma_mapped_wf, lemma_merge_named_stuck,
    lemma_resolved, lemma_shifted, lemma_zip_elems_error_stuck, lemma_zip_groups_error_stuck,
    linked_groups, linked_leaves, mapped, marched, merge_anon, merge_named, merged,
    named_group_error, named_slot, none_repeats, outcome, outcome2, pair_at, pair_up,
    pointed_upto, pointers_within, put_all, reduction, rep_leaf, resolve_error, resolved,
    right_source, same_keys, shifted, spellings, stretched, tree_eq, tree_wf, unwrapped,
    with_anon_group, with_named_group, zip_combine, zip_elems_error, zip_error,
    zip_groups_error, zip_pairs_all, zipped, Tree,
};
use std::rc::Rc;
use vstd::prelude::*;
use vstd::std_specs::cmp::PartialEqSpec;

verus! {

/// Why an environment refused to be built, walked or paired.
#[derive(Clone, Copy, Debug, PartialEq, Eq)]
pub enum MbeError {
    /// Two groups that must have the same length do not.
    ArityMismatch,
    /// A named group was added again with another marker.
    ElideMismatch,
    /// Two of the names to march by live under different groups.
    DriveMismatch,
    /// None of the names to march by lives under a group.
    NotRepeated,
    /// Both groups of a pair carry a marker.
    AmbiguousElision,
    /// A leaf was asked for that is not there, or still repeats.
    MissingLeaf,
}

/// An environment: values by name, some of them under repetition groups.
pub struct EnvMBE<T> {
    /// The values that do not repeat.
    leaves: Assoc<T>,
    /// The repetition groups. A group is shared between the environments
    /// that hold it, and is replaced as a whole where it changes.
    repeats: Vec<Rc<Vec<EnvMBE<T>>>>,
    /// For each group, the place of the element that may stand for any
    /// number of repetitions. As long as `repeats`.
    ddd_rep_idxes: Vec<Option<usize>>,
    /// For each name that repeats, the place in `repeats` of the group
    /// under which it is found.
    leaf_locations: Assoc<Option<usize>>,
    /// For each named group, its place in `repeats`; `None` once the name
    /// was erased.
    named_repeats: Assoc<Option<usize>>,
}

impl<T> View for EnvMBE<T> {
    type V = Tree<T>;

    closed spec fn view(&self) -> Tree<T> {
        tree_of(*self)
    }
}

/// The tree that an environment stands for.
pub closed spec fn tree_of<T>(e: EnvMBE<T>) -> Tree<T>
    decreases e,
{
    Tree {
        leaves: e.leaves@,
        groups: group_views(e.repeats@),
        markers: e.ddd_rep_idxes@,
        leaf_index: e.leaf_locations@,
        group_index: e.named_repeats@,
    }
}

/// The trees that a sequence of environments stands for.
pub closed spec fn views<T>(s: Seq<EnvMBE<T>>) -> Seq<Tree<T>>
    decreases s,
{
    if s.len() == 0 {
        Seq::empty()
    } else {
        views(s.drop_last()).push(tree_of(s.last()))
    }
}

/// The sequences of trees that a sequence of groups stands for.
pub closed spec fn group_views<T>(s: Seq<Rc<Vec<EnvMBE<T>>>>) -> Seq<Seq<Tree<T>>>
    decreases s,
{
    if s.len() == 0 {
        Seq::empty()
    } else {
        group_views(s.drop_last()).push(views(s.last()@))
    }
}

/// `views` goes element by element.
pub proof fn lemma_views<T>(s: Seq<EnvMBE<T>>)
    ensures
        views(s).len() == s.len(),
        forall|j: int| 0 <= j < s.len() ==> #[trigger] views(s)[j] == s[j]@,
    decreases s.len(),
{
    if s.len() > 0 {
        lemma_views(s.drop_last());
    }
}

/// `group_views` goes group by group.
proof fn lemma_group_views<T>(s: Seq<Rc<Vec<EnvMBE<T>>>>)
    ensures
        group_views(s).len() == s.len(),
        forall|i: int| 0 <= i < s.len() ==> #[trigger] group_views(s)[i] == views(s[i]@),
    decreases s.len(),
{
    if s.len() > 0 {
        lemma_group_views(s.drop_last());
    }
}

/// Walks a slice with one of its elements standing for any number of
/// elements: the element at the marked place is handed out as often as
/// asked at the start, not at all if that is zero times.
pub struct DddIter<'a, S> {
    underlying: &'a [S],
    taken: usize,
    rep_idx: usize,
    extra_needed: usize,
}

impl<'a, S> DddIter<'a, S> {
    /// Is the walk sound? It has not gone past the end of the slice.
    pub closed spec fn wf(&self) -> bool {
        self.taken <= self.underlying@.len()
    }

    /// What is still to come.
    pub closed spec fn rest(&self) -> Seq<S> {
        let s = self.underlying@;
        if self.taken <= self.rep_idx < s.len() {
            s.subrange(self.taken as int, self.rep_idx as int) + Seq::new(
                self.extra_needed as nat,
                |i: int| s[self.rep_idx as int],
            ) + s.subrange(self.rep_idx + 1, s.len() as int)
        } else {
            s.subrange(self.taken as int, s.len() as int)
        }
    }

    /// A walk over `und` in which the element at `rep_idx` stands `extra`
    /// times.
    pub fn new(und: &'a [S], rep_idx: usize, extra: usize) -> (r: DddIter<'a, S>)
        ensures
            r.wf(),
            r.rest() == stretched(und@, rep_idx as int, extra as nat),
    {
        let r = DddIter { underlying: und, taken: 0, rep_idx: rep_idx, extra_needed: extra };
        assert(r.rest() =~= stretched(und@, rep_idx as int, extra as nat));
        r
    }

    /// The next element, if one is left.
    pub fn next(&mut self) -> (r: Option<&'a S>)
        requires
            old(self).wf(),
        ensures
            final(self).wf(),
            match r {
                Some(x) => old(self).rest().len() > 0 && *x == old(self).rest()[0]
                    && final(self).rest() == old(self).rest().drop_first(),
                None => old(self).rest().len() == 0 && final(self).rest() == old(self).rest(),
            },
    {
        let len = self.underlying.len();
        if self.taken >= len {
            return None;
        }
        if self.taken == self.rep_idx {
            if self.extra_needed > 0 {
                self.extra_needed -= 1;
                assert(self.rest() =~= old(self).rest().drop_first());
                return Some(&self.underlying[self.rep_idx]);
            }
            self.taken += 1;
            assert(self.rest() =~= old(self).rest());
            if self.taken >= len {
                return None;
            }
        }
        let ghost before = self.rest();
        let x = &self.underlying[self.taken];
        self.taken += 1;
        assert(self.rest() =~= before.drop_first());
        Some(x)
    }

    /// Everything that is left, in order.
    pub fn collect(self) -> (r: Vec<&'a S>)
        requires
            self.wf(),
        ensures
            r@.len() == self.rest().len(),
            forall|i: int| 0 <= i < r@.len() ==> *(#[trigger] r@[i]) == self.rest()[i],
    {
        let mut it = self;
        let mut r: Vec<&'a S> = Vec::new();
        loop
            invariant
                it.wf(),
                r@.len() + it.rest().len() == self.rest().len(),
                it.rest() == self.rest().skip(r@.len() as int),
                forall|i: int| 0 <= i < r@.len() ==> *(#[trigger] r@[i]) == self.rest()[i],
            ensures
                it.rest().len() == 0,
            decreases it.rest().len(),
        {
            match it.next() {
                Some(x) => {
                    r.push(x);
                    assert(it.rest() =~= self.rest().skip(r@.len() as int));
                },
                None => {
                    break ;
                },
            }
        }
        r
    }
}

/// Copies an index table, moving every pointer up by `by` groups.
fn shift_index(ix: &Assoc<Option<usize>>, by: usize) -> (r: Assoc<Option<usize>>)
    requires
        ix.wf(),
        forall|i: int| 0 <= i < ix@.len() ==> ((#[trigger] ix@[i]).1 matches Some(g) ==> g + by <= usize::MAX),
    ensures
        r.wf(),
        r@ == shifted(ix@, by as nat),
{
    let mut r: Assoc<Option<usize>> = Assoc::new();
    let mut i: usize = 0;
    proof {
        lemma_shifted(ix@, by as nat);
    }
    while i < ix.len()
        invariant
            i <= ix@.len(),
            ix.wf(),
            r.wf(),
            distinct(shifted(ix@, by as nat)),
            r@ == shifted(ix@, by as nat).subrange(0, i as int),
            forall|j: int| 0 <= j < ix@.len() ==> ((#[trigger] ix@[j]).1 matches Some(g) ==> g + by <= usize::MAX),
        decreases ix@.len() - i,
    {
        let key = ix.key_at(i);
        let moved: Option<usize> = match ix.value_at(i) {
            Some(g) => Some(*g + by),
            None => None,
        };
        proof {
            let sh = shifted(ix@, by as nat);
            if has_key(r@, key@) {
                let j = position(r@, key@);
                assert(sh[j].0 != sh[i as int].0);
            }
            assert(sh.subrange(0, i + 1) =~= sh.subrange(0, i as int).push((key@, moved)));
        }
        r.bind_fresh(key, Rc::new(moved));
        i += 1;
    }
    assert(shifted(ix@, by as nat).subrange(0, i as int) =~= shifted(ix@, by as nat));
    r
}

/// Points every key of `src` at group `at` in `table`.
fn bind_keys<V>(table: &mut Assoc<Option<usize>>, src: &Assoc<V>, at: usize)
    requires
        old(table).wf(),
    ensures
        final(table).wf(),
        final(table)@ == put_all(old(table)@, keys_of(src@), Some(at)),
{
    let mut j: usize = 0;
    while j < src.len()
        invariant
            j <= src@.len(),
            table.wf(),
            table@ == put_all(old(table)@, keys_of(src@).subrange(0, j as int), Some(at)),
        decreases src@.len() - j,
    {
        proof {
            let upto = keys_of(src@).subrange(0, j + 1);
            assert(upto.drop_last() =~= keys_of(src@).subrange(0, j as int));
            assert(upto.last() == src@[j as int].0);
        }
        table.bind(src.key_at(j), Rc::new(Some(at)));
        j += 1;
    }
    assert(keys_of(src@).subrange(0, j as int) =~= keys_of(src@));
}

/// A copy of a list of markers.
fn copy_markers(m: &Vec<Option<usize>>) -> (r: Vec<Option<usize>>)
    ensures
        r@ == m@,
{
    let mut r: Vec<Option<usize>> = Vec::new();
    let mut k: usize = 0;
    while k < m.len()
        invariant
            k <= m.len(),
            r@ == m@.subrange(0, k as int),
        decreases m.len() - k,
    {
        r.push(m[k]);
        assert(r@ =~= m@.subrange(0, k + 1));
        k += 1;
    }
    assert(r@ =~= m@);
    r
}

/// A list of `n` absent markers.
fn no_markers(n: usize) -> (r: Vec<Option<usize>>)
    ensures
        r@ == Seq::new(n as nat, |i: int| None::<usize>),
{
    let mut r: Vec<Option<usize>> = Vec::new();
    let mut k: usize = 0;
    while k < n
        invariant
            k <= n,
            r@.len() == k,
            forall|i: int| 0 <= i < k ==> (#[trigger] r@[i]) is None,
        decreases n - k,
    {
        r.push(None);
        k += 1;
    }
    assert(r@ =~= Seq::new(n as nat, |i: int| None::<usize>));
    r
}

/// Are the two markers the same?
fn same_marker(a: Option<usize>, b: Option<usize>) -> (r: bool)
    ensures
        r == (a == b),
{
    match (a, b) {
        (None, None) => true,
        (Some(x), Some(y)) => x == y,
        _ => false,
    }
}

/// Walks two slices side by side, as far as the shorter walk goes.
fn zip_walk<'a, S>(l: DddIter<'a, S>, r: DddIter<'a, S>) -> (v: Vec<(&'a S, &'a S)>)
    requires
        l.wf(),
        r.wf(),
    ensures
        v@.len() == pair_up(l.rest(), r.rest()).len(),
        forall|k: int|
            0 <= k < v@.len() ==> *(#[trigger] v@[k]).0 == l.rest()[k] && *v@[k].1 == r.rest()[k],
{
    let mut lw = l;
    let mut rw = r;
    let mut v: Vec<(&'a S, &'a S)> = Vec::new();
    loop
        invariant_except_break
            lw.wf(),
            rw.wf(),
            lw.rest() == l.rest().skip(v@.len() as int),
            rw.rest() == r.rest().skip(v@.len() as int),
        invariant
            v@.len() <= l.rest().len(),
            v@.len() <= r.rest().len(),
            forall|k: int|
                0 <= k < v@.len() ==> *(#[trigger] v@[k]).0 == l.rest()[k] && *v@[k].1
                    == r.rest()[k],
        ensures
            v@.len() == l.rest().len() || v@.len() == r.rest().len(),
        decreases l.rest().len() - v@.len(),
    {
        match lw.next() {
            None => {
                break ;
            },
            Some(a) => match rw.next() {
                None => {
                    break ;
                },
                Some(b) => {
                    v.push((a, b));
                    assert(lw.rest() =~= l.rest().skip(v@.len() as int));
                    assert(rw.rest() =~= r.rest().skip(v@.len() as int));
                },
            },
        }
    }
    v
}

/// The elements of a group, each in a new environment that shares what
/// the old one holds.
fn duplicate_group<T>(group: &Vec<EnvMBE<T>>) -> (r: Vec<EnvMBE<T>>)
    ensures
        views(r@) == views(group@),
{
    let mut r: Vec<EnvMBE<T>> = Vec::new();
    let mut i: usize = 0;
    while i < group.len()
        invariant
            i <= group.len(),
            r@.len() == i,
            forall|j: int| 0 <= j < i ==> (#[trigger] r@[j])@ == group@[j]@,
        decreases group.len() - i,
    {
        r.push(group[i].clone());
        i += 1;
    }
    proof {
        lemma_views(r@);
        lemma_views(group@);
        assert(views(r@) =~= views(group@));
    }
    r
}

impl<T> Clone for EnvMBE<T> {
    /// An environment that holds the same, sharing the leaves and the
    /// groups.
    fn clone(&self) -> (r: EnvMBE<T>)
        ensures
            r@ == self@,
    {
        let mut repeats: Vec<Rc<Vec<EnvMBE<T>>>> = Vec::new();
        let mut ddd_rep_idxes: Vec<Option<usize>> = Vec::new();
        let mut i: usize = 0;
        while i < self.repeats.len()
            invariant
                i <= self.repeats.len(),
                repeats@ == self.repeats@.subrange(0, i as int),
            decreases self.repeats.len() - i,
        {
            repeats.push(share(&self.repeats[i]));
            assert(repeats@ =~= self.repeats@.subrange(0, i + 1));
            i += 1;
        }
        assert(repeats@ =~= self.repeats@);
        let mut k: usize = 0;
        while k < self.ddd_rep_idxes.len()
            invariant
                k <= self.ddd_rep_idxes.len(),
                ddd_rep_idxes@ == self.ddd_rep_idxes@.subrange(0, k as int),
            decreases self.ddd_rep_idxes.len() - k,
        {
            ddd_rep_idxes.push(self.ddd_rep_idxes[k]);
            assert(ddd_rep_idxes@ =~= self.ddd_rep_idxes@.subrange(0, k + 1));
            k += 1;
        }
        assert(ddd_rep_idxes@ =~= self.ddd_rep_idxes@);
        let r = EnvMBE {
            leaves: self.leaves.duplicate(),
            repeats: repeats,
            ddd_rep_idxes: ddd_rep_idxes,
            leaf_locations: self.leaf_locations.duplicate(),
            named_repeats: self.named_repeats.duplicate(),
        };
        proof {
            r.lemma_groups();
            self.lemma_groups();
            assert(r@.groups =~= self@.groups);
        }
        r
    }
}

/// Is every leaf of `a` a leaf of `b` with the same value?
fn assoc_within<T: PartialEq>(a: &Assoc<T>, b: &Assoc<T>) -> (r: bool)
    requires
        a.wf(),
        b.wf(),
    ensures
        T::obeys_eq_spec() ==> r == leaves_within(a@, b@),
{
    let mut i: usize = 0;
    while i < a.len()
        invariant
            i <= a@.len(),
            b.wf(),
            T::obeys_eq_spec() ==> forall|k: int|
                0 <= k < i ==> lookup(b@, (#[trigger] a@[k]).0) is Some && a@[k].1.eq_spec(
                    &lookup(b@, a@[k].0)->0,
                ),
        decreases a@.len() - i,
    {
        let key = a.key_at(i);
        match b.find(&key) {
            None => {
                assert(!(lookup(b@, a@[i as int].0) is Some));
                return false;
            },
            Some(theirs) => {
                if !(a.value_at(i) == theirs) {
                    assert(T::obeys_eq_spec() ==> !a@[i as int].1.eq_spec(
                        &lookup(b@, a@[i as int].0)->0,
                    ));
                    return false;
                }
            },
        }
        i += 1;
    }
    true
}

/// Does `b` point every name at the group that `a` points it at?
fn assoc_eq_modulo_none(a: &Assoc<Option<usize>>, b: &Assoc<Option<usize>>) -> (r: bool)
    requires
        a.wf(),
        b.wf(),
    ensures
        r == pointers_within(a@, b@),
{
    let mut i: usize = 0;
    while i < a.len()
        invariant
            i <= a@.len(),
            b.wf(),
            forall|k: int|
                0 <= k < i && (#[trigger] a@[k]).1 is Some ==> lookup(b@, a@[k].0) == Some(a@[k].1),
        decreases a@.len() - i,
    {
        match a.value_at(i) {
            None => {},
            Some(g) => {
                let key = a.key_at(i);
                match b.find(&key) {
                    Some(Some(h)) => {
                        if *g != *h {
                            assert(lookup(b@, a@[i as int].0) != Some(a@[i as int].1));
                            return false;
                        }
                    },
                    _ => {
                        assert(lookup(b@, a@[i as int].0) != Some(a@[i as int].1));
                        return false;
                    },
                }
            },
        }
        i += 1;
    }
    true
}

impl<T> EnvMBE<T> {
    /// Is the environment sound? Every environment that this module hands
    /// out is.
    pub open spec fn wf(&self) -> bool {
        tree_wf(self@)
    }

    /// The groups of the view are the views of the groups.
    proof fn lemma_groups(&self)
        ensures
            self@.leaves == self.leaves@,
            self@.markers == self.ddd_rep_idxes@,
            self@.leaf_index == self.leaf_locations@,
            self@.group_index == self.named_repeats@,
            self@.groups.len() == self.repeats.len(),
            forall|i: int|
                0 <= i < self.repeats.len() ==> #[trigger] self@.groups[i] == views(
                    self.repeats[i]@,
                ),
    {
        lemma_group_views(self.repeats@);
    }

    /// The environment that holds nothing.
    pub fn new() -> (r: EnvMBE<T>)
        ensures
            r.wf(),
            r@ == empty_tree::<T>(),
    {
        let r = EnvMBE {
            leaves: Assoc::new(),
            repeats: Vec::new(),
            ddd_rep_idxes: Vec::new(),
            leaf_locations: Assoc::new(),
            named_repeats: Assoc::new(),
        };
        proof {
            r.lemma_groups();
            assert(r@.groups =~= Seq::empty());
            assert(r@.markers =~= Seq::empty());
        }
        r
    }

    /// The environment that holds the leaves `l` and no group.
    pub fn new_from_leaves(l: Assoc<T>) -> (r: EnvMBE<T>)
        requires
            l.wf(),
        ensures
            r.wf(),
            r@ == (Tree { leaves: l@, ..empty_tree::<T>() }),
    {
        let r = EnvMBE {
            leaves: l,
            repeats: Vec::new(),
            ddd_rep_idxes: Vec::new(),
            leaf_locations: Assoc::new(),
            named_repeats: Assoc::new(),
        };
        proof {
            r.lemma_groups();
            assert(r@.groups =~= Seq::empty());
            assert(r@.markers =~= Seq::empty());
        }
        r
    }

    /// `self` with `rhs` laid over it. Meant for two environments that
    /// share no name; where they do, `rhs` is heard.
    pub fn combine_overriding(&self, rhs: &EnvMBE<T>) -> (r: EnvMBE<T>)
        requires
            self.wf(),
            rhs.wf(),
        ensures
            r.wf(),
            r@ == combine(self@, rhs@),
    {
        let adjust_rhs_by = self.repeats.len();
        proof {
            self.lemma_groups();
            rhs.lemma_groups();
        }
        let mut new_repeats: Vec<Rc<Vec<EnvMBE<T>>>> = Vec::new();
        let mut new_ddd_rep_idxes: Vec<Option<usize>> = Vec::new();
        let mut i: usize = 0;
        while i < self.repeats.len()
            invariant
                i <= self.repeats.len(),
                self.ddd_rep_idxes.len() == self.repeats.len(),
                new_repeats@ == self.repeats@.subrange(0, i as int),
                new_ddd_rep_idxes@ == self.ddd_rep_idxes@.subrange(0, i as int),
            decreases self.repeats.len() - i,
        {
            new_repeats.push(share(&self.repeats[i]));
            new_ddd_rep_idxes.push(self.ddd_rep_idxes[i]);
            assert(new_repeats@ =~= self.repeats@.subrange(0, i + 1));
            assert(new_ddd_rep_idxes@ =~= self.ddd_rep_idxes@.subrange(0, i + 1));
            i += 1;
        }
        assert(new_repeats@ =~= self.repeats@);
        assert(new_ddd_rep_idxes@ =~= self.ddd_rep_idxes@);
        let mut k: usize = 0;
        while k < rhs.repeats.len()
            invariant
                k <= rhs.repeats.len(),
                rhs.ddd_rep_idxes.len() == rhs.repeats.len(),
                new_repeats@ == self.repeats@ + rhs.repeats@.subrange(0, k as int),
                new_ddd_rep_idxes@ == self.ddd_rep_idxes@ + rhs.ddd_rep_idxes@.subrange(
                    0,
                    k as int,
                ),
            decreases rhs.repeats.len() - k,
        {
            new_repeats.push(share(&rhs.repeats[k]));
            new_ddd_rep_idxes.push(rhs.ddd_rep_idxes[k]);
            assert(new_repeats@ =~= self.repeats@ + rhs.repeats@.subrange(0, k + 1));
            assert(new_ddd_rep_idxes@ =~= self.ddd_rep_idxes@ + rhs.ddd_rep_idxes@.subrange(
                0,
                k + 1,
            ));
            k += 1;
        }
        assert(new_repeats@ =~= self.repeats@ + rhs.repeats@);
        assert(new_ddd_rep_idxes@ =~= self.ddd_rep_idxes@ + rhs.ddd_rep_idxes@);
        proof {
            assert(new_repeats@.len() == self.repeats@.len() + rhs.repeats@.len());
            assert(new_repeats.len() <= usize::MAX);
            assert(index_in_range(rhs@.leaf_index, rhs@.groups.len()));
            assert(index_in_range(rhs@.group_index, rhs@.groups.len()));
            assert forall|j: int| 0 <= j < rhs.leaf_locations@.len() implies ((
            #[trigger] rhs.leaf_locations@[j]).1 matches Some(g) ==> g + adjust_rhs_by
                <= usize::MAX) by {
                lemma_lookup_at(rhs.leaf_locations@, j);
            }
            assert forall|j: int| 0 <= j < rhs.named_repeats@.len() implies ((
            #[trigger] rhs.named_repeats@[j]).1 matches Some(g) ==> g + adjust_rhs_by
                <= usize::MAX) by {
                lemma_lookup_at(rhs.named_repeats@, j);
            }
        }
        let r = EnvMBE {
            leaves: self.leaves.set_assoc(&rhs.leaves),
            repeats: new_repeats,
            ddd_rep_idxes: new_ddd_rep_idxes,
            leaf_locations: self.leaf_locations.set_assoc(
                &shift_index(&rhs.leaf_locations, adjust_rhs_by),
            ),
            named_repeats: self.named_repeats.set_assoc(
                &shift_index(&rhs.named_repeats, adjust_rhs_by),
            ),
        };
        proof {
            r.lemma_groups();
            assert(r@.groups =~= self@.groups + rhs@.groups);
            assert(r@ == combine(self@, rhs@));
            lemma_combine_wf(self@, rhs@);
        }
        r
    }

    /// The value of a leaf that does not repeat.
    pub fn get_leaf(&self, n: &Name) -> (r: Option<&T>)
        requires
            self.wf(),
        ensures
            match r {
                Some(v) => lookup(self@.leaves, n@) == Some(*v),
                None => lookup(self@.leaves, n@) is None,
            },
    {
        self.leaves.find(n)
    }

    /// Binds the leaf `n` to `v`. An earlier value of `n` is forgotten.
    pub fn add_leaf(&mut self, n: Name, v: T)
        requires
            old(self).wf(),
        ensures
            final(self).wf(),
            final(self)@ == (Tree { leaves: put(old(self)@.leaves, n@, v), ..old(self)@ }),
    {
        proof {
            lemma_put(self@.leaves, n@, v);
            self.lemma_groups();
        }
        self.leaves = self.leaves.set(n, v);
        proof {
            self.lemma_groups();
            assert(self@.groups =~= old(self)@.groups);
        }
    }

    /// The group that the name `n` stands for, if it stands for one.
    fn named_group(&self, n: Name) -> (r: Option<usize>)
        requires
            self.wf(),
        ensures
            r == named_slot(self@, n@),
            r matches Some(g) ==> g < self.repeats.len(),
    {
        proof {
            self.lemma_groups();
        }
        match self.named_repeats.find(&n) {
            Some(Some(g)) => Some(*g),
            _ => None,
        }
    }

    /// The group under which the leaf `n` repeats, if it does.
    fn leaf_group(&self, n: Name) -> (r: Option<usize>)
        requires
            self.wf(),
        ensures
            r == leaf_slot(self@, n@),
            r matches Some(g) ==> g < self.repeats.len(),
    {
        proof {
            self.lemma_groups();
        }
        match self.leaf_locations.find(&n) {
            Some(Some(g)) => Some(*g),
            _ => None,
        }
    }

    /// Points every name that can be seen in the elements `sub` at group
    /// `idx`. Where a name is seen in several elements, it is pointed
    /// there once.
    fn update_leaf_locs(&mut self, idx: usize, sub: &Vec<EnvMBE<T>>)
        requires
            distinct(old(self)@.leaf_index),
            distinct(old(self)@.group_index),
        ensures
            final(self)@ == (Tree {
                leaf_index: linked_leaves(old(self)@.leaf_index, views(sub@), idx),
                group_index: linked_groups(old(self)@.group_index, views(sub@), idx),
                ..old(self)@
            }),
            final(self).repeats == old(self).repeats,
            final(self).ddd_rep_idxes == old(self).ddd_rep_idxes,
            final(self).leaves == old(self).leaves,
    {
        proof {
            self.lemma_groups();
            lemma_views(sub@);
        }
        let mut i: usize = 0;
        while i < sub.len()
            invariant
                i <= sub.len(),
                self.leaf_locations.wf(),
                self.named_repeats.wf(),
                self.leaf_locations@ == linked_leaves(
                    old(self)@.leaf_index,
                    views(sub@).subrange(0, i as int),
                    idx,
                ),
                self.named_repeats@ == linked_groups(
                    old(self)@.group_index,
                    views(sub@).subrange(0, i as int),
                    idx,
                ),
                self.repeats == old(self).repeats,
                self.ddd_rep_idxes == old(self).ddd_rep_idxes,
                self.leaves == old(self).leaves,
                views(sub@).len() == sub.len(),
                forall|j: int| 0 <= j < sub.len() ==> #[trigger] views(sub@)[j] == sub[j]@,
            decreases sub.len() - i,
        {
            let sub_mbe = &sub[i];
            proof {
                sub_mbe.lemma_groups();
                let upto = views(sub@).subrange(0, i + 1);
                assert(upto.drop_last() =~= views(sub@).subrange(0, i as int));
                assert(upto.last() == sub_mbe@);
            }
            bind_keys(&mut self.leaf_locations, &sub_mbe.leaf_locations, idx);
            bind_keys(&mut self.leaf_locations, &sub_mbe.leaves, idx);
            bind_keys(&mut self.named_repeats, &sub_mbe.named_repeats, idx);
            i += 1;
        }
        proof {
            assert(views(sub@).subrange(0, i as int) =~= views(sub@));
            self.lemma_groups();
            assert(self@.groups == old(self)@.groups);
        }
    }

    /// Adds the group `sub` without a name. An empty group is not added.
    pub fn add_anon_repeat(&mut self, sub: Vec<EnvMBE<T>>, sub_ddd_idx: Option<usize>)
        requires
            old(self).wf(),
            all_wf(views(sub@)),
        ensures
            final(self).wf(),
            final(self)@ == with_anon_group(old(self)@, views(sub@), sub_ddd_idx),
    {
        proof {
            lemma_views(sub@);
            self.lemma_groups();
        }
        if sub.len() == 0 {
            return ;
        }
        let new_index = self.repeats.len();
        self.update_leaf_locs(new_index, &sub);
        let ghost mid = self@;
        let ghost sub_views = views(sub@);
        self.repeats.push(Rc::new(sub));
        self.ddd_rep_idxes.push(sub_ddd_idx);
        proof {
            self.lemma_groups();
            assert(self@.groups =~= old(self)@.groups.push(sub_views)) by {
                assert forall|i: int| 0 <= i < self@.groups.len() implies self@.groups[i]
                    == old(self)@.groups.push(sub_views)[i] by {
                    if i < new_index {
                        assert(self.repeats[i] == old(self).repeats[i]);
                    }
                }
            }
            assert(self@.markers =~= old(self)@.markers.push(sub_ddd_idx));
            lemma_linked_leaves(old(self)@.leaf_index, sub_views, new_index, self@.groups.len());
            lemma_linked_groups(old(self)@.group_index, sub_views, new_index, self@.groups.len());
            assert(self.repeats.len() <= usize::MAX);
        }
    }

    /// Adds the group `sub` under the name `n`. An empty group is not
    /// added. Where `n` already stands for a group, the two must agree in
    /// length and marker, and `sub` is laid over that group element by
    /// element; where they do not agree, nothing is changed.
    pub fn add_named_repeat(
        &mut self,
        n: Name,
        sub: Vec<EnvMBE<T>>,
        sub_ddd_idx: Option<usize>,
    ) -> (r: Result<(), MbeError>)
        requires
            old(self).wf(),
            all_wf(views(sub@)),
        ensures
            final(self).wf(),
            match r {
                Ok(_) => named_group_error(old(self)@, n@, views(sub@), sub_ddd_idx) is None
                    && final(self)@ == with_named_group(old(self)@, n@, views(sub@), sub_ddd_idx),
                Err(e) => named_group_error(old(self)@, n@, views(sub@), sub_ddd_idx) == Some(e)
                    && final(self)@ == old(self)@,
            },
    {
        proof {
            lemma_views(sub@);
            self.lemma_groups();
        }
        if sub.len() == 0 {
            return Ok(());
        }
        let ghost sub_views = views(sub@);
        match self.named_group(n) {
            None => {
                let new_index = self.repeats.len();
                self.update_leaf_locs(new_index, &sub);
                self.repeats.push(Rc::new(sub));
                self.ddd_rep_idxes.push(sub_ddd_idx);
                proof {
                    self.lemma_groups();
                    lemma_linked_leaves(
                        old(self)@.leaf_index,
                        sub_views,
                        new_index,
                        self@.groups.len(),
                    );
                    lemma_linked_groups(
                        old(self)@.group_index,
                        sub_views,
                        new_index,
                        self@.groups.len(),
                    );
                    lemma_put(self.named_repeats@, n@, Some(new_index));
                }
                self.named_repeats = self.named_repeats.set(n, Some(new_index));
                proof {
                    self.lemma_groups();
                    assert(self@.groups =~= old(self)@.groups.push(sub_views)) by {
                        assert forall|i: int| 0 <= i < self@.groups.len() implies self@.groups[i]
                            == old(self)@.groups.push(sub_views)[i] by {
                            if i < new_index {
                                assert(self.repeats[i] == old(self).repeats[i]);
                            }
                        }
                    }
                    assert(self@.markers =~= old(self)@.markers.push(sub_ddd_idx));
                    assert(self.repeats.len() <= usize::MAX);
                    assert forall|k: Seq<char>| (#[trigger] lookup(self@.group_index, k)) matches Some(
                        Some(g),
                    ) ==> g < self@.groups.len() by {
                        let _ = lookup(
                            linked_groups(old(self)@.group_index, sub_views, new_index),
                            k,
                        );
                    }
                }
                Ok(())
            },
            Some(idx) => {
                proof {
                    lemma_views(self.repeats[idx as int]@);
                    assert(self@.groups[idx as int] == views(self.repeats[idx as int]@));
                }
                if self.repeats[idx].len() != sub.len() {
                    return Err(MbeError::ArityMismatch);
                }
                if !same_marker(self.ddd_rep_idxes[idx], sub_ddd_idx) {
                    return Err(MbeError::ElideMismatch);
                }
                self.update_leaf_locs(idx, &sub);
                let mut new_repeats_at_idx: Vec<EnvMBE<T>> = Vec::new();
                let mut j: usize = 0;
                while j < sub.len()
                    invariant
                        j <= sub.len(),
                        idx < self.repeats.len(),
                        self.repeats == old(self).repeats,
                        self.repeats[idx as int]@.len() == sub.len(),
                        old(self).wf(),
                        all_wf(views(sub@)),
                        old(self)@.groups.len() == old(self).repeats.len(),
                        old(self)@.groups[idx as int] == views(old(self).repeats[idx as int]@),
                        new_repeats_at_idx.len() == j,
                        forall|i: int|
                            0 <= i < j ==> (#[trigger] new_repeats_at_idx[i]).wf()
                                && new_repeats_at_idx[i]@ == combine(
                                self.repeats[idx as int]@[i]@,
                                sub[i]@,
                            ),
                    decreases sub.len() - j,
                {
                    proof {
                        lemma_views(sub@);
                        lemma_views(self.repeats[idx as int]@);
                        assert(tree_wf(views(sub@)[j as int]));
                        assert(tree_wf(old(self)@.groups[idx as int][j as int]));
                    }
                    new_repeats_at_idx.push(self.repeats[idx][j].combine_overriding(&sub[j]));
                    j += 1;
                }
                let ghost merged = views(new_repeats_at_idx@);
                proof {
                    lemma_views(new_repeats_at_idx@);
                    lemma_views(self.repeats[idx as int]@);
                    assert(merged =~= zip_combine(old(self)@.groups[idx as int], sub_views));
                }
                self.repeats.set(idx, Rc::new(new_repeats_at_idx));
                proof {
                    self.lemma_groups();
                    assert(self@.groups =~= old(self)@.groups.update(idx as int, merged)) by {
                        assert forall|i: int| 0 <= i < self@.groups.len() implies self@.groups[i]
                            == old(self)@.groups.update(idx as int, merged)[i] by {
                            if i != idx {
                                assert(self.repeats[i] == old(self).repeats[i]);
                            }
                        }
                    }
                    lemma_linked_leaves(
                        old(self)@.leaf_index,
                        sub_views,
                        idx,
                        self@.groups.len(),
                    );
                    lemma_linked_groups(
                        old(self)@.group_index,
                        sub_views,
                        idx,
                        self@.groups.len(),
                    );
                    assert forall|a: int, b: int|
                        0 <= a < self@.groups.len() && 0 <= b < self@.groups[a].len() implies tree_wf(
                        #[trigger] self@.groups[a][b],
                    ) by {
                        if a != idx {
                            assert(self@.groups[a][b] == old(self)@.groups[a][b]);
                        }
                    }
                }
                Ok(())
            },
        }
    }

    /// Erases the name `n` of a group. The group stays, and so do the
    /// leaves that point into it.
    pub fn anonimize_repeat(&mut self, n: Name)
        requires
            old(self).wf(),
        ensures
            final(self).wf(),
            final(self)@ == (Tree {
                group_index: put(old(self)@.group_index, n@, None),
                ..old(self)@
            }),
    {
        proof {
            self.lemma_groups();
            lemma_put(self@.group_index, n@, None);
        }
        self.named_repeats = self.named_repeats.set(n, None);
        proof {
            self.lemma_groups();
            assert(self@.groups =~= old(self)@.groups);
            assert forall|k: Seq<char>| (#[trigger] lookup(self@.group_index, k)) matches Some(
                Some(g),
            ) ==> g < self@.groups.len() by {
                let _ = lookup(old(self)@.group_index, k);
            }
        }
    }

    /// The environment that holds the group `r`, without a name, and
    /// nothing else.
    pub fn new_from_anon_repeat(r: Vec<EnvMBE<T>>) -> (res: EnvMBE<T>)
        requires
            all_wf(views(r@)),
        ensures
            res.wf(),
            res@ == with_anon_group(empty_tree::<T>(), views(r@), None),
    {
        let mut res = EnvMBE::new();
        res.add_anon_repeat(r, None);
        res
    }

    /// The environment that holds the group `r` with the marker `ddd_idx`,
    /// without a name, and nothing else.
    pub fn new_from_anon_repeat_ddd(r: Vec<EnvMBE<T>>, ddd_idx: Option<usize>) -> (res: EnvMBE<T>)
        requires
            all_wf(views(r@)),
        ensures
            res.wf(),
            res@ == with_anon_group(empty_tree::<T>(), views(r@), ddd_idx),
    {
        let mut res = EnvMBE::new();
        res.add_anon_repeat(r, ddd_idx);
        res
    }

    /// The environment that holds the group `r` under the name `n`, and
    /// nothing else.
    pub fn new_from_named_repeat(n: Name, r: Vec<EnvMBE<T>>) -> (res: EnvMBE<T>)
        requires
            all_wf(views(r@)),
        ensures
            res.wf(),
            res@ == with_named_group(empty_tree::<T>(), n@, views(r@), None),
    {
        let mut res = EnvMBE::new();
        proof {
            assert(!has_key(res@.group_index, n@));
        }
        let _ = res.add_named_repeat(n, r, None);
        res
    }

    /// Pairs the elements of two groups. A marker on one side names the
    /// element that is repeated, or left out, so that the side matches the
    /// length of the other.
    pub fn resolve_ddd<'a>(
        lhs: &'a Vec<EnvMBE<T>>,
        lhs_ddd: Option<usize>,
        rhs: &'a Vec<EnvMBE<T>>,
        rhs_ddd: Option<usize>,
    ) -> (r: Result<Vec<(&'a EnvMBE<T>, &'a EnvMBE<T>)>, MbeError>)
        ensures
            match r {
                Ok(v) => resolve_error(lhs@.len(), lhs_ddd, rhs@.len(), rhs_ddd) is None
                    && v@.len() == resolved(lhs@, lhs_ddd, rhs@, rhs_ddd).len() && forall|k: int|
                    0 <= k < v@.len() ==> *(#[trigger] v@[k]).0 == resolved(
                        lhs@,
                        lhs_ddd,
                        rhs@,
                        rhs_ddd,
                    )[k].0 && *v@[k].1 == resolved(lhs@, lhs_ddd, rhs@, rhs_ddd)[k].1,
                Err(e) => resolve_error(lhs@.len(), lhs_ddd, rhs@.len(), rhs_ddd) == Some(e),
            },
    {
        let l_len = lhs.len();
        let r_len = rhs.len();
        match (lhs_ddd, rhs_ddd) {
            (None, None) => {
                if l_len != r_len {
                    return Err(MbeError::ArityMismatch);
                }
                assert(stretched(lhs@, 0, 1) =~= lhs@);
                assert(stretched(rhs@, 0, 1) =~= rhs@);
                Ok(
                    zip_walk(
                        DddIter::new(lhs.as_slice(), 0, 1),
                        DddIter::new(rhs.as_slice(), 0, 1),
                    ),
                )
            },
            (Some(ddd_idx), None) => {
                if l_len > r_len && l_len - r_len > 1 {
                    return Err(MbeError::ArityMismatch);
                }
                let extra: usize = if l_len == 0 {
                    0
                } else {
                    r_len - (l_len - 1)
                };
                assert(stretched(lhs@, ddd_idx as int, extra as nat) == stretched(
                    lhs@,
                    ddd_idx as int,
                    (r_len + 1 - l_len) as nat,
                ));
                assert(stretched(rhs@, 0, 1) =~= rhs@);
                Ok(
                    zip_walk(
                        DddIter::new(lhs.as_slice(), ddd_idx, extra),
                        DddIter::new(rhs.as_slice(), 0, 1),
                    ),
                )
            },
            (None, Some(ddd_idx)) => {
                if r_len > l_len && r_len - l_len > 1 {
                    return Err(MbeError::ArityMismatch);
                }
                let extra: usize = if r_len == 0 {
                    0
                } else {
                    l_len - (r_len - 1)
                };
                assert(stretched(rhs@, ddd_idx as int, extra as nat) == stretched(
                    rhs@,
                    ddd_idx as int,
                    (l_len + 1 - r_len) as nat,
                ));
                assert(stretched(lhs@, 0, 1) =~= lhs@);
                Ok(
                    zip_walk(
                        DddIter::new(lhs.as_slice(), 0, 1),
                        DddIter::new(rhs.as_slice(), ddd_idx, extra),
                    ),
                )
            },
            (Some(_), Some(_)) => Err(MbeError::AmbiguousElision),
        }
    }

    /// Marches by the names `driving_names`: one environment for each
    /// element of the group under which they repeat, each holding what
    /// `self` holds with the element laid over it. Names that do not
    /// repeat here are passed over.
    pub fn march_all(&self, driving_names: &[Name]) -> (r: Result<Vec<EnvMBE<T>>, MbeError>)
        requires
            self.wf(),
        ensures
            match r {
                Ok(v) => !drive_clash(self@, spellings(driving_names@)) && all_wf(views(v@))
                    && exists|g: usize|
                    #[trigger] drives(self@, spellings(driving_names@), g) && views(v@) == marched(
                        self@,
                        g as int,
                    ),
                Err(e) => (e == MbeError::NotRepeated && none_repeats(
                    self@,
                    spellings(driving_names@),
                )) || (e == MbeError::DriveMismatch && drive_clash(
                    self@,
                    spellings(driving_names@),
                )),
            },
    {
        let ghost names = spellings(driving_names@);
        let mut first_march: Option<usize> = None;
        let ghost mut witness: int = 0;
        let mut i: usize = 0;
        while i < driving_names.len()
            invariant
                i <= driving_names.len(),
                self.wf(),
                names == spellings(driving_names@),
                first_march is None ==> forall|j: int|
                    0 <= j < i ==> leaf_slot(self@, #[trigger] names[j]) is None,
                first_march matches Some(g) ==> g < self.repeats.len() && 0 <= witness < i
                    && leaf_slot(self@, names[witness]) == Some(g) && forall|j: int|
                    0 <= j < i ==> leaf_slot(self@, #[trigger] names[j]) is None || leaf_slot(
                        self@,
                        names[j],
                    ) == Some(g),
            decreases driving_names.len() - i,
        {
            let found = self.leaf_group(driving_names[i]);
            assert(names[i as int] == driving_names[i as int]@);
            match (first_march, found) {
                (_, None) => {},
                (None, Some(loc)) => {
                    first_march = Some(loc);
                    proof {
                        witness = i as int;
                    }
                },
                (Some(old_loc), Some(new_loc)) => {
                    if old_loc != new_loc {
                        assert(leaf_slot(self@, names[witness]) is Some && leaf_slot(
                            self@,
                            names[i as int],
                        ) is Some && leaf_slot(self@, names[witness]) != leaf_slot(
                            self@,
                            names[i as int],
                        ));
                        return Err(MbeError::DriveMismatch);
                    }
                },
            }
            i += 1;
        }
        let march_loc = match first_march {
            None => {
                return Err(MbeError::NotRepeated);
            },
            Some(loc) => loc,
        };
        proof {
            self.lemma_groups();
            lemma_views(self.repeats[march_loc as int]@);
        }
        let group = &self.repeats[march_loc];
        let mut result: Vec<EnvMBE<T>> = Vec::new();
        let mut k: usize = 0;
        while k < group.len()
            invariant
                k <= group.len(),
                self.wf(),
                march_loc < self.repeats.len(),
                group == self.repeats[march_loc as int],
                self@.groups.len() == self.repeats.len(),
                self@.groups[march_loc as int] == views(group@),
                views(group@).len() == group.len(),
                forall|j: int| 0 <= j < group.len() ==> #[trigger] views(group@)[j] == group@[j]@,
                result@.len() == k,
                forall|j: int|
                    0 <= j < k ==> (#[trigger] result@[j]).wf() && result@[j]@ == combine(
                        self@,
                        group@[j]@,
                    ),
            decreases group.len() - k,
        {
            assert(tree_wf(self@.groups[march_loc as int][k as int]));
            result.push(self.combine_overriding(&group[k]));
            k += 1;
        }
        proof {
            lemma_views(result@);
            assert(views(result@) =~= marched(self@, march_loc as int));
            assert(drives(self@, names, march_loc));
        }
        Ok(result)
    }

    /// The values of the leaf `n` in the elements of the group under which
    /// it repeats, one level down. `None` where it does not repeat, or
    /// where an element does not have it as a leaf.
    pub fn get_rep_leaf(&self, n: &Name) -> (r: Option<Vec<&T>>)
        requires
            self.wf(),
        ensures
            match r {
                Some(v) => rep_leaf(self@, n@) is Some && v@.len() == rep_leaf(self@, n@)->0.len()
                    && forall|j: int|
                    0 <= j < v@.len() ==> *(#[trigger] v@[j]) == rep_leaf(self@, n@)->0[j],
                None => rep_leaf(self@, n@) is None,
            },
    {
        let leaf_loc = match self.leaf_group(*n) {
            Some(ll) => ll,
            None => {
                return None;
            },
        };
        proof {
            self.lemma_groups();
            lemma_views(self.repeats[leaf_loc as int]@);
        }
        let group = &self.repeats[leaf_loc];
        let mut res: Vec<&T> = Vec::new();
        let mut j: usize = 0;
        while j < group.len()
            invariant
                j <= group.len(),
                self.wf(),
                leaf_loc < self.repeats.len(),
                leaf_slot(self@, n@) == Some(leaf_loc),
                group == self.repeats[leaf_loc as int],
                self@.groups.len() == self.repeats.len(),
                self@.groups[leaf_loc as int] == views(group@),
                views(group@).len() == group.len(),
                forall|i: int| 0 <= i < group.len() ==> #[trigger] views(group@)[i] == group@[i]@,
                res@.len() == j,
                forall|i: int|
                    #![trigger res@[i]]
                    #![trigger views(group@)[i]]
                    0 <= i < j ==> lookup(views(group@)[i].leaves, n@) == Some(*res@[i]),
            decreases group.len() - j,
        {
            assert(tree_wf(self@.groups[leaf_loc as int][j as int]));
            match group[j].get_leaf(n) {
                Some(leaf) => {
                    res.push(leaf);
                },
                None => {
                    proof {
                        let grp = self@.groups[leaf_loc as int];
                        assert(grp[j as int] == group@[j as int]@);
                        assert(lookup(grp[j as int].leaves, n@) is None);
                        assert(leaf_slot(self@, n@) == Some(leaf_loc));
                        assert(!(forall|i: int|
                            0 <= i < grp.len() ==> lookup((#[trigger] grp[i]).leaves, n@) is Some));
                    }
                    return None;
                },
            }
            j += 1;
        }
        proof {
            let grp = self@.groups[leaf_loc as int];
            assert forall|i: int| 0 <= i < grp.len() implies lookup(
                (#[trigger] grp[i]).leaves,
                n@,
            ) is Some by {
                assert(lookup(views(group@)[i].leaves, n@) == Some(*res@[i]));
            }
            assert(rep_leaf(self@, n@) is Some);
        }
        Some(res)
    }

    /// The value of a leaf that does not repeat; `MissingLeaf` where there
    /// is no such leaf.
    pub fn get_leaf_or_panic(&self, n: &Name) -> (r: Result<&T, MbeError>)
        requires
            self.wf(),
        ensures
            match r {
                Ok(v) => lookup(self@.leaves, n@) == Some(*v),
                Err(e) => e == MbeError::MissingLeaf && lookup(self@.leaves, n@) is None,
            },
    {
        match self.leaves.find(n) {
            Some(v) => Ok(v),
            None => Err(MbeError::MissingLeaf),
        }
    }

    /// The values of the leaf `n` one level down; `MissingLeaf` where it
    /// does not repeat, or where an element does not have it as a leaf.
    pub fn get_rep_leaf_or_panic(&self, n: &Name) -> (r: Result<Vec<&T>, MbeError>)
        requires
            self.wf(),
        ensures
            match r {
                Ok(v) => rep_leaf(self@, n@) is Some && v@.len() == rep_leaf(self@, n@)->0.len()
                    && forall|j: int|
                    0 <= j < v@.len() ==> *(#[trigger] v@[j]) == rep_leaf(self@, n@)->0[j],
                Err(e) => e == MbeError::MissingLeaf && rep_leaf(self@, n@) is None,
            },
    {
        match self.get_rep_leaf(n) {
            Some(v) => Ok(v),
            None => Err(MbeError::MissingLeaf),
        }
    }

    /// Merges `rhs` into `self`: a named group of `rhs` goes into the group
    /// of `self` with the same name, element by element, where there is
    /// one; every other group of `rhs` is added; the leaves of `rhs` are
    /// laid over those of `self`.
    pub fn merge(&self, rhs: &EnvMBE<T>) -> (r: Result<EnvMBE<T>, MbeError>)
        requires
            self.wf(),
            rhs.wf(),
        ensures
            match r {
                Ok(res) => res.wf() && merged(self@, rhs@) == Ok::<Tree<T>, MbeError>(res@),
                Err(e) => merged(self@, rhs@) == Err::<Tree<T>, MbeError>(e),
            },
    {
        let mut res = self.clone();
        proof {
            rhs.lemma_groups();
        }
        let mut rhs_idx_is_named: Vec<bool> = Vec::new();
        let mut c: usize = 0;
        while c < rhs.repeats.len()
            invariant
                c <= rhs.repeats.len(),
                rhs_idx_is_named@.len() == c,
                forall|g: int| 0 <= g < c ==> !(#[trigger] rhs_idx_is_named@[g]),
            decreases rhs.repeats.len() - c,
        {
            rhs_idx_is_named.push(false);
            c += 1;
        }
        let mut i: usize = 0;
        while i < rhs.named_repeats.len()
            invariant
                i <= rhs.named_repeats@.len(),
                rhs.wf(),
                res.wf(),
                rhs@.group_index == rhs.named_repeats@,
                rhs@.markers == rhs.ddd_rep_idxes@,
                rhs@.groups.len() == rhs.repeats.len(),
                forall|g: int|
                    0 <= g < rhs.repeats.len() ==> #[trigger] rhs@.groups[g] == views(
                        rhs.repeats[g]@,
                    ),
                merge_named(self@, rhs@, i as nat) == Ok::<Tree<T>, MbeError>(res@),
                res@.leaves == self@.leaves,
                rhs_idx_is_named@.len() == rhs.repeats.len(),
                forall|g: int|
                    0 <= g < rhs.repeats.len() ==> #[trigger] rhs_idx_is_named@[g]
                        == is_named_upto(rhs@, g, i as int),
            decreases rhs.named_repeats@.len() - i,
        {
            let name = rhs.named_repeats.key_at(i);
            match rhs.named_repeats.value_at(i) {
                Some(rep_idx) => {
                    let rep_idx: usize = *rep_idx;
                    proof {
                        lemma_lookup_at(rhs@.group_index, i as int);
                        assert(index_in_range(rhs@.group_index, rhs@.groups.len()));
                        assert(rep_idx < rhs.repeats.len());
                        assert forall|j: int| 0 <= j < rhs@.groups[rep_idx as int].len() implies tree_wf(
                            #[trigger] rhs@.groups[rep_idx as int][j],
                        ) by {}
                        assert(all_wf(rhs@.groups[rep_idx as int]));
                    }
                    let group = duplicate_group(&rhs.repeats[rep_idx]);
                    assert(views(group@) == rhs@.groups[rep_idx as int]);
                    match res.add_named_repeat(name, group, rhs.ddd_rep_idxes[rep_idx]) {
                        Err(e) => {
                            proof {
                                lemma_merge_named_stuck(
                                    self@,
                                    rhs@,
                                    (i + 1) as nat,
                                    rhs@.group_index.len(),
                                );
                            }
                            return Err(e);
                        },
                        Ok(_) => {},
                    }
                    let ghost before = rhs_idx_is_named@;
                    rhs_idx_is_named.set(rep_idx, true);
                    proof {
                        assert forall|g: int| 0 <= g < rhs.repeats.len() implies #[trigger] rhs_idx_is_named@[g]
                            == is_named_upto(rhs@, g, i + 1) by {
                            if g == rep_idx {
                                assert(rhs@.group_index[i as int].1 == Some(g as usize));
                            } else {
                                assert(before[g] == is_named_upto(rhs@, g, i as int));
                                if is_named_upto(rhs@, g, i + 1) {
                                    let w = choose|w: int|
                                        0 <= w < i + 1 && w < rhs@.group_index.len() && (
                                        #[trigger] rhs@.group_index[w]).1 == Some(g as usize);
                                    assert(w != i);
                                }
                            }
                        }
                    }
                },
                None => {
                    proof {
                        assert forall|g: int| 0 <= g < rhs.repeats.len() implies #[trigger] rhs_idx_is_named@[g]
                            == is_named_upto(rhs@, g, i + 1) by {
                            if is_named_upto(rhs@, g, i + 1) {
                                let w = choose|w: int|
                                    0 <= w < i + 1 && w < rhs@.group_index.len() && (
                                    #[trigger] rhs@.group_index[w]).1 == Some(g as usize);
                                assert(w != i);
                            }
                        }
                    }
                },
            }
            i += 1;
        }
        let ghost named = res@;
        let mut idx: usize = 0;
        while idx < rhs.repeats.len()
            invariant
                idx <= rhs.repeats.len(),
                rhs.wf(),
                res.wf(),
                rhs@.markers == rhs.ddd_rep_idxes@,
                rhs@.groups.len() == rhs.repeats.len(),
                rhs.ddd_rep_idxes.len() == rhs.repeats.len(),
                forall|g: int|
                    0 <= g < rhs.repeats.len() ==> #[trigger] rhs@.groups[g] == views(
                        rhs.repeats[g]@,
                    ),
                res@ == merge_anon(named, rhs@, idx as nat),
                res@.leaves == self@.leaves,
                rhs_idx_is_named@.len() == rhs.repeats.len(),
                forall|g: int|
                    0 <= g < rhs.repeats.len() ==> #[trigger] rhs_idx_is_named@[g]
                        == is_named_upto(rhs@, g, rhs@.group_index.len() as int),
            decreases rhs.repeats.len() - idx,
        {
            if !rhs_idx_is_named[idx] {
                proof {
                    assert forall|j: int| 0 <= j < rhs@.groups[idx as int].len() implies tree_wf(
                        #[trigger] rhs@.groups[idx as int][j],
                    ) by {}
                    assert(all_wf(rhs@.groups[idx as int]));
                }
                let group = duplicate_group(&rhs.repeats[idx]);
                assert(views(group@) == rhs@.groups[idx as int]);
                res.add_anon_repeat(group, rhs.ddd_rep_idxes[idx]);
            }
            idx += 1;
        }
        proof {
            res.lemma_groups();
            self.lemma_groups();
            lemma_overlay(self@.leaves, rhs@.leaves);
        }
        let ghost before = res@;
        res.leaves = res.leaves.set_assoc(&rhs.leaves);
        proof {
            res.lemma_groups();
            assert(res@.groups =~= before.groups);
        }
        Ok(res)
    }

    /// The environment with `f` applied to every leaf, at every depth.
    /// Names, groups, markers and tables stay as they are.
    pub fn map<NewT, F: Fn(&T) -> NewT>(&self, f: &F) -> (r: EnvMBE<NewT>)
        requires
            self.wf(),
            all_leaves(self@, callable(*f)),
        ensures
            r.wf(),
            mapped(self@, r@, outcome(*f)),
        decreases self,
    {
        proof {
            self.lemma_groups();
        }
        let mut leaves: Assoc<NewT> = Assoc::new();
        let mut i: usize = 0;
        while i < self.leaves.len()
            invariant
                i <= self.leaves@.len(),
                self.wf(),
                self@.leaves == self.leaves@,
                all_leaves(self@, callable(*f)),
                leaves.wf(),
                leaves@.len() == i,
                forall|k: int|
                    0 <= k < i ==> (#[trigger] leaves@[k]).0 == self.leaves@[k].0 && outcome(*f)(
                        self.leaves@[k].1,
                        leaves@[k].1,
                    ),
            decreases self.leaves@.len() - i,
        {
            let key = self.leaves.key_at(i);
            proof {
                if has_key(leaves@, key@) {
                    let w = position(leaves@, key@);
                    assert(self.leaves@[w].0 != self.leaves@[i as int].0);
                }
                assert(callable(*f)(self@.leaves[i as int].1));
            }
            let v = f(self.leaves.value_at(i));
            leaves.bind_fresh(key, Rc::new(v));
            i += 1;
        }
        let mut repeats: Vec<Rc<Vec<EnvMBE<NewT>>>> = Vec::new();
        let mut g: usize = 0;
        while g < self.repeats.len()
            invariant
                g <= self.repeats.len(),
                self.wf(),
                all_leaves(self@, callable(*f)),
                self@.groups.len() == self.repeats.len(),
                forall|a: int|
                    0 <= a < self.repeats.len() ==> #[trigger] self@.groups[a] == views(
                        self.repeats[a]@,
                    ),
                repeats@.len() == g,
                forall|a: int|
                    0 <= a < g ==> (#[trigger] repeats@[a])@.len() == self.repeats[a]@.len(),
                forall|a: int, b: int|
                    0 <= a < g && 0 <= b < self.repeats[a]@.len() ==> (
                    #[trigger] repeats@[a]@[b]).wf() && mapped(
                        self.repeats[a]@[b]@,
                        repeats@[a]@[b]@,
                        outcome(*f),
                    ),
            decreases self.repeats.len() - g,
        {
            let group = &self.repeats[g];
            let mut items: Vec<EnvMBE<NewT>> = Vec::new();
            let mut e: usize = 0;
            proof {
                lemma_views(group@);
            }
            while e < group.len()
                invariant
                    e <= group.len(),
                    g < self.repeats.len(),
                    group == self.repeats[g as int],
                    self.wf(),
                    all_leaves(self@, callable(*f)),
                    self@.groups.len() == self.repeats.len(),
                    self@.groups[g as int] == views(group@),
                    views(group@).len() == group@.len(),
                    forall|b: int| 0 <= b < group@.len() ==> #[trigger] views(group@)[b] == group@[b]@,
                    items@.len() == e,
                    forall|b: int|
                        0 <= b < e ==> (#[trigger] items@[b]).wf() && mapped(
                            group@[b]@,
                            items@[b]@,
                            outcome(*f),
                        ),
                decreases group.len() - e,
            {
                proof {
                    assert(tree_wf(self@.groups[g as int][e as int]));
                    assert(all_leaves(self@.groups[g as int][e as int], callable(*f)));
                }
                items.push(group[e].map(f));
                e += 1;
            }
            repeats.push(Rc::new(items));
            g += 1;
        }
        let r = EnvMBE {
            leaves: leaves,
            repeats: repeats,
            ddd_rep_idxes: copy_markers(&self.ddd_rep_idxes),
            leaf_locations: self.leaf_locations.duplicate(),
            named_repeats: self.named_repeats.duplicate(),
        };
        proof {
            r.lemma_groups();
            assert forall|a: int, b: int|
                0 <= a < self@.groups.len() && 0 <= b < self@.groups[a].len() implies mapped(
                self@.groups[a][b],
                #[trigger] r@.groups[a][b],
                outcome(*f),
            ) by {
                lemma_views(self.repeats[a]@);
                lemma_views(r.repeats[a]@);
                assert(repeats@[a]@[b].wf());
            }
            assert forall|a: int| 0 <= a < self@.groups.len() implies (#[trigger] r@.groups[a]).len()
                == self@.groups[a].len() by {
                lemma_views(self.repeats[a]@);
                lemma_views(r.repeats[a]@);
            }
            assert(mapped(self@, r@, outcome(*f)));
            lemma_mapped_wf(self@, r@, outcome(*f));
        }
        r
    }

    /// Pairs `self` with `o` leaf by leaf and applies `f` to each pair.
    /// Leaves are paired by name, groups by place, and the elements of two
    /// groups as `resolve_ddd` pairs them. The result has no markers.
    pub fn map_with<NewT, F: Fn(&T, &T) -> NewT>(&self, o: &EnvMBE<T>, f: &F) -> (r: Result<
        EnvMBE<NewT>,
        MbeError,
    >)
        requires
            self.wf(),
            o.wf(),
            zip_pairs_all(self@, o@, callable2(*f)),
        ensures
            match r {
                Ok(c) => c.wf() && zip_error(self@, o@) is None && zipped(
                    self@,
                    o@,
                    c@,
                    outcome2(*f),
                ),
                Err(e) => zip_error(self@, o@) == Some(e),
            },
        decreases self,
    {
        proof {
            self.lemma_groups();
            o.lemma_groups();
        }
        if self.leaves.len() != o.leaves.len() {
            return Err(MbeError::MissingLeaf);
        }
        let mut leaves: Assoc<NewT> = Assoc::new();
        let mut i: usize = 0;
        while i < self.leaves.len()
            invariant
                i <= self.leaves@.len(),
                self.wf(),
                o.wf(),
                self@.leaves == self.leaves@,
                o@.leaves == o.leaves@,
                zip_pairs_all(self@, o@, callable2(*f)),
                leaves.wf(),
                leaves@.len() == i,
                forall|k: int| 0 <= k < i ==> has_key(o@.leaves, (#[trigger] self@.leaves[k]).0),
                forall|k: int|
                    0 <= k < i ==> (#[trigger] leaves@[k]).0 == self@.leaves[k].0 && lookup(
                        o@.leaves,
                        self@.leaves[k].0,
                    ) is Some && outcome2(*f)(
                        self@.leaves[k].1,
                        lookup(o@.leaves, self@.leaves[k].0)->0,
                        leaves@[k].1,
                    ),
            decreases self.leaves@.len() - i,
        {
            let key = self.leaves.key_at(i);
            proof {
                if has_key(leaves@, key@) {
                    let w = position(leaves@, key@);
                    assert(self.leaves@[w].0 != self.leaves@[i as int].0);
                }
            }
            match o.leaves.find(&key) {
                None => {
                    assert(!has_key(o@.leaves, self@.leaves[i as int].0));
                    return Err(MbeError::MissingLeaf);
                },
                Some(other) => {
                    assert(callable2(*f)(
                        self@.leaves[i as int].1,
                        lookup(o@.leaves, self@.leaves[i as int].0)->0,
                    ));
                    let v = f(self.leaves.value_at(i), other);
                    leaves.bind_fresh(key, Rc::new(v));
                },
            }
            i += 1;
        }
        assert(same_keys(self@.leaves, o@.leaves));
        if self.repeats.len() != o.repeats.len() {
            return Err(MbeError::ArityMismatch);
        }
        let mut repeats: Vec<Rc<Vec<EnvMBE<NewT>>>> = Vec::new();
        let mut g: usize = 0;
        while g < self.repeats.len()
            invariant
                g <= self.repeats.len(),
                self.wf(),
                o.wf(),
                zip_pairs_all(self@, o@, callable2(*f)),
                self.repeats.len() == o.repeats.len(),
                self@.groups.len() == self.repeats.len(),
                o@.groups.len() == o.repeats.len(),
                self@.markers == self.ddd_rep_idxes@,
                o@.markers == o.ddd_rep_idxes@,
                forall|a: int|
                    0 <= a < self.repeats.len() ==> #[trigger] self@.groups[a] == views(
                        self.repeats[a]@,
                    ),
                forall|a: int|
                    0 <= a < o.repeats.len() ==> #[trigger] o@.groups[a] == views(o.repeats[a]@),
                same_keys(self@.leaves, o@.leaves),
                zip_groups_error(self@, o@, g as int) is None,
                repeats@.len() == g,
                forall|a: int|
                    0 <= a < g ==> (#[trigger] repeats@[a])@.len() == resolved(
                        self@.groups[a],
                        self@.markers[a],
                        o@.groups[a],
                        o@.markers[a],
                    ).len(),
                forall|a: int, k: int|
                    0 <= a < g && 0 <= k < repeats@[a]@.len() ==> (#[trigger] repeats@[a]@[k]).wf()
                        && zipped(
                        self@.groups[a][left_source(
                            self@.groups[a].len() as int,
                            self@.markers[a],
                            o@.groups[a].len() as int,
                            o@.markers[a],
                            k,
                        )],
                        o@.groups[a][right_source(
                            self@.groups[a].len() as int,
                            self@.markers[a],
                            o@.groups[a].len() as int,
                            o@.markers[a],
                            k,
                        )],
                        repeats@[a]@[k]@,
                        outcome2(*f),
                    ),
            decreases self.repeats.len() - g,
        {
            let lhs = &self.repeats[g];
            let rhs = &o.repeats[g];
            let lm = self.ddd_rep_idxes[g];
            let rm = o.ddd_rep_idxes[g];
            proof {
                lemma_views(lhs@);
                lemma_views(rhs@);
            }
            let pairs = match Self::resolve_ddd(lhs, lm, rhs, rm) {
                Ok(pairs) => pairs,
                Err(e) => {
                    proof {
                        lemma_zip_groups_error_stuck(self@, o@, g + 1, self@.groups.len() as int);
                    }
                    return Err(e);
                },
            };
            proof {
                lemma_resolved(lhs@, lm, rhs@, rm);
                lemma_resolved(self@.groups[g as int], lm, o@.groups[g as int], rm);
            }
            let mut items: Vec<EnvMBE<NewT>> = Vec::new();
            let mut k: usize = 0;
            while k < pairs.len()
                invariant
                    k <= pairs@.len(),
                    g < self.repeats.len(),
                    self.repeats.len() == o.repeats.len(),
                    lhs == self.repeats[g as int],
                    rhs == o.repeats[g as int],
                    lm == self@.markers[g as int],
                    rm == o@.markers[g as int],
                    self.wf(),
                    o.wf(),
                    zip_pairs_all(self@, o@, callable2(*f)),
                    self@.groups.len() == self.repeats.len(),
                    o@.groups.len() == o.repeats.len(),
                    self@.groups[g as int] == views(lhs@),
                    o@.groups[g as int] == views(rhs@),
                    views(lhs@).len() == lhs@.len(),
                    views(rhs@).len() == rhs@.len(),
                    forall|b: int| 0 <= b < lhs@.len() ==> #[trigger] views(lhs@)[b] == lhs@[b]@,
                    forall|b: int| 0 <= b < rhs@.len() ==> #[trigger] views(rhs@)[b] == rhs@[b]@,
                    resolve_error(lhs@.len(), lm, rhs@.len(), rm) is None,
                    pairs@.len() == resolved(lhs@, lm, rhs@, rm).len(),
                    pairs@.len() == resolved(
                        self@.groups[g as int],
                        lm,
                        o@.groups[g as int],
                        rm,
                    ).len(),
                    forall|b: int|
                        0 <= b < pairs@.len() ==> *(#[trigger] pairs@[b]).0 == resolved(
                            lhs@,
                            lm,
                            rhs@,
                            rm,
                        )[b].0 && *pairs@[b].1 == resolved(lhs@, lm, rhs@, rm)[b].1,
                    forall|b: int|
                        0 <= b < resolved(lhs@, lm, rhs@, rm).len() ==> {
                            let li = left_source(lhs@.len() as int, lm, rhs@.len() as int, rm, b);
                            let ri = right_source(lhs@.len() as int, lm, rhs@.len() as int, rm, b);
                            0 <= li < lhs@.len() && 0 <= ri < rhs@.len() && #[trigger] resolved(
                                lhs@,
                                lm,
                                rhs@,
                                rm,
                            )[b] == (lhs@[li], rhs@[ri])
                        },
                    same_keys(self@.leaves, o@.leaves),
                    zip_groups_error(self@, o@, g as int) is None,
                    zip_elems_error(self@, o@, g as int, k as int) is None,
                    items@.len() == k,
                    forall|b: int|
                        0 <= b < k ==> (#[trigger] items@[b]).wf() && zipped(
                            self@.groups[g as int][left_source(
                                lhs@.len() as int,
                                lm,
                                rhs@.len() as int,
                                rm,
                                b,
                            )],
                            o@.groups[g as int][right_source(
                                lhs@.len() as int,
                                lm,
                                rhs@.len() as int,
                                rm,
                                b,
                            )],
                            items@[b]@,
                            outcome2(*f),
                        ),
                decreases pairs@.len() - k,
            {
                let ghost li = left_source(lhs@.len() as int, lm, rhs@.len() as int, rm, k as int);
                let ghost ri = right_source(lhs@.len() as int, lm, rhs@.len() as int, rm, k as int);
                proof {
                    assert(resolved(lhs@, lm, rhs@, rm)[k as int] == (lhs@[li], rhs@[ri]));
                    assert(*pairs@[k as int].0 == lhs@[li]);
                    assert(*pairs@[k as int].1 == rhs@[ri]);
                    assert(tree_wf(self@.groups[g as int][li]));
                    assert(tree_wf(o@.groups[g as int][ri]));
                    assert(*pairs@[k as int].0 == self.repeats[g as int]@[li]);
                    assert(pair_at(g as int, k as int));
                    assert(zip_pairs_all(
                        self@.groups[g as int][li],
                        o@.groups[g as int][ri],
                        callable2(*f),
                    ));
                }
                let pair = &pairs[k];
                match pair.0.map_with(pair.1, f) {
                    Ok(item) => {
                        items.push(item);
                    },
                    Err(e) => {
                        proof {
                            lemma_zip_elems_error_stuck(
                                self@,
                                o@,
                                g as int,
                                k + 1,
                                pairs@.len() as int,
                            );
                            lemma_zip_groups_error_stuck(
                                self@,
                                o@,
                                g + 1,
                                self@.groups.len() as int,
                            );
                        }
                        return Err(e);
                    },
                }
                k += 1;
            }
            repeats.push(Rc::new(items));
            g += 1;
        }
        let r = EnvMBE {
            leaves: leaves,
            repeats: repeats,
            ddd_rep_idxes: no_markers(self.repeats.len()),
            leaf_locations: self.leaf_locations.duplicate(),
            named_repeats: self.named_repeats.duplicate(),
        };
        proof {
            r.lemma_groups();
            assert forall|a: int| 0 <= a < r.repeats.len() implies (#[trigger] r@.groups[a]).len()
                == r.repeats[a]@.len() by {
                lemma_views(r.repeats[a]@);
            }
            assert forall|a: int, k: int|
                0 <= a < r@.groups.len() && 0 <= k < r@.groups[a].len() implies #[trigger] r@.groups[a][k]
                == r.repeats[a]@[k]@ by {
                lemma_views(r.repeats[a]@);
            }
            assert forall|a: int, k: int|
                0 <= a < r@.groups.len() && 0 <= k < r@.groups[a].len() implies tree_wf(
                #[trigger] r@.groups[a][k],
            ) by {
                assert(repeats@[a]@[k].wf());
            }
            assert forall|a: int, b: int| 0 <= a < b < r@.leaves.len() implies (
            #[trigger] r@.leaves[a]).0 != (#[trigger] r@.leaves[b]).0 by {
                assert(self@.leaves[a].0 != self@.leaves[b].0);
            }
            assert forall|a: int, k: int|
                0 <= a < self@.groups.len() && 0 <= k < r@.groups[a].len() implies ({
                let li = left_source(
                    self@.groups[a].len() as int,
                    self@.markers[a],
                    o@.groups[a].len() as int,
                    o@.markers[a],
                    k,
                );
                let ri = right_source(
                    self@.groups[a].len() as int,
                    self@.markers[a],
                    o@.groups[a].len() as int,
                    o@.markers[a],
                    k,
                );
                0 <= li < self@.groups[a].len() ==> zipped(
                    self@.groups[a][li],
                    o@.groups[a][ri],
                    #[trigger] r@.groups[a][k],
                    outcome2(*f),
                )
            }) by {
                assert(repeats@[a]@[k].wf());
            }
            assert(zipped(self@, o@, r@, outcome2(*f)));
        }
        Ok(r)
    }

    /// Pairs `self` with `other` as `map_with` does, and gathers the
    /// values of `f` with `red`, starting from `base`: first the leaves,
    /// then each group under which a name repeats, once, pair by pair. The
    /// partner of a group is the group of `other` under which the same
    /// name repeats.
    pub fn map_reduce_with<NewT, F: Fn(&T, &T) -> NewT, R: Fn(&NewT, &NewT) -> NewT>(
        &self,
        other: &EnvMBE<T>,
        f: &F,
        red: &R,
        base: NewT,
    ) -> (r: Result<NewT, MbeError>)
        requires
            self.wf(),
            other.wf(),
            fold_pairs_all(self@, other@, callable2(*f)),
            forall|u: &NewT, v: &NewT| red.requires((u, v)),
        ensures
            match r {
                Ok(out) => fold_error(self@, other@) is None && folded(
                    self@,
                    other@,
                    outcome2(*f),
                    reduction(*red),
                    base,
                    out,
                ),
                Err(e) => fold_error(self@, other@) == Some(e),
            },
        decreases self,
    {
        proof {
            self.lemma_groups();
            other.lemma_groups();
        }
        if self.leaves.len() != other.leaves.len() {
            return Err(MbeError::MissingLeaf);
        }
        let ghost fr = outcome2(*f);
        let ghost rr = reduction(*red);
        let ghost seed = base;
        let mut reduced = base;
        let mut i: usize = 0;
        while i < self.leaves.len()
            invariant
                i <= self.leaves@.len(),
                self.wf(),
                other.wf(),
                self@.leaves == self.leaves@,
                other@.leaves == other.leaves@,
                fr == outcome2(*f),
                rr == reduction(*red),
                fold_pairs_all(self@, other@, callable2(*f)),
                forall|u: &NewT, v: &NewT| red.requires((u, v)),
                forall|k: int| 0 <= k < i ==> has_key(other@.leaves, (#[trigger] self@.leaves[k]).0),
                fold_leaves(self@.leaves, other@.leaves, fr, rr, i as int, seed, reduced),
            decreases self.leaves@.len() - i,
        {
            let key = self.leaves.key_at(i);
            match other.leaves.find(&key) {
                None => {
                    assert(!has_key(other@.leaves, self@.leaves[i as int].0));
                    return Err(MbeError::MissingLeaf);
                },
                Some(theirs) => {
                    assert(callable2(*f)(
                        self@.leaves[i as int].1,
                        lookup(other@.leaves, self@.leaves[i as int].0)->0,
                    ));
                    let v = f(self.leaves.value_at(i), theirs);
                    let next = red(&v, &reduced);
                    proof {
                        assert(fold_leaves(self@.leaves, other@.leaves, fr, rr, i as int, seed, reduced)
                            && fr(
                            self@.leaves[i as int].1,
                            lookup(other@.leaves, self@.leaves[i as int].0)->0,
                            v,
                        ) && rr(v, reduced, next));
                        assert(gathered_with(reduced, v));
                        assert(fold_leaf(self@.leaves, other@.leaves, fr, rr, i as int, seed, next));
                    }
                    reduced = next;
                },
            }
            i += 1;
        }
        assert(same_keys(self@.leaves, other@.leaves));
        let ghost after_leaves = reduced;
        let mut already_processed: Vec<bool> = Vec::new();
        let mut c: usize = 0;
        while c < self.repeats.len()
            invariant
                c <= self.repeats.len(),
                already_processed@.len() == c,
                forall|g: int| 0 <= g < c ==> !(#[trigger] already_processed@[g]),
            decreases self.repeats.len() - c,
        {
            already_processed.push(false);
            c += 1;
        }
        let mut e: usize = 0;
        while e < self.leaf_locations.len()
            invariant
                e <= self.leaf_locations@.len(),
                self.wf(),
                other.wf(),
                fr == outcome2(*f),
                rr == reduction(*red),
                fold_pairs_all(self@, other@, callable2(*f)),
                forall|u: &NewT, v: &NewT| red.requires((u, v)),
                self@.leaf_index == self.leaf_locations@,
                self@.groups.len() == self.repeats.len(),
                other@.groups.len() == other.repeats.len(),
                self@.markers == self.ddd_rep_idxes@,
                other@.markers == other.ddd_rep_idxes@,
                forall|a: int|
                    0 <= a < self.repeats.len() ==> #[trigger] self@.groups[a] == views(
                        self.repeats[a]@,
                    ),
                forall|a: int|
                    0 <= a < other.repeats.len() ==> #[trigger] other@.groups[a] == views(
                        other.repeats[a]@,
                    ),
                same_keys(self@.leaves, other@.leaves),
                fold_leaves(
                    self@.leaves,
                    other@.leaves,
                    fr,
                    rr,
                    self@.leaves.len() as int,
                    seed,
                    after_leaves,
                ),
                fold_entries_error(self@, other@, e as int) is None,
                fold_entries(self@, other@, fr, rr, e as int, after_leaves, reduced),
                already_processed@.len() == self.repeats.len(),
                forall|g: int|
                    0 <= g < self.repeats.len() ==> #[trigger] already_processed@[g]
                        == pointed_upto(self@.leaf_index, g, e as int),
            decreases self.leaf_locations@.len() - e,
        {
            let leaf_name = self.leaf_locations.key_at(e);
            let ghost at_entry = reduced;
            let self_idx: usize = match self.leaf_locations.value_at(e) {
                Some(si) => *si,
                None => {
                    proof {
                        assert forall|g: int| 0 <= g < self.repeats.len() implies #[trigger] already_processed@[g]
                            == pointed_upto(self@.leaf_index, g, e + 1) by {
                            if pointed_upto(self@.leaf_index, g, e + 1) {
                                let w = choose|w: int|
                                    0 <= w < e + 1 && w < self@.leaf_index.len() && (
                                    #[trigger] self@.leaf_index[w]).1 == Some(g as usize);
                                assert(w != e);
                            }
                        }
                        assert(fold_entries(self@, other@, fr, rr, e as int, after_leaves, at_entry)
                            && reduced == at_entry);
                        assert(!first_pointer(self@.leaf_index, e as int));
                        assert(gathered(at_entry));
                        assert(fold_entry(self@, other@, fr, rr, e as int, after_leaves, reduced));
                    }
                    e += 1;
                    continue ;
                },
            };
            proof {
                lemma_lookup_at(self@.leaf_index, e as int);
                assert(index_in_range(self@.leaf_index, self@.groups.len()));
                assert(self_idx < self.repeats.len());
            }
            if already_processed[self_idx] {
                proof {
                    assert forall|g: int| 0 <= g < self.repeats.len() implies #[trigger] already_processed@[g]
                        == pointed_upto(self@.leaf_index, g, e + 1) by {
                        if pointed_upto(self@.leaf_index, g, e + 1) && g != self_idx {
                            let w = choose|w: int|
                                0 <= w < e + 1 && w < self@.leaf_index.len() && (
                                #[trigger] self@.leaf_index[w]).1 == Some(g as usize);
                            assert(w != e);
                        }
                        if pointed_upto(self@.leaf_index, g, e as int) {
                            let w = choose|w: int|
                                0 <= w < e && w < self@.leaf_index.len() && (
                                #[trigger] self@.leaf_index[w]).1 == Some(g as usize);
                            assert(w < e + 1);
                        }
                    }
                    assert(fold_entries(self@, other@, fr, rr, e as int, after_leaves, at_entry)
                        && reduced == at_entry);
                    assert(pointed_upto(self@.leaf_index, self_idx as int, e as int));
                    assert(!first_pointer(self@.leaf_index, e as int));
                    assert(gathered(at_entry));
                    assert(fold_entry(self@, other@, fr, rr, e as int, after_leaves, reduced));
                }
                e += 1;
                continue ;
            }
            let ghost flags_before = already_processed@;
            already_processed.set(self_idx, true);
            proof {
                assert(first_pointer(self@.leaf_index, e as int));
                assert forall|g: int| 0 <= g < self.repeats.len() implies #[trigger] already_processed@[g]
                    == pointed_upto(self@.leaf_index, g, e + 1) by {
                    if g == self_idx {
                        assert(self@.leaf_index[e as int].1 == Some(g as usize));
                    } else {
                        assert(flags_before[g] == pointed_upto(self@.leaf_index, g, e as int));
                        if pointed_upto(self@.leaf_index, g, e + 1) {
                            let w = choose|w: int|
                                0 <= w < e + 1 && w < self@.leaf_index.len() && (
                                #[trigger] self@.leaf_index[w]).1 == Some(g as usize);
                            assert(w != e);
                        }
                        if pointed_upto(self@.leaf_index, g, e as int) {
                            let w = choose|w: int|
                                0 <= w < e && w < self@.leaf_index.len() && (
                                #[trigger] self@.leaf_index[w]).1 == Some(g as usize);
                            assert(w < e + 1);
                        }
                    }
                }
            }
            let other_idx: usize = match other.leaf_group(leaf_name) {
                Some(oi) => oi,
                None => {
                    proof {
                        lemma_fold_entries_error_stuck(
                            self@,
                            other@,
                            e + 1,
                            self@.leaf_index.len() as int,
                        );
                    }
                    return Err(MbeError::MissingLeaf);
                },
            };
            let lhs = &self.repeats[self_idx];
            let rhs = &other.repeats[other_idx];
            let lm = self.ddd_rep_idxes[self_idx];
            let rm = other.ddd_rep_idxes[other_idx];
            proof {
                lemma_views(lhs@);
                lemma_views(rhs@);
            }
            let matched = match Self::resolve_ddd(lhs, lm, rhs, rm) {
                Ok(matched) => matched,
                Err(err) => {
                    proof {
                        lemma_fold_entries_error_stuck(
                            self@,
                            other@,
                            e + 1,
                            self@.leaf_index.len() as int,
                        );
                    }
                    return Err(err);
                },
            };
            proof {
                lemma_resolved(lhs@, lm, rhs@, rm);
            }
            let mut k: usize = 0;
            while k < matched.len()
                invariant
                    k <= matched@.len(),
                    e < self.leaf_locations@.len(),
                    self_idx < self.repeats.len(),
                    other_idx < other.repeats.len(),
                    lhs == self.repeats[self_idx as int],
                    rhs == other.repeats[other_idx as int],
                    lm == self@.markers[self_idx as int],
                    rm == other@.markers[other_idx as int],
                    self.wf(),
                    other.wf(),
                    fr == outcome2(*f),
                    rr == reduction(*red),
                    fold_pairs_all(self@, other@, callable2(*f)),
                    forall|u: &NewT, v: &NewT| red.requires((u, v)),
                    self@.leaf_index == self.leaf_locations@,
                    self@.groups.len() == self.repeats.len(),
                    other@.groups.len() == other.repeats.len(),
                    self@.groups[self_idx as int] == views(lhs@),
                    other@.groups[other_idx as int] == views(rhs@),
                    views(lhs@).len() == lhs@.len(),
                    views(rhs@).len() == rhs@.len(),
                    forall|b: int| 0 <= b < lhs@.len() ==> #[trigger] views(lhs@)[b] == lhs@[b]@,
                    forall|b: int| 0 <= b < rhs@.len() ==> #[trigger] views(rhs@)[b] == rhs@[b]@,
                    resolve_error(lhs@.len(), lm, rhs@.len(), rm) is None,
                    matched@.len() == resolved(lhs@, lm, rhs@, rm).len(),
                    forall|b: int|
                        0 <= b < matched@.len() ==> *(#[trigger] matched@[b]).0 == resolved(
                            lhs@,
                            lm,
                            rhs@,
                            rm,
                        )[b].0 && *matched@[b].1 == resolved(lhs@, lm, rhs@, rm)[b].1,
                    forall|b: int|
                        0 <= b < resolved(lhs@, lm, rhs@, rm).len() ==> {
                            let li = left_source(lhs@.len() as int, lm, rhs@.len() as int, rm, b);
                            let ri = right_source(lhs@.len() as int, lm, rhs@.len() as int, rm, b);
                            0 <= li < lhs@.len() && 0 <= ri < rhs@.len() && #[trigger] resolved(
                                lhs@,
                                lm,
                                rhs@,
                                rm,
                            )[b] == (lhs@[li], rhs@[ri])
                        },
                    same_keys(self@.leaves, other@.leaves),
                    first_pointer(self@.leaf_index, e as int),
                    self@.leaf_index[e as int].1 == Some(self_idx),
                    leaf_slot(other@, self@.leaf_index[e as int].0) == Some(other_idx),
                    fold_entries_error(self@, other@, e as int) is None,
                    fold_elems_error(self@, other@, self_idx as int, other_idx as int, k as int) is None,
                    fold_elems(
                        self@,
                        other@,
                        fr,
                        rr,
                        self_idx as int,
                        other_idx as int,
                        k as int,
                        at_entry,
                        reduced,
                    ),
                decreases matched@.len() - k,
            {
                let ghost li = left_source(lhs@.len() as int, lm, rhs@.len() as int, rm, k as int);
                let ghost ri = right_source(lhs@.len() as int, lm, rhs@.len() as int, rm, k as int);
                let ghost before = reduced;
                proof {
                    assert(resolved(lhs@, lm, rhs@, rm)[k as int] == (lhs@[li], rhs@[ri]));
                    assert(*matched@[k as int].0 == lhs@[li]);
                    assert(*matched@[k as int].1 == rhs@[ri]);
                    assert(tree_wf(self@.groups[self_idx as int][li]));
                    assert(tree_wf(other@.groups[other_idx as int][ri]));
                    assert(*matched@[k as int].0 == self.repeats[self_idx as int]@[li]);
                    assert(pair_at(e as int, k as int));
                    assert(fold_pairs_all(
                        self@.groups[self_idx as int][li],
                        other@.groups[other_idx as int][ri],
                        callable2(*f),
                    ));
                }
                let pair = &matched[k];
                match pair.0.map_reduce_with(pair.1, f, red, reduced) {
                    Ok(next) => {
                        proof {
                            assert(fold_elems(
                                self@,
                                other@,
                                fr,
                                rr,
                                self_idx as int,
                                other_idx as int,
                                k as int,
                                at_entry,
                                before,
                            ) && folded(
                                self@.groups[self_idx as int][li],
                                other@.groups[other_idx as int][ri],
                                fr,
                                rr,
                                before,
                                next,
                            ));
                            assert(gathered(before));
                            assert(fold_elem(
                                self@,
                                other@,
                                fr,
                                rr,
                                self_idx as int,
                                other_idx as int,
                                k as int,
                                at_entry,
                                next,
                            ));
                        }
                        reduced = next;
                    },
                    Err(err) => {
                        proof {
                            lemma_fold_elems_error_stuck(
                                self@,
                                other@,
                                self_idx as int,
                                other_idx as int,
                                k + 1,
                                matched@.len() as int,
                            );
                            lemma_fold_entries_error_stuck(
                                self@,
                                other@,
                                e + 1,
                                self@.leaf_index.len() as int,
                            );
                        }
                        return Err(err);
                    },
                }
                k += 1;
            }
            proof {
                assert(fold_entries(self@, other@, fr, rr, e as int, after_leaves, at_entry)
                    && fold_elems(
                    self@,
                    other@,
                    fr,
                    rr,
                    self_idx as int,
                    other_idx as int,
                    matched@.len() as int,
                    at_entry,
                    reduced,
                ));
                assert(gathered(at_entry));
                assert(fold_entry(self@, other@, fr, rr, e as int, after_leaves, reduced));
            }
            e += 1;
        }
        proof {
            assert(gathered(after_leaves));
        }
        Ok(reduced)
    }
}

impl<T: Clone, E: Clone> EnvMBE<Result<T, E>> {
    /// Turns an environment of results into the result of an environment:
    /// a copy of the first failure, leaves before groups and each element
    /// before the next, or else the environment of copies of what the
    /// successes hold.
    pub fn lift_result(&self) -> (r: Result<EnvMBE<T>, E>)
        requires
            self.wf(),
        ensures
            match r {
                Ok(t) => t.wf() && first_failure(self@) is None && mapped(
                    self@,
                    t@,
                    unwrapped::<T, E>(),
                ),
                Err(e) => first_failure(self@) is Some && cloned(first_failure(self@)->0, e),
            },
        decreases self,
    {
        proof {
            self.lemma_groups();
        }
        let mut leaves: Assoc<T> = Assoc::new();
        let mut i: usize = 0;
        while i < self.leaves.len()
            invariant
                i <= self.leaves@.len(),
                self.wf(),
                self@.leaves == self.leaves@,
                leaves.wf(),
                leaves@.len() == i,
                leaves_failure(self@.leaves, i as int) is None,
                forall|k: int|
                    0 <= k < i ==> (#[trigger] leaves@[k]).0 == self.leaves@[k].0 && unwrapped::<
                        T,
                        E,
                    >()(self.leaves@[k].1, leaves@[k].1),
            decreases self.leaves@.len() - i,
        {
            let key = self.leaves.key_at(i);
            proof {
                if has_key(leaves@, key@) {
                    let w = position(leaves@, key@);
                    assert(self.leaves@[w].0 != self.leaves@[i as int].0);
                }
            }
            match self.leaves.value_at(i) {
                Ok(v) => {
                    leaves.bind_fresh(key, Rc::new(v.clone()));
                },
                Err(e) => {
                    proof {
                        lemma_leaves_failure_stuck(
                            self@.leaves,
                            i + 1,
                            self@.leaves.len() as int,
                        );
                    }
                    return Err(e.clone());
                },
            }
            i += 1;
        }
        let mut repeats: Vec<Rc<Vec<EnvMBE<T>>>> = Vec::new();
        let mut g: usize = 0;
        while g < self.repeats.len()
            invariant
                g <= self.repeats.len(),
                self.wf(),
                leaves_failure(self@.leaves, self@.leaves.len() as int) is None,
                groups_failure(self@, g as int) is None,
                self@.groups.len() == self.repeats.len(),
                forall|a: int|
                    0 <= a < self.repeats.len() ==> #[trigger] self@.groups[a] == views(
                        self.repeats[a]@,
                    ),
                repeats@.len() == g,
                forall|a: int|
                    0 <= a < g ==> (#[trigger] repeats@[a])@.len() == self.repeats[a]@.len(),
                forall|a: int, b: int|
                    0 <= a < g && 0 <= b < self.repeats[a]@.len() ==> (
                    #[trigger] repeats@[a]@[b]).wf() && mapped(
                        self.repeats[a]@[b]@,
                        repeats@[a]@[b]@,
                        unwrapped::<T, E>(),
                    ),
            decreases self.repeats.len() - g,
        {
            let group = &self.repeats[g];
            let mut items: Vec<EnvMBE<T>> = Vec::new();
            let mut e: usize = 0;
            proof {
                lemma_views(group@);
            }
            while e < group.len()
                invariant
                    e <= group.len(),
                    g < self.repeats.len(),
                    group == self.repeats[g as int],
                    self.wf(),
                    leaves_failure(self@.leaves, self@.leaves.len() as int) is None,
                    groups_failure(self@, g as int) is None,
                    elems_failure(self@, g as int, e as int) is None,
                    self@.groups.len() == self.repeats.len(),
                    self@.groups[g as int] == views(group@),
                    views(group@).len() == group@.len(),
                    forall|b: int| 0 <= b < group@.len() ==> #[trigger] views(group@)[b] == group@[b]@,
                    items@.len() == e,
                    forall|b: int|
                        0 <= b < e ==> (#[trigger] items@[b]).wf() && mapped(
                            group@[b]@,
                            items@[b]@,
                            unwrapped::<T, E>(),
                        ),
                decreases group.len() - e,
            {
                proof {
                    assert(tree_wf(self@.groups[g as int][e as int]));
                }
                match group[e].lift_result() {
                    Ok(item) => {
                        items.push(item);
                    },
                    Err(err) => {
                        proof {
                            lemma_elems_failure_stuck(
                                self@,
                                g as int,
                                e + 1,
                                self@.groups[g as int].len() as int,
                            );
                            lemma_groups_failure_stuck(self@, g + 1, self@.groups.len() as int);
                        }
                        return Err(err);
                    },
                }
                e += 1;
            }
            repeats.push(Rc::new(items));
            g += 1;
        }
        let r = EnvMBE {
            leaves: leaves,
            repeats: repeats,
            ddd_rep_idxes: copy_markers(&self.ddd_rep_idxes),
            leaf_locations: self.leaf_locations.duplicate(),
            named_repeats: self.named_repeats.duplicate(),
        };
        proof {
            r.lemma_groups();
            assert forall|a: int, b: int|
                0 <= a < self@.groups.len() && 0 <= b < self@.groups[a].len() implies mapped(
                self@.groups[a][b],
                #[trigger] r@.groups[a][b],
                unwrapped::<T, E>(),
            ) by {
                lemma_views(self.repeats[a]@);
                lemma_views(r.repeats[a]@);
                assert(repeats@[a]@[b].wf());
            }
            assert forall|a: int| 0 <= a < self@.groups.len() implies (#[trigger] r@.groups[a]).len()
                == self@.groups[a].len() by {
                lemma_views(self.repeats[a]@);
                lemma_views(r.repeats[a]@);
            }
            assert(mapped(self@, r@, unwrapped::<T, E>()));
            lemma_mapped_wf(self@, r@, unwrapped::<T, E>());
        }
        Ok(r)
    }
}

impl<T: PartialEq> EnvMBE<T> {
    /// Do the two environments hold the same? The order of the leaves
    /// does not count, nor does a name whose group was erased.
    pub fn eq(&self, other: &EnvMBE<T>) -> (r: bool)
        requires
            self.wf(),
            other.wf(),
        ensures
            T::obeys_eq_spec() ==> r == tree_eq(self@, other@),
        decreases self,
    {
        proof {
            self.lemma_groups();
            other.lemma_groups();
        }
        if !assoc_within(&self.leaves, &other.leaves) {
            return false;
        }
        if !assoc_within(&other.leaves, &self.leaves) {
            return false;
        }
        if self.repeats.len() != other.repeats.len() {
            return false;
        }
        let mut g: usize = 0;
        while g < self.repeats.len()
            invariant
                g <= self.repeats.len(),
                self.wf(),
                other.wf(),
                self.repeats.len() == other.repeats.len(),
                self@.groups.len() == self.repeats.len(),
                other@.groups.len() == other.repeats.len(),
                forall|a: int|
                    0 <= a < self.repeats.len() ==> #[trigger] self@.groups[a] == views(
                        self.repeats[a]@,
                    ),
                forall|a: int|
                    0 <= a < other.repeats.len() ==> #[trigger] other@.groups[a] == views(
                        other.repeats[a]@,
                    ),
                forall|a: int|
                    0 <= a < g ==> (#[trigger] self@.groups[a]).len() == other@.groups[a].len(),
                T::obeys_eq_spec() ==> forall|a: int, b: int|
                    0 <= a < g && 0 <= b < self@.groups[a].len() ==> tree_eq(
                        #[trigger] self@.groups[a][b],
                        other@.groups[a][b],
                    ),
            decreases self.repeats.len() - g,
        {
            let mine = &self.repeats[g];
            let theirs = &other.repeats[g];
            proof {
                lemma_views(mine@);
                lemma_views(theirs@);
            }
            if mine.len() != theirs.len() {
                assert(self@.groups[g as int].len() != other@.groups[g as int].len());
                return false;
            }
            let mut e: usize = 0;
            while e < mine.len()
                invariant
                    e <= mine.len(),
                    g < self.repeats.len(),
                    self.repeats.len() == other.repeats.len(),
                    mine == self.repeats[g as int],
                    theirs == other.repeats[g as int],
                    mine.len() == theirs.len(),
                    self.wf(),
                    other.wf(),
                    self@.groups.len() == self.repeats.len(),
                    other@.groups.len() == other.repeats.len(),
                    self@.groups[g as int] == views(mine@),
                    other@.groups[g as int] == views(theirs@),
                    views(mine@).len() == mine@.len(),
                    views(theirs@).len() == theirs@.len(),
                    forall|b: int| 0 <= b < mine@.len() ==> #[trigger] views(mine@)[b] == mine@[b]@,
                    forall|b: int|
                        0 <= b < theirs@.len() ==> #[trigger] views(theirs@)[b] == theirs@[b]@,
                    T::obeys_eq_spec() ==> forall|b: int|
                        0 <= b < e ==> tree_eq(
                            #[trigger] self@.groups[g as int][b],
                            other@.groups[g as int][b],
                        ),
                decreases mine.len() - e,
            {
                proof {
                    assert(tree_wf(self@.groups[g as int][e as int]));
                    assert(tree_wf(other@.groups[g as int][e as int]));
                }
                if !mine[e].eq(&theirs[e]) {
                    assert(T::obeys_eq_spec() ==> !tree_eq(
                        self@.groups[g as int][e as int],
                        other@.groups[g as int][e as int],
                    ));
                    return false;
                }
                e += 1;
            }
            g += 1;
        }
        let mut m: usize = 0;
        while m < self.ddd_rep_idxes.len()
            invariant
                m <= self.ddd_rep_idxes.len(),
                self.ddd_rep_idxes.len() == other.ddd_rep_idxes.len(),
                self@.markers == self.ddd_rep_idxes@,
                other@.markers == other.ddd_rep_idxes@,
                forall|a: int| 0 <= a < m ==> self.ddd_rep_idxes@[a] == other.ddd_rep_idxes@[a],
            decreases self.ddd_rep_idxes.len() - m,
        {
            if !same_marker(self.ddd_rep_idxes[m], other.ddd_rep_idxes[m]) {
                assert(self@.markers[m as int] != other@.markers[m as int]);
                return false;
            }
            m += 1;
        }
        assert(self@.markers =~= other@.markers);
        assoc_eq_modulo_none(&self.leaf_locations, &other.leaf_locations) && assoc_eq_modulo_none(
            &other.leaf_locations,
            &self.leaf_locations,
        ) && assoc_eq_modulo_none(&self.named_repeats, &other.named_repeats)
            && assoc_eq_modulo_none(&other.named_repeats, &self.named_repeats)
    }
}

} // verus!
