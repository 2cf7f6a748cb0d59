//! An association list from symbols to shared values.
//!
//! A list is modelled by the sequence of its entries, each a spelling and a
//! value; no spelling occurs twice. Entries are shared, never copied, so a
//! list can be duplicated and extended without touching the values.

use crate::name::Name;
use std::rc::Rc;
use vstd::prelude::*;

verus! {

/// Does some entry of `s` have the key `k`?
pub open spec fn has_key<T>(s: Seq<(Seq<char>, T)>, k: Seq<char>) -> bool {
    exists|i: int| 0 <= i < s.len() && (#[trigger] s[i]).0 == k
}

/// A place at which `s` has the key `k`, if there is one.
pub open spec fn position<T>(s: Seq<(Seq<char>, T)>, k: Seq<char>) -> int {
    choose|i: int| 0 <= i < s.len() && (#[trigger] s[i]).0 == k
}

/// The value that `s` binds `k` to.
pub open spec fn lookup<T>(s: Seq<(Seq<char>, T)>, k: Seq<char>) -> Option<T> {
    if has_key(s, k) {
        Some(s[position(s, k)].1)
    } else {
        None
    }
}

/// No key occurs twice in `s`.
pub open spec fn distinct<T>(s: Seq<(Seq<char>, T)>) -> bool {
    forall|i: int, j: int|
        0 <= i < j < s.len() ==> (#[trigger] s[i]).0 != (#[trigger] s[j]).0
}

/// `s` with `k` bound to `v`: in place where `k` was bound, at the end
/// where it was not.
pub open spec fn put<T>(s: Seq<(Seq<char>, T)>, k: Seq<char>, v: T) -> Seq<(Seq<char>, T)> {
    if has_key(s, k) {
        s.update(position(s, k), (k, v))
    } else {
        s.push((k, v))
    }
}

/// `s` with every entry of `t` put into it, first entry first.
pub open spec fn overlay<T>(s: Seq<(Seq<char>, T)>, t: Seq<(Seq<char>, T)>) -> Seq<
    (Seq<char>, T),
>
    decreases t.len(),
{
    if t.len() == 0 {
        s
    } else {
        put(overlay(s, t.drop_last()), t.last().0, t.last().1)
    }
}

/// In a list without repeated keys, a key is found where it stands.
pub proof fn lemma_lookup_at<T>(s: Seq<(Seq<char>, T)>, i: int)
    requires
        distinct(s),
        0 <= i < s.len(),
    ensures
        has_key(s, s[i].0),
        position(s, s[i].0) == i,
        lookup(s, s[i].0) == Some(s[i].1),
{
    let p = position(s, s[i].0);
    assert(0 <= p < s.len() && s[p].0 == s[i].0);
    if p < i {
        assert(s[p].0 != s[i].0);
    } else if i < p {
        assert(s[i].0 != s[p].0);
    }
}

/// What a list binds after one `put`.
pub proof fn lemma_put<T>(s: Seq<(Seq<char>, T)>, k: Seq<char>, v: T)
    requires
        distinct(s),
    ensures
        distinct(put(s, k, v)),
        has_key(put(s, k, v), k),
        lookup(put(s, k, v), k) == Some(v),
        forall|o: Seq<char>| o != k ==> has_key(put(s, k, v), o) == has_key(s, o),
        forall|o: Seq<char>| o != k ==> lookup(put(s, k, v), o) == lookup(s, o),
{
    let p = put(s, k, v);
    let at = if has_key(s, k) {
        position(s, k)
    } else {
        s.len() as int
    };
    assert(0 <= at < p.len() && p[at] == (k, v));
    assert(forall|i: int| 0 <= i < p.len() && i != at ==> p[i] == s[i]);
    assert(distinct(p)) by {
        assert forall|i: int, j: int| 0 <= i < j < p.len() implies (#[trigger] p[i]).0 != (
        #[trigger] p[j]).0 by {
            if i == at {
                if has_key(s, k) {
                    assert(s[at].0 != s[j].0);
                } else {
                    assert(s[j].0 != k);
                }
            } else if j == at {
                if has_key(s, k) {
                    assert(s[i].0 != s[at].0);
                } else {
                    assert(s[i].0 != k);
                }
            } else {
                assert(s[i].0 != s[j].0);
            }
        }
    }
    lemma_lookup_at(p, at);
    assert forall|o: Seq<char>| o != k implies has_key(p, o) == has_key(s, o) && lookup(p, o)
        == lookup(s, o) by {
        if has_key(s, o) {
            let j = position(s, o);
            assert(j != at);
            assert(p[j].0 == o);
            lemma_lookup_at(p, j);
            lemma_lookup_at(s, j);
        }
        if has_key(p, o) {
            let j = position(p, o);
            assert(j != at);
            assert(s[j].0 == o);
        }
    }
}

/// What a list binds after another was laid over it: the other's value
/// where the other binds the key, its own where not.
pub proof fn lemma_overlay<T>(s: Seq<(Seq<char>, T)>, t: Seq<(Seq<char>, T)>)
    requires
        distinct(s),
        distinct(t),
    ensures
        distinct(overlay(s, t)),
        forall|k: Seq<char>|
            #![trigger has_key(overlay(s, t), k)]
            has_key(overlay(s, t), k) == (has_key(s, k) || has_key(t, k)),
        forall|k: Seq<char>|
            #![trigger lookup(overlay(s, t), k)]
            lookup(overlay(s, t), k) == (if has_key(t, k) {
                lookup(t, k)
            } else {
                lookup(s, k)
            }),
    decreases t.len(),
{
    if t.len() > 0 {
        let front = t.drop_last();
        let k0 = t.last().0;
        let last = t.len() - 1;
        let mid = overlay(s, front);
        let all = overlay(s, t);
        assert(distinct(front)) by {
            assert forall|i: int, j: int| 0 <= i < j < front.len() implies (#[trigger] front[i]).0
                != (#[trigger] front[j]).0 by {
                assert(front[i] == t[i] && front[j] == t[j]);
            }
        }
        lemma_overlay(s, front);
        lemma_put(mid, k0, t.last().1);
        lemma_lookup_at(t, last);
        assert(all == put(mid, k0, t.last().1));
        assert forall|k: Seq<char>| k != k0 implies has_key(t, k) == has_key(front, k) && lookup(
            t,
            k,
        ) == lookup(front, k) by {
            if has_key(front, k) {
                let j = position(front, k);
                assert(t[j] == front[j]);
                lemma_lookup_at(t, j);
                lemma_lookup_at(front, j);
            }
            if has_key(t, k) {
                let j = position(t, k);
                assert(j != last);
                assert(front[j] == t[j]);
            }
        }
        assert forall|k: Seq<char>|
            #![trigger has_key(all, k)]
            #![trigger lookup(all, k)]
            has_key(all, k) == (has_key(s, k) || has_key(t, k)) && lookup(all, k) == (if has_key(
                t,
                k,
            ) {
                lookup(t, k)
            } else {
                lookup(s, k)
            }) by {
            if k != k0 {
                assert(has_key(all, k) == has_key(mid, k));
                assert(lookup(all, k) == lookup(mid, k));
                assert(has_key(mid, k) == (has_key(s, k) || has_key(front, k)));
                assert(lookup(mid, k) == (if has_key(front, k) {
                    lookup(front, k)
                } else {
                    lookup(s, k)
                }));
            }
        }
    } else {
        assert forall|k: Seq<char>| !has_key(t, k) by {}
    }
}

/// The value behind a handle.
pub open spec fn held<T>(rc: Rc<T>) -> T {
    *rc
}

/// `Rc::clone`: another handle to the same value.
#[verifier::external_body]
pub(crate) fn share<T>(rc: &Rc<T>) -> (r: Rc<T>)
    ensures
        r == *rc,
{
    Rc::clone(rc)
}

/// An association list. Each key is bound once.
pub struct Assoc<T> {
    entries: Vec<(Name, Rc<T>)>,
}

impl<T> View for Assoc<T> {
    type V = Seq<(Seq<char>, T)>;

    closed spec fn view(&self) -> Seq<(Seq<char>, T)> {
        Seq::new(self.entries.len() as nat, |i: int| (self.entries[i].0@, *self.entries[i].1))
    }
}

impl<T> Assoc<T> {
    /// No key is bound twice.
    pub open spec fn wf(&self) -> bool {
        distinct(self@)
    }

    /// The empty list.
    pub fn new() -> (r: Assoc<T>)
        ensures
            r.wf(),
            r@ == Seq::<(Seq<char>, T)>::empty(),
    {
        let r = Assoc { entries: Vec::new() };
        assert(r@ =~= Seq::<(Seq<char>, T)>::empty());
        r
    }

    /// The number of entries.
    pub fn len(&self) -> (r: usize)
        ensures
            r == self@.len(),
    {
        self.entries.len()
    }

    /// Does the list bind nothing?
    pub fn empty(&self) -> (r: bool)
        ensures
            r == (self@.len() == 0),
    {
        self.entries.len() == 0
    }

    /// The key of the `i`-th entry.
    pub fn key_at(&self, i: usize) -> (r: Name)
        requires
            i < self@.len(),
        ensures
            r@ == self@[i as int].0,
    {
        self.entries[i].0
    }

    /// The value of the `i`-th entry.
    pub fn value_at(&self, i: usize) -> (r: &T)
        requires
            i < self@.len(),
        ensures
            *r == self@[i as int].1,
    {
        &*self.entries[i].1
    }

    /// A handle to the value of the `i`-th entry.
    pub(crate) fn shared_at(&self, i: usize) -> (r: Rc<T>)
        requires
            i < self@.len(),
        ensures
            *r == self@[i as int].1,
    {
        share(&self.entries[i].1)
    }

    /// Where `n` is bound, if it is.
    fn slot(&self, n: Name) -> (r: Option<usize>)
        requires
            self.wf(),
        ensures
            match r {
                Some(i) => i < self@.len() && self@[i as int].0 == n@ && has_key(self@, n@)
                    && position(self@, n@) == i,
                None => !has_key(self@, n@),
            },
    {
        let mut i: usize = 0;
        while i < self.entries.len()
            invariant
                i <= self.entries.len(),
                self.wf(),
                forall|j: int| 0 <= j < i ==> (#[trigger] self@[j]).0 != n@,
            decreases self.entries.len() - i,
        {
            if self.entries[i].0.same(n) {
                proof {
                    lemma_lookup_at(self@, i as int);
                }
                return Some(i);
            }
            i += 1;
        }
        None
    }

    /// The value that `n` is bound to.
    pub fn find(&self, n: &Name) -> (r: Option<&T>)
        requires
            self.wf(),
        ensures
            match r {
                Some(v) => lookup(self@, n@) == Some(*v),
                None => lookup(self@, n@) is None,
            },
    {
        match self.slot(*n) {
            Some(i) => Some(&*self.entries[i].1),
            None => None,
        }
    }

    /// Binds `n` to the shared value `v` in place.
    pub(crate) fn bind(&mut self, n: Name, v: Rc<T>)
        requires
            old(self).wf(),
        ensures
            final(self).wf(),
            final(self)@ == put(old(self)@, n@, *v),
    {
        proof {
            lemma_put(self@, n@, held(v));
        }
        match self.slot(n) {
            Some(i) => {
                self.entries.set(i, (n, v));
                assert(self@ =~= put(old(self)@, n@, *v));
            },
            None => {
                self.entries.push((n, v));
                assert(self@ =~= put(old(self)@, n@, *v));
            },
        }
    }

    /// Adds an entry for a key that is not bound yet.
    pub(crate) fn bind_fresh(&mut self, n: Name, v: Rc<T>)
        requires
            old(self).wf(),
            !has_key(old(self)@, n@),
        ensures
            final(self).wf(),
            final(self)@ == old(self)@.push((n@, *v)),
    {
        proof {
            lemma_put(self@, n@, held(v));
        }
        self.entries.push((n, v));
        assert(self@ =~= old(self)@.push((n@, held(v))));
    }

    /// A list with the same entries, sharing the values.
    pub fn duplicate(&self) -> (r: Assoc<T>)
        ensures
            r@ == self@,
    {
        let mut entries: Vec<(Name, Rc<T>)> = Vec::new();
        let mut i: usize = 0;
        while i < self.entries.len()
            invariant
                i <= self.entries.len(),
                entries.len() == i,
                forall|j: int|
                    0 <= j < i ==> (#[trigger] entries[j]).0@ == self.entries[j].0@
                        && *entries[j].1 == *self.entries[j].1,
            decreases self.entries.len() - i,
        {
            entries.push((self.entries[i].0, share(&self.entries[i].1)));
            i += 1;
        }
        let r = Assoc { entries };
        assert(r@ =~= self@);
        r
    }

    /// The list with `n` bound to `v`. `self` is left as it was.
    pub fn set(&self, n: Name, v: T) -> (r: Assoc<T>)
        requires
            self.wf(),
        ensures
            r.wf(),
            r@ == put(self@, n@, v),
    {
        let mut r = self.duplicate();
        r.bind(n, Rc::new(v));
        r
    }

    /// The list with every entry of `other` put into it: where both bind a
    /// key, the value of `other` stands.
    pub fn set_assoc(&self, other: &Assoc<T>) -> (r: Assoc<T>)
        requires
            self.wf(),
        ensures
            r.wf(),
            r@ == overlay(self@, other@),
    {
        let mut r = self.duplicate();
        let mut i: usize = 0;
        while i < other.len()
            invariant
                i <= other@.len(),
                r.wf(),
                r@ == overlay(self@, other@.subrange(0, i as int)),
            decreases other@.len() - i,
        {
            let ghost upto = other@.subrange(0, i + 1);
            assert(upto.drop_last() =~= other@.subrange(0, i as int));
            assert(upto.last() == other@[i as int]);
            r.bind(other.key_at(i), other.shared_at(i));
            i += 1;
        }
        assert(other@.subrange(0, i as int) =~= other@);
        r
    }
}

impl<T> Clone for Assoc<T> {
    /// A list with the same entries, sharing the values.
    fn clone(&self) -> (r: Assoc<T>)
        ensures
            r@ == self@,
    {
        self.duplicate()
    }
}

} // verus!
