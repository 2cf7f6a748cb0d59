//! Interned symbols: cheap to copy, compared by identity.

use std::marker::PhantomData;
use std::rc::Rc;
use vstd::prelude::*;

verus! {

/// `lalrpop_intern::InternedString`: the handle that an interner hands out
/// for a text. Nothing is known of what it holds.
#[verifier::external_type_specification]
#[verifier::external_body]
pub struct ExInternedString(lalrpop_intern::InternedString);

/// The text for which the interner of the current thread handed out `id`.
pub uninterp spec fn interned_text(id: lalrpop_intern::InternedString) -> Seq<char>;

/// A symbol. Two symbols are the same exactly if they were made from the
/// same text.
///
/// A symbol refers to the interner of the thread that made it, so the type
/// is neither `Send` nor `Sync`: every symbol that a thread can hold was
/// interned on that thread.
#[derive(Clone, Copy, PartialEq, Eq, Hash)]
pub struct Name {
    id: lalrpop_intern::InternedString,
    home: PhantomData<Rc<()>>,
}

impl View for Name {
    type V = Seq<char>;

    closed spec fn view(&self) -> Seq<char> {
        interned_text(self.id)
    }
}

/// `lalrpop_intern::intern`: looks `s` up in the thread's interner, adding
/// it if it is new, and returns its handle. Either way the interner holds
/// `s` under that handle afterwards.
#[verifier::external_body]
fn intern_text(s: &str) -> (id: lalrpop_intern::InternedString)
    ensures
        interned_text(id) == s@,
{
    lalrpop_intern::intern(s)
}

/// `InternedString`'s `Display`, through `to_string`: writes out the text
/// that the thread's interner holds under the handle.
#[verifier::external_body]
fn text_of(id: lalrpop_intern::InternedString) -> (s: String)
    ensures
        s@ == interned_text(id),
{
    id.to_string()
}

/// `InternedString`'s `==`: compares the two handles. One interner never
/// holds a text under two handles, so equal handles mean equal texts and
/// the other way round.
#[verifier::external_body]
fn same_handle(a: lalrpop_intern::InternedString, b: lalrpop_intern::InternedString) -> (r: bool)
    ensures
        r == (interned_text(a) == interned_text(b)),
{
    a == b
}

impl Name {
    /// The spelling of the symbol.
    pub fn sp(self) -> (s: String)
        ensures
            s@ == self@,
    {
        text_of(self.id)
    }

    /// Is this symbol spelled `s`?
    pub fn is(self, s: &str) -> (r: bool)
        ensures
            r == (self@ == s@),
    {
        let mine = self.sp();
        let theirs = s.to_owned();
        mine == theirs
    }

    /// Are the two symbols spelled alike?
    pub fn is_name(self, n: Name) -> (r: bool)
        ensures
            r == (self@ == n@),
    {
        let mine = self.sp();
        let theirs = n.sp();
        mine == theirs
    }

    /// Are the two symbols the same? Decided on the handles alone.
    pub fn same(self, n: Name) -> (r: bool)
        ensures
            r == (self@ == n@),
    {
        same_handle(self.id, n.id)
    }
}

/// The symbol spelled `s`.
pub fn n(s: &str) -> (name: Name)
    ensures
        name@ == s@,
{
    Name { id: intern_text(s), home: PhantomData }
}

/// The symbol under which a walk that runs from the root to the leaves
/// keeps the value it hands down.
pub fn negative_ret_val() -> (name: Name)
    ensures
        name@ == "⋄"@,
{
    n("⋄")
}

/// A symbol's spelling, held apart from any interner.
#[derive(PartialEq, Eq, Clone, Debug)]
pub struct ContainedName {
    spelling: String,
}

impl View for ContainedName {
    type V = Seq<char>;

    closed spec fn view(&self) -> Seq<char> {
        self.spelling@
    }
}

impl ContainedName {
    pub fn from_name(n: Name) -> (c: ContainedName)
        ensures
            c@ == n@,
    {
        ContainedName { spelling: n.sp() }
    }
}

} // verus!
