//! Host values and handles: counted references to host values, and handles to
//! library objects that are shared until someone needs to mutate them.
use std::rc::Rc;
use vstd::prelude::*;

use crate::map::HashMap;
use crate::set::HashSet;

verus! {

/// Whether a raw host word encodes a boxed scalar rather than a heap object:
/// the host tags scalars by setting the lowest bit.
pub fn lean_is_scalar(obj: usize) -> (r: bool)
    ensures
        r == (obj % 2 == 1),
{
    obj % 2 == 1
}

/// Relies on `Rc::clone`: another handle to the same allocation, whose
/// contents are therefore the same value.
#[verifier::external_body]
fn rc_clone<T>(rc: &Rc<T>) -> (r: Rc<T>)
    ensures
        *r == **rc,
{
    Rc::clone(rc)
}

/// Relies on `Rc::strong_count`: the number of handles that share the
/// allocation.
#[verifier::external_body]
fn rc_strong_count<T>(rc: &Rc<T>) -> (r: usize) {
    Rc::strong_count(rc)
}

/// A counted reference to a host value. The value is a 64-bit host word;
/// cloning a `LeanObject` takes one more reference to it and dropping one
/// releases a reference.
pub struct LeanObject {
    cell: Rc<u64>,
}

impl View for LeanObject {
    type V = u64;

    closed spec fn view(&self) -> u64 {
        *self.cell
    }
}

/// Two references to host values are interchangeable exactly when they refer
/// to the same word.
pub proof fn lemma_lean_object_view_injective(a: LeanObject, b: LeanObject)
    requires
        a@ == b@,
    ensures
        a == b,
{
}

/// `eq` may be called on any host value and gives the same answer for the same
/// value: what a caller-supplied equality predicate must be.
pub open spec fn is_predicate<F: Fn(&LeanObject) -> bool>(eq: F) -> bool {
    &&& forall|k: &LeanObject| #[trigger] eq.requires((k,))
    &&& forall|k: &LeanObject, a: bool, b: bool|
        #![trigger eq.ensures((k,), a), eq.ensures((k,), b)]
        eq.ensures((k,), a) && eq.ensures((k,), b) ==> a == b
}

/// A call of `eq` on the host value with word `w` can answer true.
pub open spec fn accepts<F: Fn(&LeanObject) -> bool>(eq: F, w: u64) -> bool {
    exists|k: LeanObject| k@ == w && #[trigger] eq.ensures((&k,), true)
}

/// `eq` is the predicate that the relation `rel` gives for `key`: it accepts
/// exactly the words related to `key`.
pub open spec fn predicate_for<F: Fn(&LeanObject) -> bool>(
    eq: F,
    rel: spec_fn(u64, u64) -> bool,
    key: u64,
) -> bool {
    forall|w: u64| #[trigger] accepts(eq, w) == rel(w, key)
}

/// What one call of a predicate answered is what it answers for that value.
pub proof fn lemma_call_decides<F: Fn(&LeanObject) -> bool>(eq: F, k: LeanObject, b: bool)
    requires
        is_predicate(eq),
        eq.ensures((&k,), b),
    ensures
        b == accepts(eq, k@),
{
    if accepts(eq, k@) {
        let k2 = choose|k2: LeanObject| k2@ == k@ && #[trigger] eq.ensures((&k2,), true);
        lemma_lean_object_view_injective(k, k2);
    }
}

impl LeanObject {
    /// A fresh host value holding `word`, with one reference: the result.
    pub fn new(word: u64) -> (r: LeanObject)
        ensures
            r@ == word,
    {
        LeanObject { cell: Rc::new(word) }
    }

    /// The host word this reference refers to.
    pub fn word(&self) -> (r: u64)
        ensures
            r == self@,
    {
        *self.cell
    }

    /// The host word of this value; the reference itself is released.
    pub fn into_raw(self) -> (r: u64)
        ensures
            r == self@,
    {
        *self.cell
    }

    /// Whether this is the only live reference to the host value.
    pub fn is_exclusive(&self) -> (r: bool) {
        rc_strong_count(&self.cell) == 1
    }
}

impl Clone for LeanObject {
    fn clone(&self) -> (r: Self)
        ensures
            r == *self,
    {
        LeanObject { cell: rc_clone(&self.cell) }
    }
}

/// A reference to a host value that the caller keeps: using it takes no
/// reference unless `to_owned` is called.
pub struct BorrowedLeanObject<'a> {
    obj: &'a LeanObject,
}

impl<'a> View for BorrowedLeanObject<'a> {
    type V = u64;

    closed spec fn view(&self) -> u64 {
        self.obj@
    }
}

impl<'a> BorrowedLeanObject<'a> {
    pub fn new(obj: &'a LeanObject) -> (r: BorrowedLeanObject<'a>)
        ensures
            r@ == obj@,
    {
        BorrowedLeanObject { obj }
    }

    /// Takes a reference of our own to the borrowed host value.
    pub fn to_owned(&self) -> (r: LeanObject)
        ensures
            r@ == self@,
    {
        self.obj.clone()
    }
}

/// A counted reference handed to the host's reachability passes: to a host
/// value, or to a map or a set that the host holds through a handle.
pub enum HostRef {
    Value(LeanObject),
    MapHandle(Object<HashMap>),
    SetHandle(Object<HashSet>),
}

/// What a `HostRef` refers to: the word of a host value, or the entries of a
/// map or a set.
pub enum HostRefView {
    Value(u64),
    MapEntries(Seq<(u64, u64, u64)>),
    SetEntries(Seq<(u64, u64)>),
}

impl View for HostRef {
    type V = HostRefView;

    open spec fn view(&self) -> HostRefView {
        match self {
            HostRef::Value(o) => HostRefView::Value(o@),
            HostRef::MapHandle(m) => HostRefView::MapEntries(m@@),
            HostRef::SetHandle(s) => HostRefView::SetEntries(s@@),
        }
    }
}

/// What the host needs from a library type whose values it holds: the host
/// references a value owns, and a way to copy the value when it is shared.
pub trait ExternalClass: Sized + View {
    /// What the references this value owns refer to, in the order that
    /// `foreach` hands them out.
    spec fn owned_references(&self) -> Seq<HostRefView>;

    /// One new counted reference to each thing this value owns, for the
    /// host's reachability passes.
    fn foreach(&self) -> (r: Vec<HostRef>)
        ensures
            r@.len() == self.owned_references().len(),
            forall|i: int|
                0 <= i < r@.len() ==> #[trigger] r@[i]@ == self.owned_references()[i],
    ;

    /// A copy of this value that takes one more reference to everything it
    /// owns.
    fn clone_owned(&self) -> (r: Self)
        ensures
            r@ == self@,
    ;
}

/// A counted handle to a library value held by the host. Any number of
/// handles may share one value; a shared value is never changed in place.
pub struct Object<T> {
    rc: Rc<T>,
}

impl<T> View for Object<T> {
    type V = T;

    closed spec fn view(&self) -> T {
        *self.rc
    }
}

impl<T: ExternalClass> Object<T> {
    /// A handle to `t`, the only one so far.
    pub fn new(t: T) -> (r: Object<T>)
        ensures
            r@ == t,
    {
        Object { rc: Rc::new(t) }
    }

    /// Whether this handle is the only one to its value, so that the value
    /// may be changed without any other holder noticing.
    pub fn lean_is_exclusive(&self) -> (r: bool) {
        rc_strong_count(&self.rc) == 1
    }

    /// The value behind this handle, ready to be changed: the value itself
    /// when this handle was the only one, else a copy, with the reference of
    /// this handle released. Either way its contents are those of the handle.
    pub fn make_mut(self) -> (r: T)
        ensures
            r@ == self@@,
    {
        if self.lean_is_exclusive() {
            match Rc::try_unwrap(self.rc) {
                Ok(t) => t,
                Err(shared) => shared.clone_owned(),
            }
        } else {
            self.rc.clone_owned()
        }
    }

    /// The value behind this handle, for reading.
    pub fn get(&self) -> (r: &T)
        ensures
            *r == self@,
    {
        &self.rc
    }
}

impl<T: ExternalClass> Clone for Object<T> {
    fn clone(&self) -> (r: Self)
        ensures
            r@ == self@,
    {
        Object { rc: rc_clone(&self.rc) }
    }
}

/// A handle that the caller keeps, lent for a read-only operation.
pub struct BorrowedObject<'a, T> {
    obj: &'a Object<T>,
}

impl<'a, T> View for BorrowedObject<'a, T> {
    type V = T;

    closed spec fn view(&self) -> T {
        self.obj@
    }
}

impl<'a, T: ExternalClass> BorrowedObject<'a, T> {
    pub fn new(obj: &'a Object<T>) -> (r: BorrowedObject<'a, T>)
        ensures
            r@ == obj@,
    {
        BorrowedObject { obj }
    }

    /// A handle of our own to the borrowed value.
    pub fn to_owned(&self) -> (r: Object<T>)
        ensures
            r@ == self@,
    {
        self.obj.clone()
    }

    /// The borrowed value, for reading.
    pub fn get(&self) -> (r: &'a T)
        ensures
            *r == self@,
    {
        self.obj.get()
    }
}

} // verus!
