//! A hash set of host values with copy-on-write handles, and a cursor over its
//! elements.
use vstd::prelude::*;

use crate::object::{
    accepts, is_predicate, lemma_call_decides, predicate_for, BorrowedObject, ExternalClass, HostRef,
    HostRefView, LeanObject, Object,
};
use crate::keys::{
    count_keys, hash_respects, is_equivalence, keys_apart, lemma_add_apart, lemma_apart_counts_all,
    lemma_apart_to_multiset, lemma_multiset_to_apart, lemma_remove_apart, lemma_replace_apart,
};
use crate::table::{set_entries, SetTable};

verus! {

/// A set entry: the caller's hash of the element, and the element, of which
/// the entry owns one reference.
pub struct HashedObject {
    pub hash: u64,
    pub element: LeanObject,
}

impl View for HashedObject {
    type V = (u64, u64);

    open spec fn view(&self) -> (u64, u64) {
        (self.hash, self.element@)
    }
}

impl HashedObject {
    /// Whether this entry is stored under `hash` and `eq` accepts its element.
    pub fn matches<F: Fn(&LeanObject) -> bool>(&self, hash: u64, eq: &F) -> (r: bool)
        requires
            is_predicate(*eq),
        ensures
            r == (self.hash == hash && accepts(*eq, self.element@)),
    {
        if self.hash != hash {
            return false;
        }
        let r = eq(&self.element);
        proof {
            lemma_call_decides(*eq, self.element, r);
        }
        r
    }
}

impl Clone for HashedObject {
    fn clone(&self) -> (r: Self)
        ensures
            r == *self,
    {
        HashedObject { hash: self.hash, element: self.element.clone() }
    }
}

/// Whether some entry of `s` is stored under `hash` with an element that `eq`
/// accepts.
pub open spec fn has_match<F: Fn(&LeanObject) -> bool>(
    s: Seq<(u64, u64)>,
    hash: u64,
    eq: F,
) -> bool {
    exists|i: int| 0 <= i < s.len() && #[trigger] s[i].0 == hash && accepts(eq, s[i].1)
}

/// `t` is `s` after inserting entry `e` with predicate `eq`: an entry that
/// matches is replaced by `e`, and without one `e` is added.
pub open spec fn inserted<F: Fn(&LeanObject) -> bool>(
    s: Seq<(u64, u64)>,
    t: Seq<(u64, u64)>,
    e: (u64, u64),
    eq: F,
) -> bool {
    if has_match(s, e.0, eq) {
        exists|i: int|
            0 <= i < s.len() && #[trigger] s[i].0 == e.0 && accepts(eq, s[i].1)
                && t.to_multiset() == s.to_multiset().remove(s[i]).insert(e)
    } else {
        t.to_multiset() == s.to_multiset().insert(e)
    }
}

/// `t` is `s` after removing with `hash` and `eq`: an entry that matches is
/// taken out, and without one nothing changes.
pub open spec fn removed<F: Fn(&LeanObject) -> bool>(
    s: Seq<(u64, u64)>,
    t: Seq<(u64, u64)>,
    hash: u64,
    eq: F,
) -> bool {
    if has_match(s, hash, eq) {
        exists|i: int|
            0 <= i < s.len() && #[trigger] s[i].0 == hash && accepts(eq, s[i].1)
                && t.to_multiset() == s.to_multiset().remove(s[i])
    } else {
        t == s
    }
}

/// References to the elements of `s`, entry by entry.
pub open spec fn element_references(s: Seq<(u64, u64)>) -> Seq<HostRefView> {
    s.map_values(|e: (u64, u64)| HostRefView::Value(e.1))
}

/// A hash set whose entries live in an open-addressing table; elements are
/// told apart by hash and a caller-supplied equality predicate.
pub struct HashSet {
    table: SetTable,
}

impl View for HashSet {
    type V = Seq<(u64, u64)>;

    /// The entries as (hash, element) words, in iteration order.
    closed spec fn view(&self) -> Seq<(u64, u64)> {
        set_entries(self.table)
    }
}

impl ExternalClass for HashSet {
    open spec fn owned_references(&self) -> Seq<HostRefView> {
        element_references(self@)
    }

    fn foreach(&self) -> (r: Vec<HostRef>) {
        let entries = self.table.entries();
        let mut r: Vec<HostRef> = Vec::new();
        let mut i: usize = 0;
        while i < entries.len()
            invariant
                entries@.len() == self@.len(),
                forall|j: int| 0 <= j < entries@.len() ==> #[trigger] entries@[j]@ == self@[j],
                0 <= i <= entries@.len(),
                r@.len() == i,
                forall|j: int| 0 <= j < i ==> #[trigger] r@[j]@ == HostRefView::Value(self@[j].1),
            decreases entries@.len() - i,
        {
            let e = entries[i];
            assert(e@ == self@[i as int]);
            r.push(HostRef::Value(e.element.clone()));
            i += 1;
        }
        r
    }

    fn clone_owned(&self) -> (r: Self) {
        HashSet { table: self.table.clone_table() }
    }
}

/// A cursor over the elements of a set. While it has an element it holds a
/// handle to the set, which keeps the set alive and unchanged, and the
/// position of the element in the set's iteration order; the element itself
/// is read from the set, not held. Once past the last element it holds
/// nothing.
pub enum HashSetIter {
    More { position: usize, table: Object<HashSet> },
    Finished,
}

impl View for HashSetIter {
    /// The entries of the set and the position; `None` once finished.
    type V = Option<(Seq<(u64, u64)>, int)>;

    open spec fn view(&self) -> Option<(Seq<(u64, u64)>, int)> {
        match self {
            HashSetIter::More { position, table } => Some((table@@, *position as int)),
            HashSetIter::Finished => None,
        }
    }
}

/// A cursor state at entry `p` of `s`, or finished when `p` is past the end.
pub open spec fn set_cursor_at(s: Seq<(u64, u64)>, p: int) -> Option<(Seq<(u64, u64)>, int)> {
    if 0 <= p < s.len() {
        Some((s, p))
    } else {
        None
    }
}

/// The state after a cursor in state `v` advances.
pub open spec fn set_cursor_next(v: Option<(Seq<(u64, u64)>, int)>) -> Option<
    (Seq<(u64, u64)>, int),
> {
    match v {
        Some((s, p)) => set_cursor_at(s, p + 1),
        None => None,
    }
}

impl HashSetIter {
    /// The cursor is finished or at an entry of its set.
    pub open spec fn wf(&self) -> bool {
        match self@ {
            Some((s, p)) => 0 <= p < s.len(),
            None => true,
        }
    }

    /// A cursor at entry `position` of `table`, or finished when there is no
    /// such entry, in which case the handle is released.
    fn at(table: Object<HashSet>, position: usize) -> (r: HashSetIter)
        ensures
            r@ == set_cursor_at(table@@, position as int),
    {
        if position < table.get().table.len() {
            HashSetIter::More { position, table }
        } else {
            HashSetIter::Finished
        }
    }

    /// Moves to the next element, or finishes after the last one.
    fn move_next(self) -> (r: HashSetIter)
        requires
            self.wf(),
        ensures
            r@ == set_cursor_next(self@),
    {
        match self {
            HashSetIter::More { position, table } => {
                let n = table.get().table.len();
                if position + 1 < n {
                    HashSetIter::More { position: position + 1, table }
                } else {
                    HashSetIter::Finished
                }
            },
            HashSetIter::Finished => HashSetIter::Finished,
        }
    }

    /// The cursor's entry, read from its set.
    fn current(&self) -> (r: Option<&HashedObject>)
        requires
            self.wf(),
        ensures
            match self@ {
                Some((s, p)) => r matches Some(e) && e@ == s[p],
                None => r is None,
            },
    {
        match self {
            HashSetIter::More { position, table } => table.get().table.nth(*position),
            HashSetIter::Finished => None,
        }
    }
}

impl ExternalClass for HashSetIter {
    /// The handle to the set; nothing once finished.
    open spec fn owned_references(&self) -> Seq<HostRefView> {
        match self@ {
            Some((s, p)) => seq![HostRefView::SetEntries(s)],
            None => Seq::empty(),
        }
    }

    fn foreach(&self) -> (r: Vec<HostRef>) {
        let mut r: Vec<HostRef> = Vec::new();
        match self {
            HashSetIter::More { position, table } => {
                r.push(HostRef::SetHandle(table.clone()));
            },
            HashSetIter::Finished => {},
        }
        proof {
            assert(r@.len() == self.owned_references().len());
        }
        r
    }

    fn clone_owned(&self) -> (r: Self) {
        match self {
            HashSetIter::More { position, table } => HashSetIter::More {
                position: *position,
                table: table.clone(),
            },
            HashSetIter::Finished => HashSetIter::Finished,
        }
    }
}

/// A handle to a new set without elements.
pub fn lean_hashbrown_hashset_create() -> (r: Object<HashSet>)
    ensures
        r@@ == Seq::<(u64, u64)>::empty(),
{
    Object::new(HashSet { table: SetTable::new() })
}

/// A cursor at the first element of the set, holding the handle `obj`; a
/// finished cursor, which releases the handle, when the set is empty.
pub fn lean_hashbrown_hashset_get_iter(obj: Object<HashSet>) -> (r: Object<HashSetIter>)
    ensures
        r@@ == set_cursor_at(obj@@, 0),
        r@.wf(),
{
    Object::new(HashSetIter::at(obj, 0))
}

/// Removes the element stored under `hash` that `eq` accepts, if there is
/// one; the set is copied first when `obj` shares it with other handles.
pub fn lean_hashbrown_hashset_remove<F: Fn(&LeanObject) -> bool>(
    obj: Object<HashSet>,
    hash: u64,
    eq: &F,
) -> (r: Object<HashSet>)
    requires
        is_predicate(*eq),
    ensures
        removed(obj@@, r@@, hash, *eq),
        r@@.len() == if has_match(obj@@, hash, *eq) {
            obj@@.len() - 1
        } else {
            obj@@.len() as int
        },
{
    let mut set = obj.make_mut();
    let gone = set.table.remove(hash, eq);
    proof {
        broadcast use vstd::seq_lib::group_to_multiset_ensures;

        let s = obj@@;
        let t = set@;
        match gone {
            Some(e) => {
                let i = choose|i: int| 0 <= i < s.len() && s[i] == e@;
                assert(s[i].0 == hash && accepts(*eq, s[i].1));
                assert(t.to_multiset().len() == s.to_multiset().len() - 1);
            },
            None => {},
        }
    }
    Object::new(set)
}

/// Whether the set has an element stored under `hash` that `eq` accepts.
pub fn lean_hashbrown_hashset_contains<F: Fn(&LeanObject) -> bool>(
    obj: BorrowedObject<HashSet>,
    hash: u64,
    eq: &F,
) -> (r: bool)
    requires
        is_predicate(*eq),
    ensures
        r == has_match(obj@@, hash, *eq),
{
    match obj.get().table.find(hash, eq) {
        Some(e) => {
            proof {
                let i = choose|i: int| 0 <= i < obj@@.len() && obj@@[i] == e@;
                assert(obj@@[i].0 == hash && accepts(*eq, obj@@[i].1));
            }
            true
        },
        None => false,
    }
}

/// The number of elements.
pub fn lean_hashbrown_hashset_len(obj: BorrowedObject<HashSet>) -> (r: usize)
    ensures
        r == obj@@.len(),
{
    obj.get().table.len()
}

/// Adds `target`: an element stored under `hash` that `eq` accepts is
/// replaced, releasing it; without one a new entry is added. The set is copied
/// first when `obj` shares it with other handles.
pub fn lean_hashbrown_hashset_insert<F: Fn(&LeanObject) -> bool>(
    obj: Object<HashSet>,
    hash: u64,
    target: LeanObject,
    eq: &F,
) -> (r: Object<HashSet>)
    requires
        is_predicate(*eq),
    ensures
        inserted(obj@@, r@@, (hash, target@), *eq),
        r@@.len() == if has_match(obj@@, hash, *eq) {
            obj@@.len() as int
        } else {
            obj@@.len() + 1 as int
        },
{
    let mut set = obj.make_mut();
    let replaced = set.table.insert(HashedObject { hash, element: target }, eq);
    proof {
        broadcast use vstd::seq_lib::group_to_multiset_ensures;

        let s = obj@@;
        let t = set@;
        match replaced {
            Some(old_entry) => {
                let i = choose|i: int| 0 <= i < s.len() && s[i] == old_entry@;
                assert(s[i].0 == hash && accepts(*eq, s[i].1));
                assert(t.to_multiset().len() == s.to_multiset().len());
            },
            None => {
                assert(t.to_multiset().len() == s.to_multiset().len() + 1);
            },
        }
    }
    Object::new(set)
}

/// Whether the cursor is at an element.
pub fn lean_hashbrown_hashset_iter_has_element(obj: BorrowedObject<HashSetIter>) -> (r: bool)
    ensures
        r == obj@@ is Some,
{
    match obj.get() {
        HashSetIter::More { .. } => true,
        HashSetIter::Finished => false,
    }
}

/// A new reference to the cursor's element; `None` once finished.
pub fn lean_hashbrown_hashset_iter_get_element(obj: BorrowedObject<HashSetIter>) -> (r: Option<
    LeanObject,
>)
    requires
        obj@.wf(),
    ensures
        match obj@@ {
            Some((s, p)) => r matches Some(k) && k@ == s[p].1,
            None => r is None,
        },
{
    match obj.get().current() {
        Some(e) => Some(e.element.clone()),
        None => None,
    }
}

/// Moves the cursor to the next element, or finishes it after the last one,
/// releasing its handle to the set. The cursor is copied first when `obj`
/// shares it with other handles.
pub fn lean_hashbrown_hashset_iter_move_next(obj: Object<HashSetIter>) -> (r: Object<HashSetIter>)
    requires
        obj@.wf(),
    ensures
        r@@ == set_cursor_next(obj@@),
        r@.wf(),
{
    let iter = obj.make_mut();
    Object::new(iter.move_next())
}

/// The element of a set entry.
pub open spec fn set_key() -> spec_fn((u64, u64)) -> u64 {
    |e: (u64, u64)| e.1
}

/// No two entries of `s` have elements that `rel` relates.
pub open spec fn elements_distinct(s: Seq<(u64, u64)>, rel: spec_fn(u64, u64) -> bool) -> bool {
    keys_apart(s, set_key(), rel)
}

/// The number of distinct elements of `s` under `rel`.
pub open spec fn distinct_elements(s: Seq<(u64, u64)>, rel: spec_fn(u64, u64) -> bool) -> nat {
    count_keys(s, set_key(), rel)
}

/// Every entry of `s` is stored under the hash that `hash_of` gives its
/// element.
pub open spec fn hashed_by(s: Seq<(u64, u64)>, hash_of: spec_fn(u64) -> u64) -> bool {
    forall|i: int| 0 <= i < s.len() ==> #[trigger] s[i].0 == hash_of(s[i].1)
}

/// When callers hash elements with `hash_of` and compare them with the
/// equivalence `rel`, which `hash_of` respects, an insertion keeps the
/// elements distinct and each entry under its element's hash, and the number
/// of entries is the number of distinct elements present.
pub proof fn law_insert_keeps_elements_distinct<F: Fn(&LeanObject) -> bool>(
    s: Seq<(u64, u64)>,
    t: Seq<(u64, u64)>,
    hash: u64,
    key: u64,
    eq: F,
    rel: spec_fn(u64, u64) -> bool,
    hash_of: spec_fn(u64) -> u64,
)
    requires
        is_equivalence(rel),
        hash_respects(hash_of, rel),
        elements_distinct(s, rel),
        hashed_by(s, hash_of),
        predicate_for(eq, rel, key),
        hash == hash_of(key),
        inserted(s, t, (hash, key), eq),
    ensures
        elements_distinct(t, rel),
        hashed_by(t, hash_of),
        t.len() == distinct_elements(t, rel),
        has_match(s, hash, eq) ==> exists|i: int|
            0 <= i < s.len() && #[trigger] s[i].0 == hash && accepts(eq, s[i].1) && (forall|j: int|
                0 <= j < s.len() && #[trigger] s[j].0 == hash && accepts(eq, s[j].1) ==> j == i)
                && t.to_multiset() == s.to_multiset().remove(s[i]).insert((hash, key)),
        t.contains((hash, key)),
        forall|j: int|
            0 <= j < t.len() && #[trigger] t[j].0 == hash && accepts(eq, t[j].1) ==> t[j] == (hash, key),
{
    broadcast use vstd::seq_lib::group_to_multiset_ensures;

    broadcast use vstd::multiset::group_multiset_axioms;

    let k = set_key();
    let e = (hash, key);
    let m = s.to_multiset();
    lemma_apart_to_multiset(s, k, rel);
    assert(rel(key, key));
    assert forall|y: (u64, u64)| #[trigger] m.count(y) > 0 && rel(k(y), k(e)) implies exists|
        j: int,
    | 0 <= j < s.len() && s[j] == y && #[trigger] s[j].0 == hash && accepts(eq, s[j].1) by {
        assert(s.contains(y));
        let j = choose|j: int| 0 <= j < s.len() && s[j] == y;
        assert(s[j].0 == hash_of(s[j].1));
    }
    if has_match(s, hash, eq) {
        let i = choose|i: int|
            0 <= i < s.len() && #[trigger] s[i].0 == hash && accepts(eq, s[i].1)
                && t.to_multiset() == s.to_multiset().remove(s[i]).insert(e);
        assert(m.count(s[i]) > 0);
        assert forall|y: (u64, u64)| #[trigger] m.count(y) > 0 && rel(k(y), k(e)) implies y
            == s[i] by {
            assert(rel(s[i].1, key));
            assert(rel(key, s[i].1));
            assert(rel(y.1, s[i].1));
            assert(m.count(s[i]) > 0);
        }
        assert forall|j: int|
            0 <= j < s.len() && #[trigger] s[j].0 == hash && accepts(eq, s[j].1) implies j == i by {
            assert(rel(s[j].1, key) && rel(s[i].1, key) && rel(key, s[i].1));
            assert(rel(k(s[j]), k(s[i])));
        }
        lemma_replace_apart(m, s[i], e, k, rel);
    } else {
        lemma_add_apart(m, e, k, rel);
    }
    lemma_multiset_to_apart(t, k, rel);
    assert forall|i: int| 0 <= i < t.len() implies #[trigger] t[i].0 == hash_of(t[i].1) by {
        assert(t.contains(t[i]));
        assert(t.to_multiset().count(t[i]) > 0);
        if t[i] != e {
            assert(m.count(t[i]) > 0);
            assert(s.contains(t[i]));
        }
    }
    assert(t.to_multiset().count(e) > 0);
    assert(t.contains(e));
    let je = choose|je: int| 0 <= je < t.len() && t[je] == e;
    assert forall|j: int|
        0 <= j < t.len() && #[trigger] t[j].0 == hash && accepts(eq, t[j].1) implies t[j] == e by {
        assert(rel(k(t[j]), k(t[je])));
    }
    lemma_apart_counts_all(t, k, rel);
}

/// A removal keeps the elements distinct under `rel` and each entry under the
/// hash `hash_of` gives its element, and the number of entries is the number
/// of distinct elements present.
pub proof fn law_remove_keeps_elements_distinct<F: Fn(&LeanObject) -> bool>(
    s: Seq<(u64, u64)>,
    t: Seq<(u64, u64)>,
    hash: u64,
    eq: F,
    rel: spec_fn(u64, u64) -> bool,
    hash_of: spec_fn(u64) -> u64,
)
    requires
        is_equivalence(rel),
        elements_distinct(s, rel),
        hashed_by(s, hash_of),
        removed(s, t, hash, eq),
    ensures
        elements_distinct(t, rel),
        hashed_by(t, hash_of),
        t.len() == distinct_elements(t, rel),
{
    broadcast use vstd::seq_lib::group_to_multiset_ensures;
    broadcast use vstd::multiset::group_multiset_axioms;

    let k = set_key();
    let m = s.to_multiset();
    if has_match(s, hash, eq) {
        let i = choose|i: int|
            0 <= i < s.len() && #[trigger] s[i].0 == hash && accepts(eq, s[i].1)
                && t.to_multiset() == s.to_multiset().remove(s[i]);
        lemma_apart_to_multiset(s, k, rel);
        lemma_remove_apart(m, s[i], k, rel);
        lemma_multiset_to_apart(t, k, rel);
        assert forall|j: int| 0 <= j < t.len() implies #[trigger] t[j].0 == hash_of(t[j].1) by {
            assert(t.contains(t[j]));
            assert(t.to_multiset().count(t[j]) > 0);
            assert(m.count(t[j]) > 0);
            assert(s.contains(t[j]));
        }
    }
    lemma_apart_counts_all(t, k, rel);
}

/// A cursor that starts on `s` and advances `n` times.
pub open spec fn set_cursor_after(s: Seq<(u64, u64)>, n: nat) -> Option<(Seq<(u64, u64)>, int)>
    decreases n,
{
    if n == 0 {
        set_cursor_at(s, 0)
    } else {
        set_cursor_next(set_cursor_after(s, (n - 1) as nat))
    }
}

/// Iterating a set from `get_iter` on visits its entries one by one in
/// iteration order, each exactly once, and finishes right after the last.
pub proof fn law_iteration_visits_each_element_once(s: Seq<(u64, u64)>, n: nat)
    ensures
        n < s.len() ==> set_cursor_after(s, n) == Some((s, n as int)),
        n >= s.len() ==> set_cursor_after(s, n) is None,
    decreases n,
{
    if n > 0 {
        law_iteration_visits_each_element_once(s, (n - 1) as nat);
    }
}

/// One insertion or removal whose hash and predicate `hash_of` and `rel` give
/// for some element.
pub open spec fn consistent_step<F: Fn(&LeanObject) -> bool>(
    s: Seq<(u64, u64)>,
    t: Seq<(u64, u64)>,
    rel: spec_fn(u64, u64) -> bool,
    hash_of: spec_fn(u64) -> u64,
) -> bool {
    exists|eq: F, key: u64|
        #![trigger inserted(s, t, (hash_of(key), key), eq)]
        predicate_for(eq, rel, key) && (inserted(s, t, (hash_of(key), key), eq) || removed(
            s,
            t,
            hash_of(key),
            eq,
        ))
}

/// Along any run of insertions and removals from an empty set in which
/// callers hash elements with `hash_of` and compare them with the equivalence
/// `rel`, which `hash_of` respects, the elements stay distinct, each entry
/// sits under its element's hash, and the number of entries is the number of
/// distinct elements present.
pub proof fn law_history_len_counts_distinct_elements<F: Fn(&LeanObject) -> bool>(
    h: Seq<Seq<(u64, u64)>>,
    rel: spec_fn(u64, u64) -> bool,
    hash_of: spec_fn(u64) -> u64,
)
    requires
        is_equivalence(rel),
        hash_respects(hash_of, rel),
        h.len() > 0,
        h[0] == Seq::<(u64, u64)>::empty(),
        forall|i: int| 0 <= i < h.len() - 1 ==> consistent_step::<F>(#[trigger] h[i], h[i + 1], rel, hash_of),
    ensures
        forall|i: int|
            0 <= i < h.len() ==> elements_distinct(#[trigger] h[i], rel) && hashed_by(h[i], hash_of)
                && h[i].len() == distinct_elements(h[i], rel),
    decreases h.len(),
{
    if h.len() == 1 {
        lemma_apart_counts_all(h[0], set_key(), rel);
    } else {
        let g = h.drop_last();
        assert forall|i: int| 0 <= i < g.len() - 1 implies consistent_step::<F>(#[trigger] g[i], g[i + 1], rel, hash_of) by {
            assert(g[i] == h[i] && g[i + 1] == h[i + 1]);
        }
        law_history_len_counts_distinct_elements::<F>(g, rel, hash_of);
        let n = h.len() - 1;
        assert(g[n - 1] == h[n - 1]);
        assert(consistent_step::<F>(h[n - 1], h[n], rel, hash_of));
        assert(exists|eq: F, key: u64|
            #![trigger inserted(h[n - 1], h[n], (hash_of(key), key), eq)]
            predicate_for(eq, rel, key) && (inserted(h[n - 1], h[n], (hash_of(key), key), eq)
                || removed(h[n - 1], h[n], hash_of(key), eq)));
        let (eq, key) = choose|eq: F, key: u64|
            #![trigger inserted(h[n - 1], h[n], (hash_of(key), key), eq)]
            predicate_for(eq, rel, key) && (inserted(h[n - 1], h[n], (hash_of(key), key), eq)
                || removed(h[n - 1], h[n], hash_of(key), eq));
        if inserted(h[n - 1], h[n], (hash_of(key), key), eq) {
            law_insert_keeps_elements_distinct(h[n - 1], h[n], hash_of(key), key, eq, rel, hash_of);
        } else {
            law_remove_keeps_elements_distinct(h[n - 1], h[n], hash_of(key), eq, rel, hash_of);
        }
        assert forall|i: int| 0 <= i < h.len() implies elements_distinct(#[trigger] h[i], rel) && hashed_by(h[i], hash_of)
            && h[i].len() == distinct_elements(h[i], rel) by {
            if i < n {
                assert(g[i] == h[i]);
            }
        }
    }
}

} // verus!
