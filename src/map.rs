//! A hash map from host keys to host values with copy-on-write handles, and a
//! cursor over its entries.
use vstd::prelude::*;

use crate::object::{
    accepts, is_predicate, lemma_call_decides, predicate_for, BorrowedObject, ExternalClass, HostRef,
    HostRefView, LeanObject, Object,
};
use crate::keys::{
    count_keys, hash_respects, is_equivalence, keys_apart, lemma_add_apart, lemma_apart_counts_all,
    lemma_apart_to_multiset, lemma_multiset_to_apart, lemma_remove_apart, lemma_replace_apart,
};
use crate::table::{map_entries, MapTable};

verus! {

/// A map entry: the caller's hash of the key, the key and the value. The
/// entry owns one reference to its key and one to its value.
pub struct HashedPair {
    pub hash: u64,
    pub key: LeanObject,
    pub value: LeanObject,
}

impl View for HashedPair {
    type V = (u64, u64, u64);

    open spec fn view(&self) -> (u64, u64, u64) {
        (self.hash, self.key@, self.value@)
    }
}

impl HashedPair {
    /// Whether this entry is stored under `hash` and `eq` accepts its key.
    pub fn matches<F: Fn(&LeanObject) -> bool>(&self, hash: u64, eq: &F) -> (r: bool)
        requires
            is_predicate(*eq),
        ensures
            r == (self.hash == hash && accepts(*eq, self.key@)),
    {
        if self.hash != hash {
            return false;
        }
        let r = eq(&self.key);
        proof {
            lemma_call_decides(*eq, self.key, r);
        }
        r
    }
}

impl Clone for HashedPair {
    fn clone(&self) -> (r: Self)
        ensures
            r == *self,
    {
        HashedPair { hash: self.hash, key: self.key.clone(), value: self.value.clone() }
    }
}

/// Whether some entry of `s` is stored under `hash` with a key that `eq`
/// accepts.
pub open spec fn has_match<F: Fn(&LeanObject) -> bool>(
    s: Seq<(u64, u64, u64)>,
    hash: u64,
    eq: F,
) -> bool {
    exists|i: int| 0 <= i < s.len() && #[trigger] s[i].0 == hash && accepts(eq, s[i].1)
}

/// `t` is `s` after inserting entry `e` with predicate `eq`: an entry that
/// matches is replaced by `e`, and without one `e` is added.
pub open spec fn inserted<F: Fn(&LeanObject) -> bool>(
    s: Seq<(u64, u64, u64)>,
    t: Seq<(u64, u64, u64)>,
    e: (u64, u64, u64),
    eq: F,
) -> bool {
    if has_match(s, e.0, eq) {
        exists|i: int|
            0 <= i < s.len() && #[trigger] s[i].0 == e.0 && accepts(eq, s[i].1)
                && t.to_multiset() == s.to_multiset().remove(s[i]).insert(e)
    } else {
        t.to_multiset() == s.to_multiset().insert(e)
    }
}

/// `t` is `s` after removing with `hash` and `eq`: an entry that matches is
/// taken out, and without one nothing changes.
pub open spec fn removed<F: Fn(&LeanObject) -> bool>(
    s: Seq<(u64, u64, u64)>,
    t: Seq<(u64, u64, u64)>,
    hash: u64,
    eq: F,
) -> bool {
    if has_match(s, hash, eq) {
        exists|i: int|
            0 <= i < s.len() && #[trigger] s[i].0 == hash && accepts(eq, s[i].1)
                && t.to_multiset() == s.to_multiset().remove(s[i])
    } else {
        t == s
    }
}

/// References to the keys and values of `s`, key before value, entry by entry.
pub open spec fn entry_references(s: Seq<(u64, u64, u64)>) -> Seq<HostRefView>
    decreases s.len(),
{
    if s.len() == 0 {
        Seq::empty()
    } else {
        entry_references(s.drop_last()).push(HostRefView::Value(s.last().1)).push(
            HostRefView::Value(s.last().2),
        )
    }
}

/// A hash map whose entries live in an open-addressing table; entries are
/// told apart by hash and a caller-supplied equality predicate.
pub struct HashMap {
    table: MapTable,
}

impl View for HashMap {
    type V = Seq<(u64, u64, u64)>;

    /// The entries as (hash, key, value) words, in iteration order.
    closed spec fn view(&self) -> Seq<(u64, u64, u64)> {
        map_entries(self.table)
    }
}

impl ExternalClass for HashMap {
    open spec fn owned_references(&self) -> Seq<HostRefView> {
        entry_references(self@)
    }

    fn foreach(&self) -> (r: Vec<HostRef>) {
        let entries = self.table.entries();
        let mut r: Vec<HostRef> = Vec::new();
        let mut i: usize = 0;
        while i < entries.len()
            invariant
                entries@.len() == self@.len(),
                forall|j: int| 0 <= j < entries@.len() ==> #[trigger] entries@[j]@ == self@[j],
                0 <= i <= entries@.len(),
                r@.len() == entry_references(self@.take(i as int)).len(),
                forall|j: int|
                    0 <= j < r@.len() ==> #[trigger] r@[j]@ == entry_references(
                        self@.take(i as int),
                    )[j],
            decreases entries@.len() - i,
        {
            let e = entries[i];
            assert(e@ == self@[i as int]);
            r.push(HostRef::Value(e.key.clone()));
            r.push(HostRef::Value(e.value.clone()));
            assert(self@.take(i + 1).drop_last() =~= self@.take(i as int));
            i += 1;
        }
        assert(self@.take(i as int) =~= self@);
        r
    }

    fn clone_owned(&self) -> (r: Self) {
        HashMap { table: self.table.clone_table() }
    }
}

/// A cursor over the entries of a map. While it has an entry it holds a
/// handle to the map, which keeps the map alive and unchanged, and the
/// position of the entry in the map's iteration order; the entry itself is
/// read from the map, not held. Once past the last entry it holds nothing.
pub enum HashMapIter {
    More { position: usize, table: Object<HashMap> },
    Finished,
}

impl View for HashMapIter {
    /// The entries of the map and the position; `None` once finished.
    type V = Option<(Seq<(u64, u64, u64)>, int)>;

    open spec fn view(&self) -> Option<(Seq<(u64, u64, u64)>, int)> {
        match self {
            HashMapIter::More { position, table } => Some((table@@, *position as int)),
            HashMapIter::Finished => None,
        }
    }
}

/// A cursor state at entry `p` of `s`, or finished when `p` is past the end.
pub open spec fn map_cursor_at(s: Seq<(u64, u64, u64)>, p: int) -> Option<
    (Seq<(u64, u64, u64)>, int),
> {
    if 0 <= p < s.len() {
        Some((s, p))
    } else {
        None
    }
}

/// The state after a cursor in state `v` advances.
pub open spec fn map_cursor_next(v: Option<(Seq<(u64, u64, u64)>, int)>) -> Option<
    (Seq<(u64, u64, u64)>, int),
> {
    match v {
        Some((s, p)) => map_cursor_at(s, p + 1),
        None => None,
    }
}

impl HashMapIter {
    /// The cursor is finished or at an entry of its map.
    pub open spec fn wf(&self) -> bool {
        match self@ {
            Some((s, p)) => 0 <= p < s.len(),
            None => true,
        }
    }

    /// A cursor at entry `position` of `table`, or finished when there is no
    /// such entry, in which case the handle is released.
    fn at(table: Object<HashMap>, position: usize) -> (r: HashMapIter)
        ensures
            r@ == map_cursor_at(table@@, position as int),
    {
        if position < table.get().table.len() {
            HashMapIter::More { position, table }
        } else {
            HashMapIter::Finished
        }
    }

    /// Moves to the next entry, or finishes after the last one.
    fn move_next(self) -> (r: HashMapIter)
        requires
            self.wf(),
        ensures
            r@ == map_cursor_next(self@),
    {
        match self {
            HashMapIter::More { position, table } => {
                let n = table.get().table.len();
                if position + 1 < n {
                    HashMapIter::More { position: position + 1, table }
                } else {
                    HashMapIter::Finished
                }
            },
            HashMapIter::Finished => HashMapIter::Finished,
        }
    }

    /// The cursor's entry, read from its map.
    fn current(&self) -> (r: Option<&HashedPair>)
        requires
            self.wf(),
        ensures
            match self@ {
                Some((s, p)) => r matches Some(e) && e@ == s[p],
                None => r is None,
            },
    {
        match self {
            HashMapIter::More { position, table } => table.get().table.nth(*position),
            HashMapIter::Finished => None,
        }
    }
}

impl ExternalClass for HashMapIter {
    /// The handle to the map; nothing once finished.
    open spec fn owned_references(&self) -> Seq<HostRefView> {
        match self@ {
            Some((s, p)) => seq![HostRefView::MapEntries(s)],
            None => Seq::empty(),
        }
    }

    fn foreach(&self) -> (r: Vec<HostRef>) {
        let mut r: Vec<HostRef> = Vec::new();
        match self {
            HashMapIter::More { position, table } => {
                r.push(HostRef::MapHandle(table.clone()));
            },
            HashMapIter::Finished => {},
        }
        proof {
            assert(r@.len() == self.owned_references().len());
        }
        r
    }

    fn clone_owned(&self) -> (r: Self) {
        match self {
            HashMapIter::More { position, table } => HashMapIter::More {
                position: *position,
                table: table.clone(),
            },
            HashMapIter::Finished => HashMapIter::Finished,
        }
    }
}

/// A handle to a new map without entries.
pub fn lean_hashbrown_hashmap_create() -> (r: Object<HashMap>)
    ensures
        r@@ == Seq::<(u64, u64, u64)>::empty(),
{
    Object::new(HashMap { table: MapTable::new() })
}

/// A cursor at the first entry of the map, holding the handle `obj`; a
/// finished cursor, which releases the handle, when the map has no entries.
pub fn lean_hashbrown_hashmap_get_iter(obj: Object<HashMap>) -> (r: Object<HashMapIter>)
    ensures
        r@@ == map_cursor_at(obj@@, 0),
        r@.wf(),
{
    Object::new(HashMapIter::at(obj, 0))
}

/// Removes the entry stored under `hash` whose key `eq` accepts, if there is
/// one; the map is copied first when `obj` shares it with other handles.
pub fn lean_hashbrown_hashmap_remove<F: Fn(&LeanObject) -> bool>(
    obj: Object<HashMap>,
    hash: u64,
    eq: &F,
) -> (r: Object<HashMap>)
    requires
        is_predicate(*eq),
    ensures
        removed(obj@@, r@@, hash, *eq),
        r@@.len() == if has_match(obj@@, hash, *eq) {
            obj@@.len() - 1
        } else {
            obj@@.len() as int
        },
{
    let mut map = obj.make_mut();
    let gone = map.table.remove(hash, eq);
    proof {
        broadcast use vstd::seq_lib::group_to_multiset_ensures;

        let s = obj@@;
        let t = map@;
        match gone {
            Some(e) => {
                let i = choose|i: int| 0 <= i < s.len() && s[i] == e@;
                assert(s[i].0 == hash && accepts(*eq, s[i].1));
                assert(t.to_multiset().len() == s.to_multiset().len() - 1);
            },
            None => {},
        }
    }
    Object::new(map)
}

/// Whether the map has an entry stored under `hash` whose key `eq` accepts.
pub fn lean_hashbrown_hashmap_contains<F: Fn(&LeanObject) -> bool>(
    obj: BorrowedObject<HashMap>,
    hash: u64,
    eq: &F,
) -> (r: bool)
    requires
        is_predicate(*eq),
    ensures
        r == has_match(obj@@, hash, *eq),
{
    match obj.get().table.find(hash, eq) {
        Some(e) => {
            proof {
                let i = choose|i: int| 0 <= i < obj@@.len() && obj@@[i] == e@;
                assert(obj@@[i].0 == hash && accepts(*eq, obj@@[i].1));
            }
            true
        },
        None => false,
    }
}

/// A new reference to the value of the entry stored under `hash` whose key
/// `eq` accepts; `None` without such an entry.
pub fn lean_hashbrown_hashmap_get_value<F: Fn(&LeanObject) -> bool>(
    obj: BorrowedObject<HashMap>,
    hash: u64,
    eq: &F,
) -> (r: Option<LeanObject>)
    requires
        is_predicate(*eq),
    ensures
        r is Some <==> has_match(obj@@, hash, *eq),
        r matches Some(v) ==> exists|i: int|
            0 <= i < obj@@.len() && #[trigger] obj@@[i].0 == hash && accepts(*eq, obj@@[i].1)
                && obj@@[i].2 == v@,
{
    match obj.get().table.find(hash, eq) {
        Some(e) => {
            proof {
                let i = choose|i: int| 0 <= i < obj@@.len() && obj@@[i] == e@;
                assert(obj@@[i].0 == hash && accepts(*eq, obj@@[i].1));
            }
            Some(e.value.clone())
        },
        None => None,
    }
}

/// The number of entries.
pub fn lean_hashbrown_hashmap_len(obj: BorrowedObject<HashMap>) -> (r: usize)
    ensures
        r == obj@@.len(),
{
    obj.get().table.len()
}

/// Stores `value` under `key`: an entry stored under `hash` whose key `eq`
/// accepts is replaced, releasing its key and value; without one a new entry
/// is added. The map is copied first when `obj` shares it with other handles.
pub fn lean_hashbrown_hashmap_insert<F: Fn(&LeanObject) -> bool>(
    obj: Object<HashMap>,
    hash: u64,
    key: LeanObject,
    value: LeanObject,
    eq: &F,
) -> (r: Object<HashMap>)
    requires
        is_predicate(*eq),
    ensures
        inserted(obj@@, r@@, (hash, key@, value@), *eq),
        r@@.len() == if has_match(obj@@, hash, *eq) {
            obj@@.len() as int
        } else {
            obj@@.len() + 1 as int
        },
{
    let mut map = obj.make_mut();
    let ghost e = (hash, key@, value@);
    let replaced = map.table.insert(HashedPair { hash, key, value }, eq);
    proof {
        broadcast use vstd::seq_lib::group_to_multiset_ensures;

        let s = obj@@;
        let t = map@;
        match replaced {
            Some(old_entry) => {
                let i = choose|i: int| 0 <= i < s.len() && s[i] == old_entry@;
                assert(s[i].0 == hash && accepts(*eq, s[i].1));
                assert(t.to_multiset().len() == s.to_multiset().len());
            },
            None => {
                assert(t.to_multiset().len() == s.to_multiset().len() + 1);
            },
        }
    }
    Object::new(map)
}

/// Whether the cursor is at an entry.
pub fn lean_hashbrown_hashmap_iter_has_kv(iter: BorrowedObject<HashMapIter>) -> (r: bool)
    ensures
        r == iter@@ is Some,
{
    match iter.get() {
        HashMapIter::More { .. } => true,
        HashMapIter::Finished => false,
    }
}

/// A new reference to the key of the cursor's entry; `None` once finished.
pub fn lean_hashbrown_hashmap_iter_get_key(obj: BorrowedObject<HashMapIter>) -> (r: Option<
    LeanObject,
>)
    requires
        obj@.wf(),
    ensures
        match obj@@ {
            Some((s, p)) => r matches Some(k) && k@ == s[p].1,
            None => r is None,
        },
{
    match obj.get().current() {
        Some(e) => Some(e.key.clone()),
        None => None,
    }
}

/// A new reference to the value of the cursor's entry; `None` once finished.
pub fn lean_hashbrown_hashmap_iter_get_value(obj: BorrowedObject<HashMapIter>) -> (r: Option<
    LeanObject,
>)
    requires
        obj@.wf(),
    ensures
        match obj@@ {
            Some((s, p)) => r matches Some(v) && v@ == s[p].2,
            None => r is None,
        },
{
    match obj.get().current() {
        Some(e) => Some(e.value.clone()),
        None => None,
    }
}

/// Moves the cursor to the next entry, or finishes it after the last one,
/// releasing its handle to the map. The cursor is copied first when `obj`
/// shares it with other handles.
pub fn lean_hashbrown_hashmap_iter_move_next(obj: Object<HashMapIter>) -> (r: Object<HashMapIter>)
    requires
        obj@.wf(),
    ensures
        r@@ == map_cursor_next(obj@@),
        r@.wf(),
{
    let iter = obj.make_mut();
    Object::new(iter.move_next())
}

/// The key of a map entry.
pub open spec fn map_key() -> spec_fn((u64, u64, u64)) -> u64 {
    |e: (u64, u64, u64)| e.1
}

/// No two entries of `s` have keys that `rel` relates.
pub open spec fn keys_distinct(s: Seq<(u64, u64, u64)>, rel: spec_fn(u64, u64) -> bool) -> bool {
    keys_apart(s, map_key(), rel)
}

/// The number of distinct keys of `s` under `rel`.
pub open spec fn distinct_keys(s: Seq<(u64, u64, u64)>, rel: spec_fn(u64, u64) -> bool) -> nat {
    count_keys(s, map_key(), rel)
}

/// Every entry of `s` is stored under the hash that `hash_of` gives its key.
pub open spec fn hashed_by(s: Seq<(u64, u64, u64)>, hash_of: spec_fn(u64) -> u64) -> bool {
    forall|i: int| 0 <= i < s.len() ==> #[trigger] s[i].0 == hash_of(s[i].1)
}

/// When callers hash keys with `hash_of` and compare them with the
/// equivalence `rel`, which `hash_of` respects, an insertion keeps the keys of
/// the entries distinct and each entry under its key's hash, and the number
/// of entries is the number of distinct keys present.
pub proof fn law_insert_keeps_keys_distinct<F: Fn(&LeanObject) -> bool>(
    s: Seq<(u64, u64, u64)>,
    t: Seq<(u64, u64, u64)>,
    hash: u64,
    key: u64,
    value: u64,
    eq: F,
    rel: spec_fn(u64, u64) -> bool,
    hash_of: spec_fn(u64) -> u64,
)
    requires
        is_equivalence(rel),
        hash_respects(hash_of, rel),
        keys_distinct(s, rel),
        hashed_by(s, hash_of),
        predicate_for(eq, rel, key),
        hash == hash_of(key),
        inserted(s, t, (hash, key, value), eq),
    ensures
        keys_distinct(t, rel),
        hashed_by(t, hash_of),
        t.len() == distinct_keys(t, rel),
        has_match(s, hash, eq) ==> exists|i: int|
            0 <= i < s.len() && #[trigger] s[i].0 == hash && accepts(eq, s[i].1) && (forall|j: int|
                0 <= j < s.len() && #[trigger] s[j].0 == hash && accepts(eq, s[j].1) ==> j == i)
                && t.to_multiset() == s.to_multiset().remove(s[i]).insert((hash, key, value)),
        t.contains((hash, key, value)),
        forall|j: int|
            0 <= j < t.len() && #[trigger] t[j].0 == hash && accepts(eq, t[j].1) ==> t[j] == (
                hash,
                key,
                value,
            ),
{
    broadcast use vstd::seq_lib::group_to_multiset_ensures;

    broadcast use vstd::multiset::group_multiset_axioms;

    let k = map_key();
    let e = (hash, key, value);
    let m = s.to_multiset();
    lemma_apart_to_multiset(s, k, rel);
    assert(rel(key, key));
    assert forall|y: (u64, u64, u64)| #[trigger] m.count(y) > 0 && rel(k(y), k(e)) implies exists|
        j: int,
    | 0 <= j < s.len() && s[j] == y && #[trigger] s[j].0 == hash && accepts(eq, s[j].1) by {
        assert(s.contains(y));
        let j = choose|j: int| 0 <= j < s.len() && s[j] == y;
        assert(s[j].0 == hash_of(s[j].1));
    }
    if has_match(s, hash, eq) {
        let i = choose|i: int|
            0 <= i < s.len() && #[trigger] s[i].0 == hash && accepts(eq, s[i].1)
                && t.to_multiset() == s.to_multiset().remove(s[i]).insert(e);
        assert(m.count(s[i]) > 0);
        assert forall|y: (u64, u64, u64)| #[trigger] m.count(y) > 0 && rel(k(y), k(e)) implies y
            == s[i] by {
            assert(rel(s[i].1, key));
            assert(rel(key, s[i].1));
            assert(rel(y.1, s[i].1));
            assert(m.count(s[i]) > 0);
        }
        assert forall|j: int|
            0 <= j < s.len() && #[trigger] s[j].0 == hash && accepts(eq, s[j].1) implies j == i by {
            assert(rel(s[j].1, key) && rel(s[i].1, key) && rel(key, s[i].1));
            assert(rel(k(s[j]), k(s[i])));
        }
        lemma_replace_apart(m, s[i], e, k, rel);
    } else {
        lemma_add_apart(m, e, k, rel);
    }
    lemma_multiset_to_apart(t, k, rel);
    assert forall|i: int| 0 <= i < t.len() implies #[trigger] t[i].0 == hash_of(t[i].1) by {
        assert(t.contains(t[i]));
        assert(t.to_multiset().count(t[i]) > 0);
        if t[i] != e {
            assert(m.count(t[i]) > 0);
            assert(s.contains(t[i]));
        }
    }
    assert(t.to_multiset().count(e) > 0);
    assert(t.contains(e));
    let je = choose|je: int| 0 <= je < t.len() && t[je] == e;
    assert forall|j: int|
        0 <= j < t.len() && #[trigger] t[j].0 == hash && accepts(eq, t[j].1) implies t[j] == e by {
        assert(rel(k(t[j]), k(t[je])));
    }
    lemma_apart_counts_all(t, k, rel);
}

/// A removal keeps the keys of the entries distinct under `rel` and each
/// entry under the hash `hash_of` gives its key, and the number of entries is
/// the number of distinct keys present.
pub proof fn law_remove_keeps_keys_distinct<F: Fn(&LeanObject) -> bool>(
    s: Seq<(u64, u64, u64)>,
    t: Seq<(u64, u64, u64)>,
    hash: u64,
    eq: F,
    rel: spec_fn(u64, u64) -> bool,
    hash_of: spec_fn(u64) -> u64,
)
    requires
        is_equivalence(rel),
        keys_distinct(s, rel),
        hashed_by(s, hash_of),
        removed(s, t, hash, eq),
    ensures
        keys_distinct(t, rel),
        hashed_by(t, hash_of),
        t.len() == distinct_keys(t, rel),
{
    broadcast use vstd::seq_lib::group_to_multiset_ensures;
    broadcast use vstd::multiset::group_multiset_axioms;

    let k = map_key();
    let m = s.to_multiset();
    if has_match(s, hash, eq) {
        let i = choose|i: int|
            0 <= i < s.len() && #[trigger] s[i].0 == hash && accepts(eq, s[i].1)
                && t.to_multiset() == s.to_multiset().remove(s[i]);
        lemma_apart_to_multiset(s, k, rel);
        lemma_remove_apart(m, s[i], k, rel);
        lemma_multiset_to_apart(t, k, rel);
        assert forall|j: int| 0 <= j < t.len() implies #[trigger] t[j].0 == hash_of(t[j].1) by {
            assert(t.contains(t[j]));
            assert(t.to_multiset().count(t[j]) > 0);
            assert(m.count(t[j]) > 0);
            assert(s.contains(t[j]));
        }
    }
    lemma_apart_counts_all(t, k, rel);
}

/// A cursor that starts on `s` and advances `n` times.
pub open spec fn map_cursor_after(s: Seq<(u64, u64, u64)>, n: nat) -> Option<
    (Seq<(u64, u64, u64)>, int),
>
    decreases n,
{
    if n == 0 {
        map_cursor_at(s, 0)
    } else {
        map_cursor_next(map_cursor_after(s, (n - 1) as nat))
    }
}

/// Iterating a map from `get_iter` on visits its entries one by one in
/// iteration order, each exactly once, and finishes right after the
/// last.
pub proof fn law_iteration_visits_each_entry_once(s: Seq<(u64, u64, u64)>, n: nat)
    ensures
        n < s.len() ==> map_cursor_after(s, n) == Some((s, n as int)),
        n >= s.len() ==> map_cursor_after(s, n) is None,
    decreases n,
{
    if n > 0 {
        law_iteration_visits_each_entry_once(s, (n - 1) as nat);
    }
}

/// One insertion or removal whose hash and predicate `hash_of` and `rel` give
/// for some key.
pub open spec fn consistent_step<F: Fn(&LeanObject) -> bool>(
    s: Seq<(u64, u64, u64)>,
    t: Seq<(u64, u64, u64)>,
    rel: spec_fn(u64, u64) -> bool,
    hash_of: spec_fn(u64) -> u64,
) -> bool {
    exists|eq: F, key: u64, value: u64|
        #![trigger inserted(s, t, (hash_of(key), key, value), eq)]
        predicate_for(eq, rel, key) && (inserted(s, t, (hash_of(key), key, value), eq) || removed(
            s,
            t,
            hash_of(key),
            eq,
        ))
}

/// Along any run of insertions and removals from an empty map in which
/// callers hash keys with `hash_of` and compare them with the equivalence
/// `rel`, which `hash_of` respects, the keys stay distinct, each entry sits
/// under its key's hash, and the number of entries is the number of distinct
/// keys present.
pub proof fn law_history_len_counts_distinct_keys<F: Fn(&LeanObject) -> bool>(
    h: Seq<Seq<(u64, u64, u64)>>,
    rel: spec_fn(u64, u64) -> bool,
    hash_of: spec_fn(u64) -> u64,
)
    requires
        is_equivalence(rel),
        hash_respects(hash_of, rel),
        h.len() > 0,
        h[0] == Seq::<(u64, u64, u64)>::empty(),
        forall|i: int| 0 <= i < h.len() - 1 ==> consistent_step::<F>(#[trigger] h[i], h[i + 1], rel, hash_of),
    ensures
        forall|i: int|
            0 <= i < h.len() ==> keys_distinct(#[trigger] h[i], rel) && hashed_by(h[i], hash_of)
                && h[i].len() == distinct_keys(h[i], rel),
    decreases h.len(),
{
    if h.len() == 1 {
        lemma_apart_counts_all(h[0], map_key(), rel);
    } else {
        let g = h.drop_last();
        assert forall|i: int| 0 <= i < g.len() - 1 implies consistent_step::<F>(#[trigger] g[i], g[i + 1], rel, hash_of) by {
            assert(g[i] == h[i] && g[i + 1] == h[i + 1]);
        }
        law_history_len_counts_distinct_keys::<F>(g, rel, hash_of);
        let n = h.len() - 1;
        assert(g[n - 1] == h[n - 1]);
        assert(consistent_step::<F>(h[n - 1], h[n], rel, hash_of));
        assert(exists|eq: F, key: u64, value: u64|
            #![trigger inserted(h[n - 1], h[n], (hash_of(key), key, value), eq)]
            predicate_for(eq, rel, key) && (inserted(h[n - 1], h[n], (hash_of(key), key, value), eq)
                || removed(h[n - 1], h[n], hash_of(key), eq)));
        let (eq, key, value) = choose|eq: F, key: u64, value: u64|
            #![trigger inserted(h[n - 1], h[n], (hash_of(key), key, value), eq)]
            predicate_for(eq, rel, key) && (inserted(h[n - 1], h[n], (hash_of(key), key, value), eq)
                || removed(h[n - 1], h[n], hash_of(key), eq));
        if inserted(h[n - 1], h[n], (hash_of(key), key, value), eq) {
            law_insert_keeps_keys_distinct(h[n - 1], h[n], hash_of(key), key, value, eq, rel, hash_of);
        } else {
            law_remove_keeps_keys_distinct(h[n - 1], h[n], hash_of(key), eq, rel, hash_of);
        }
        assert forall|i: int| 0 <= i < h.len() implies keys_distinct(#[trigger] h[i], rel) && hashed_by(h[i], hash_of)
            && h[i].len() == distinct_keys(h[i], rel) by {
            if i < n {
                assert(g[i] == h[i]);
            }
        }
    }
}

} // verus!
