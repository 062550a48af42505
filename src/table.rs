//! The open-addressing tables behind the containers: hashbrown's `HashTable`,
//! kept behind a small set of calls whose effect on the entries is stated.
//!
//! Every entry is inserted under the hash it stores, and every rehash asks the
//! entry for that stored hash, so each entry is always reachable by probing
//! for its own hash.
use hashbrown::hash_table::Entry;
use hashbrown::HashTable;
use vstd::prelude::*;

use crate::map::HashedPair;
use crate::object::{accepts, is_predicate, LeanObject};
use crate::set::HashedObject;

verus! {

/// The table of a map: entries of a hash, a key and a value.
#[verifier::external_body]
pub struct MapTable {
    inner: HashTable<HashedPair>,
}

/// The entries of a map table as (hash, key, value) words, in the order in
/// which the table's iterator visits them.
pub uninterp spec fn map_entries(t: MapTable) -> Seq<(u64, u64, u64)>;

impl MapTable {
    /// Relies on `HashTable::new`: a table without entries.
    #[verifier::external_body]
    pub fn new() -> (r: MapTable)
        ensures
            map_entries(r) == Seq::<(u64, u64, u64)>::empty(),
    {
        MapTable { inner: HashTable::new() }
    }

    /// Relies on `HashTable::len`: the number of entries.
    #[verifier::external_body]
    pub fn len(&self) -> (r: usize)
        ensures
            r == map_entries(*self).len(),
    {
        self.inner.len()
    }

    /// Relies on `HashTable::clone`: the copy has the same buckets, each
    /// holding a clone of the entry in the same bucket of the original, so the
    /// same entries in the same order.
    #[verifier::external_body]
    pub fn clone_table(&self) -> (r: MapTable)
        ensures
            map_entries(r) == map_entries(*self),
    {
        MapTable { inner: self.inner.clone() }
    }

    /// Relies on `HashTable::iter`: the entries in iteration order.
    #[verifier::external_body]
    pub fn entries(&self) -> (r: Vec<&HashedPair>)
        ensures
            r@.len() == map_entries(*self).len(),
            forall|i: int| 0 <= i < r@.len() ==> #[trigger] r@[i]@ == map_entries(*self)[i],
    {
        self.inner.iter().collect()
    }

    /// Relies on `HashTable::iter`: the entry at position `i` of the
    /// iteration order, if there is one.
    #[verifier::external_body]
    pub fn nth(&self, i: usize) -> (r: Option<&HashedPair>)
        ensures
            match r {
                Some(e) => i < map_entries(*self).len() && e@ == map_entries(*self)[i as int],
                None => i >= map_entries(*self).len(),
            },
    {
        self.inner.iter().nth(i)
    }

    /// Relies on `HashTable::find`, which is documented to call its matcher
    /// for all entries with the given hash until one matches: an entry with
    /// that hash whose
    /// key `eq` accepts, or none when there is no such entry.
    #[verifier::external_body]
    pub fn find<F: Fn(&LeanObject) -> bool>(&self, hash: u64, eq: &F) -> (r: Option<&HashedPair>)
        requires
            is_predicate(*eq),
        ensures
            match r {
                Some(e) => e.hash == hash && accepts(*eq, e.key@) && map_entries(*self).contains(e@),
                None => forall|i: int|
                    0 <= i < map_entries(*self).len() && #[trigger] map_entries(*self)[i].0 == hash
                        ==> !accepts(*eq, map_entries(*self)[i].1),
            },
    {
        self.inner.find(hash, |e| e.matches(hash, eq))
    }

    /// Relies on `HashTable::entry`, which matches as `HashTable::find` does
    /// and rehashes with the entries' stored hashes: an entry stored under `pair.hash` whose key `eq` accepts is
    /// replaced by `pair` and handed back; without one, `pair` is added.
    #[verifier::external_body]
    pub fn insert<F: Fn(&LeanObject) -> bool>(&mut self, pair: HashedPair, eq: &F) -> (r: Option<
        HashedPair,
    >)
        requires
            is_predicate(*eq),
        ensures
            match r {
                Some(e) => {
                    &&& e.hash == pair.hash
                    &&& accepts(*eq, e.key@)
                    &&& map_entries(*old(self)).contains(e@)
                    &&& map_entries(*final(self)).to_multiset() == map_entries(
                        *old(self),
                    ).to_multiset().remove(e@).insert(pair@)
                },
                None => {
                    &&& forall|i: int|
                        0 <= i < map_entries(*old(self)).len() && #[trigger] map_entries(
                            *old(self),
                        )[i].0 == pair.hash ==> !accepts(*eq, map_entries(*old(self))[i].1)
                    &&& map_entries(*final(self)).to_multiset() == map_entries(
                        *old(self),
                    ).to_multiset().insert(pair@)
                },
            },
    {
        let hash = pair.hash;
        match self.inner.entry(hash, |e| e.matches(hash, eq), |e| e.hash) {
            Entry::Occupied(mut o) => Some(std::mem::replace(o.get_mut(), pair)),
            Entry::Vacant(v) => {
                v.insert(pair);
                None
            },
        }
    }

    /// Relies on `HashTable::find_entry`, which matches as `HashTable::find`
    /// does, and `OccupiedEntry::remove`: an entry
    /// stored under `hash` whose key `eq` accepts is taken out and handed back;
    /// without one, the table is left as it was.
    #[verifier::external_body]
    pub fn remove<F: Fn(&LeanObject) -> bool>(&mut self, hash: u64, eq: &F) -> (r: Option<
        HashedPair,
    >)
        requires
            is_predicate(*eq),
        ensures
            match r {
                Some(e) => {
                    &&& e.hash == hash
                    &&& accepts(*eq, e.key@)
                    &&& map_entries(*old(self)).contains(e@)
                    &&& map_entries(*final(self)).to_multiset() == map_entries(
                        *old(self),
                    ).to_multiset().remove(e@)
                },
                None => {
                    &&& forall|i: int|
                        0 <= i < map_entries(*old(self)).len() && #[trigger] map_entries(
                            *old(self),
                        )[i].0 == hash ==> !accepts(*eq, map_entries(*old(self))[i].1)
                    &&& map_entries(*final(self)) == map_entries(*old(self))
                },
            },
    {
        match self.inner.find_entry(hash, |e| e.matches(hash, eq)) {
            Ok(o) => Some(o.remove().0),
            Err(_) => None,
        }
    }
}

/// The table of a set: entries of a hash and an element.
#[verifier::external_body]
pub struct SetTable {
    inner: HashTable<HashedObject>,
}

/// The entries of a set table as (hash, element) words, in the order in
/// which the table's iterator visits them.
pub uninterp spec fn set_entries(t: SetTable) -> Seq<(u64, u64)>;

impl SetTable {
    /// Relies on `HashTable::new`: a table without entries.
    #[verifier::external_body]
    pub fn new() -> (r: SetTable)
        ensures
            set_entries(r) == Seq::<(u64, u64)>::empty(),
    {
        SetTable { inner: HashTable::new() }
    }

    /// Relies on `HashTable::len`: the number of entries.
    #[verifier::external_body]
    pub fn len(&self) -> (r: usize)
        ensures
            r == set_entries(*self).len(),
    {
        self.inner.len()
    }

    /// Relies on `HashTable::clone`: the copy has the same buckets, each
    /// holding a clone of the entry in the same bucket of the original, so the
    /// same entries in the same order.
    #[verifier::external_body]
    pub fn clone_table(&self) -> (r: SetTable)
        ensures
            set_entries(r) == set_entries(*self),
    {
        SetTable { inner: self.inner.clone() }
    }

    /// Relies on `HashTable::iter`: the entries in iteration order.
    #[verifier::external_body]
    pub fn entries(&self) -> (r: Vec<&HashedObject>)
        ensures
            r@.len() == set_entries(*self).len(),
            forall|i: int| 0 <= i < r@.len() ==> #[trigger] r@[i]@ == set_entries(*self)[i],
    {
        self.inner.iter().collect()
    }

    /// Relies on `HashTable::iter`: the entry at position `i` of the
    /// iteration order, if there is one.
    #[verifier::external_body]
    pub fn nth(&self, i: usize) -> (r: Option<&HashedObject>)
        ensures
            match r {
                Some(e) => i < set_entries(*self).len() && e@ == set_entries(*self)[i as int],
                None => i >= set_entries(*self).len(),
            },
    {
        self.inner.iter().nth(i)
    }

    /// Relies on `HashTable::find`, which is documented to call its matcher
    /// for all entries with the given hash until one matches: an entry with
    /// that hash whose
    /// element `eq` accepts, or none when there is no such entry.
    #[verifier::external_body]
    pub fn find<F: Fn(&LeanObject) -> bool>(&self, hash: u64, eq: &F) -> (r: Option<&HashedObject>)
        requires
            is_predicate(*eq),
        ensures
            match r {
                Some(e) => e.hash == hash && accepts(*eq, e.element@) && set_entries(*self).contains(e@),
                None => forall|i: int|
                    0 <= i < set_entries(*self).len() && #[trigger] set_entries(*self)[i].0 == hash
                        ==> !accepts(*eq, set_entries(*self)[i].1),
            },
    {
        self.inner.find(hash, |e| e.matches(hash, eq))
    }

    /// Relies on `HashTable::entry`, which matches as `HashTable::find` does
    /// and rehashes with the entries' stored hashes: an entry stored under `pair.hash` whose element `eq` accepts is
    /// replaced by `pair` and handed back; without one, `pair` is added.
    #[verifier::external_body]
    pub fn insert<F: Fn(&LeanObject) -> bool>(&mut self, pair: HashedObject, eq: &F) -> (r: Option<
        HashedObject,
    >)
        requires
            is_predicate(*eq),
        ensures
            match r {
                Some(e) => {
                    &&& e.hash == pair.hash
                    &&& accepts(*eq, e.element@)
                    &&& set_entries(*old(self)).contains(e@)
                    &&& set_entries(*final(self)).to_multiset() == set_entries(
                        *old(self),
                    ).to_multiset().remove(e@).insert(pair@)
                },
                None => {
                    &&& forall|i: int|
                        0 <= i < set_entries(*old(self)).len() && #[trigger] set_entries(
                            *old(self),
                        )[i].0 == pair.hash ==> !accepts(*eq, set_entries(*old(self))[i].1)
                    &&& set_entries(*final(self)).to_multiset() == set_entries(
                        *old(self),
                    ).to_multiset().insert(pair@)
                },
            },
    {
        let hash = pair.hash;
        match self.inner.entry(hash, |e| e.matches(hash, eq), |e| e.hash) {
            Entry::Occupied(mut o) => Some(std::mem::replace(o.get_mut(), pair)),
            Entry::Vacant(v) => {
                v.insert(pair);
                None
            },
        }
    }

    /// Relies on `HashTable::find_entry`, which matches as `HashTable::find`
    /// does, and `OccupiedEntry::remove`: an entry
    /// stored under `hash` whose element `eq` accepts is taken out and handed back;
    /// without one, the table is left as it was.
    #[verifier::external_body]
    pub fn remove<F: Fn(&LeanObject) -> bool>(&mut self, hash: u64, eq: &F) -> (r: Option<
        HashedObject,
    >)
        requires
            is_predicate(*eq),
        ensures
            match r {
                Some(e) => {
                    &&& e.hash == hash
                    &&& accepts(*eq, e.element@)
                    &&& set_entries(*old(self)).contains(e@)
                    &&& set_entries(*final(self)).to_multiset() == set_entries(
                        *old(self),
                    ).to_multiset().remove(e@)
                },
                None => {
                    &&& forall|i: int|
                        0 <= i < set_entries(*old(self)).len() && #[trigger] set_entries(
                            *old(self),
                        )[i].0 == hash ==> !accepts(*eq, set_entries(*old(self))[i].1)
                    &&& set_entries(*final(self)) == set_entries(*old(self))
                },
            },
    {
        match self.inner.find_entry(hash, |e| e.matches(hash, eq)) {
            Ok(o) => Some(o.remove().0),
            Err(_) => None,
        }
    }
}

} // verus!
