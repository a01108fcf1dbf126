//! An entry API over a hash table that defers the insertion decision.
//!
//! Looking a key up once yields either an occupied or a vacant entry; the
//! caller then decides what to insert, and the key is consumed only on the
//! vacant-insert path — the entry analogue of the copy-on-write lookup the
//! stable maps use for their key-index tables.

use vstd::prelude::*;
use std::collections::HashMap;

verus! {

broadcast use vstd::std_specs::hash::group_hash_axioms;

/// A map offering the deferred-insertion entry API.
pub trait CowEntry: Sized {
    /// The value type of the map.
    type Value;

    /// The abstract contents of the map.
    spec fn entry_view(self) -> Map<u64, Self::Value>;

    /// Dissolves the map into an entry for `key`.
    fn cow_entry_mut(self, key: u64) -> (e: CowEntryMut<Self::Value>)
        ensures
            e.wf(),
            e.map_view() == self.entry_view(),
            e.query_spec() == key,
            (e is Occupied) == self.entry_view().contains_key(key),
    ;
}

/// The entry of a key: occupied or vacant.
pub enum CowEntryMut<V> {
    Occupied(CowOccupiedEntryMut<V>),
    Vacant(CowVacantEntryMut<V>),
}

/// An entry whose key is present.
pub struct CowOccupiedEntryMut<V> {
    map: HashMap<u64, V>,
    key: u64,
}

/// An entry whose key is absent; inserting consumes the key.
pub struct CowVacantEntryMut<V> {
    map: HashMap<u64, V>,
    key: u64,
}

impl<V> CowOccupiedEntryMut<V> {
    /// The map this entry owns.
    pub closed spec fn map_view(self) -> Map<u64, V> {
        self.map@
    }

    /// The key looked up.
    pub closed spec fn query_spec(self) -> u64 {
        self.key
    }

    /// The key is present.
    pub closed spec fn wf(self) -> bool {
        self.map@.contains_key(self.key)
    }

    /// Dissolves the entry back into its map.
    pub fn into_mut(self) -> (m: HashMap<u64, V>)
        ensures
            m@ == self.map_view(),
    {
        self.map
    }

    /// The key this entry was looked up with.
    pub fn query(&self) -> (k: u64)
        ensures
            k == self.query_spec(),
    {
        self.key
    }

    /// The key stored in the map (equal to the query for integer keys).
    pub fn key(&self) -> (k: u64)
        ensures
            k == self.query_spec(),
    {
        self.key
    }

    /// Reads the current value of the entry.
    pub fn get_mut(&mut self) -> (v: V) where V: Copy
        requires
            old(self).wf(),
        ensures
            *final(self) == *old(self),
            v == old(self).map_view()[old(self).query_spec()],
    {
        match self.map.get(&self.key) {
            Some(v) => *v,
            None => unreached(),
        }
    }

    /// Replaces the value of the entry, returning the previous one.
    pub fn insert(&mut self, value: V) -> (prev: V)
        requires
            old(self).wf(),
        ensures
            final(self).wf(),
            final(self).query_spec() == old(self).query_spec(),
            prev == old(self).map_view()[old(self).query_spec()],
            final(self).map_view() == old(self).map_view().insert(old(self).query_spec(), value),
    {
        match self.map.insert(self.key, value) {
            Some(prev) => prev,
            None => unreached(),
        }
    }
}

impl<V> CowVacantEntryMut<V> {
    /// The map this entry owns.
    pub closed spec fn map_view(self) -> Map<u64, V> {
        self.map@
    }

    /// The key looked up.
    pub closed spec fn query_spec(self) -> u64 {
        self.key
    }

    /// The key is absent.
    pub closed spec fn wf(self) -> bool {
        !self.map@.contains_key(self.key)
    }

    /// The key this entry was looked up with.
    pub fn query(&self) -> (k: u64)
        ensures
            k == self.query_spec(),
    {
        self.key
    }

    /// Inserts a value for the key, consuming the key, and hands the map
    /// back.
    pub fn insert(self, value: V) -> (m: HashMap<u64, V>)
        ensures
            m@ == self.map_view().insert(self.query_spec(), value),
    {
        let mut map = self.map;
        let _prev = map.insert(self.key, value);
        map
    }
}

impl<V> CowEntryMut<V> {
    /// The map this entry owns.
    pub open spec fn map_view(self) -> Map<u64, V> {
        match self {
            CowEntryMut::Occupied(o) => o.map_view(),
            CowEntryMut::Vacant(v) => v.map_view(),
        }
    }

    /// The key looked up.
    pub open spec fn query_spec(self) -> u64 {
        match self {
            CowEntryMut::Occupied(o) => o.query_spec(),
            CowEntryMut::Vacant(v) => v.query_spec(),
        }
    }

    /// Occupied entries hold present keys, vacant entries absent ones.
    pub open spec fn wf(self) -> bool {
        match self {
            CowEntryMut::Occupied(o) => o.wf(),
            CowEntryMut::Vacant(v) => v.wf(),
        }
    }

    /// Looks `query` up in `map` and wraps the outcome as an entry.
    pub fn new(map: HashMap<u64, V>, query: u64) -> (e: Self)
        ensures
            e.wf(),
            e.map_view() == map@,
            e.query_spec() == query,
            (e is Occupied) == map@.contains_key(query),
    {
        if map.contains_key(&query) {
            CowEntryMut::Occupied(CowOccupiedEntryMut { map, key: query })
        } else {
            CowEntryMut::Vacant(CowVacantEntryMut { map, key: query })
        }
    }

    /// The key this entry was looked up with.
    pub fn query(&self) -> (k: u64)
        ensures
            k == self.query_spec(),
    {
        match self {
            CowEntryMut::Occupied(o) => o.query(),
            CowEntryMut::Vacant(v) => v.query(),
        }
    }

    /// Ensures the key maps to something: an absent key gets `default`, a
    /// present key keeps its value.  Returns the map.
    pub fn or_insert(self, default: V) -> (m: HashMap<u64, V>)
        requires
            self.wf(),
        ensures
            m@ == (if self.map_view().contains_key(self.query_spec()) {
                self.map_view()
            } else {
                self.map_view().insert(self.query_spec(), default)
            }),
            m@.contains_key(self.query_spec()),
    {
        match self {
            CowEntryMut::Occupied(o) => o.into_mut(),
            CowEntryMut::Vacant(v) => v.insert(default),
        }
    }

    /// Like [`Self::or_insert`], but the default is computed only when the
    /// key is absent.
    pub fn or_insert_with<F: FnOnce() -> V>(self, default: F) -> (m: HashMap<u64, V>)
        requires
            self.wf(),
            !self.map_view().contains_key(self.query_spec()) ==> call_requires(default, ()),
        ensures
            self.map_view().contains_key(self.query_spec()) ==> m@ == self.map_view(),
            !self.map_view().contains_key(self.query_spec()) ==> (exists|d: V|
                call_ensures(default, (), d) && m@ == self.map_view().insert(
                    self.query_spec(),
                    d,
                )),
            m@.contains_key(self.query_spec()),
    {
        match self {
            CowEntryMut::Occupied(o) => o.into_mut(),
            CowEntryMut::Vacant(v) => {
                let d = default();
                v.insert(d)
            },
        }
    }

    /// Like [`Self::or_insert_with`], with the key handed to the default.
    pub fn or_insert_with_key<F: FnOnce(u64) -> V>(self, default: F) -> (m: HashMap<u64, V>)
        requires
            self.wf(),
            !self.map_view().contains_key(self.query_spec()) ==> call_requires(
                default,
                (self.query_spec(),),
            ),
        ensures
            self.map_view().contains_key(self.query_spec()) ==> m@ == self.map_view(),
            !self.map_view().contains_key(self.query_spec()) ==> (exists|d: V|
                call_ensures(default, (self.query_spec(),), d) && m@ == self.map_view().insert(
                    self.query_spec(),
                    d,
                )),
            m@.contains_key(self.query_spec()),
    {
        match self {
            CowEntryMut::Occupied(o) => o.into_mut(),
            CowEntryMut::Vacant(v) => {
                let q = v.query();
                let d = default(q);
                v.insert(d)
            },
        }
    }

    /// Applies `f` to the value when the key is present; a vacant entry is
    /// returned untouched.
    pub fn and_modify<F: FnOnce(V) -> V>(self, f: F) -> (e: Self) where V: Copy
        requires
            self.wf(),
            self.map_view().contains_key(self.query_spec()) ==> call_requires(
                f,
                (self.map_view()[self.query_spec()],),
            ),
        ensures
            e.wf(),
            e.query_spec() == self.query_spec(),
            (e is Occupied) == (self is Occupied),
            self.map_view().contains_key(self.query_spec()) ==> (exists|w: V|
                call_ensures(f, (self.map_view()[self.query_spec()],), w) && e.map_view()
                    == self.map_view().insert(self.query_spec(), w)),
            !self.map_view().contains_key(self.query_spec()) ==> e.map_view() == self.map_view(),
    {
        match self {
            CowEntryMut::Occupied(mut o) => {
                let v = o.get_mut();
                let w = f(v);
                let _prev = o.insert(w);
                CowEntryMut::Occupied(o)
            },
            CowEntryMut::Vacant(v) => CowEntryMut::Vacant(v),
        }
    }

    /// Ensures the key maps to something, defaulting the value type when it
    /// is absent.
    pub fn or_default(self) -> (m: HashMap<u64, V>) where V: Default
        requires
            self.wf(),
        ensures
            self.map_view().contains_key(self.query_spec()) ==> m@ == self.map_view(),
            !self.map_view().contains_key(self.query_spec()) ==> (exists|d: V|
                call_ensures(V::default, (), d) && m@ == self.map_view().insert(
                    self.query_spec(),
                    d,
                )),
            m@.contains_key(self.query_spec()),
    {
        match self {
            CowEntryMut::Occupied(o) => o.into_mut(),
            CowEntryMut::Vacant(v) => {
                let d = V::default();
                v.insert(d)
            },
        }
    }
}

impl<V> CowEntry for HashMap<u64, V> {
    type Value = V;

    closed spec fn entry_view(self) -> Map<u64, V> {
        self@
    }

    fn cow_entry_mut(self, key: u64) -> (e: CowEntryMut<V>) {
        CowEntryMut::new(self, key)
    }
}

} // verus!
