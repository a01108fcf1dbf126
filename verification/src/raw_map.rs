//! A uniform lookup-or-insert operation over the standard maps.
//!
//! Both the hash map and the ordered map get the same `get_or_insert`
//! entry point, running the insertion closure only when the key is new.

use vstd::prelude::*;
use std::collections::BTreeMap;
use std::collections::HashMap;

verus! {

broadcast use vstd::std_specs::hash::group_hash_axioms;

/// A map supporting lookup-or-insert in one call.
pub trait RawMap: Sized {
    /// The value type of the map.
    type Value;

    /// The abstract contents of the map.
    spec fn raw_view(self) -> Map<u64, Self::Value>;

    /// Ensures `key` maps to something, running `insert` only when `key`
    /// is new, and says exactly what the map holds afterwards.
    fn get_or_insert<F: FnOnce() -> Self::Value>(&mut self, key: u64, insert: F)
        requires
            !old(self).raw_view().contains_key(key) ==> call_requires(insert, ()),
        ensures
            final(self).raw_view().contains_key(key),
            old(self).raw_view().contains_key(key) ==> final(self).raw_view() == old(
                self,
            ).raw_view(),
            !old(self).raw_view().contains_key(key) ==> (exists|v: Self::Value|
                call_ensures(insert, (), v) && final(self).raw_view() == old(
                    self,
                ).raw_view().insert(key, v)),
    ;
}

impl<V> RawMap for HashMap<u64, V> {
    type Value = V;

    closed spec fn raw_view(self) -> Map<u64, V> {
        self@
    }

    fn get_or_insert<F: FnOnce() -> V>(&mut self, key: u64, insert: F) {
        if !self.contains_key(&key) {
            let v = insert();
            let _prev = self.insert(key, v);
        }
    }
}

impl<V> RawMap for BTreeMap<u64, V> {
    type Value = V;

    closed spec fn raw_view(self) -> Map<u64, V> {
        self@
    }

    fn get_or_insert<F: FnOnce() -> V>(&mut self, key: u64, insert: F) {
        if !self.contains_key(&key) {
            let v = insert();
            let _prev = self.insert(key, v);
        }
    }
}

} // verus!
