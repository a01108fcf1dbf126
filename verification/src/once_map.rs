//! A map from keys to once-cells, with stable slots.
//!
//! A thin facade over [`StableMap`]: `get` hands back the stable slot index
//! of the key's cell, and `get_or_init` runs an initializer at most once per
//! key.

use vstd::prelude::*;
use crate::key::MapKey;
use crate::stable_map::StableMap;

verus! {

/// A memoizing map whose values are initialized at most once per key.
pub struct OnceMap<K, V> {
    map: StableMap<K, V>,
}

impl<K: MapKey, V> OnceMap<K, V> {
    /// Whether a key with view `kv` has a cell.
    pub closed spec fn contains_kv(self, kv: K::V) -> bool {
        self.map.contains_kv(kv)
    }

    /// The stable index of the key's cell.
    pub closed spec fn index_of(self, kv: K::V) -> int {
        self.map.index_of(kv)
    }

    /// The view of the cell at index `i`.
    pub closed spec fn cell_view(self, i: int) -> Option<V> {
        self.map.cell_view(i)
    }

    /// Number of keys seen so far.
    pub closed spec fn len_spec(self) -> nat {
        self.map.len_spec()
    }

    /// Structural invariant.
    pub closed spec fn wf(self) -> bool {
        self.map.wf()
    }

    /// An empty map.
    pub fn new() -> (r: Self)
        ensures
            r.wf(),
            r.len_spec() == 0,
            forall|kv: K::V| !r.contains_kv(kv),
    {
        OnceMap { map: StableMap::new() }
    }

    /// The stable slot of `key`, created empty on first sight.  The same key
    /// always yields the same slot, and no other slot is disturbed.
    pub fn get(&mut self, key: K) -> (i: usize)
        requires
            old(self).wf(),
            old(self).len_spec() + 1 < usize::MAX,
        ensures
            final(self).wf(),
            (i as int) < final(self).len_spec(),
            final(self).len_spec() <= old(self).len_spec() + 1,
            final(self).contains_kv(key@),
            (i as int) == final(self).index_of(key@),
            old(self).contains_kv(key@) ==> *final(self) == *old(self) && (i as int) == old(self).index_of(key@),
            !old(self).contains_kv(key@) ==> (i as nat) == old(self).len_spec() && final(self).len_spec() == old(self).len_spec() + 1 && final(self).cell_view(i as int) is None,
            // every key already present keeps its slot and its cell
            forall|kv: K::V|
                #[trigger] old(self).contains_kv(kv) ==> final(self).contains_kv(kv) && final(self).index_of(kv) == old(self).index_of(kv),
            forall|j: int|
                0 <= j < old(self).len_spec() ==> final(self).cell_view(j) == old(self).cell_view(j),
    {
        self.map.get_or_insert(key)
    }

    /// The value for `key`, computed by `f` at most once.
    pub fn get_or_init<F: FnOnce() -> V>(&mut self, key: K, f: F) -> (r: &V)
        requires
            old(self).wf(),
            old(self).len_spec() + 1 < usize::MAX,
            call_requires(f, ()),
        ensures
            final(self).wf(),
            final(self).len_spec() <= old(self).len_spec() + 1,
            final(self).contains_kv(key@),
            final(self).cell_view(final(self).index_of(key@)) == Some(*r),
            old(self).contains_kv(key@) && old(self).cell_view(old(self).index_of(key@)) is Some
                ==> old(self).cell_view(old(self).index_of(key@)) == Some(*r),
            !(old(self).contains_kv(key@) && old(self).cell_view(
                old(self).index_of(key@),
            ) is Some) ==> call_ensures(f, (), *r),
            // every key already present keeps its slot, and other keys keep
            // their cells
            forall|kv: K::V|
                #[trigger] old(self).contains_kv(kv) ==> final(self).contains_kv(kv) && final(self).index_of(kv) == old(self).index_of(kv) && (kv != key@ ==> final(self).cell_view(
                    final(self).index_of(kv),
                ) == old(self).cell_view(old(self).index_of(kv))),
    {
        self.map.get_or_init(key, f)
    }
}

} // verus!
