//! A memoizing function: a callback bound to a stable once-cell map.
//!
//! `get` computes the callback at most once per key and returns the cached
//! value on every later call for that key.

use vstd::prelude::*;
use crate::key::MapKey;
use crate::stable_map::StableMap;

verus! {

/// A map that memoizes `callback` per key.
pub struct LazyMap<K, V, F> {
    callback: F,
    map: StableMap<K, V>,
}

impl<K: MapKey, V, F: Fn(K) -> V> LazyMap<K, V, F> {
    /// Whether `key` has been computed already.
    pub closed spec fn contains_kv(self, kv: K::V) -> bool {
        self.map.contains_kv(kv)
    }

    /// The cached value of the key with view `kv`.
    pub closed spec fn value_of(self, kv: K::V) -> Option<V> {
        self.map.cell_view(self.map.index_of(kv))
    }

    /// The stored callback.
    pub closed spec fn callback_spec(self) -> F {
        self.callback
    }

    /// Number of keys seen so far.
    pub closed spec fn len_spec(self) -> nat {
        self.map.len_spec()
    }

    /// Structural invariant.
    pub closed spec fn wf(self) -> bool {
        self.map.wf()
    }

    /// Binds `callback` to a fresh map.
    pub fn new(callback: F) -> (r: Self)
        ensures
            r.wf(),
            r.len_spec() == 0,
            r.callback_spec() == callback,
            forall|kv: K::V| !r.contains_kv(kv),
    {
        LazyMap { callback, map: StableMap::new() }
    }

    /// The memoized value of `key`: on first sight the callback runs once;
    /// afterwards the cached value is returned and the callback never runs
    /// again for this key.
    pub fn get(&mut self, key: K) -> (r: &V)
        requires
            old(self).wf(),
            old(self).len_spec() + 1 < usize::MAX,
            forall|k2: K| k2@ == key@ ==> call_requires(old(self).callback_spec(), (k2,)),
        ensures
            final(self).wf(),
            final(self).len_spec() <= old(self).len_spec() + 1,
            final(self).callback_spec() == old(self).callback_spec(),
            final(self).contains_kv(key@),
            final(self).value_of(key@) == Some(*r),
            // other memoized keys keep their cached values
            forall|kv: K::V|
                #[trigger] old(self).contains_kv(kv) ==> final(self).contains_kv(kv) && (kv != key@
                    ==> final(self).value_of(kv) == old(self).value_of(kv)),
            // a cached value is returned as is
            old(self).contains_kv(key@) && old(self).value_of(key@) is Some ==> old(self).value_of(
                key@,
            ) == Some(*r),
            // a fresh value is one output of the callback on this key
            !(old(self).contains_kv(key@) && old(self).value_of(key@) is Some) ==> (exists|k2: K|
                k2@ == key@ && call_ensures(old(self).callback_spec(), (k2,), *r)),
    {
        let k2 = key.clone_key();
        let cb = &self.callback;
        let r = self.map.get_or_init(
            key,
            (|| -> (out: V)
                ensures
                    exists|k3: K| k3@ == key@ && call_ensures(*cb, (k3,), out),
                {
                    cb(k2)
                }),
        );
        r
    }
}

} // verus!
