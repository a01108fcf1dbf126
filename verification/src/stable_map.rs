//! A mutex-guarded key-to-index table paired with a stable arena.
//!
//! The table maps each key to a small integer; the arena owns the once-cell
//! holding the key's value at that index.  Growing or rehashing the index
//! table never touches the arena, so the index — the handle callers keep —
//! stays valid for the life of the map, and looking the same key up twice
//! always yields the same index.

use vstd::prelude::*;
use crate::index_arena::IndexArena;
use crate::key::MapKey;
use crate::once::OnceCell;

verus! {

/// A memoizing map from keys to once-cell slots with stable indices.
pub struct StableMap<K, V> {
    arena: IndexArena<OnceCell<V>>,
    keys: Vec<K>,
}

impl<K: MapKey, V> StableMap<K, V> {
    /// Number of keys inserted so far; also the next index to be issued.
    pub closed spec fn len_spec(self) -> nat {
        self.keys.len() as nat
    }

    /// Whether a key with view `kv` has been inserted.
    pub closed spec fn contains_kv(self, kv: K::V) -> bool {
        exists|j: int| 0 <= j < self.keys.len() && (#[trigger] self.keys[j])@ == kv
    }

    /// The index issued to the key with view `kv`.
    pub closed spec fn index_of(self, kv: K::V) -> int {
        choose|j: int| 0 <= j < self.keys.len() && (#[trigger] self.keys[j])@ == kv
    }

    /// The view of the value cell at index `i`.
    pub closed spec fn cell_view(self, i: int) -> Option<V> {
        self.arena.spec_at(i as nat)@
    }

    /// Structural invariant: keys are pairwise distinct, every issued index
    /// has a materialized arena slot, and slots not yet issued hold empty
    /// cells.
    pub closed spec fn wf(self) -> bool {
        &&& self.arena.wf()
        &&& self.keys.len() < usize::MAX
        &&& forall|i: int, j: int|
            0 <= i < self.keys.len() && 0 <= j < self.keys.len() && i != j ==> (
            #[trigger] self.keys[i])@ != (#[trigger] self.keys[j])@
        &&& forall|j: nat| j < self.len_spec() ==> #[trigger] self.arena.slot_ready(j)
        &&& forall|j: nat|
            j >= self.len_spec() && #[trigger] self.arena.slot_ready(j) ==> self.arena.spec_at(
                j,
            )@ is None
    }

    /// An empty map.
    pub fn new() -> (r: Self)
        ensures
            r.wf(),
            r.len_spec() == 0,
            forall|kv: K::V| !r.contains_kv(kv),
    {
        StableMap { arena: IndexArena::new(), keys: Vec::new() }
    }

    /// Number of keys inserted so far.
    pub fn len(&self) -> (n: usize)
        ensures
            n == self.len_spec(),
    {
        self.keys.len()
    }

    /// Looks the key up without touching the map or the key: the borrowed
    /// half of the copy-on-write lookup.
    pub fn lookup(&self, key: &K) -> (r: Option<usize>)
        requires
            self.wf(),
        ensures
            match r {
                Some(i) => self.contains_kv(key@) && (i as int) == self.index_of(key@) && (i as int)
                    < self.len_spec(),
                None => !self.contains_kv(key@),
            },
    {
        let n = self.keys.len();
        let mut j: usize = 0;
        while j < n
            invariant
                self.wf(),
                n == self.keys.len(),
                j <= n,
                forall|t: int| 0 <= t < j ==> (#[trigger] self.keys[t])@ != key@,
            decreases n - j,
        {
            if self.keys[j].key_eq(key) {
                proof {
                    assert(self.keys[j as int]@ == key@);
                    assert(self.contains_kv(key@));
                    let w = self.index_of(key@);
                    if w != j as int {
                        assert(self.keys[w]@ != self.keys[j as int]@);
                    }
                }
                return Some(j);
            }
            j = j + 1;
        }
        None
    }

    /// Returns the stable index of `key`, issuing the next free index (and
    /// materializing its arena slot) on first sight.  The same key always
    /// maps to the same index, and no other key's slot is disturbed.
    pub fn get_or_insert(&mut self, key: K) -> (i: usize)
        requires
            old(self).wf(),
            old(self).len_spec() + 1 < usize::MAX,
        ensures
            final(self).wf(),
            (i as int) < final(self).len_spec(),
            final(self).contains_kv(key@),
            (i as int) == final(self).index_of(key@),
            // the same key yields the same index, with nothing changed
            old(self).contains_kv(key@) ==> *final(self) == *old(self) && (i as int) == old(self).index_of(key@),
            // a new key gets the next index and an empty cell
            !old(self).contains_kv(key@) ==> (i as nat) == old(self).len_spec() && final(self).len_spec() == old(self).len_spec() + 1 && final(self).cell_view(i as int) is None,
            // every previously issued index keeps its key and cell
            forall|kv: K::V|
                #[trigger] old(self).contains_kv(kv) ==> final(self).contains_kv(kv) && final(self).index_of(kv) == old(self).index_of(kv),
            forall|j: int|
                0 <= j < old(self).len_spec() ==> final(self).cell_view(j) == old(self).cell_view(
                    j,
                ),
    {
        let n = self.keys.len();
        let mut j: usize = 0;
        while j < n
            invariant
                self.wf(),
                *self == *old(self),
                n == self.keys.len(),
                j <= n,
                forall|t: int| 0 <= t < j ==> (#[trigger] self.keys[t])@ != key@,
            decreases n - j,
        {
            if self.keys[j].key_eq(&key) {
                proof {
                    assert(self.keys[j as int]@ == key@);
                    assert(self.contains_kv(key@));
                    let w = self.index_of(key@);
                    if w != j as int {
                        assert(self.keys[w]@ != self.keys[j as int]@);
                    }
                }
                return j;
            }
            j = j + 1;
        }
        proof {
            assert(!self.contains_kv(key@));
        }
        let ghost pre = *self;
        self.keys.push(key);
        let _slot = self.arena.get_or_init(n);
        proof {
            assert(self.keys[n as int]@ == key@);
            assert(self.contains_kv(key@));
            let w = self.index_of(key@);
            if w != n as int {
                assert(self.keys[w]@ != self.keys[n as int]@);
            }
            assert(self.cell_view(n as int) is None) by {
                if pre.arena.slot_ready(n as nat) {
                    assert(pre.arena.spec_at(n as nat)@ is None);
                    assert(self.arena.spec_at(n as nat) == pre.arena.spec_at(n as nat));
                } else {
                    assert(call_ensures(
                        OnceCell::<V>::default,
                        (),
                        self.arena.spec_at(n as nat),
                    ));
                }
            }
            assert forall|jj: nat|
                jj >= self.len_spec() && #[trigger] self.arena.slot_ready(jj) implies self.arena.spec_at(
                jj,
            )@ is None by {
                if pre.arena.slot_ready(jj) {
                    assert(pre.arena.spec_at(jj)@ is None);
                } else {
                    assert(!pre.arena.slot_ready(n as nat));
                    assert(call_ensures(OnceCell::<V>::default, (), self.arena.spec_at(jj)));
                }
            }
            assert forall|kv: K::V| #[trigger] pre.contains_kv(kv) implies self.contains_kv(kv)
                && self.index_of(kv) == pre.index_of(kv) by {
                let w = pre.index_of(kv);
                assert(0 <= w < pre.keys.len() && pre.keys[w]@ == kv);
                assert(self.keys[w]@ == kv);
                assert(self.contains_kv(kv));
                let w2 = self.index_of(kv);
                assert(0 <= w2 < self.keys.len() && self.keys[w2]@ == kv);
                if w2 != w {
                    assert(self.keys[w2]@ != self.keys[w]@);
                }
            }
        }
        n
    }

    /// Returns the value for `key`, running `f` at most once to compute it:
    /// the first caller's `f` fills the key's cell, and every later call for
    /// the same key returns the same value without running anything.
    pub fn get_or_init<F: FnOnce() -> V>(&mut self, key: K, f: F) -> (r: &V)
        requires
            old(self).wf(),
            old(self).len_spec() + 1 < usize::MAX,
            call_requires(f, ()),
        ensures
            final(self).wf(),
            // the key count grows by at most one, so the map stays usable
            final(self).len_spec() <= old(self).len_spec() + 1,
            old(self).contains_kv(key@) ==> final(self).len_spec() == old(self).len_spec(),
            final(self).contains_kv(key@),
            final(self).cell_view(final(self).index_of(key@)) == Some(*r),
            // an already computed value is returned unchanged, f never runs
            old(self).contains_kv(key@) && old(self).cell_view(old(self).index_of(key@)) is Some
                ==> old(self).cell_view(old(self).index_of(key@)) == Some(*r),
            // a fresh computation is one output of f
            !(old(self).contains_kv(key@) && old(self).cell_view(
                old(self).index_of(key@),
            ) is Some) ==> call_ensures(f, (), *r),
            // other keys' cells are untouched
            forall|kv: K::V|
                #[trigger] old(self).contains_kv(kv) ==> final(self).contains_kv(kv) && final(self).index_of(kv) == old(self).index_of(kv) && (kv != key@ ==> final(self).cell_view(
                    final(self).index_of(kv),
                ) == old(self).cell_view(old(self).index_of(kv))),
    {
        let i = self.get_or_insert(key);
        let ghost mid = *self;
        let r0 = self.arena.cell_get_or_init(i, f);
        let ghost v0 = *r0;
        proof {
            assert forall|kv: K::V| #[trigger] old(self).contains_kv(kv) implies self.contains_kv(
                kv,
            ) && self.index_of(kv) == old(self).index_of(kv) && (kv != key@
                ==> self.cell_view(self.index_of(kv)) == old(self).cell_view(
                old(self).index_of(kv),
            )) by {
                assert(mid.contains_kv(kv) && mid.index_of(kv) == old(self).index_of(kv));
                assert(self.keys == mid.keys);
                if kv != key@ {
                    let w = mid.index_of(kv);
                    assert(0 <= w < mid.keys.len() && mid.keys[w]@ == kv);
                    if w == i as int {
                        assert(mid.keys[i as int]@ == key@);
                    }
                    assert(w != i as int);
                    assert(self.cell_view(w) == mid.cell_view(w));
                }
            }
        }
        match self.arena.try_get(i) {
            Some(cell) => {
                match cell.get() {
                    Some(v) => v,
                    None => unreached(),
                }
            },
            None => unreached(),
        }
    }
}

} // verus!
