//! A bounded-capacity open-addressing hash table over once-cell slots.
//!
//! `entry` probes the table with the triangular sequence; a key, once placed
//! in a slot, never moves, so the slot index works as a stable handle to the
//! key's value cell.  A sampled load-factor policy decides whether a vacant
//! slot may still be claimed; once it reports full, it stays full.

use vstd::prelude::*;
use crate::key::MapKey;
use crate::load_factor::BuildLoadFactor;
use crate::load_factor::LoadFactor;
use crate::load_factor::SampledLoadFactor;
use crate::load_factor::LOAD_DENOMINATOR;
use crate::once::OnceCell;
use crate::probing::BuildProbing;
use crate::probing::BuildTriangularProbing;
use crate::probing::Probing;
use crate::probing::TriangularProbing;
use vstd::arithmetic::power2::pow2;
use vstd::arithmetic::power2::lemma_pow2_pos;
use vstd::arithmetic::power2::lemma_pow2_strictly_increases;
use vstd::arithmetic::power2::lemma_pow2_unfold;

verus! {

/// A fixed-capacity structure could not place a new key; the key is handed
/// back unconsumed so the caller may retry against a larger structure.
#[derive(PartialEq, Eq, PartialOrd, Ord, Hash, Default, Debug)]
pub struct CapacityError<Q>(pub Q);

/// A bounded concurrent-style hash map: keys are claimed in open-addressing
/// slots and each slot owns a once-cell for its value.
pub struct ConcFixedHashMap<K, V, L = SampledLoadFactor> {
    cap: usize,
    mask: usize,
    exp: Ghost<nat>,
    keys: Vec<Option<(u64, K)>>,
    cells: Vec<OnceCell<V>>,
    probing: TriangularProbing,
    load_policy: L,
}

impl<K: MapKey, V, L: LoadFactor> ConcFixedHashMap<K, V, L> {
    /// Number of slots.
    pub closed spec fn cap_spec(self) -> nat {
        self.cap as nat
    }

    /// Whether slot `i` has been claimed by a key.
    pub closed spec fn occupied(self, i: int) -> bool {
        self.keys[i] is Some
    }

    /// The view of the key claimed in slot `i`.
    pub closed spec fn key_view_at(self, i: int) -> K::V {
        self.keys[i]->Some_0.1@
    }

    /// The hash stored with the key in slot `i`.
    pub closed spec fn hash_at(self, i: int) -> u64 {
        self.keys[i]->Some_0.0
    }

    /// The view of the value cell of slot `i`.
    pub closed spec fn cell_view_at(self, i: int) -> Option<V> {
        self.cells[i]@
    }

    /// Whether some slot holds a key with view `kv`.
    pub closed spec fn contains_kv(self, kv: K::V) -> bool {
        exists|i: int| 0 <= i < self.cap_spec() && self.occupied(i) && #[trigger] self.key_view_at(
            i,
        ) == kv
    }

    /// The slot holding the key with view `kv` (unique when present).
    pub closed spec fn index_of(self, kv: K::V) -> int {
        choose|i: int|
            0 <= i < self.cap_spec() && self.occupied(i) && #[trigger] self.key_view_at(i) == kv
    }

    /// Whether the admission policy reports the table full.
    pub open spec fn full_spec(self) -> bool {
        self.policy_spec().full_spec()
    }

    /// The admission policy's current state.
    pub closed spec fn policy_spec(self) -> L {
        self.load_policy
    }

    /// Whether every slot probed for hash `h` is occupied: nothing with that
    /// hash can be placed any more.
    pub closed spec fn probes_exhausted(self, h: u64) -> bool {
        forall|s: nat| s < self.cap_spec() ==> self.occupied(self.probe_at(h, s))
    }

    /// The slot probed at `step` for hash `h`.
    pub closed spec fn probe_at(self, h: u64, step: nat) -> int {
        self.probing.probe_spec(h, step) as int
    }

    /// The slot of key `i` lies on the probe path of its own hash, with every
    /// earlier probe target occupied — the invariant that makes "stop at the
    /// first vacant slot" a sound absence test.
    pub closed spec fn probe_path_ok(self, i: int) -> bool {
        exists|s: nat|
            s < self.cap_spec() && #[trigger] self.probe_at(self.hash_at(i), s) == i && (
            forall|t: nat| t < s ==> self.occupied(#[trigger] self.probe_at(self.hash_at(i), t)))
    }

    /// Structural invariant of the table.
    pub closed spec fn wf(self) -> bool {
        &&& self.cap == pow2(self.exp@)
        &&& self.cap <= usize::MAX
        &&& self.mask == self.cap - 1
        &&& self.keys.len() == self.cap
        &&& self.cells.len() == self.cap
        &&& self.probing.wf()
        &&& self.probing.cap_spec() == self.cap
        &&& forall|i: int|
            0 <= i < self.cap_spec() && self.occupied(i) ==> #[trigger] self.hash_at(i)
                == K::hash_of(self.key_view_at(i))
        &&& forall|i: int, j: int|
            0 <= i < self.cap_spec() && 0 <= j < self.cap_spec() && i != j && self.occupied(i)
                && self.occupied(j) ==> #[trigger] self.key_view_at(i) != #[trigger] self.key_view_at(j)
        &&& forall|i: int|
            0 <= i < self.cap_spec() && #[trigger] self.occupied(i) ==> self.probe_path_ok(i)
        &&& forall|i: int|
            0 <= i < self.cap_spec() && !(#[trigger] self.occupied(i)) ==> self.cell_view_at(
                i,
            ) is None
    }

    /// A probe walk that saw `s` occupied, non-matching slots and then a
    /// vacant one proves the key absent.
    proof fn lemma_absent(self, kv: K::V, s: nat)
        requires
            self.wf(),
            s < self.cap_spec(),
            !self.occupied(self.probe_at(K::hash_of(kv), s)),
            forall|t: nat|
                t < s ==> self.occupied(#[trigger] self.probe_at(K::hash_of(kv), t))
                    && self.key_view_at(self.probe_at(K::hash_of(kv), t)) != kv,
        ensures
            !self.contains_kv(kv),
    {
        let h = K::hash_of(kv);
        if self.contains_kv(kv) {
            let j = choose|j: int|
                0 <= j < self.cap_spec() && self.occupied(j) && #[trigger] self.key_view_at(j)
                    == kv;
            assert(self.hash_at(j) == h);
            assert(self.probe_path_ok(j));
            let sj = choose|sj: nat|
                sj < self.cap_spec() && #[trigger] self.probe_at(h, sj) == j && (forall|t: nat|
                    t < sj ==> self.occupied(#[trigger] self.probe_at(h, t)));
            if sj < s {
                assert(self.key_view_at(self.probe_at(h, sj)) != kv);
            } else if sj == s {
                assert(self.occupied(self.probe_at(h, s)));
            } else {
                assert(self.occupied(self.probe_at(h, s)));
            }
        }
    }

    /// Creates a table of at least `cap` slots, rounded up to a power of two.
    pub fn with_capacity<BL: BuildLoadFactor<LoadFactor = L>>(cap: usize, build_load_factor: BL)
        -> (r: Self)
        requires
            1 <= cap,
            cap <= usize::MAX / 2,
        ensures
            r.wf(),
            cap <= r.cap_spec() < 2 * cap,
            (exists|e: nat| r.cap_spec() == pow2(e)),
            forall|kv: K::V| !r.contains_kv(kv),
            forall|i: int| 0 <= i < r.cap_spec() ==> !r.occupied(i),
            forall|i: int| 0 <= i < r.cap_spec() ==> r.cell_view_at(i) is None,
            build_load_factor.builds(r.cap_spec() as usize, r.policy_spec()),
            r.cap_spec() >= LOAD_DENOMINATOR ==> !r.full_spec(),
    {
        let mut p: usize = 1;
        let ghost mut e: nat = 0nat;
        proof {
            vstd::arithmetic::power2::lemma2_to64();
        }
        while p < cap
            invariant
                cap <= usize::MAX / 2,
                p == pow2(e),
                1 <= p < 2 * cap,
            decreases 2 * cap - p,
        {
            proof {
                lemma_pow2_pos(e);
                lemma_pow2_unfold(e + 1);
            }
            p = p * 2;
            proof {
                e = e + 1nat;
            }
        }
        let mut keys: Vec<Option<(u64, K)>> = Vec::new();
        let mut cells: Vec<OnceCell<V>> = Vec::new();
        let mut k: usize = 0;
        while k < p
            invariant
                keys.len() == k,
                cells.len() == k,
                k <= p,
                forall|i: int| 0 <= i < k ==> keys[i] is None,
                forall|i: int| 0 <= i < k ==> (#[trigger] cells[i])@ is None,
            decreases p - k,
        {
            keys.push(None);
            cells.push(OnceCell::new());
            k = k + 1;
        }
        let probing = BuildTriangularProbing.build_probing(p, Ghost(e));
        let load_policy = build_load_factor.build_load_factor(p);
        let r = ConcFixedHashMap {
            cap: p,
            mask: p - 1,
            exp: Ghost(e),
            keys,
            cells,
            probing,
            load_policy,
        };
        proof {
            assert(forall|kv: K::V| !r.contains_kv(kv)) by {
                assert forall|kv: K::V| !r.contains_kv(kv) by {
                    assert(forall|i: int| 0 <= i < r.cap_spec() ==> !r.occupied(i));
                }
            }
            assert forall|i: int|
                0 <= i < r.cap_spec() && !(#[trigger] r.occupied(i)) implies r.cell_view_at(
                i,
            ) is None by {}
        }
        r
    }

    /// Looks the key up, claiming a vacant slot for it if it is new and
    /// admission allows.  On success the returned slot index is a stable
    /// handle: the same key always yields the same slot, and no other slot is
    /// disturbed.  On failure the key rides back in the error.
    pub fn entry(&mut self, key: K) -> (r: Result<usize, CapacityError<K>>)
        requires
            old(self).wf(),
        ensures
            final(self).wf(),
            final(self).cap_spec() == old(self).cap_spec(),
            // admission is monotone: full stays full
            old(self).full_spec() ==> final(self).full_spec(),
            match r {
                Ok(i) => {
                    &&& 0 <= i < final(self).cap_spec()
                    &&& final(self).occupied(i as int)
                    &&& final(self).key_view_at(i as int) == key@
                    &&& final(self).contains_kv(key@)
                    &&& i == final(self).index_of(key@)
                    // a key already present is found in place, with nothing changed
                    &&& old(self).contains_kv(key@) ==> *final(self) == *old(self) && i == old(self).index_of(key@)
                    // a new key claims exactly one previously vacant slot,
                    // spending one admission exactly as the policy says
                    &&& !old(self).contains_kv(key@) ==> !old(self).occupied(i as int) && !old(self).full_spec() && L::admit_transition(
                        old(self).policy_spec(),
                        final(self).policy_spec(),
                        i,
                    )
                    // every other slot is untouched: existing handles stay valid
                    &&& (forall|j: int|
                        (0 <= j < old(self).cap_spec() && j != i) ==> ((old(self).occupied(j)
                            == final(self).occupied(j)) && (old(self).occupied(j) ==> (final(self).key_view_at(j) == old(self).key_view_at(j) && final(self).hash_at(j)
                            == old(self).hash_at(j)))))
                    &&& (forall|j: int|
                        0 <= j < old(self).cap_spec() ==> final(self).cell_view_at(j) == old(self).cell_view_at(j))
                },
                Err(e) => {
                    &&& (e == CapacityError(key))
                    &&& *final(self) == *old(self)
                    &&& !old(self).contains_kv(key@)
                    &&& old(self).full_spec() || old(self).probes_exhausted(K::hash_of(key@))
                },
            },
    {
        let hash = key.key_hash();
        let cap = self.cap;
        let mut step: usize = 0;
        proof {
            lemma_pow2_pos(self.exp@);
        }
        while step < cap
            invariant
                self.wf(),
                *self == *old(self),
                cap == self.cap,
                step <= cap,
                hash == K::hash_of(key@),
                forall|t: nat|
                    t < step ==> self.occupied(#[trigger] self.probe_at(hash, t))
                        && self.key_view_at(self.probe_at(hash, t)) != key@,
            decreases cap - step,
        {
            let i = self.probing.probe(hash, step);
            let occupied_match: bool;
            match &self.keys[i] {
                Some((h, k)) => {
                    let heq = *h == hash;
                    let keq = k.key_eq(&key);
                    occupied_match = heq && keq;
                    proof {
                        assert(self.occupied(i as int));
                        assert(self.hash_at(i as int) == *h);
                        assert(self.key_view_at(i as int) == k@);
                        if !occupied_match && self.key_view_at(i as int) == key@ {
                            // hashes are functions of views, so a view match
                            // forces a hash match and key equality
                            assert(self.hash_at(i as int) == K::hash_of(self.key_view_at(i as int)));
                            assert(*h == hash);
                            assert(keq);
                        }
                    }
                },
                None => {
                    // vacant: the key is not in the table; ask admission
                    proof {
                        self.lemma_absent(key@, step as nat);
                    }
                    let ghost before = *self;
                    match self.load_policy.try_insert(i) {
                        Ok(()) => {
                            proof {
                                Self::lemma_wf_table_shared(before, *self);
                            }
                            let ghost pre = *self;
                            self.keys.set(i, Some((hash, key)));
                            proof {
                                self.lemma_claim_preserves_wf(pre, i as int, key@, step as nat);
                                assert(self.contains_kv(key@)) by {
                                    assert(self.occupied(i as int) && self.key_view_at(i as int)
                                        == key@);
                                }
                                self.lemma_index_of_unique(key@, i as int);
                            }
                            return Ok(i);
                        },
                        Err(_) => {
                            return Err(CapacityError(key));
                        },
                    }
                },
            }
            if occupied_match {
                proof {
                    assert(self.occupied(i as int) && self.key_view_at(i as int) == key@);
                    self.lemma_index_of_unique(key@, i as int);
                }
                return Ok(i);
            }
            proof {
                assert(self.occupied(self.probe_at(hash, step as nat)));
                assert(self.key_view_at(self.probe_at(hash, step as nat)) != key@);
            }
            step = step + 1;
        }
        proof {
            assert(self.probes_exhausted(hash));
            assert(!self.contains_kv(key@)) by {
                if self.contains_kv(key@) {
                    let j = self.index_of(key@);
                    assert(0 <= j < self.cap_spec() && self.occupied(j) && self.key_view_at(j)
                        == key@);
                    assert(self.probe_path_ok(j));
                    let sj = choose|sj: nat|
                        sj < self.cap_spec() && #[trigger] self.probe_at(hash, sj) == j && (
                        forall|t: nat| t < sj ==> self.occupied(#[trigger] self.probe_at(hash, t)));
                    assert(self.key_view_at(self.probe_at(hash, sj)) != key@);
                }
            }
        }
        Err(CapacityError(key))
    }

    /// A table with a vacant slot is never probe-exhausted: one traversal
    /// visits every slot once, so some probe step reaches the vacancy.
    pub proof fn lemma_vacancy_not_exhausted(self, h: u64, i: int)
        requires
            self.wf(),
            0 <= i < self.cap_spec(),
            !self.occupied(i),
        ensures
            !self.probes_exhausted(h),
    {
        let taken = Set::new(|x: int| 0 <= x < self.cap_spec() && self.occupied(x));
        let rng = vstd::set_lib::set_int_range(0, self.cap_spec() as int);
        vstd::set_lib::lemma_int_range(0, self.cap_spec() as int);
        assert(taken.subset_of(rng));
        assert(!taken.contains(i));
        vstd::set_lib::lemma_len_subset(taken, rng.remove(i));
        crate::probing::lemma_probe_hits_vacant(&self.probing, h, taken);
        let s = choose|s: nat|
            s < self.probing.cap_spec() && !taken.contains(
                #[trigger] self.probing.probe_spec(h, s) as int,
            );
        self.probing.lemma_probe_in_range(h, s);
        assert(!self.occupied(self.probe_at(h, s)));
    }

    /// Looks the key up without touching the table or the key: the borrowed
    /// half of the copy-on-write lookup.
    pub fn find(&self, key: &K) -> (r: Option<usize>)
        requires
            self.wf(),
        ensures
            match r {
                Some(i) => self.contains_kv(key@) && (i as int) == self.index_of(key@) && 0 <= (
                i as int) < self.cap_spec() && self.occupied(i as int) && self.key_view_at(i as int)
                    == key@,
                None => !self.contains_kv(key@),
            },
    {
        let hash = key.key_hash();
        let cap = self.cap;
        let mut step: usize = 0;
        proof {
            lemma_pow2_pos(self.exp@);
        }
        while step < cap
            invariant
                self.wf(),
                cap == self.cap,
                step <= cap,
                hash == K::hash_of(key@),
                forall|t: nat|
                    t < step ==> self.occupied(#[trigger] self.probe_at(hash, t))
                        && self.key_view_at(self.probe_at(hash, t)) != key@,
            decreases cap - step,
        {
            let i = self.probing.probe(hash, step);
            match &self.keys[i] {
                Some((h, k)) => {
                    let heq = *h == hash;
                    let keq = k.key_eq(key);
                    if heq && keq {
                        proof {
                            assert(self.occupied(i as int) && self.key_view_at(i as int) == key@);
                            self.lemma_index_of_unique(key@, i as int);
                        }
                        return Some(i);
                    }
                    proof {
                        assert(self.occupied(i as int));
                        if self.key_view_at(i as int) == key@ {
                            assert(self.hash_at(i as int) == K::hash_of(self.key_view_at(i as int)));
                            assert(*h == hash);
                            assert(keq);
                        }
                    }
                },
                None => {
                    proof {
                        self.lemma_absent(key@, step as nat);
                    }
                    return None;
                },
            }
            step = step + 1;
        }
        proof {
            assert(!self.contains_kv(key@)) by {
                if self.contains_kv(key@) {
                    let j = self.index_of(key@);
                    assert(0 <= j < self.cap_spec() && self.occupied(j) && self.key_view_at(j)
                        == key@);
                    assert(self.probe_path_ok(j));
                    let sj = choose|sj: nat|
                        sj < self.cap_spec() && #[trigger] self.probe_at(hash, sj) == j && (
                        forall|t: nat| t < sj ==> self.occupied(#[trigger] self.probe_at(hash, t)));
                    assert(self.key_view_at(self.probe_at(hash, sj)) != key@);
                }
            }
        }
        None
    }

    /// Looks the key up by reference, cloning it only when a slot actually
    /// has to be claimed; same contract as [`Self::entry`].
    pub fn get(&mut self, key: &K) -> (r: Result<usize, CapacityError<K>>)
        requires
            old(self).wf(),
        ensures
            final(self).wf(),
            final(self).cap_spec() == old(self).cap_spec(),
            old(self).full_spec() ==> final(self).full_spec(),
            match r {
                Ok(i) => {
                    &&& 0 <= i < final(self).cap_spec()
                    &&& final(self).occupied(i as int)
                    &&& final(self).key_view_at(i as int) == key@
                    &&& final(self).contains_kv(key@)
                    &&& i == final(self).index_of(key@)
                    &&& old(self).contains_kv(key@) ==> *final(self) == *old(self) && i == old(self).index_of(key@)
                    &&& !old(self).contains_kv(key@) ==> !old(self).occupied(i as int) && !old(self).full_spec() && L::admit_transition(
                        old(self).policy_spec(),
                        final(self).policy_spec(),
                        i,
                    )
                    &&& (forall|j: int|
                        (0 <= j < old(self).cap_spec() && j != i) ==> ((old(self).occupied(j)
                            == final(self).occupied(j)) && (old(self).occupied(j) ==> (final(self).key_view_at(j) == old(self).key_view_at(j)))))
                    &&& (forall|j: int|
                        0 <= j < old(self).cap_spec() ==> final(self).cell_view_at(j) == old(self).cell_view_at(j))
                },
                Err(e) => {
                    &&& (exists|k2: K| (e == CapacityError(k2)) && k2@ == key@)
                    &&& *final(self) == *old(self)
                    &&& !old(self).contains_kv(key@)
                    &&& old(self).full_spec() || old(self).probes_exhausted(K::hash_of(key@))
                },
            },
    {
        match self.find(key) {
            Some(i) => {
                proof {
                    self.lemma_index_of_unique(key@, i as int);
                }
                Ok(i)
            },
            None => self.entry(key.clone_key()),
        }
    }

    /// Whether the admission policy reports the table full.
    pub fn is_full(&self) -> (b: bool)
        ensures
            b == self.full_spec(),
    {
        self.load_policy.is_full()
    }

    /// The number of slots of the table.
    pub fn capacity(&self) -> (c: usize)
        requires
            self.wf(),
        ensures
            c == self.cap_spec(),
    {
        self.cap
    }

    /// Runs `f` at most once to fill the value cell of slot `i`, and returns
    /// the cell's value.  A ready cell is returned as is; every other slot,
    /// and the whole key layout, is left untouched.
    pub fn get_or_init_value<F: FnOnce() -> V>(&mut self, i: usize, f: F) -> (r: &V)
        requires
            old(self).wf(),
            i < old(self).cap_spec(),
            old(self).occupied(i as int),
            old(self).cell_view_at(i as int) is None ==> call_requires(f, ()),
        ensures
            final(self).wf(),
            final(self).cap_spec() == old(self).cap_spec(),
            final(self).full_spec() == old(self).full_spec(),
            final(self).cell_view_at(i as int) == Some(*r),
            old(self).cell_view_at(i as int) is Some ==> old(self).cell_view_at(i as int) == Some(
                *r,
            ),
            old(self).cell_view_at(i as int) is None ==> call_ensures(f, (), *r),
            forall|j: int|
                (0 <= j < old(self).cap_spec() && j != i) ==> final(self).cell_view_at(j) == old(
                    self,
                ).cell_view_at(j),
            forall|j: int| #[trigger] final(self).occupied(j) == old(self).occupied(j),
            forall|j: int| #[trigger] final(self).key_view_at(j) == old(self).key_view_at(j),
            forall|kv: K::V| #[trigger] final(self).contains_kv(kv) == old(self).contains_kv(kv),
            forall|kv: K::V|
                #[trigger] old(self).contains_kv(kv) ==> final(self).index_of(kv) == old(
                    self,
                ).index_of(kv),
    {
        let ghost pre = *self;
        let cell = &mut self.cells[i];
        let r0 = cell.get_or_init(f);
        let ghost v0 = *r0;
        proof {
            assert(self.cells[i as int]@ == Some(v0));
            assert(forall|j: int|
                0 <= j < pre.cells.len() && j != i ==> self.cells[j] == pre.cells[j]);
            Self::lemma_wf_table_shared(pre, *self);
        }
        match self.cells[i].get() {
            Some(v) => v,
            None => unreached(),
        }
    }

    /// Reads the value cell of slot `i` without running anything.
    pub fn try_get_value(&self, i: usize) -> (r: Option<&V>)
        requires
            self.wf(),
            i < self.cap_spec(),
        ensures
            match r {
                Some(v) => self.cell_view_at(i as int) == Some(*v),
                None => self.cell_view_at(i as int) is None,
            },
    {
        self.cells[i].get()
    }

    /// The table invariant and the key layout depend only on the keys and
    /// the probing, not on the admission policy nor on the contents of cells
    /// of occupied slots.
    proof fn lemma_wf_table_shared(a: Self, b: Self)
        requires
            a.wf(),
            b.cap == a.cap,
            b.mask == a.mask,
            b.exp == a.exp,
            b.keys == a.keys,
            b.cells.len() == a.cells.len(),
            b.probing == a.probing,
            forall|j: int|
                0 <= j < a.cap_spec() && !(#[trigger] a.occupied(j)) ==> b.cell_view_at(j) is None,
        ensures
            b.wf(),
            forall|kv: K::V| #[trigger] b.contains_kv(kv) == a.contains_kv(kv),
            forall|kv: K::V| #[trigger] a.contains_kv(kv) ==> b.index_of(kv) == a.index_of(kv),
            forall|i: int| #[trigger] b.occupied(i) == a.occupied(i),
            forall|i: int| #[trigger] b.key_view_at(i) == a.key_view_at(i),
            forall|i: int| #[trigger] b.hash_at(i) == a.hash_at(i),
            forall|h: u64, t: nat| #[trigger] b.probe_at(h, t) == a.probe_at(h, t),
    {
        assert(b.cap_spec() == a.cap_spec());
        assert(forall|i: int| #[trigger] b.occupied(i) == a.occupied(i));
        assert(forall|i: int| #[trigger] b.key_view_at(i) == a.key_view_at(i));
        assert(forall|i: int| #[trigger] b.hash_at(i) == a.hash_at(i));
        assert(forall|h: u64, t: nat| #[trigger] b.probe_at(h, t) == a.probe_at(h, t));
        assert forall|i: int|
            0 <= i < b.cap_spec() && #[trigger] b.occupied(i) implies b.probe_path_ok(i) by {
            assert(a.probe_path_ok(i));
            let hi = a.hash_at(i);
            let si = choose|si: nat|
                si < a.cap_spec() && #[trigger] a.probe_at(hi, si) == i && (forall|t: nat|
                    t < si ==> a.occupied(#[trigger] a.probe_at(hi, t)));
            assert(b.probe_at(b.hash_at(i), si) == i);
            assert forall|t: nat| t < si implies b.occupied(
                #[trigger] b.probe_at(b.hash_at(i), t),
            ) by {
                assert(a.occupied(a.probe_at(hi, t)));
            }
        }
        assert forall|kv: K::V| #[trigger] b.contains_kv(kv) == a.contains_kv(kv) by {
            if a.contains_kv(kv) {
                let j = choose|j: int|
                    0 <= j < a.cap_spec() && a.occupied(j) && #[trigger] a.key_view_at(j) == kv;
                assert(b.occupied(j) && b.key_view_at(j) == kv);
            }
            if b.contains_kv(kv) {
                let j = choose|j: int|
                    0 <= j < b.cap_spec() && b.occupied(j) && #[trigger] b.key_view_at(j) == kv;
                assert(a.occupied(j) && a.key_view_at(j) == kv);
            }
        }
        assert(b.wf());
        assert forall|kv: K::V| #[trigger] a.contains_kv(kv) implies b.index_of(kv) == a.index_of(
            kv,
        ) by {
            let i = a.index_of(kv);
            assert(0 <= i < a.cap_spec() && a.occupied(i) && a.key_view_at(i) == kv);
            b.lemma_index_of_unique(kv, i);
            a.lemma_index_of_unique(kv, i);
        }
    }

    /// A slot claimed for `kv` is the unique one `index_of` picks.
    proof fn lemma_index_of_unique(self, kv: K::V, i: int)
        requires
            self.wf(),
            0 <= i < self.cap_spec(),
            self.occupied(i),
            self.key_view_at(i) == kv,
        ensures
            self.contains_kv(kv),
            self.index_of(kv) == i,
    {
        assert(self.contains_kv(kv));
        let j = self.index_of(kv);
        assert(0 <= j < self.cap_spec() && self.occupied(j) && self.key_view_at(j) == kv);
        if i != j {
            assert(self.key_view_at(i) != self.key_view_at(j));
        }
    }

    /// Claiming a vacant slot on a fully-occupied-prefix probe path keeps the
    /// table invariant.
    proof fn lemma_claim_preserves_wf(self, pre: Self, i: int, kv: K::V, s: nat)
        requires
            pre.wf(),
            0 <= i < pre.cap_spec(),
            !pre.occupied(i),
            s < pre.cap_spec(),
            pre.probe_at(K::hash_of(kv), s) == i,
            forall|t: nat| t < s ==> pre.occupied(#[trigger] pre.probe_at(K::hash_of(kv), t)),
            !pre.contains_kv(kv),
            self.cap == pre.cap,
            self.mask == pre.mask,
            self.exp == pre.exp,
            self.cells == pre.cells,
            self.probing == pre.probing,
            self.keys.len() == pre.keys.len(),
            self.occupied(i),
            self.hash_at(i) == K::hash_of(kv),
            self.key_view_at(i) == kv,
            forall|j: int| 0 <= j < pre.keys.len() && j != i ==> self.keys[j] == pre.keys[j],
        ensures
            self.wf(),
    {
        let h = K::hash_of(kv);
        assert(self.cap_spec() == pre.cap_spec());
        assert(self.occupied(i) && self.key_view_at(i) == kv && self.hash_at(i) == h);
        assert forall|j: int| 0 <= j < self.cap_spec() && j != i implies self.keys[j]
            == pre.keys[j] by {}
        // hashes still match their keys
        assert forall|j: int|
            0 <= j < self.cap_spec() && self.occupied(j) implies #[trigger] self.hash_at(j)
            == K::hash_of(self.key_view_at(j)) by {
            if j != i {
                assert(pre.occupied(j));
            }
        }
        // keys are still pairwise distinct
        assert forall|j: int, l: int|
            0 <= j < self.cap_spec() && 0 <= l < self.cap_spec() && j != l && self.occupied(j)
                && self.occupied(l) implies #[trigger] self.key_view_at(j)
            != #[trigger] self.key_view_at(l) by {
            if j != i && l != i {
                assert(pre.occupied(j) && pre.occupied(l));
                assert(pre.key_view_at(j) == self.key_view_at(j));
                assert(pre.key_view_at(l) == self.key_view_at(l));
            } else if j == i {
                assert(pre.occupied(l));
                if self.key_view_at(l) == kv {
                    assert(pre.key_view_at(l) == kv);
                    assert(pre.contains_kv(kv));
                }
            } else {
                assert(pre.occupied(j));
                if self.key_view_at(j) == kv {
                    assert(pre.key_view_at(j) == kv);
                    assert(pre.contains_kv(kv));
                }
            }
        }
        // occupancy only grows
        assert forall|x: int| 0 <= x < self.cap_spec() && pre.occupied(x) implies #[trigger] self.occupied(x) by {
            if x != i {
                assert(self.keys[x] == pre.keys[x]);
            }
        }
        // every probe target is in range
        assert forall|hh: u64, t: nat| 0 <= #[trigger] pre.probe_at(hh, t) < pre.cap_spec() by {
            pre.probing.lemma_probe_in_range(hh, t);
        }
        // every occupied slot still lies on its probe path
        assert forall|j: int|
            0 <= j < self.cap_spec() && #[trigger] self.occupied(j) implies self.probe_path_ok(
            j,
        ) by {
            if j == i {
                assert(self.hash_at(i) == h);
                assert(self.probe_at(h, s) == pre.probe_at(h, s));
                assert(self.probe_at(self.hash_at(i), s) == i);
                assert forall|t: nat| t < s implies self.occupied(
                    #[trigger] self.probe_at(self.hash_at(i), t),
                ) by {
                    assert(self.probe_at(h, t) == pre.probe_at(h, t));
                    assert(pre.occupied(pre.probe_at(h, t)));
                }
            } else {
                assert(pre.occupied(j));
                assert(pre.probe_path_ok(j));
                assert(self.hash_at(j) == pre.hash_at(j));
                let hj = pre.hash_at(j);
                let sj = choose|sj: nat|
                    sj < pre.cap_spec() && #[trigger] pre.probe_at(hj, sj) == j && (forall|t: nat|
                        t < sj ==> pre.occupied(#[trigger] pre.probe_at(hj, t)));
                assert(self.probe_at(hj, sj) == j);
                assert forall|t: nat| t < sj implies self.occupied(
                    #[trigger] self.probe_at(hj, t),
                ) by {
                    assert(pre.occupied(pre.probe_at(hj, t)));
                }
            }
        }
        // vacant slots still hold empty cells
        assert forall|j: int|
            0 <= j < self.cap_spec() && !(#[trigger] self.occupied(j)) implies self.cell_view_at(
            j,
        ) is None by {
            assert(j != i);
            assert(!pre.occupied(j));
        }
    }
}

} // verus!
