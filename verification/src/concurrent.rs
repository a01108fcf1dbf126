//! An unbounded concurrent-style hash map built from capacity-growing tiers.
//!
//! Each tier (layer) is an open-addressing table.  When a layer cannot place
//! a new key, the next, larger layer is created and every live entry of the
//! old layer is migrated into it — not by copying the value, but by leaving a
//! redirect marker pointing at the old bucket, so the value itself (and any
//! handle already given out) never moves.  A redirect always points at a
//! bucket, never at another redirect: resolving a key takes at most one hop.

use vstd::prelude::*;
use crate::concurrent_fixed::CapacityError;
use crate::key::MapKey;
use crate::load_factor::BuildLoadFactor;
use crate::load_factor::BuildSampledLoadFactor;
use crate::load_factor::LoadFactor;
use crate::load_factor::SampledLoadFactor;
use crate::probing::BuildProbing;
use crate::probing::BuildTriangularProbing;
use crate::probing::Probing;
use crate::probing::lemma_probe_hits_vacant;
use vstd::arithmetic::power2::pow2;
use vstd::arithmetic::power2::lemma_pow2_pos;
use vstd::arithmetic::power2::lemma_pow2_unfold;

verus! {

/// One slot of a layer: still free, an authoritative bucket, or a redirect
/// into an older layer where the authoritative bucket lives.
pub enum LayerSlot<K, V> {
    Vacant,
    Bucket(u64, K, V),
    Redirect(usize, usize),
}

/// One capacity tier of the layered map.
struct Layer<K, V, Pr> {
    slots: Vec<LayerSlot<K, V>>,
    probing: Pr,
    load: SampledLoadFactor,
}

/// The layered map: tiers of open-addressing tables linked by redirects.
pub struct ConcHashMap<K, V, P: BuildProbing = BuildTriangularProbing> {
    caps: Vec<usize>,
    exps: Ghost<Seq<nat>>,
    layers: Vec<Option<Layer<K, V, P::Probing>>>,
    created: usize,
    build_probing: P,
}

impl<K: MapKey, V, P: BuildProbing> ConcHashMap<K, V, P> {
    /// How many tiers this map may ever create.
    pub closed spec fn num_layers(self) -> nat {
        self.caps.len() as nat
    }

    /// How many tiers exist so far.
    pub closed spec fn created_spec(self) -> nat {
        self.created as nat
    }

    /// Capacity of tier `d`.
    pub closed spec fn cap_of(self, d: int) -> nat {
        self.caps[d] as nat
    }

    spec fn lslots(self, d: int) -> Seq<LayerSlot<K, V>> {
        self.layers[d]->Some_0.slots@
    }

    spec fn lprobing(self, d: int) -> P::Probing {
        self.layers[d]->Some_0.probing
    }

    spec fn lload(self, d: int) -> SampledLoadFactor {
        self.layers[d]->Some_0.load
    }

    /// Whether the slot `(d, i)` holds an authoritative bucket.
    pub closed spec fn is_bucket(self, d: int, i: int) -> bool {
        self.lslots(d)[i] is Bucket
    }

    /// The stored hash of bucket `(d, i)`.
    pub closed spec fn bucket_hash(self, d: int, i: int) -> u64 {
        self.lslots(d)[i]->Bucket_0
    }

    /// The key view of bucket `(d, i)`.
    pub closed spec fn bucket_kv(self, d: int, i: int) -> K::V {
        self.lslots(d)[i]->Bucket_1@
    }

    /// The value of bucket `(d, i)`.
    pub closed spec fn bucket_value(self, d: int, i: int) -> V {
        self.lslots(d)[i]->Bucket_2
    }

    /// Whether slot `(d, i)` is a redirect.
    pub closed spec fn is_redirect(self, d: int, i: int) -> bool {
        self.lslots(d)[i] is Redirect
    }

    /// The bucket position a slot stands for: itself for a bucket, the
    /// redirect target otherwise.
    pub closed spec fn assoc_of(self, d: int, i: int) -> (int, int) {
        match self.lslots(d)[i] {
            LayerSlot::Redirect(rd, ri) => (rd as int, ri as int),
            _ => (d, i),
        }
    }

    /// Whether slot `(d, i)` is taken (bucket or redirect).
    pub closed spec fn nonvacant(self, d: int, i: int) -> bool {
        !(self.lslots(d)[i] is Vacant)
    }

    /// The key view a taken slot stands for.
    pub closed spec fn slot_kv(self, d: int, i: int) -> K::V {
        self.bucket_kv(self.assoc_of(d, i).0, self.assoc_of(d, i).1)
    }

    /// The hash a taken slot stands for.
    pub closed spec fn slot_hash(self, d: int, i: int) -> u64 {
        self.bucket_hash(self.assoc_of(d, i).0, self.assoc_of(d, i).1)
    }

    /// The slot tier `d` probes at `step` for hash `h`.
    pub closed spec fn probe_of(self, d: int, h: u64, step: nat) -> int {
        self.lprobing(d).probe_spec(h, step) as int
    }

    /// Whether tier `d` holds the key view `kv` (as bucket or redirect).
    pub closed spec fn layer_contains(self, d: int, kv: K::V) -> bool {
        exists|i: int|
            0 <= i < self.cap_of(d) && self.nonvacant(d, i) && #[trigger] self.slot_kv(d, i) == kv
    }

    /// The slot of tier `d` standing for `kv`.
    pub closed spec fn slot_of(self, d: int, kv: K::V) -> int {
        choose|i: int|
            0 <= i < self.cap_of(d) && self.nonvacant(d, i) && #[trigger] self.slot_kv(d, i) == kv
    }

    /// Whether the map holds `kv`: the newest tier stands for every live key.
    pub closed spec fn contains_kv(self, kv: K::V) -> bool {
        self.created_spec() > 0 && self.layer_contains(self.created_spec() - 1, kv)
    }

    /// The authoritative bucket of `kv`: where the newest tier's slot for it
    /// resolves to, in at most one hop.
    pub closed spec fn locate(self, kv: K::V) -> (int, int) {
        self.assoc_of(self.created_spec() - 1, self.slot_of(self.created_spec() - 1, kv))
    }

    /// A redirect at `(d, i)` points strictly down, in range, at a bucket.
    spec fn redirect_ok(self, d: int, i: int) -> bool {
        self.lslots(d)[i] matches LayerSlot::Redirect(rd, ri) ==> {
            &&& (rd as int) < d
            &&& 0 <= (ri as int) < self.cap_of(rd as int)
            &&& self.is_bucket(rd as int, ri as int)
        }
    }

    /// A taken slot lies on the probe path of its hash with all earlier
    /// probe targets taken.
    spec fn path_ok(self, d: int, i: int) -> bool {
        exists|s: nat|
            s < self.cap_of(d) && #[trigger] self.probe_of(d, self.slot_hash(d, i), s) == i && (
            forall|t: nat|
                t < s ==> self.nonvacant(d, #[trigger] self.probe_of(d, self.slot_hash(d, i), t)))
    }

    /// Structural invariant of one created tier.
    spec fn layer_wf(self, d: int) -> bool {
        &&& self.lslots(d).len() == self.cap_of(d)
        &&& self.lprobing(d).wf()
        &&& self.lprobing(d).cap_spec() == self.cap_of(d)
        &&& forall|i: int| 0 <= i < self.cap_of(d) ==> #[trigger] self.redirect_ok(d, i)
        &&& forall|i: int|
            0 <= i < self.cap_of(d) && #[trigger] self.is_bucket(d, i) ==> self.bucket_hash(d, i)
                == K::hash_of(self.bucket_kv(d, i))
        &&& forall|i: int|
            0 <= i < self.cap_of(d) && #[trigger] self.nonvacant(d, i) ==> self.path_ok(d, i)
        &&& forall|i: int, j: int|
            0 <= i < self.cap_of(d) && 0 <= j < self.cap_of(d) && i != j && self.nonvacant(d, i)
                && self.nonvacant(d, j) ==> #[trigger] self.slot_kv(d, i)
                != #[trigger] self.slot_kv(d, j)
    }

    /// Structural invariant of the whole map.
    pub closed spec fn wf(self) -> bool {
        &&& self.caps.len() == self.layers.len()
        &&& self.caps.len() == self.exps@.len()
        &&& self.created <= self.caps.len()
        &&& forall|d: int| 0 <= d < self.caps.len() ==> #[trigger] self.caps[d] == pow2(self.exps@[d])
        &&& forall|d: int|
            1 <= d < self.caps.len() ==> #[trigger] self.caps[d] >= 2 * self.caps[d - 1]
        &&& forall|d: int| 0 <= d < self.layers.len() ==> ((#[trigger] self.layers[d]) is Some <==> d
            < self.created)
        &&& forall|d: int| 0 <= d < self.created ==> #[trigger] self.layer_wf(d)
        // a newer tier stands for every key its predecessor stands for
        &&& forall|d: int, i: int|
            1 <= d < self.created && 0 <= i < self.cap_of(d - 1) && #[trigger] self.nonvacant(
                d - 1,
                i,
            ) ==> self.layer_contains(d, self.slot_kv(d - 1, i))
    }

    /// Total number of slots across the tiers created so far.
    pub closed spec fn total_slots_spec(self, upto: int) -> int
        decreases upto,
    {
        if upto <= 0 {
            0
        } else {
            self.total_slots_spec(upto - 1) + self.cap_of(upto - 1)
        }
    }

    /// Every bucket of `a` is still present, with the same key and value,
    /// at the same address in `b`: handles handed out against `a` stay
    /// valid in `b`.
    pub open spec fn buckets_preserved(a: Self, b: Self) -> bool {
        forall|dd: int, i: int|
            0 <= dd < a.created_spec() && 0 <= i < a.cap_of(dd) && #[trigger] a.is_bucket(dd, i)
                ==> b.is_bucket(dd, i) && b.bucket_kv(dd, i) == a.bucket_kv(dd, i)
                && b.bucket_value(dd, i) == a.bucket_value(dd, i)
    }

    /// `b` holds exactly the keys of `a`, each located at the same bucket.
    pub open spec fn keys_preserved(a: Self, b: Self) -> bool {
        &&& (forall|kv: K::V| #[trigger] b.contains_kv(kv) == a.contains_kv(kv))
        &&& (forall|kv: K::V| #[trigger] a.contains_kv(kv) ==> b.locate(kv) == a.locate(kv))
    }

    /// Bucket preservation composes.
    proof fn lemma_buckets_preserved_trans(a: Self, b: Self, c: Self)
        requires
            Self::buckets_preserved(a, b),
            Self::buckets_preserved(b, c),
            a.created_spec() <= b.created_spec(),
            a.caps == b.caps,
        ensures
            Self::buckets_preserved(a, c),
    {
        assert forall|dd: int, i: int|
            0 <= dd < a.created_spec() && 0 <= i < a.cap_of(dd) && #[trigger] a.is_bucket(
                dd,
                i,
            ) implies c.is_bucket(dd, i) && c.bucket_kv(dd, i) == a.bucket_kv(dd, i)
            && c.bucket_value(dd, i) == a.bucket_value(dd, i) by {
            assert(b.is_bucket(dd, i));
        }
    }

    /// Key preservation composes.
    proof fn lemma_keys_preserved_trans(a: Self, b: Self, c: Self)
        requires
            Self::keys_preserved(a, b),
            Self::keys_preserved(b, c),
        ensures
            Self::keys_preserved(a, c),
    {
        assert forall|kv: K::V| #[trigger] a.contains_kv(kv) implies c.locate(kv) == a.locate(
            kv,
        ) by {
            assert(b.contains_kv(kv));
        }
    }

    /// Whether entry `i` of a slot vector under construction is taken.
    spec fn raw_nonvacant(slots: Seq<LayerSlot<K, V>>, i: int) -> bool {
        !(slots[i] is Vacant)
    }

    /// The set of taken entries of a slot vector under construction.
    spec fn raw_nv_set(slots: Seq<LayerSlot<K, V>>) -> Set<int> {
        Set::new(|i: int| 0 <= i < slots.len() && Self::raw_nonvacant(slots, i))
    }

    /// The key view entry `i` of a slot vector stands for, resolving a
    /// redirect through the (unchanged) older tiers of `self`.
    spec fn raw_kv(self, slots: Seq<LayerSlot<K, V>>, i: int) -> K::V {
        match slots[i] {
            LayerSlot::Redirect(rd, ri) => self.bucket_kv(rd as int, ri as int),
            _ => slots[i]->Bucket_1@,
        }
    }

    /// The hash entry `i` of a slot vector stands for.
    spec fn raw_hash(self, slots: Seq<LayerSlot<K, V>>, i: int) -> u64 {
        match slots[i] {
            LayerSlot::Redirect(rd, ri) => self.bucket_hash(rd as int, ri as int),
            _ => slots[i]->Bucket_0,
        }
    }

    /// The taken entries of a slot vector form a finite set no larger than
    /// the vector.
    proof fn lemma_raw_nv_finite(slots: Seq<LayerSlot<K, V>>)
        ensures
            Self::raw_nv_set(slots).finite(),
            Self::raw_nv_set(slots).len() <= slots.len(),
    {
        let rng = vstd::set_lib::set_int_range(0, slots.len() as int);
        vstd::set_lib::lemma_int_range(0, slots.len() as int);
        assert(Self::raw_nv_set(slots).subset_of(rng));
        vstd::set_lib::lemma_len_subset(Self::raw_nv_set(slots), rng);
    }

    /// Places a redirect marker at the first vacant probe target for `h`.
    /// Fewer entries are taken than the vector holds, so the walk always
    /// finds one.
    fn place_raw(
        slots: &mut Vec<LayerSlot<K, V>>,
        probing: &P::Probing,
        h: u64,
        rd: usize,
        ri: usize,
    ) -> (idx: usize)
        requires
            probing.wf(),
            probing.cap_spec() == old(slots)@.len(),
            Self::raw_nv_set(old(slots)@).len() < old(slots)@.len(),
        ensures
            idx < old(slots)@.len(),
            !Self::raw_nonvacant(old(slots)@, idx as int),
            final(slots)@ == old(slots)@.update(idx as int, LayerSlot::<K, V>::Redirect(rd, ri)),
            exists|s: nat|
                s < probing.cap_spec() && #[trigger] probing.probe_spec(h, s) == idx && (
                forall|t: nat|
                    t < s ==> Self::raw_nonvacant(
                        old(slots)@,
                        #[trigger] probing.probe_spec(h, t) as int,
                    )),
    {
        let cap = probing.capacity();
        let mut s: usize = 0;
        while s < cap
            invariant
                s <= cap,
                probing.wf(),
                cap == probing.cap_spec(),
                cap == slots@.len(),
                *slots == *old(slots),
                Self::raw_nv_set(slots@).len() < slots@.len(),
                forall|t: nat|
                    t < s ==> Self::raw_nonvacant(
                        slots@,
                        #[trigger] probing.probe_spec(h, t) as int,
                    ),
            decreases cap - s,
        {
            let idx = probing.probe(h, s);
            let is_vacant = match &slots[idx] {
                LayerSlot::Vacant => true,
                _ => false,
            };
            if is_vacant {
                slots.set(idx, LayerSlot::Redirect(rd, ri));
                proof {
                    assert(probing.probe_spec(h, s as nat) == idx);
                }
                return idx;
            }
            s = s + 1;
        }
        proof {
            Self::lemma_raw_nv_finite(slots@);
            lemma_probe_hits_vacant(probing, h, Self::raw_nv_set(slots@));
            let s0 = choose|s0: nat|
                s0 < probing.cap_spec() && !Self::raw_nv_set(slots@).contains(
                    #[trigger] probing.probe_spec(h, s0) as int,
                );
            probing.lemma_probe_in_range(h, s0);
            assert(Self::raw_nonvacant(slots@, probing.probe_spec(h, s0) as int));
            assert(Self::raw_nv_set(slots@).contains(probing.probe_spec(h, s0) as int));
        }
        unreached()
    }

    /// Tier `d`'s invariant and observations depend only on the layers up to
    /// `d` and the capacities, so they survive changes above `d`.
    proof fn lemma_layer_transfer(a: Self, b: Self, d: int)
        requires
            0 <= d < a.caps.len(),
            b.caps == a.caps,
            forall|dd: int| 0 <= dd <= d ==> b.layers[dd] == a.layers[dd],
            d < a.layers.len(),
            d < b.layers.len(),
        ensures
            forall|i: int| #[trigger] b.nonvacant(d, i) == a.nonvacant(d, i),
            forall|i: int| #[trigger] b.is_bucket(d, i) == a.is_bucket(d, i),
            forall|i: int| #[trigger] b.assoc_of(d, i) == a.assoc_of(d, i),
            a.layer_wf(d) ==> b.layer_wf(d),
            forall|i: int|
                0 <= i < a.cap_of(d) && a.layer_wf(d) && a.nonvacant(d, i) ==> #[trigger] b.slot_kv(
                    d,
                    i,
                ) == a.slot_kv(d, i),
            forall|i: int|
                0 <= i < a.cap_of(d) && a.layer_wf(d) && a.nonvacant(d, i)
                    ==> #[trigger] b.slot_hash(d, i) == a.slot_hash(d, i),
            forall|h: u64, t: nat| #[trigger] b.probe_of(d, h, t) == a.probe_of(d, h, t),
            forall|kv: K::V|
                a.layer_wf(d) ==> (#[trigger] b.layer_contains(d, kv) == a.layer_contains(d, kv)),
    {
        assert(b.lslots(d) == a.lslots(d));
        assert(b.lprobing(d) == a.lprobing(d));
        assert(forall|i: int| #[trigger] b.nonvacant(d, i) == a.nonvacant(d, i));
        assert forall|i: int|
            0 <= i < a.cap_of(d) && a.layer_wf(d) && a.nonvacant(d, i) implies #[trigger] b.slot_kv(
            d,
            i,
        ) == a.slot_kv(d, i) by {
            assert(a.redirect_ok(d, i));
            match a.lslots(d)[i] {
                LayerSlot::Redirect(rd, ri) => {
                    assert(b.layers[rd as int] == a.layers[rd as int]);
                    assert(b.lslots(rd as int) == a.lslots(rd as int));
                },
                _ => {},
            }
        }
        assert forall|i: int|
            0 <= i < a.cap_of(d) && a.layer_wf(d) && a.nonvacant(d, i) implies #[trigger] b.slot_hash(
            d,
            i,
        ) == a.slot_hash(d, i) by {
            assert(a.redirect_ok(d, i));
            match a.lslots(d)[i] {
                LayerSlot::Redirect(rd, ri) => {
                    assert(b.layers[rd as int] == a.layers[rd as int]);
                    assert(b.lslots(rd as int) == a.lslots(rd as int));
                },
                _ => {},
            }
        }
        if a.layer_wf(d) {
            assert forall|i: int|
                0 <= i < b.cap_of(d) && #[trigger] b.nonvacant(d, i) implies b.path_ok(d, i) by {
                assert(a.nonvacant(d, i));
                assert(a.path_ok(d, i));
                let hh = a.slot_hash(d, i);
                let ss = choose|ss: nat|
                    ss < a.cap_of(d) && #[trigger] a.probe_of(d, hh, ss) == i && (forall|t: nat|
                        t < ss ==> a.nonvacant(d, #[trigger] a.probe_of(d, hh, t)));
                assert(a.redirect_ok(d, i));
                match a.lslots(d)[i] {
                    LayerSlot::Redirect(rd, ri) => {
                        assert(b.layers[rd as int] == a.layers[rd as int]);
                        assert(b.lslots(rd as int) == a.lslots(rd as int));
                    },
                    _ => {},
                }
                assert(b.slot_hash(d, i) == hh);
                assert(b.probe_of(d, hh, ss) == i);
                assert forall|t: nat| t < ss implies b.nonvacant(
                    d,
                    #[trigger] b.probe_of(d, hh, t),
                ) by {
                    assert(a.nonvacant(d, a.probe_of(d, hh, t)));
                }
            }
            assert forall|i: int|
                0 <= i < b.cap_of(d) && #[trigger] b.is_bucket(d, i) implies b.bucket_hash(d, i)
                == K::hash_of(b.bucket_kv(d, i)) by {
                assert(a.is_bucket(d, i));
            }
            assert forall|i: int| 0 <= i < b.cap_of(d) implies #[trigger] b.redirect_ok(d, i) by {
                assert(a.redirect_ok(d, i));
                match a.lslots(d)[i] {
                    LayerSlot::Redirect(rd, ri) => {
                        assert(b.lslots(rd as int) == a.lslots(rd as int));
                    },
                    _ => {},
                }
            }
            assert(b.layer_wf(d));
            assert forall|kv: K::V| #[trigger] b.layer_contains(d, kv) == a.layer_contains(
                d,
                kv,
            ) by {
                if a.layer_contains(d, kv) {
                    let i = choose|i: int|
                        0 <= i < a.cap_of(d) && a.nonvacant(d, i) && #[trigger] a.slot_kv(d, i)
                            == kv;
                    assert(a.redirect_ok(d, i));
                    match a.lslots(d)[i] {
                        LayerSlot::Redirect(rd, ri) => {
                            assert(b.lslots(rd as int) == a.lslots(rd as int));
                        },
                        _ => {},
                    }
                    assert(b.nonvacant(d, i) && b.slot_kv(d, i) == kv);
                }
                if b.layer_contains(d, kv) {
                    let i = choose|i: int|
                        0 <= i < b.cap_of(d) && b.nonvacant(d, i) && #[trigger] b.slot_kv(d, i)
                            == kv;
                    assert(a.redirect_ok(d, i));
                    match a.lslots(d)[i] {
                        LayerSlot::Redirect(rd, ri) => {
                            assert(b.lslots(rd as int) == a.lslots(rd as int));
                        },
                        _ => {},
                    }
                    assert(a.nonvacant(d, i) && a.slot_kv(d, i) == kv);
                }
            }
        }
    }

    /// Creates the next tier and migrates every live entry of the newest
    /// tier into it, as a one-hop redirect to the entry's bucket.  No bucket
    /// moves or changes: handles stay valid, and the key population is
    /// exactly preserved.
    #[verifier::rlimit(100)]
    #[verifier::spinoff_prover]
    fn create_next_layer(&mut self)
        requires
            old(self).wf(),
            old(self).created_spec() < old(self).num_layers(),
        ensures
            final(self).wf(),
            final(self).created_spec() == old(self).created_spec() + 1,
            final(self).num_layers() == old(self).num_layers(),
            final(self).caps == old(self).caps,
            forall|dd: int|
                0 <= dd < final(self).num_layers() ==> #[trigger] final(self).cap_of(dd) == old(self).cap_of(dd),
            forall|dd: int|
                0 <= dd < old(self).created_spec() ==> #[trigger] final(self).lslots(dd) == old(self).lslots(dd),
            forall|dd: int|
                0 <= dd < old(self).created_spec() ==> #[trigger] final(self).lprobing(dd) == old(self).lprobing(dd),
            Self::keys_preserved(*old(self), *final(self)),
            Self::buckets_preserved(*old(self), *final(self)),
    {
        let d = self.created;
        let cap = self.caps[d];
        let ghost pre = *self;
        proof {
            assert(pre.caps[d as int] == pow2(pre.exps@[d as int]));
        }
        let probing = self.build_probing.build_probing(cap, Ghost(self.exps@[d as int]));
        let load = BuildSampledLoadFactor.build_load_factor(cap);
        let mut slots: Vec<LayerSlot<K, V>> = Vec::new();
        let mut z: usize = 0;
        while z < cap
            invariant
                slots@.len() == z,
                z <= cap,
                forall|i: int| 0 <= i < z ==> slots@[i] is Vacant,
            decreases cap - z,
        {
            slots.push(LayerSlot::Vacant);
            z = z + 1;
        }
        proof {
            assert(Self::raw_nv_set(slots@) =~= Set::<int>::empty());
        }
        if d > 0 {
            let prev = d - 1;
            let prev_cap = self.caps[prev];
            proof {
                assert(pre.caps[d as int] >= 2 * pre.caps[d as int - 1]);
            }
            let mut q: usize = 0;
            while q < prev_cap
                invariant
                    *self == pre,
                    pre.wf(),
                    q <= prev_cap,
                    0 < d == pre.created,
                    (d as int) < pre.caps.len(),
                    prev == d - 1,
                    prev_cap == pre.cap_of(prev as int),
                    cap == pre.cap_of(d as int),
                    2 * prev_cap <= cap,
                    slots@.len() == cap,
                    probing.wf(),
                    probing.cap_spec() == cap,
                    Self::raw_nv_set(slots@).len() <= q,
                    forall|i: int| 0 <= i < cap ==> !((#[trigger] slots@[i]) is Bucket),
                    forall|i: int|
                        0 <= i < cap ==> ((#[trigger] slots@[i]) matches LayerSlot::Redirect(
                            rd,
                            ri,
                        ) ==> (rd as int) < (d as int) && (rd as int) < pre.created && 0 <= (
                        ri as int) < pre.cap_of(rd as int) && pre.is_bucket(rd as int, ri as int)),
                    forall|i: int|
                        0 <= i < cap && #[trigger] Self::raw_nonvacant(slots@, i)
                            ==> pre.raw_hash(slots@, i) == K::hash_of(pre.raw_kv(slots@, i)),
                    forall|i: int|
                        0 <= i < cap && #[trigger] Self::raw_nonvacant(slots@, i) ==> (exists|
                            s: nat,
                        |
                            s < cap && #[trigger] probing.probe_spec(pre.raw_hash(slots@, i), s)
                                == i && (forall|t: nat|
                                t < s ==> Self::raw_nonvacant(
                                    slots@,
                                    #[trigger] probing.probe_spec(pre.raw_hash(slots@, i), t) as int,
                                ))),
                    forall|i: int, j: int|
                        0 <= i < cap && 0 <= j < cap && i != j && Self::raw_nonvacant(slots@, i)
                            && Self::raw_nonvacant(slots@, j) ==> #[trigger] pre.raw_kv(slots@, i)
                            != #[trigger] pre.raw_kv(slots@, j),
                    forall|p: int|
                        0 <= p < q && #[trigger] pre.nonvacant(prev as int, p) ==> (exists|i: int|
                            0 <= i < cap && ((#[trigger] slots@[i]) matches LayerSlot::Redirect(
                                rd,
                                ri,
                            ) && (rd as int, ri as int) == pre.assoc_of(prev as int, p))),
                    forall|i: int|
                        0 <= i < cap && #[trigger] Self::raw_nonvacant(slots@, i) ==> (exists|
                            p: int,
                        |
                            0 <= p < q && #[trigger] pre.nonvacant(prev as int, p) && pre.raw_kv(
                                slots@,
                                i,
                            ) == pre.slot_kv(prev as int, p)),
                decreases prev_cap - q,
            {
                let mut live = false;
                let mut h2: u64 = 0;
                let mut rd: usize = 0;
                let mut ri: usize = 0;
                proof {
                    assert(pre.layer_wf(prev as int));
                }
                match &self.layers[prev] {
                    Some(layer) => {
                        match &layer.slots[q] {
                            LayerSlot::Vacant => {},
                            LayerSlot::Bucket(h, _k, _v) => {
                                live = true;
                                h2 = *h;
                                rd = prev;
                                ri = q;
                            },
                            LayerSlot::Redirect(rd0, ri0) => {
                                proof {
                                    assert(pre.redirect_ok(prev as int, q as int));
                                }
                                live = true;
                                rd = *rd0;
                                ri = *ri0;
                                proof {
                                    assert(pre.layer_wf(rd as int));
                                    assert(pre.lslots(rd as int).len() == pre.cap_of(rd as int));
                                }
                                match &self.layers[rd] {
                                    Some(tlayer) => {
                                        proof {
                                            assert(tlayer.slots@ == pre.lslots(rd as int));
                                        }
                                        match &tlayer.slots[ri] {
                                            LayerSlot::Bucket(th, _tk, _tv) => {
                                                h2 = *th;
                                            },
                                            _ => {
                                                proof {
                                                    assert(pre.is_bucket(rd as int, ri as int));
                                                }
                                                h2 = 0;
                                            },
                                        }
                                    },
                                    None => {
                                        proof {
                                            assert((rd as int) < pre.created);
                                        }
                                        h2 = 0;
                                    },
                                }
                            },
                        }
                    },
                    None => {
                        proof {
                            assert((prev as int) < pre.created);
                        }
                    },
                }
                if live {
                    proof {
                        assert(pre.nonvacant(prev as int, q as int));
                        assert((rd as int, ri as int) == pre.assoc_of(prev as int, q as int));
                        assert(h2 == pre.slot_hash(prev as int, q as int));
                        assert(h2 == K::hash_of(pre.slot_kv(prev as int, q as int))) by {
                            assert(pre.is_bucket(rd as int, ri as int));
                        }
                        Self::lemma_raw_nv_finite(slots@);
                    }
                    let ghost snap = slots@;
                    let idx = Self::place_raw(&mut slots, &probing, h2, rd, ri);
                    proof {
                        let kvq = pre.slot_kv(prev as int, q as int);
                        assert(slots@ == snap.update(
                            idx as int,
                            LayerSlot::<K, V>::Redirect(rd, ri),
                        ));
                        assert(pre.raw_kv(slots@, idx as int) == kvq);
                        assert(pre.raw_hash(slots@, idx as int) == h2);
                        // the taken set grows by exactly the new slot
                        assert(Self::raw_nv_set(slots@) =~= Self::raw_nv_set(snap).insert(
                            idx as int,
                        ));
                        Self::lemma_raw_nv_finite(snap);
                        // unchanged entries keep their raw observations
                        assert forall|i: int|
                            0 <= i < cap && i != idx && #[trigger] Self::raw_nonvacant(
                                slots@,
                                i,
                            ) implies Self::raw_nonvacant(snap, i) && pre.raw_kv(slots@, i)
                            == pre.raw_kv(snap, i) && pre.raw_hash(slots@, i) == pre.raw_hash(
                            snap,
                            i,
                        ) by {
                            assert(slots@[i] == snap[i]);
                        }
                        // the new entry's key is distinct from every older one
                        assert forall|i: int|
                            0 <= i < cap && i != idx && Self::raw_nonvacant(
                                slots@,
                                i,
                            ) implies #[trigger] pre.raw_kv(slots@, i) != kvq by {
                            let p = choose|p: int|
                                0 <= p < q && #[trigger] pre.nonvacant(prev as int, p)
                                    && pre.raw_kv(snap, i) == pre.slot_kv(prev as int, p);
                            assert(pre.slot_kv(prev as int, p) != pre.slot_kv(
                                prev as int,
                                q as int,
                            ));
                        }
                        // probe paths survive: taken entries only gained company
                        assert forall|i: int|
                            0 <= i < cap && #[trigger] Self::raw_nonvacant(slots@, i) implies (
                        exists|s: nat|
                            s < cap && #[trigger] probing.probe_spec(pre.raw_hash(slots@, i), s)
                                == i && (forall|t: nat|
                                t < s ==> Self::raw_nonvacant(
                                    slots@,
                                    #[trigger] probing.probe_spec(pre.raw_hash(slots@, i), t) as int,
                                ))) by {
                            if i == idx {
                                let s0 = choose|s0: nat|
                                    s0 < probing.cap_spec() && #[trigger] probing.probe_spec(
                                        h2,
                                        s0,
                                    ) == idx && (forall|t: nat|
                                        t < s0 ==> Self::raw_nonvacant(
                                            snap,
                                            #[trigger] probing.probe_spec(h2, t) as int,
                                        ));
                                assert(probing.probe_spec(pre.raw_hash(slots@, i), s0) == i);
                                assert forall|t: nat| t < s0 implies Self::raw_nonvacant(
                                    slots@,
                                    #[trigger] probing.probe_spec(
                                        pre.raw_hash(slots@, i),
                                        t,
                                    ) as int,
                                ) by {
                                    let x = probing.probe_spec(h2, t) as int;
                                    probing.lemma_probe_in_range(h2, t);
                                    assert(Self::raw_nonvacant(snap, x));
                                    if x != idx {
                                        assert(slots@[x] == snap[x]);
                                    }
                                }
                            } else {
                                let hh = pre.raw_hash(snap, i);
                                let s0 = choose|s0: nat|
                                    s0 < cap && #[trigger] probing.probe_spec(hh, s0) == i && (
                                    forall|t: nat|
                                        t < s0 ==> Self::raw_nonvacant(
                                            snap,
                                            #[trigger] probing.probe_spec(hh, t) as int,
                                        ));
                                assert(pre.raw_hash(slots@, i) == hh);
                                assert(probing.probe_spec(pre.raw_hash(slots@, i), s0) == i);
                                assert forall|t: nat| t < s0 implies Self::raw_nonvacant(
                                    slots@,
                                    #[trigger] probing.probe_spec(
                                        pre.raw_hash(slots@, i),
                                        t,
                                    ) as int,
                                ) by {
                                    let x = probing.probe_spec(hh, t) as int;
                                    probing.lemma_probe_in_range(hh, t);
                                    assert(Self::raw_nonvacant(snap, x));
                                    if x != idx {
                                        assert(slots@[x] == snap[x]);
                                    }
                                }
                            }
                        }
                        // the migrated entry is recorded for slot q
                        assert((slots@[idx as int] matches LayerSlot::Redirect(rd2, ri2) && (
                        rd2 as int, ri2 as int) == pre.assoc_of(prev as int, q as int)));
                        // every processed entry, including this one, is recorded
                        assert forall|p: int|
                            0 <= p < q + 1 && #[trigger] pre.nonvacant(prev as int, p) implies (
                        exists|i: int|
                            0 <= i < cap && ((#[trigger] slots@[i]) matches LayerSlot::Redirect(
                                rd3,
                                ri3,
                            ) && (rd3 as int, ri3 as int) == pre.assoc_of(prev as int, p))) by {
                            if p < q {
                                let i = choose|i: int|
                                    0 <= i < cap && ((#[trigger] snap[i])
                                        matches LayerSlot::Redirect(rd3, ri3) && (rd3 as int,
                                    ri3 as int) == pre.assoc_of(prev as int, p));
                                assert(slots@[i] == snap[i]);
                            } else {
                                assert(slots@[idx as int] is Redirect);
                            }
                        }
                        // the new entry is accounted to slot q of the old tier
                        assert forall|i: int|
                            0 <= i < cap && #[trigger] Self::raw_nonvacant(slots@, i) implies (
                        exists|p: int|
                            0 <= p < q + 1 && #[trigger] pre.nonvacant(prev as int, p)
                                && pre.raw_kv(slots@, i) == pre.slot_kv(prev as int, p)) by {
                            if i == idx {
                                assert(pre.nonvacant(prev as int, q as int));
                                assert(pre.raw_kv(slots@, i) == pre.slot_kv(prev as int, q as int));
                            } else {
                                assert(Self::raw_nonvacant(snap, i));
                                let p = choose|p: int|
                                    0 <= p < q && #[trigger] pre.nonvacant(prev as int, p)
                                        && pre.raw_kv(snap, i) == pre.slot_kv(prev as int, p);
                                assert(pre.raw_kv(slots@, i) == pre.raw_kv(snap, i));
                            }
                        }
                    }
                }
                proof {
                    if !live {
                        assert(!pre.nonvacant(prev as int, q as int));
                    }
                }
                q = q + 1;
            }
        }
        let ghost built = slots@;
        self.layers.set(d, Some(Layer { slots, probing, load }));
        self.created = self.created + 1;
        proof {
            let di = d as int;
            let fin = *self;
            assert(fin.lslots(di) == built);
            assert(fin.lprobing(di) == probing);
            // old tiers are bitwise unchanged
            assert forall|dd: int| 0 <= dd < pre.created implies fin.layers[dd] == pre.layers[dd]
                by {}
            assert forall|dd: int| 0 <= dd < pre.created implies #[trigger] fin.lslots(dd)
                == pre.lslots(dd) && #[trigger] fin.lprobing(dd) == pre.lprobing(dd) by {}
            assert forall|dd: int| 0 <= dd < pre.created implies pre.layer_wf(dd) by {}
            assert forall|dd: int| 0 <= dd < pre.created implies #[trigger] fin.layer_wf(dd) by {
                Self::lemma_layer_transfer(pre, fin, dd);
            }
            assert forall|dd: int, kv: K::V|
                0 <= dd < pre.created implies #[trigger] fin.layer_contains(dd, kv)
                == pre.layer_contains(dd, kv) by {
                Self::lemma_layer_transfer(pre, fin, dd);
            }
            assert forall|dd: int, i: int|
                0 <= dd < pre.created && 0 <= i < pre.cap_of(dd) && pre.nonvacant(
                    dd,
                    i,
                ) implies #[trigger] fin.slot_kv(dd, i) == pre.slot_kv(dd, i) by {
                Self::lemma_layer_transfer(pre, fin, dd);
            }
            assert forall|dd: int, i: int|
                0 <= dd < pre.created && 0 <= i < pre.cap_of(dd) && pre.nonvacant(
                    dd,
                    i,
                ) implies #[trigger] fin.slot_hash(dd, i) == pre.slot_hash(dd, i) by {
                Self::lemma_layer_transfer(pre, fin, dd);
            }
            assert forall|dd: int, i: int|
                0 <= dd < pre.created && 0 <= i < pre.cap_of(dd) implies #[trigger] fin.nonvacant(
                    dd,
                    i,
                ) == pre.nonvacant(dd, i) by {
                Self::lemma_layer_transfer(pre, fin, dd);
            }
            assert forall|dd: int, i: int|
                0 <= dd < pre.created && 0 <= i < pre.cap_of(dd) implies #[trigger] fin.assoc_of(
                    dd,
                    i,
                ) == pre.assoc_of(dd, i) by {
                Self::lemma_layer_transfer(pre, fin, dd);
            }
            // raw observations of the built vector become tier observations
            assert forall|i: int| 0 <= i < cap implies #[trigger] fin.nonvacant(di, i)
                == Self::raw_nonvacant(built, i) by {}
            assert forall|i: int|
                0 <= i < cap && Self::raw_nonvacant(built, i) implies #[trigger] fin.slot_kv(di, i)
                == pre.raw_kv(built, i) && #[trigger] fin.slot_hash(di, i) == pre.raw_hash(
                built,
                i,
            ) by {
                match built[i] {
                    LayerSlot::Redirect(rd4, ri4) => {
                        assert(fin.lslots(rd4 as int) == pre.lslots(rd4 as int));
                    },
                    _ => {},
                }
            }
            // the new tier satisfies the layer invariant
            assert(fin.layer_wf(di)) by {
                assert forall|i: int| 0 <= i < fin.cap_of(di) implies #[trigger] fin.redirect_ok(
                    di,
                    i,
                ) by {
                    match built[i] {
                        LayerSlot::Redirect(rd4, ri4) => {
                            assert(pre.is_bucket(rd4 as int, ri4 as int));
                            assert(fin.lslots(rd4 as int) == pre.lslots(rd4 as int));
                        },
                        _ => {},
                    }
                }
                assert forall|i: int|
                    0 <= i < fin.cap_of(di) && #[trigger] fin.nonvacant(di, i) implies fin.path_ok(
                    di,
                    i,
                ) by {
                    let hh = pre.raw_hash(built, i);
                    let s0 = choose|s0: nat|
                        s0 < cap && #[trigger] probing.probe_spec(hh, s0) == i && (forall|t: nat|
                            t < s0 ==> Self::raw_nonvacant(
                                built,
                                #[trigger] probing.probe_spec(hh, t) as int,
                            ));
                    assert(fin.slot_hash(di, i) == hh);
                    assert(fin.probe_of(di, hh, s0) == i);
                    assert forall|t: nat| t < s0 implies fin.nonvacant(
                        di,
                        #[trigger] fin.probe_of(di, hh, t),
                    ) by {
                        assert(Self::raw_nonvacant(built, probing.probe_spec(hh, t) as int));
                    }
                }
            }
            // coverage of the new tier, and key preservation
            if di > 0 {
                assert forall|p: int|
                    0 <= p < fin.cap_of(di - 1) && #[trigger] fin.nonvacant(
                        di - 1,
                        p,
                    ) implies fin.layer_contains(di, fin.slot_kv(di - 1, p)) by {
                    assert(pre.nonvacant(di - 1, p));
                    let i = choose|i: int|
                        0 <= i < cap && ((#[trigger] built[i]) matches LayerSlot::Redirect(
                            rd5,
                            ri5,
                        ) && (rd5 as int, ri5 as int) == pre.assoc_of(di - 1, p));
                    assert(pre.raw_kv(built, i) == pre.slot_kv(di - 1, p)) by {
                        assert(pre.layer_wf(di - 1));
                        assert(pre.redirect_ok(di - 1, p));
                    }
                    assert(fin.nonvacant(di, i) && fin.slot_kv(di, i) == pre.slot_kv(di - 1, p));
                    assert(fin.slot_kv(di - 1, p) == pre.slot_kv(di - 1, p));
                }
            }
            assert forall|dd: int, i: int|
                1 <= dd < fin.created && 0 <= i < fin.cap_of(dd - 1) && #[trigger] fin.nonvacant(
                    dd - 1,
                    i,
                ) implies fin.layer_contains(dd, fin.slot_kv(dd - 1, i)) by {
                if dd < di {
                    assert(pre.nonvacant(dd - 1, i));
                    assert(pre.layer_contains(dd, pre.slot_kv(dd - 1, i)));
                    assert(fin.slot_kv(dd - 1, i) == pre.slot_kv(dd - 1, i));
                    assert(fin.layer_contains(dd, pre.slot_kv(dd - 1, i)));
                }
            }
            assert(fin.wf());
            // the key population is exactly preserved
            assert forall|kv: K::V| #[trigger] fin.contains_kv(kv) == pre.contains_kv(kv) by {
                if pre.contains_kv(kv) {
                    let p = choose|p: int|
                        0 <= p < pre.cap_of(di - 1) && pre.nonvacant(di - 1, p)
                            && #[trigger] pre.slot_kv(di - 1, p) == kv;
                    assert(fin.nonvacant(di - 1, p) && fin.slot_kv(di - 1, p) == kv);
                    assert(fin.layer_contains(di, kv)) by {
                        assert(fin.layer_wf(di - 1));
                    }
                }
                if fin.contains_kv(kv) {
                    let i = choose|i: int|
                        0 <= i < fin.cap_of(di) && fin.nonvacant(di, i) && #[trigger] fin.slot_kv(
                            di,
                            i,
                        ) == kv;
                    assert(Self::raw_nonvacant(built, i));
                    let p = choose|p: int|
                        0 <= p < pre.cap_of(di - 1) && #[trigger] pre.nonvacant(di - 1, p)
                            && pre.raw_kv(built, i) == pre.slot_kv(di - 1, p);
                    assert(pre.layer_contains(di - 1, kv));
                }
            }
            // a key's bucket does not move
            assert forall|kv: K::V| #[trigger] pre.contains_kv(kv) implies fin.locate(kv)
                == pre.locate(kv) by {
                let p = pre.slot_of(di - 1, kv);
                assert(0 <= p < pre.cap_of(di - 1) && pre.nonvacant(di - 1, p) && pre.slot_kv(
                    di - 1,
                    p,
                ) == kv);
                let i = choose|i: int|
                    0 <= i < cap && ((#[trigger] built[i]) matches LayerSlot::Redirect(rd6, ri6)
                        && (rd6 as int, ri6 as int) == pre.assoc_of(di - 1, p));
                assert(pre.raw_kv(built, i) == kv) by {
                    assert(pre.layer_wf(di - 1));
                    assert(pre.redirect_ok(di - 1, p));
                }
                assert(fin.nonvacant(di, i) && fin.slot_kv(di, i) == kv);
                let i2 = fin.slot_of(di, kv);
                assert(0 <= i2 < fin.cap_of(di) && fin.nonvacant(di, i2) && fin.slot_kv(di, i2)
                    == kv);
                if i2 != i {
                    assert(fin.slot_kv(di, i2) != fin.slot_kv(di, i));
                }
                assert(fin.locate(kv) == fin.assoc_of(di, i));
                assert(fin.assoc_of(di, i) == pre.assoc_of(di - 1, p));
            }
            // buckets of existing tiers are bitwise untouched
            assert forall|dd: int, i: int|
                0 <= dd < pre.created_spec() && 0 <= i < pre.cap_of(dd) && #[trigger] pre.is_bucket(
                    dd,
                    i,
                ) implies fin.is_bucket(dd, i) && fin.bucket_kv(dd, i) == pre.bucket_kv(dd, i)
                && fin.bucket_value(dd, i) == pre.bucket_value(dd, i) by {
                assert(fin.lslots(dd) == pre.lslots(dd));
            }
        }
    }
}

impl<K: MapKey, V, P: BuildProbing + Default> ConcHashMap<K, V, P> {
    /// Creates a map whose tiers have capacities `cap_init`,
    /// `cap_init * cap_ratio`, ..., up to `cap_max`.  No tier exists yet.
    #[verifier::rlimit(100)]
    pub fn with_capacity(cap_init: usize, cap_ratio: usize, cap_max: usize) -> (r: Self)
        requires
            exists|e: nat| cap_init == pow2(e),
            exists|e: nat| e >= 1 && cap_ratio == pow2(e),
            exists|e: nat| cap_max == pow2(e),
            1 <= cap_init <= cap_max,
        ensures
            r.wf(),
            r.created_spec() == 0,
            r.num_layers() >= 1,
            forall|kv: K::V| !r.contains_kv(kv),
            // the tier capacities are exactly cap_init, cap_init * cap_ratio,
            // ... while they stay within cap_max
            r.cap_of(0) == cap_init,
            forall|d: int|
                0 <= d < r.num_layers() - 1 ==> #[trigger] r.cap_of(d) * cap_ratio == r.cap_of(
                    d + 1,
                ),
            forall|d: int| 0 <= d < r.num_layers() ==> #[trigger] r.cap_of(d) <= cap_max,
            r.cap_of(r.num_layers() - 1) * cap_ratio > cap_max,
    {
        let ghost e0 = choose|e: nat| cap_init == pow2(e);
        let ghost er = choose|e: nat| e >= 1 && cap_ratio == pow2(e);
        let mut caps: Vec<usize> = Vec::new();
        let mut layers: Vec<Option<Layer<K, V, P::Probing>>> = Vec::new();
        let ghost mut exps: Seq<nat> = Seq::empty();
        let mut cap = cap_init;
        let ghost mut ce: nat = e0;
        proof {
            lemma_pow2_pos(er);
            lemma_pow2_unfold(er);
            if er > 1 {
                vstd::arithmetic::power2::lemma_pow2_strictly_increases(1, er);
            }
            vstd::arithmetic::power2::lemma2_to64();
        }
        loop
            invariant_except_break
                caps.len() > 0 ==> (caps[caps.len() - 1] as int) * (cap_ratio as int) == cap,
            invariant
                1 <= cap,
                cap == pow2(ce),
                cap <= cap_max,
                cap_ratio == pow2(er),
                er >= 1,
                cap_ratio >= 2,
                caps.len() == layers.len(),
                caps.len() == exps.len(),
                forall|d: int| 0 <= d < caps.len() ==> #[trigger] caps[d] == pow2(exps[d]),
                forall|d: int| 1 <= d < caps.len() ==> #[trigger] caps[d] >= 2 * caps[d - 1],
                forall|d: int| 0 <= d < layers.len() ==> (#[trigger] layers[d]) is None,
                caps.len() > 0 ==> caps[0] == cap_init,
                caps.len() == 0 ==> cap == cap_init,
                forall|d: int| 0 <= d < caps.len() ==> #[trigger] caps[d] >= 1,
                forall|d: int|
                    0 <= d < caps.len() - 1 ==> (#[trigger] caps[d + 1] as int) == (
                    caps[d] as int) * (cap_ratio as int),
                forall|d: int| 0 <= d < caps.len() ==> #[trigger] caps[d] <= cap_max,
            ensures
                caps.len() >= 1,
                caps.len() == layers.len(),
                caps.len() == exps.len(),
                forall|d: int| 0 <= d < caps.len() ==> #[trigger] caps[d] == pow2(exps[d]),
                forall|d: int| 1 <= d < caps.len() ==> #[trigger] caps[d] >= 2 * caps[d - 1],
                forall|d: int| 0 <= d < layers.len() ==> (#[trigger] layers[d]) is None,
                caps[0] == cap_init,
                forall|d: int|
                    0 <= d < caps.len() - 1 ==> (#[trigger] caps[d + 1] as int) == (
                    caps[d] as int) * (cap_ratio as int),
                forall|d: int| 0 <= d < caps.len() ==> #[trigger] caps[d] <= cap_max,
                (caps[caps.len() - 1] as int) * (cap_ratio as int) > cap_max,
            decreases cap_max - cap + (if caps.len() == 0 { 1int } else { 0int }),
        {
            caps.push(cap);
            layers.push(None);
            proof {
                exps = exps.push(ce);
                if caps.len() >= 2 {
                    let pl = caps.len() - 2;
                    assert((caps[pl as int] as int) * (cap_ratio as int) == cap);
                    assert(cap >= 2 * caps[pl as int]) by (nonlinear_arith)
                        requires
                            (caps[pl as int] as int) * (cap_ratio as int) == cap,
                            cap_ratio >= 2,
                            caps[pl as int] >= 1,
                    ;
                }
            }
            if cap > cap_max / cap_ratio {
                proof {
                    vstd::arithmetic::div_mod::lemma_fundamental_div_mod(
                        cap_max as int,
                        cap_ratio as int,
                    );
                    assert((cap as int) * (cap_ratio as int) > cap_max) by (nonlinear_arith)
                        requires
                            cap > cap_max / cap_ratio,
                            cap_ratio >= 2,
                            cap_max as int == (cap_ratio as int) * ((cap_max / cap_ratio) as int)
                                + (cap_max % cap_ratio) as int,
                            0 <= (cap_max % cap_ratio) as int,
                            ((cap_max % cap_ratio) as int) < (cap_ratio as int),
                    ;
                }
                break;
            }
            proof {
                vstd::arithmetic::div_mod::lemma_fundamental_div_mod(
                    cap_max as int,
                    cap_ratio as int,
                );
                assert(cap * cap_ratio <= cap_max) by (nonlinear_arith)
                    requires
                        cap <= cap_max / cap_ratio,
                        cap_ratio >= 2,
                        cap_max == cap_ratio * (cap_max / cap_ratio) + cap_max % cap_ratio,
                        cap_max % cap_ratio >= 0,
                ;
                assert(pow2(ce) * pow2(er) == pow2(ce + er)) by {
                    vstd::arithmetic::power2::lemma_pow2_adds(ce, er);
                }
                assert(cap * 2 <= cap * cap_ratio) by (nonlinear_arith)
                    requires
                        cap_ratio >= 2,
                        cap >= 1,
                ;
            }
            cap = cap * cap_ratio;
            proof {
                ce = ce + er;
            }
        }
        ConcHashMap {
            caps,
            exps: Ghost(exps),
            layers,
            created: 0,
            build_probing: P::default(),
        }
    }
}

impl<K: MapKey, V, P: BuildProbing> ConcHashMap<K, V, P> {
    /// A taken slot's hash is the hash of the key it stands for.
    proof fn lemma_slot_hash_congruent(self, d: int, i: int)
        requires
            self.wf(),
            0 <= d < self.created_spec(),
            0 <= i < self.cap_of(d),
            self.nonvacant(d, i),
        ensures
            self.slot_hash(d, i) == K::hash_of(self.slot_kv(d, i)),
    {
        assert(self.layer_wf(d));
        assert(self.redirect_ok(d, i));
        match self.lslots(d)[i] {
            LayerSlot::Redirect(rd, ri) => {
                assert(self.layer_wf(rd as int));
                assert(self.is_bucket(rd as int, ri as int));
            },
            _ => {
                assert(self.is_bucket(d, i));
            },
        }
    }

    /// A probe walk through tier `d` that saw `s` taken, non-matching slots
    /// and then a vacant one proves the key absent from that tier.
    proof fn lemma_layer_absent(self, d: int, kv: K::V, s: nat)
        requires
            self.wf(),
            0 <= d < self.created_spec(),
            s < self.cap_of(d),
            !self.nonvacant(d, self.probe_of(d, K::hash_of(kv), s)),
            forall|t: nat|
                t < s ==> self.nonvacant(d, #[trigger] self.probe_of(d, K::hash_of(kv), t))
                    && self.slot_kv(d, self.probe_of(d, K::hash_of(kv), t)) != kv,
        ensures
            !self.layer_contains(d, kv),
    {
        let h = K::hash_of(kv);
        assert(self.layer_wf(d));
        if self.layer_contains(d, kv) {
            let j = choose|j: int|
                0 <= j < self.cap_of(d) && self.nonvacant(d, j) && #[trigger] self.slot_kv(d, j)
                    == kv;
            self.lemma_slot_hash_congruent(d, j);
            assert(self.slot_hash(d, j) == h);
            assert(self.path_ok(d, j));
            let sj = choose|sj: nat|
                sj < self.cap_of(d) && #[trigger] self.probe_of(d, h, sj) == j && (forall|t: nat|
                    t < sj ==> self.nonvacant(d, #[trigger] self.probe_of(d, h, t)));
            if sj < s {
                assert(self.slot_kv(d, self.probe_of(d, h, sj)) != kv);
            } else if sj == s {
                assert(self.nonvacant(d, self.probe_of(d, h, s)));
            } else {
                assert(self.nonvacant(d, self.probe_of(d, h, s)));
            }
        }
    }

    /// Claiming a vacant slot of the newest tier for a fresh key keeps every
    /// invariant and makes that slot the key's bucket.
    #[verifier::rlimit(100)]
    #[verifier::spinoff_prover]
    proof fn lemma_claim_layer(pre: Self, fin: Self, d: int, idx: int, kv: K::V, s: nat)
        requires
            pre.wf(),
            pre.created_spec() > 0,
            d == pre.created_spec() - 1,
            0 <= idx < pre.cap_of(d),
            !pre.nonvacant(d, idx),
            s < pre.cap_of(d),
            pre.probe_of(d, K::hash_of(kv), s) == idx,
            forall|t: nat| t < s ==> pre.nonvacant(d, #[trigger] pre.probe_of(d, K::hash_of(kv), t)),
            !pre.layer_contains(d, kv),
            fin.caps == pre.caps,
            fin.exps == pre.exps,
            fin.created == pre.created,
            fin.layers.len() == pre.layers.len(),
            forall|dd: int| 0 <= dd < pre.layers.len() && dd != d ==> fin.layers[dd] == pre.layers[dd],
            fin.layers[d] is Some,
            fin.lprobing(d) == pre.lprobing(d),
            fin.lslots(d).len() == pre.lslots(d).len(),
            forall|i: int| 0 <= i < pre.cap_of(d) && i != idx ==> fin.lslots(d)[i] == pre.lslots(d)[i],
            fin.is_bucket(d, idx),
            fin.bucket_hash(d, idx) == K::hash_of(kv),
            fin.bucket_kv(d, idx) == kv,
        ensures
            fin.wf(),
            fin.contains_kv(kv),
            fin.locate(kv) == (d, idx),
            // stability: every bucket of the old state is untouched
            forall|dd: int, i: int|
                0 <= dd < pre.created_spec() && 0 <= i < pre.cap_of(dd) && #[trigger] pre.is_bucket(
                    dd,
                    i,
                ) ==> fin.is_bucket(dd, i) && fin.bucket_hash(dd, i) == pre.bucket_hash(dd, i)
                    && fin.bucket_kv(dd, i) == pre.bucket_kv(dd, i) && fin.bucket_value(dd, i)
                    == pre.bucket_value(dd, i),
            // the key population gains exactly the claimed key
            forall|kv2: K::V|
                kv2 != kv ==> #[trigger] fin.contains_kv(kv2) == pre.contains_kv(kv2),
            forall|kv2: K::V|
                #[trigger] pre.contains_kv(kv2) ==> fin.contains_kv(kv2) && fin.locate(kv2)
                    == pre.locate(kv2),
    {
        let h = K::hash_of(kv);
        assert(pre.layer_wf(d));
        // tiers below the top are unchanged
        assert forall|dd: int| 0 <= dd < pre.created && dd != d implies #[trigger] fin.lslots(dd)
            == pre.lslots(dd) by {}
        assert forall|dd: int| 0 <= dd < pre.created implies pre.layer_wf(dd) by {}
        assert forall|dd: int| 0 <= dd < d implies #[trigger] fin.layer_wf(dd) by {
            Self::lemma_layer_transfer(pre, fin, dd);
        }
        // observations of tier d transfer for all untouched slots
        assert forall|i: int|
            0 <= i < pre.cap_of(d) && i != idx implies #[trigger] fin.nonvacant(d, i)
            == pre.nonvacant(d, i) by {}
        assert forall|i: int|
            0 <= i < pre.cap_of(d) && i != idx && pre.nonvacant(d, i) implies #[trigger] fin.slot_kv(
            d,
            i,
        ) == pre.slot_kv(d, i) by {
            assert(pre.redirect_ok(d, i));
            match pre.lslots(d)[i] {
                LayerSlot::Redirect(rd, ri) => {
                    assert(fin.lslots(rd as int) == pre.lslots(rd as int));
                },
                _ => {},
            }
        }
        assert forall|i: int|
            0 <= i < pre.cap_of(d) && i != idx && pre.nonvacant(
                d,
                i,
            ) implies #[trigger] fin.slot_hash(d, i) == pre.slot_hash(d, i) by {
            assert(pre.redirect_ok(d, i));
            match pre.lslots(d)[i] {
                LayerSlot::Redirect(rd, ri) => {
                    assert(fin.lslots(rd as int) == pre.lslots(rd as int));
                },
                _ => {},
            }
        }
        assert forall|i: int|
            0 <= i < pre.cap_of(d) && i != idx implies #[trigger] fin.assoc_of(d, i)
            == pre.assoc_of(d, i) by {}
        assert(fin.nonvacant(d, idx));
        assert(fin.slot_kv(d, idx) == kv);
        assert(fin.slot_hash(d, idx) == h);
        assert(fin.assoc_of(d, idx) == (d, idx));
        assert(forall|hh: u64, t: nat| #[trigger] fin.probe_of(d, hh, t) == pre.probe_of(d, hh, t));
        // the top tier keeps its invariant
        assert(fin.layer_wf(d)) by {
            assert forall|i: int| 0 <= i < fin.cap_of(d) implies #[trigger] fin.redirect_ok(d, i) by {
                if i != idx {
                    assert(pre.redirect_ok(d, i));
                    match pre.lslots(d)[i] {
                        LayerSlot::Redirect(rd, ri) => {
                            assert(fin.lslots(rd as int) == pre.lslots(rd as int));
                        },
                        _ => {},
                    }
                }
            }
            assert forall|i: int|
                0 <= i < fin.cap_of(d) && #[trigger] fin.is_bucket(d, i) implies fin.bucket_hash(
                d,
                i,
            ) == K::hash_of(fin.bucket_kv(d, i)) by {
                if i != idx {
                    assert(pre.is_bucket(d, i));
                }
            }
            assert forall|i: int, j: int|
                0 <= i < fin.cap_of(d) && 0 <= j < fin.cap_of(d) && i != j && fin.nonvacant(d, i)
                    && fin.nonvacant(d, j) implies #[trigger] fin.slot_kv(d, i)
                != #[trigger] fin.slot_kv(d, j) by {
                if i != idx && j != idx {
                    assert(pre.nonvacant(d, i) && pre.nonvacant(d, j));
                } else if i == idx {
                    assert(pre.nonvacant(d, j));
                    if fin.slot_kv(d, j) == kv {
                        assert(pre.slot_kv(d, j) == kv);
                        assert(pre.layer_contains(d, kv));
                    }
                } else {
                    assert(pre.nonvacant(d, i));
                    if fin.slot_kv(d, i) == kv {
                        assert(pre.slot_kv(d, i) == kv);
                        assert(pre.layer_contains(d, kv));
                    }
                }
            }
            assert forall|i: int|
                0 <= i < fin.cap_of(d) && #[trigger] fin.nonvacant(d, i) implies fin.path_ok(
                d,
                i,
            ) by {
                if i == idx {
                    assert(fin.probe_of(d, fin.slot_hash(d, idx), s) == idx);
                    assert forall|t: nat| t < s implies fin.nonvacant(
                        d,
                        #[trigger] fin.probe_of(d, fin.slot_hash(d, idx), t),
                    ) by {
                        assert(pre.nonvacant(d, pre.probe_of(d, h, t)));
                        pre.lprobing(d).lemma_probe_in_range(h, t);
                    }
                } else {
                    assert(pre.nonvacant(d, i));
                    assert(pre.path_ok(d, i));
                    let hh = pre.slot_hash(d, i);
                    let sj = choose|sj: nat|
                        sj < pre.cap_of(d) && #[trigger] pre.probe_of(d, hh, sj) == i && (forall|
                        t: nat,
                    | t < sj ==> pre.nonvacant(d, #[trigger] pre.probe_of(d, hh, t)));
                    assert(fin.slot_hash(d, i) == hh);
                    assert(fin.probe_of(d, hh, sj) == i);
                    assert forall|t: nat| t < sj implies fin.nonvacant(
                        d,
                        #[trigger] fin.probe_of(d, hh, t),
                    ) by {
                        assert(pre.nonvacant(d, pre.probe_of(d, hh, t)));
                        pre.lprobing(d).lemma_probe_in_range(hh, t);
                    }
                }
            }
        }
        // coverage still holds tier by tier
        assert forall|dd: int, i: int|
            1 <= dd < fin.created && 0 <= i < fin.cap_of(dd - 1) && #[trigger] fin.nonvacant(
                dd - 1,
                i,
            ) implies fin.layer_contains(dd, fin.slot_kv(dd - 1, i)) by {
            if dd == d {
                assert(pre.nonvacant(dd - 1, i));
                assert(pre.layer_contains(dd, pre.slot_kv(dd - 1, i)));
                Self::lemma_layer_transfer(pre, fin, dd - 1);
                assert(fin.slot_kv(dd - 1, i) == pre.slot_kv(dd - 1, i));
                let w = choose|w: int|
                    0 <= w < pre.cap_of(dd) && pre.nonvacant(dd, w) && #[trigger] pre.slot_kv(dd, w)
                        == pre.slot_kv(dd - 1, i);
                if w == idx {
                    assert(false);
                } else {
                    assert(fin.nonvacant(dd, w) && fin.slot_kv(dd, w) == pre.slot_kv(dd, w));
                }
            } else {
                assert(dd < d);
                assert(pre.nonvacant(dd - 1, i));
                assert(pre.layer_contains(dd, pre.slot_kv(dd - 1, i)));
                Self::lemma_layer_transfer(pre, fin, dd - 1);
                Self::lemma_layer_transfer(pre, fin, dd);
                assert(fin.slot_kv(dd - 1, i) == pre.slot_kv(dd - 1, i));
                assert(fin.layer_contains(dd, pre.slot_kv(dd - 1, i)));
            }
        }
        assert(fin.wf());
        assert(fin.contains_kv(kv)) by {
            assert(fin.nonvacant(d, idx) && fin.slot_kv(d, idx) == kv);
        }
        assert(fin.locate(kv) == (d, idx)) by {
            let i2 = fin.slot_of(d, kv);
            assert(0 <= i2 < fin.cap_of(d) && fin.nonvacant(d, i2) && fin.slot_kv(d, i2) == kv);
            if i2 != idx {
                assert(fin.slot_kv(d, i2) != fin.slot_kv(d, idx));
            }
        }
        assert forall|dd: int, i: int|
            0 <= dd < pre.created_spec() && 0 <= i < pre.cap_of(dd) && #[trigger] pre.is_bucket(
                dd,
                i,
            ) implies fin.is_bucket(dd, i) && fin.bucket_hash(dd, i) == pre.bucket_hash(dd, i)
            && fin.bucket_kv(dd, i) == pre.bucket_kv(dd, i) && fin.bucket_value(dd, i)
            == pre.bucket_value(dd, i) by {
            if dd != d {
                assert(fin.lslots(dd) == pre.lslots(dd));
            } else if i != idx {
                assert(fin.lslots(d)[i] == pre.lslots(d)[i]);
            }
        }
        // keys other than the claimed one are exactly preserved, in place
        assert forall|kv2: K::V| #[trigger] pre.contains_kv(kv2) implies fin.contains_kv(kv2)
            && fin.locate(kv2) == pre.locate(kv2) by {
            let w = pre.slot_of(d, kv2);
            assert(0 <= w < pre.cap_of(d) && pre.nonvacant(d, w) && pre.slot_kv(d, w) == kv2);
            assert(w != idx);
            assert(fin.nonvacant(d, w) && fin.slot_kv(d, w) == kv2);
            assert(fin.contains_kv(kv2));
            let w2 = fin.slot_of(d, kv2);
            assert(0 <= w2 < fin.cap_of(d) && fin.nonvacant(d, w2) && fin.slot_kv(d, w2) == kv2);
            if w2 != w {
                assert(fin.slot_kv(d, w2) != fin.slot_kv(d, w));
            }
            assert(fin.assoc_of(d, w) == pre.assoc_of(d, w));
        }
        assert forall|kv2: K::V| kv2 != kv implies #[trigger] fin.contains_kv(kv2)
            == pre.contains_kv(kv2) by {
            if fin.contains_kv(kv2) {
                let w = choose|w: int|
                    0 <= w < fin.cap_of(d) && fin.nonvacant(d, w) && #[trigger] fin.slot_kv(d, w)
                        == kv2;
                if w == idx {
                    assert(fin.slot_kv(d, idx) == kv);
                } else {
                    assert(pre.nonvacant(d, w) && pre.slot_kv(d, w) == kv2);
                    assert(pre.contains_kv(kv2));
                }
            }
        }
    }
}

/// What one read-only probe walk over the newest tier found.
enum ProbeOutcome {
    Found(usize, usize),
    ClaimAt(usize, usize),
    Exhausted,
}

impl<K: MapKey, V, P: BuildProbing> ConcHashMap<K, V, P> {
    /// Walks the probe sequence of the newest tier for `key`: either the
    /// key's bucket is found, or the first vacant slot (with its probe step)
    /// is reported for claiming, or every probe target is taken by others.
    fn probe_top(&self, hash: u64, key: &K) -> (r: ProbeOutcome)
        requires
            self.wf(),
            self.created_spec() > 0,
            hash == K::hash_of(key@),
        ensures
            match r {
                ProbeOutcome::Found(rd, ri) => {
                    &&& (rd as int) < self.created_spec()
                    &&& (ri as int) < self.cap_of(rd as int)
                    &&& self.is_bucket(rd as int, ri as int)
                    &&& self.bucket_kv(rd as int, ri as int) == key@
                    &&& self.contains_kv(key@)
                    &&& self.locate(key@) == (rd as int, ri as int)
                },
                ProbeOutcome::ClaimAt(idx, st) => {
                    &&& (st as nat) < self.cap_of(self.created_spec() - 1)
                    &&& (idx as int) == self.probe_of(self.created_spec() - 1, hash, st as nat)
                    &&& (idx as int) < self.cap_of(self.created_spec() - 1)
                    &&& !self.nonvacant(self.created_spec() - 1, idx as int)
                    &&& (forall|t: nat|
                        t < st as nat ==> self.nonvacant(
                            self.created_spec() - 1,
                            #[trigger] self.probe_of(self.created_spec() - 1, hash, t),
                        ))
                    &&& !self.layer_contains(self.created_spec() - 1, key@)
                    &&& !self.contains_kv(key@)
                },
                ProbeOutcome::Exhausted => {
                    &&& !self.layer_contains(self.created_spec() - 1, key@)
                    &&& !self.contains_kv(key@)
                },
            },
    {
        let d = self.created - 1;
        let cap = self.caps[d];
        let ghost dd = d as int;
        proof {
            assert(self.layer_wf(dd));
        }
        let mut step: usize = 0;
        while step < cap
            invariant
                self.wf(),
                1 <= self.created_spec(),
                dd == self.created_spec() - 1,
                d == self.created - 1,
                cap == self.cap_of(dd),
                step <= cap,
                hash == K::hash_of(key@),
                forall|t: nat|
                    t < step ==> self.nonvacant(dd, #[trigger] self.probe_of(dd, hash, t))
                        && self.slot_kv(dd, self.probe_of(dd, hash, t)) != key@,
            decreases cap - step,
        {
            proof {
                assert(self.layer_wf(dd));
            }
            let idx = match &self.layers[d] {
                Some(layer) => layer.probing.probe(hash, step),
                None => unreached(),
            };
            proof {
                assert((idx as int) == self.probe_of(dd, hash, step as nat));
                assert((idx as int) < self.cap_of(dd));
            }
            match &self.layers[d] {
                Some(layer) => {
                    match &layer.slots[idx] {
                        LayerSlot::Vacant => {
                            proof {
                                self.lemma_layer_absent(dd, key@, step as nat);
                            }
                            return ProbeOutcome::ClaimAt(idx, step);
                        },
                        LayerSlot::Bucket(h2, k2, _v) => {
                            let heq = *h2 == hash;
                            let keq = k2.key_eq(key);
                            if heq && keq {
                                proof {
                                    assert(self.is_bucket(dd, idx as int));
                                    assert(self.slot_kv(dd, idx as int) == key@);
                                    assert(self.assoc_of(dd, idx as int) == (dd, idx as int));
                                    self.lemma_found_pins_locate(dd, idx as int, key@);
                                }
                                return ProbeOutcome::Found(d, idx);
                            }
                            proof {
                                assert(self.nonvacant(dd, idx as int));
                                if self.slot_kv(dd, idx as int) == key@ {
                                    self.lemma_slot_hash_congruent(dd, idx as int);
                                    assert(*h2 == hash);
                                    assert(k2@ == key@);
                                    assert(keq);
                                }
                            }
                        },
                        LayerSlot::Redirect(rd0, ri0) => {
                            proof {
                                assert(self.redirect_ok(dd, idx as int));
                                assert(self.layer_wf(*rd0 as int));
                                assert(self.lslots(*rd0 as int).len() == self.cap_of(*rd0 as int));
                            }
                            let rd = *rd0;
                            let ri = *ri0;
                            let mut matched = false;
                            match &self.layers[rd] {
                                Some(tlayer) => {
                                    proof {
                                        assert(tlayer.slots@ == self.lslots(rd as int));
                                    }
                                    match &tlayer.slots[ri] {
                                        LayerSlot::Bucket(th, tk, _tv) => {
                                            let heq = *th == hash;
                                            let keq = tk.key_eq(key);
                                            if heq && keq {
                                                matched = true;
                                                proof {
                                                    assert(self.is_bucket(rd as int, ri as int));
                                                    assert(self.slot_kv(dd, idx as int) == key@);
                                                    assert(self.assoc_of(dd, idx as int) == (
                                                    rd as int, ri as int));
                                                    self.lemma_found_pins_locate(
                                                        dd,
                                                        idx as int,
                                                        key@,
                                                    );
                                                }
                                            } else {
                                                proof {
                                                    assert(self.nonvacant(dd, idx as int));
                                                    if self.slot_kv(dd, idx as int) == key@ {
                                                        self.lemma_slot_hash_congruent(
                                                            dd,
                                                            idx as int,
                                                        );
                                                        assert(*th == hash);
                                                        assert(tk@ == key@);
                                                        assert(keq);
                                                    }
                                                }
                                            }
                                        },
                                        _ => {
                                            proof {
                                                assert(self.is_bucket(rd as int, ri as int));
                                            }
                                        },
                                    }
                                },
                                None => {
                                    proof {
                                        assert((rd as int) < self.created_spec());
                                    }
                                },
                            }
                            if matched {
                                return ProbeOutcome::Found(rd, ri);
                            }
                        },
                    }
                },
                None => {
                    proof {
                        assert(dd < self.created_spec());
                    }
                },
            }
            step = step + 1;
        }
        proof {
            // the walk was exhausted without a match or a free slot
            assert(!self.layer_contains(dd, key@)) by {
                if self.layer_contains(dd, key@) {
                    let j = choose|j: int|
                        0 <= j < self.cap_of(dd) && self.nonvacant(dd, j)
                            && #[trigger] self.slot_kv(dd, j) == key@;
                    self.lemma_slot_hash_congruent(dd, j);
                    assert(self.path_ok(dd, j));
                    let sj = choose|sj: nat|
                        sj < self.cap_of(dd) && #[trigger] self.probe_of(dd, hash, sj) == j && (
                        forall|t: nat|
                            t < sj ==> self.nonvacant(dd, #[trigger] self.probe_of(dd, hash, t)));
                    assert(self.slot_kv(dd, self.probe_of(dd, hash, sj)) != key@);
                }
            }
        }
        ProbeOutcome::Exhausted
    }

    /// A slot of the newest tier standing for `kv` pins down where the map
    /// locates `kv`.
    proof fn lemma_found_pins_locate(self, dd: int, i: int, kv: K::V)
        requires
            self.wf(),
            self.created_spec() > 0,
            dd == self.created_spec() - 1,
            0 <= i < self.cap_of(dd),
            self.nonvacant(dd, i),
            self.slot_kv(dd, i) == kv,
        ensures
            self.contains_kv(kv),
            self.locate(kv) == self.assoc_of(dd, i),
    {
        assert(self.layer_wf(dd));
        assert(self.contains_kv(kv));
        let j = self.slot_of(dd, kv);
        assert(0 <= j < self.cap_of(dd) && self.nonvacant(dd, j) && self.slot_kv(dd, j) == kv);
        if j != i {
            assert(self.slot_kv(dd, j) != self.slot_kv(dd, i));
        }
    }
}

impl<K: MapKey, V: Default, P: BuildProbing> ConcHashMap<K, V, P> {
    /// Tries to claim the vacant slot `idx` of the newest tier for `key`.
    /// A full tier refuses and is left completely unchanged.
    #[verifier::rlimit(100)]
    #[verifier::spinoff_prover]
    fn claim_slot(&mut self, idx: usize, st: usize, hash: u64, key: &K) -> (claimed: bool)
        requires
            old(self).wf(),
            old(self).created_spec() > 0,
            hash == K::hash_of(key@),
            (st as nat) < old(self).cap_of(old(self).created_spec() - 1),
            (idx as int) == old(self).probe_of(old(self).created_spec() - 1, hash, st as nat),
            (idx as int) < old(self).cap_of(old(self).created_spec() - 1),
            !old(self).nonvacant(old(self).created_spec() - 1, idx as int),
            forall|t: nat|
                t < st as nat ==> old(self).nonvacant(
                    old(self).created_spec() - 1,
                    #[trigger] old(self).probe_of(old(self).created_spec() - 1, hash, t),
                ),
            !old(self).layer_contains(old(self).created_spec() - 1, key@),
        ensures
            !claimed ==> *final(self) == *old(self),
            claimed ==> ({
                &&& final(self).wf()
                &&& final(self).created_spec() == old(self).created_spec()
                &&& final(self).num_layers() == old(self).num_layers()
                &&& final(self).caps == old(self).caps
                &&& final(self).contains_kv(key@)
                &&& final(self).locate(key@) == (
                    old(self).created_spec() - 1,
                    idx as int,
                )
                &&& final(self).is_bucket(old(self).created_spec() - 1, idx as int)
                &&& final(self).bucket_kv(old(self).created_spec() - 1, idx as int) == key@
                &&& call_ensures(
                    V::default,
                    (),
                    final(self).bucket_value(old(self).created_spec() - 1, idx as int),
                )
                &&& Self::buckets_preserved(*old(self), *final(self))
                &&& (forall|kv2: K::V|
                    kv2 != key@ ==> #[trigger] final(self).contains_kv(kv2) == old(self).contains_kv(kv2))
                &&& (forall|kv2: K::V|
                    #[trigger] old(self).contains_kv(kv2) ==> final(self).contains_kv(kv2)
                        && final(self).locate(kv2) == old(self).locate(kv2))
            }),
    {
        let d = self.created - 1;
        let ghost dd = d as int;
        let full_now = match &self.layers[d] {
            Some(layer) => layer.load.is_full(),
            None => unreached(),
        };
        if full_now {
            return false;
        }
        proof {
            assert(self.layer_wf(dd));
            assert(self.lslots(dd).len() == self.cap_of(dd));
        }
        let ghost pre2 = *self;
        match &mut self.layers[d] {
            Some(layer) => {
                match layer.load.try_insert(idx) {
                    Ok(()) => {
                        layer.slots.set(
                            idx,
                            LayerSlot::Bucket(hash, key.clone_key(), V::default()),
                        );
                    },
                    Err(_) => {
                        proof {
                            assert(false);
                        }
                    },
                }
            },
            None => unreached(),
        }
        proof {
            Self::lemma_claim_layer(pre2, *self, dd, idx as int, key@, st as nat);
        }
        true
    }

    /// Finds the bucket of `key`, creating it (and, when a tier is out of
    /// room, the next tier) on first sight.  The returned `(tier, index)`
    /// pair addresses the bucket and stays valid forever: later insertions
    /// and growths never move or alter an existing bucket.
    pub fn entry(&mut self, key: K) -> (r: Result<(usize, usize), CapacityError<K>>)
        requires
            old(self).wf(),
            old(self).num_layers() > 0,
        ensures
            final(self).wf(),
            final(self).num_layers() == old(self).num_layers(),
            old(self).created_spec() <= final(self).created_spec(),
            forall|dd: int|
                0 <= dd < old(self).num_layers() ==> #[trigger] final(self).cap_of(dd) == old(self).cap_of(dd),
            // stability: every bucket of the old state is untouched
            Self::buckets_preserved(*old(self), *final(self)),
            // the key population gains at most the looked-up key, and every
            // present key keeps its bucket address
            forall|kv: K::V|
                #[trigger] old(self).contains_kv(kv) ==> final(self).contains_kv(kv) && final(self).locate(kv) == old(self).locate(kv),
            forall|kv: K::V|
                #[trigger] final(self).contains_kv(kv) ==> old(self).contains_kv(kv) || kv == key@,
            match r {
                Ok((d, i)) => {
                    &&& (d as int) < final(self).created_spec()
                    &&& (i as int) < final(self).cap_of(d as int)
                    &&& final(self).is_bucket(d as int, i as int)
                    &&& final(self).bucket_kv(d as int, i as int) == key@
                    &&& final(self).contains_kv(key@)
                    &&& final(self).locate(key@) == (d as int, i as int)
                    &&& old(self).contains_kv(key@) ==> *final(self) == *old(self) && old(self).locate(key@) == (d as int, i as int)
                    &&& !old(self).contains_kv(key@) ==> call_ensures(
                        V::default,
                        (),
                        final(self).bucket_value(d as int, i as int),
                    )
                },
                Err(e) => {
                    &&& (e == CapacityError(key))
                    &&& !old(self).contains_kv(key@)
                    &&& !final(self).contains_kv(key@)
                    &&& final(self).created_spec() == final(self).num_layers()
                },
            },
    {
        let hash = key.key_hash();
        if self.created == 0 {
            self.create_next_layer();
        }
        proof {
            assert(Self::buckets_preserved(*old(self), *self));
            assert(Self::keys_preserved(*old(self), *self));
        }
        loop
            invariant
                self.wf(),
                1 <= self.created_spec() <= self.num_layers(),
                self.num_layers() == old(self).num_layers(),
                old(self).created_spec() <= self.created_spec(),
                self.caps == old(self).caps,
                hash == K::hash_of(key@),
                Self::keys_preserved(*old(self), *self),
                Self::buckets_preserved(*old(self), *self),
                *self == *old(self) || !old(self).contains_kv(key@),
            decreases self.num_layers() - self.created_spec(),
        {
            let d = self.created - 1;
            let ghost dd = d as int;
            match self.probe_top(hash, &key) {
                ProbeOutcome::Found(rd, ri) => {
                    return Ok((rd, ri));
                },
                ProbeOutcome::ClaimAt(idx, st) => {
                    let ghost before = *self;
                    if self.claim_slot(idx, st, hash, &key) {
                        proof {
                            Self::lemma_buckets_preserved_trans(*old(self), before, *self);
                            assert forall|kv: K::V| #[trigger] old(self).contains_kv(
                                kv,
                            ) implies self.contains_kv(kv) && self.locate(kv) == old(self).locate(
                                kv,
                            ) by {
                                assert(before.contains_kv(kv));
                            }
                            assert forall|kv: K::V| #[trigger] self.contains_kv(kv) implies old(self).contains_kv(kv) || kv == key@ by {
                                if kv != key@ {
                                    assert(before.contains_kv(kv));
                                }
                            }
                        }
                        return Ok((d, idx));
                    }
                },
                ProbeOutcome::Exhausted => {},
            }
            proof {
                assert(!self.contains_kv(key@));
            }
            if self.created == self.caps.len() {
                return Err(CapacityError(key));
            }
            let ghost before2 = *self;
            self.create_next_layer();
            proof {
                Self::lemma_buckets_preserved_trans(*old(self), before2, *self);
                Self::lemma_keys_preserved_trans(*old(self), before2, *self);
            }
        }
    }
}

impl<K: MapKey, V, P: BuildProbing> ConcHashMap<K, V, P> {
    /// Resolving any slot takes at most one redirect hop: a redirect always
    /// points directly at an authoritative bucket, never at another
    /// redirect.
    pub proof fn lemma_no_double_redirect(self, d: int, i: int)
        requires
            self.wf(),
            0 <= d < self.created_spec(),
            0 <= i < self.cap_of(d),
            self.is_redirect(d, i),
        ensures
            self.assoc_of(d, i).0 < d,
            0 <= self.assoc_of(d, i).1 < self.cap_of(self.assoc_of(d, i).0),
            self.is_bucket(self.assoc_of(d, i).0, self.assoc_of(d, i).1),
            !self.is_redirect(self.assoc_of(d, i).0, self.assoc_of(d, i).1),
    {
        assert(self.layer_wf(d));
        assert(self.redirect_ok(d, i));
    }

    /// Reads the value of bucket `(d, i)`.
    pub fn value_at(&self, d: usize, i: usize) -> (r: &V)
        requires
            self.wf(),
            (d as int) < self.created_spec(),
            (i as int) < self.cap_of(d as int),
            self.is_bucket(d as int, i as int),
        ensures
            *r == self.bucket_value(d as int, i as int),
    {
        proof {
            assert(self.layer_wf(d as int));
        }
        match &self.layers[d] {
            Some(layer) => {
                match &layer.slots[i] {
                    LayerSlot::Bucket(_h, _k, v) => v,
                    _ => unreached(),
                }
            },
            None => unreached(),
        }
    }

    /// Total number of slots across the tiers created so far; a diagnostic.
    pub fn total_slot_count(&self) -> (r: usize)
        requires
            self.wf(),
            self.total_slots_spec(self.created_spec() as int) <= usize::MAX,
        ensures
            r == self.total_slots_spec(self.created_spec() as int),
    {
        let mut sum: usize = 0;
        let mut d: usize = 0;
        while d < self.created
            invariant
                self.wf(),
                d <= self.created,
                sum == self.total_slots_spec(d as int),
                self.total_slots_spec(self.created_spec() as int) <= usize::MAX,
            decreases self.created - d,
        {
            proof {
                self.lemma_total_slots_monotone(d as int + 1, self.created as int);
            }
            sum = sum + self.caps[d];
            d = d + 1;
        }
        sum
    }

    /// The created tiers' slots sum to less than twice the newest tier:
    /// capacities at least double from tier to tier, so the total stays
    /// within machine range whenever twice the last capacity does.
    pub proof fn lemma_total_slots_bounded(self, upto: int)
        requires
            self.wf(),
            0 <= upto <= self.created_spec(),
        ensures
            upto == 0 ==> self.total_slots_spec(upto) == 0,
            upto >= 1 ==> self.total_slots_spec(upto) < 2 * self.cap_of(upto - 1),
        decreases upto,
    {
        if upto >= 1 {
            self.lemma_total_slots_bounded(upto - 1);
            lemma_pow2_pos(self.exps@[upto - 1]);
            assert(self.caps[upto - 1] == pow2(self.exps@[upto - 1]));
            if upto >= 2 {
                assert(self.caps[upto - 1] >= 2 * self.caps[upto - 2]);
            }
        }
    }

    /// A key standing in any tier also stands in the newest tier: each
    /// migration carries every key one tier up.
    proof fn lemma_kv_reaches_top(self, d: int, kv: K::V)
        requires
            self.wf(),
            0 <= d < self.created_spec(),
            self.layer_contains(d, kv),
        ensures
            self.contains_kv(kv),
        decreases self.created_spec() - d,
    {
        if d < self.created_spec() - 1 {
            let w = choose|w: int|
                0 <= w < self.cap_of(d) && self.nonvacant(d, w) && #[trigger] self.slot_kv(d, w)
                    == kv;
            let dnext = d + 1;
            assert(1 <= dnext < self.created);
            assert(0 <= w < self.cap_of(dnext - 1));
            assert(self.nonvacant(dnext - 1, w));
            assert(self.layer_contains(dnext, self.slot_kv(dnext - 1, w)));
            self.lemma_kv_reaches_top(dnext, kv);
        }
    }

    /// Lists the position of every bucket, each exactly once.  The keys of
    /// the listed buckets are exactly the keys the map holds.
    pub fn bucket_positions(&self) -> (r: Vec<(usize, usize)>)
        requires
            self.wf(),
        ensures
            forall|j: int|
                0 <= j < r@.len() ==> ((#[trigger] r@[j]).0 as int) < self.created_spec() && (
                r@[j].1 as int) < self.cap_of(r@[j].0 as int) && self.is_bucket(
                    r@[j].0 as int,
                    r@[j].1 as int,
                ),
            forall|j1: int, j2: int| 0 <= j1 < j2 < r@.len() ==> r@[j1] != r@[j2],
            forall|dd: int, i: int|
                0 <= dd < self.created_spec() && 0 <= i < self.cap_of(dd)
                    && #[trigger] self.is_bucket(dd, i) ==> (exists|j: int|
                    0 <= j < r@.len() && #[trigger] r@[j] == ((dd as usize, i as usize))),
            // every listed bucket's key is held by the map, and every held
            // key has a listed bucket
            forall|j: int|
                0 <= j < r@.len() ==> self.contains_kv(
                    self.bucket_kv((#[trigger] r@[j]).0 as int, r@[j].1 as int),
                ),
            forall|kv: K::V|
                #[trigger] self.contains_kv(kv) ==> (exists|j: int|
                    0 <= j < r@.len() && self.bucket_kv(
                        (#[trigger] r@[j]).0 as int,
                        r@[j].1 as int,
                    ) == kv),
    {
        let mut r: Vec<(usize, usize)> = Vec::new();
        let mut d: usize = 0;
        while d < self.created
            invariant
                self.wf(),
                d <= self.created,
                forall|j: int|
                    0 <= j < r@.len() ==> ((#[trigger] r@[j]).0 as int) < d && (r@[j].1 as int)
                        < self.cap_of(r@[j].0 as int) && self.is_bucket(
                        r@[j].0 as int,
                        r@[j].1 as int,
                    ),
                forall|j1: int, j2: int| 0 <= j1 < j2 < r@.len() ==> r@[j1] != r@[j2],
                forall|dd: int, i: int|
                    0 <= dd < d && 0 <= i < self.cap_of(dd) && #[trigger] self.is_bucket(dd, i)
                        ==> (exists|j: int|
                        0 <= j < r@.len() && #[trigger] r@[j] == ((dd as usize, i as usize))),
            decreases self.created - d,
        {
            let ghost dd = d as int;
            proof {
                assert(self.layer_wf(dd));
                assert(self.lslots(dd).len() == self.cap_of(dd));
            }
            let cap = match &self.layers[d] {
                Some(layer) => layer.slots.len(),
                None => unreached(),
            };
            let mut i: usize = 0;
            while i < cap
                invariant
                    self.wf(),
                    dd == d,
                    0 <= d < self.created,
                    cap == self.cap_of(dd),
                    i <= cap,
                    forall|j: int|
                        0 <= j < r@.len() ==> (((#[trigger] r@[j]).0 as int) < dd || (r@[j].0 as int
                            == dd && (r@[j].1 as int) < i)) && (r@[j].1 as int) < self.cap_of(
                            r@[j].0 as int,
                        ) && self.is_bucket(r@[j].0 as int, r@[j].1 as int),
                    forall|j1: int, j2: int| 0 <= j1 < j2 < r@.len() ==> r@[j1] != r@[j2],
                    forall|dd2: int, i2: int|
                        0 <= dd2 < dd && 0 <= i2 < self.cap_of(dd2) && #[trigger] self.is_bucket(
                            dd2,
                            i2,
                        ) ==> (exists|j: int|
                            0 <= j < r@.len() && #[trigger] r@[j] == ((dd2 as usize, i2 as usize))),
                    forall|i2: int|
                        0 <= i2 < i && #[trigger] self.is_bucket(dd, i2) ==> (exists|j: int|
                            0 <= j < r@.len() && #[trigger] r@[j] == ((d, i2 as usize))),
                decreases cap - i,
            {
                proof {
                    assert(self.layer_wf(dd));
                    assert(self.lslots(dd).len() == self.cap_of(dd));
                }
                let is_b = match &self.layers[d] {
                    Some(layer) => {
                        proof {
                            assert(layer.slots@ == self.lslots(dd));
                            assert(layer.slots@.len() == self.cap_of(dd));
                        }
                        match &layer.slots[i] {
                            LayerSlot::Bucket(_h, _k, _v) => true,
                            _ => false,
                        }
                    },
                    None => unreached(),
                };
                let ghost rsnap = r@;
                if is_b {
                    r.push((d, i));
                }
                proof {
                    assert forall|dd2: int, i2: int|
                        0 <= dd2 < dd && 0 <= i2 < self.cap_of(dd2) && #[trigger] self.is_bucket(
                            dd2,
                            i2,
                        ) implies (exists|j: int|
                        0 <= j < r@.len() && #[trigger] r@[j] == ((dd2 as usize, i2 as usize))) by {
                        let j = choose|j: int|
                            0 <= j < rsnap.len() && #[trigger] rsnap[j] == ((
                            dd2 as usize,
                            i2 as usize,
                        ));
                        assert(r@[j] == rsnap[j]);
                    }
                    assert forall|i2: int|
                        0 <= i2 < i + 1 && #[trigger] self.is_bucket(dd, i2) implies (exists|
                        j: int,
                    |
                        0 <= j < r@.len() && #[trigger] r@[j] == ((d, i2 as usize))) by {
                        if i2 < i {
                            let j = choose|j: int|
                                0 <= j < rsnap.len() && #[trigger] rsnap[j] == ((d, i2 as usize));
                            assert(r@[j] == rsnap[j]);
                        } else {
                            assert(is_b);
                            assert(r@[r@.len() - 1] == ((d, i as usize)));
                        }
                    }
                }
                i = i + 1;
            }
            d = d + 1;
        }
        proof {
            assert forall|j: int| 0 <= j < r@.len() implies self.contains_kv(
                self.bucket_kv((#[trigger] r@[j]).0 as int, r@[j].1 as int),
            ) by {
                let bd = r@[j].0 as int;
                let bi = r@[j].1 as int;
                assert(self.is_bucket(bd, bi));
                assert(self.nonvacant(bd, bi));
                assert(self.assoc_of(bd, bi) == (bd, bi));
                assert(self.slot_kv(bd, bi) == self.bucket_kv(bd, bi));
                assert(self.layer_contains(bd, self.bucket_kv(bd, bi)));
                self.lemma_kv_reaches_top(bd, self.bucket_kv(bd, bi));
            }
            assert forall|kv: K::V| #[trigger] self.contains_kv(kv) implies (exists|j: int|
                0 <= j < r@.len() && self.bucket_kv((#[trigger] r@[j]).0 as int, r@[j].1 as int)
                    == kv) by {
                let top = self.created_spec() - 1;
                let w = choose|w: int|
                    0 <= w < self.cap_of(top) && self.nonvacant(top, w) && #[trigger] self.slot_kv(
                        top,
                        w,
                    ) == kv;
                assert(self.layer_wf(top));
                assert(self.redirect_ok(top, w));
                let (bd, bi) = self.assoc_of(top, w);
                assert(self.is_bucket(bd, bi));
                assert(0 <= bd < self.created_spec() && 0 <= bi < self.cap_of(bd));
                assert(self.bucket_kv(bd, bi) == kv);
                let j = choose|j: int|
                    0 <= j < r@.len() && #[trigger] r@[j] == ((bd as usize, bi as usize));
                assert(self.bucket_kv(r@[j].0 as int, r@[j].1 as int) == kv);
            }
        }
        r
    }

    /// Partial slot totals only grow with more tiers.
    proof fn lemma_total_slots_monotone(self, a: int, b: int)
        requires
            self.wf(),
            0 <= a <= b <= self.created_spec(),
        ensures
            self.total_slots_spec(a) <= self.total_slots_spec(b),
        decreases b - a,
    {
        if a < b {
            self.lemma_total_slots_monotone(a, b - 1);
        }
    }

    /// Number of slots of the newest tier; a diagnostic.
    pub fn last_slot_count(&self) -> (r: usize)
        requires
            self.wf(),
        ensures
            self.created_spec() == 0 ==> r == 0,
            self.created_spec() > 0 ==> r == self.cap_of(self.created_spec() - 1),
    {
        if self.created == 0 {
            0
        } else {
            self.caps[self.created - 1]
        }
    }
}

impl<K: MapKey, W, P: BuildProbing> ConcHashMap<K, crate::once::OnceCell<W>, P> {
    /// Runs `f` at most once to fill the once-cell held in bucket `(d, i)`,
    /// and returns the cell's value.  Nothing else in the map changes.
    pub fn value_get_or_init<F: FnOnce() -> W>(&mut self, d: usize, i: usize, f: F) -> (r: &W)
        requires
            old(self).wf(),
            (d as int) < old(self).created_spec(),
            (i as int) < old(self).cap_of(d as int),
            old(self).is_bucket(d as int, i as int),
            old(self).bucket_value(d as int, i as int)@ is None ==> call_requires(f, ()),
        ensures
            final(self).wf(),
            final(self).is_bucket(d as int, i as int),
            final(self).bucket_kv(d as int, i as int) == old(self).bucket_kv(d as int, i as int),
            final(self).bucket_value(d as int, i as int)@ == Some(*r),
            old(self).bucket_value(d as int, i as int)@ is Some ==> old(self).bucket_value(
                d as int,
                i as int,
            )@ == Some(*r),
            old(self).bucket_value(d as int, i as int)@ is None ==> call_ensures(f, (), *r),
            final(self).created_spec() == old(self).created_spec(),
            final(self).num_layers() == old(self).num_layers(),
            forall|kv: K::V| #[trigger] final(self).contains_kv(kv) == old(self).contains_kv(kv),
            forall|kv: K::V|
                #[trigger] old(self).contains_kv(kv) ==> final(self).locate(kv) == old(self).locate(
                    kv,
                ),
            forall|dd: int, j: int|
                0 <= dd < old(self).created_spec() && 0 <= j < old(self).cap_of(dd)
                    && #[trigger] old(self).is_bucket(dd, j) ==> final(self).is_bucket(dd, j)
                    && final(self).bucket_kv(dd, j) == old(self).bucket_kv(dd, j) && ((dd, j) != (
                d as int,
                i as int,
            ) ==> final(self).bucket_value(dd, j) == old(self).bucket_value(dd, j)),
    {
        let ghost pre = *self;
        proof {
            assert(pre.layer_wf(d as int));
        }
        match &mut self.layers[d] {
            Some(layer) => {
                match &mut layer.slots[i] {
                    LayerSlot::Bucket(_h, _k, cell) => {
                        let r0 = cell.get_or_init(f);
                        let ghost v0 = *r0;
                    },
                    _ => {
                        proof {
                            assert(false);
                        }
                    },
                }
            },
            None => {
                proof {
                    assert(false);
                }
            },
        }
        proof {
            self.lemma_value_update(pre, d as int, i as int);
        }
        match &self.layers[d] {
            Some(layer) => {
                match &layer.slots[i] {
                    LayerSlot::Bucket(_h, _k, cell) => {
                        match cell.get() {
                            Some(v) => v,
                            None => unreached(),
                        }
                    },
                    _ => unreached(),
                }
            },
            None => unreached(),
        }
    }
}

impl<K: MapKey, V, P: BuildProbing> ConcHashMap<K, V, P> {
    /// Pointwise: changing one bucket's value changes no structural
    /// observation of any slot.
    #[verifier::rlimit(100)]
    proof fn lemma_value_update_points(self, pre: Self, d: int, i: int)
        requires
            pre.wf(),
            0 <= d < pre.created_spec(),
            0 <= i < pre.cap_of(d),
            pre.is_bucket(d, i),
            self.caps == pre.caps,
            self.exps == pre.exps,
            self.created == pre.created,
            self.layers.len() == pre.layers.len(),
            forall|dd: int| 0 <= dd < pre.layers.len() && dd != d ==> self.layers[dd] == pre.layers[dd],
            self.layers[d] is Some,
            self.lprobing(d) == pre.lprobing(d),
            self.lload(d) == pre.lload(d),
            self.lslots(d).len() == pre.lslots(d).len(),
            forall|j: int| 0 <= j < pre.cap_of(d) && j != i ==> self.lslots(d)[j] == pre.lslots(d)[j],
            self.is_bucket(d, i),
            self.bucket_hash(d, i) == pre.bucket_hash(d, i),
            self.bucket_kv(d, i) == pre.bucket_kv(d, i),
        ensures
            forall|dd: int| 0 <= dd < pre.created_spec() && dd != d ==> #[trigger] self.lslots(dd) == pre.lslots(dd),
            forall|dd: int| 0 <= dd < pre.created_spec() ==> #[trigger] self.lprobing(dd) == pre.lprobing(dd),
            forall|dd: int, j: int|
                0 <= dd < pre.created_spec() && 0 <= j < pre.cap_of(dd) ==> #[trigger] self.nonvacant(dd, j) == pre.nonvacant(dd, j),
            forall|dd: int, j: int|
                0 <= dd < pre.created_spec() && 0 <= j < pre.cap_of(dd) ==> #[trigger] self.assoc_of(dd, j) == pre.assoc_of(dd, j),
            forall|dd: int, j: int|
                0 <= dd < pre.created_spec() && 0 <= j < pre.cap_of(dd) && pre.nonvacant(dd, j)
                    ==> #[trigger] self.slot_kv(dd, j) == pre.slot_kv(dd, j),
            forall|dd: int, j: int|
                0 <= dd < pre.created_spec() && 0 <= j < pre.cap_of(dd) && pre.nonvacant(dd, j)
                    ==> #[trigger] self.slot_hash(dd, j) == pre.slot_hash(dd, j),
    {
        assert forall|dd: int| 0 <= dd < pre.created && dd != d implies #[trigger] self.lslots(dd)
            == pre.lslots(dd) by {}
        assert forall|dd: int| 0 <= dd < pre.created implies pre.layer_wf(dd) by {}
        // all structural observations are value-blind
        assert forall|dd: int, j: int|
            0 <= dd < pre.created && 0 <= j < pre.cap_of(dd) implies #[trigger] self.nonvacant(
            dd,
            j,
        ) == pre.nonvacant(dd, j) by {
            if dd != d || j != i {
            }
        }
        assert forall|dd: int, j: int|
            0 <= dd < pre.created && 0 <= j < pre.cap_of(dd) implies #[trigger] self.assoc_of(
            dd,
            j,
        ) == pre.assoc_of(dd, j) by {
            if dd != d || j != i {
            }
        }
        assert forall|dd: int, j: int|
            0 <= dd < pre.created && 0 <= j < pre.cap_of(dd) && pre.nonvacant(
                dd,
                j,
            ) implies #[trigger] self.slot_kv(dd, j) == pre.slot_kv(dd, j) by {
            assert(pre.layer_wf(dd));
            assert(pre.redirect_ok(dd, j));
            match pre.lslots(dd)[j] {
                LayerSlot::Redirect(rd, ri) => {
                    if (rd as int) != d {
                        assert(self.lslots(rd as int) == pre.lslots(rd as int));
                    } else if (ri as int) != i {
                        assert(self.lslots(d)[ri as int] == pre.lslots(d)[ri as int]);
                    }
                },
                _ => {
                    if dd != d || j != i {
                        assert(self.lslots(dd)[j] == pre.lslots(dd)[j]);
                    }
                },
            }
        }
        assert forall|dd: int, j: int|
            0 <= dd < pre.created && 0 <= j < pre.cap_of(dd) && pre.nonvacant(
                dd,
                j,
            ) implies #[trigger] self.slot_hash(dd, j) == pre.slot_hash(dd, j) by {
            assert(pre.layer_wf(dd));
            assert(pre.redirect_ok(dd, j));
            match pre.lslots(dd)[j] {
                LayerSlot::Redirect(rd, ri) => {
                    if (rd as int) != d {
                        assert(self.lslots(rd as int) == pre.lslots(rd as int));
                    } else if (ri as int) != i {
                        assert(self.lslots(d)[ri as int] == pre.lslots(d)[ri as int]);
                    }
                },
                _ => {
                    if dd != d || j != i {
                        assert(self.lslots(dd)[j] == pre.lslots(dd)[j]);
                    }
                },
            }
        }
        assert forall|dd: int| 0 <= dd < pre.created_spec() && dd != d implies #[trigger] self.lslots(
            dd,
        ) == pre.lslots(dd) by {}
        assert forall|dd: int| 0 <= dd < pre.created_spec() implies #[trigger] self.lprobing(dd)
            == pre.lprobing(dd) by {
            if dd != d {
                assert(self.layers[dd] == pre.layers[dd]);
            }
        }
        assert forall|dd: int, j: int|
            0 <= dd < pre.created_spec() && 0 <= j < pre.cap_of(dd) implies #[trigger] self.assoc_of(
            dd,
            j,
        ) == pre.assoc_of(dd, j) by {
            if dd != d || j != i {
            }
        }
    }

    /// Structural: the whole-map invariant survives a change to one
    /// bucket's stored value.
    #[verifier::rlimit(100)]
    proof fn lemma_value_update_core(self, pre: Self, d: int, i: int)
        requires
            pre.wf(),
            0 <= d < pre.created_spec(),
            0 <= i < pre.cap_of(d),
            pre.is_bucket(d, i),
            self.caps == pre.caps,
            self.exps == pre.exps,
            self.created == pre.created,
            self.layers.len() == pre.layers.len(),
            forall|dd: int| 0 <= dd < pre.layers.len() && dd != d ==> self.layers[dd] == pre.layers[dd],
            self.layers[d] is Some,
            self.lprobing(d) == pre.lprobing(d),
            self.lload(d) == pre.lload(d),
            self.lslots(d).len() == pre.lslots(d).len(),
            forall|j: int| 0 <= j < pre.cap_of(d) && j != i ==> self.lslots(d)[j] == pre.lslots(d)[j],
            self.is_bucket(d, i),
            self.bucket_hash(d, i) == pre.bucket_hash(d, i),
            self.bucket_kv(d, i) == pre.bucket_kv(d, i),
        ensures
            self.wf(),
            forall|dd: int| 0 <= dd < pre.created_spec() && dd != d ==> #[trigger] self.lslots(dd) == pre.lslots(dd),
            forall|dd: int| 0 <= dd < pre.created_spec() ==> #[trigger] self.lprobing(dd) == pre.lprobing(dd),
            forall|dd: int, j: int|
                0 <= dd < pre.created_spec() && 0 <= j < pre.cap_of(dd) ==> #[trigger] self.nonvacant(dd, j) == pre.nonvacant(dd, j),
            forall|dd: int, j: int|
                0 <= dd < pre.created_spec() && 0 <= j < pre.cap_of(dd) ==> #[trigger] self.assoc_of(dd, j) == pre.assoc_of(dd, j),
            forall|dd: int, j: int|
                0 <= dd < pre.created_spec() && 0 <= j < pre.cap_of(dd) && pre.nonvacant(dd, j)
                    ==> #[trigger] self.slot_kv(dd, j) == pre.slot_kv(dd, j),
            forall|dd: int, j: int|
                0 <= dd < pre.created_spec() && 0 <= j < pre.cap_of(dd) && pre.nonvacant(dd, j)
                    ==> #[trigger] self.slot_hash(dd, j) == pre.slot_hash(dd, j),
    {
        self.lemma_value_update_points(pre, d, i);
        assert forall|dd: int| 0 <= dd < pre.created implies pre.layer_wf(dd) by {}
        assert forall|dd: int| 0 <= dd < pre.created implies #[trigger] self.layer_wf(dd) by {
            assert(pre.layer_wf(dd));
            assert forall|j: int| 0 <= j < self.cap_of(dd) implies #[trigger] self.redirect_ok(
                dd,
                j,
            ) by {
                assert(pre.redirect_ok(dd, j));
                match pre.lslots(dd)[j] {
                    LayerSlot::Redirect(rd, ri) => {
                        if (rd as int) != d {
                            assert(self.lslots(rd as int) == pre.lslots(rd as int));
                        } else if (ri as int) != i {
                            assert(self.lslots(d)[ri as int] == pre.lslots(d)[ri as int]);
                        }
                    },
                    _ => {
                        if dd != d || j != i {
                            assert(self.lslots(dd)[j] == pre.lslots(dd)[j]);
                        }
                    },
                }
            }
            assert forall|j: int|
                0 <= j < self.cap_of(dd) && #[trigger] self.is_bucket(dd, j) implies self.bucket_hash(
                dd,
                j,
            ) == K::hash_of(self.bucket_kv(dd, j)) by {
                assert(pre.is_bucket(dd, j));
            }
            assert forall|j: int|
                0 <= j < self.cap_of(dd) && #[trigger] self.nonvacant(dd, j) implies self.path_ok(
                dd,
                j,
            ) by {
                assert(pre.nonvacant(dd, j));
                assert(pre.path_ok(dd, j));
                let hh = pre.slot_hash(dd, j);
                let sj = choose|sj: nat|
                    sj < pre.cap_of(dd) && #[trigger] pre.probe_of(dd, hh, sj) == j && (forall|
                    t: nat,
                | t < sj ==> pre.nonvacant(dd, #[trigger] pre.probe_of(dd, hh, t)));
                assert(self.slot_hash(dd, j) == hh);
                assert(self.probe_of(dd, hh, sj) == j);
                assert forall|t: nat| t < sj implies self.nonvacant(
                    dd,
                    #[trigger] self.probe_of(dd, hh, t),
                ) by {
                    assert(pre.nonvacant(dd, pre.probe_of(dd, hh, t)));
                    pre.lprobing(dd).lemma_probe_in_range(hh, t);
                }
            }
        }
        assert forall|dd: int, j: int|
            1 <= dd < self.created && 0 <= j < self.cap_of(dd - 1) && #[trigger] self.nonvacant(
                dd - 1,
                j,
            ) implies self.layer_contains(dd, self.slot_kv(dd - 1, j)) by {
            assert(pre.nonvacant(dd - 1, j));
            assert(pre.layer_contains(dd, pre.slot_kv(dd - 1, j)));
            let w = choose|w: int|
                0 <= w < pre.cap_of(dd) && pre.nonvacant(dd, w) && #[trigger] pre.slot_kv(dd, w)
                    == pre.slot_kv(dd - 1, j);
            assert(self.nonvacant(dd, w) && self.slot_kv(dd, w) == pre.slot_kv(dd, w));
        }
        assert(self.wf());
    }

    /// Changing the value stored in one bucket leaves every structural
    /// observation of the map unchanged.
    #[verifier::rlimit(100)]
    proof fn lemma_value_update(self, pre: Self, d: int, i: int)
        requires
            pre.wf(),
            0 <= d < pre.created_spec(),
            0 <= i < pre.cap_of(d),
            pre.is_bucket(d, i),
            self.caps == pre.caps,
            self.exps == pre.exps,
            self.created == pre.created,
            self.layers.len() == pre.layers.len(),
            forall|dd: int| 0 <= dd < pre.layers.len() && dd != d ==> self.layers[dd] == pre.layers[dd],
            self.layers[d] is Some,
            self.lprobing(d) == pre.lprobing(d),
            self.lload(d) == pre.lload(d),
            self.lslots(d).len() == pre.lslots(d).len(),
            forall|j: int| 0 <= j < pre.cap_of(d) && j != i ==> self.lslots(d)[j] == pre.lslots(d)[j],
            self.is_bucket(d, i),
            self.bucket_hash(d, i) == pre.bucket_hash(d, i),
            self.bucket_kv(d, i) == pre.bucket_kv(d, i),
        ensures
            self.wf(),
            forall|kv: K::V| #[trigger] self.contains_kv(kv) == pre.contains_kv(kv),
            forall|kv: K::V|
                #[trigger] pre.contains_kv(kv) ==> self.locate(kv) == pre.locate(kv),
            forall|dd: int, j: int|
                0 <= dd < pre.created_spec() && 0 <= j < pre.cap_of(dd) && #[trigger] pre.is_bucket(
                    dd,
                    j,
                ) ==> self.is_bucket(dd, j) && self.bucket_kv(dd, j) == pre.bucket_kv(dd, j) && ((
                dd,
                j,
            ) != (d, i) ==> self.bucket_value(dd, j) == pre.bucket_value(dd, j)),
    {
        self.lemma_value_update_core(pre, d, i);
        assert(self.wf());
        let top = pre.created_spec() - 1;
        assert(pre.layer_wf(top));
        assert(self.layer_wf(top));
        assert forall|kv: K::V| #[trigger] self.contains_kv(kv) == pre.contains_kv(kv) by {
            if pre.contains_kv(kv) {
                let w = choose|w: int|
                    0 <= w < pre.cap_of(top) && pre.nonvacant(top, w) && #[trigger] pre.slot_kv(
                        top,
                        w,
                    ) == kv;
                assert(self.nonvacant(top, w) && self.slot_kv(top, w) == kv);
            }
            if self.contains_kv(kv) {
                let w = choose|w: int|
                    0 <= w < self.cap_of(top) && self.nonvacant(top, w) && #[trigger] self.slot_kv(
                        top,
                        w,
                    ) == kv;
                assert(pre.nonvacant(top, w) && pre.slot_kv(top, w) == kv);
            }
        }
        assert forall|kv: K::V| #[trigger] pre.contains_kv(kv) implies self.locate(kv)
            == pre.locate(kv) by {
            let w = pre.slot_of(top, kv);
            assert(0 <= w < pre.cap_of(top) && pre.nonvacant(top, w) && pre.slot_kv(top, w) == kv);
            assert(self.nonvacant(top, w) && self.slot_kv(top, w) == kv);
            let w2 = self.slot_of(top, kv);
            assert(0 <= w2 < self.cap_of(top) && self.nonvacant(top, w2) && self.slot_kv(top, w2)
                == kv);
            if w2 != w {
                assert(self.slot_kv(top, w2) != self.slot_kv(top, w));
            }
        }
        assert forall|dd: int, j: int|
            0 <= dd < pre.created_spec() && 0 <= j < pre.cap_of(dd) && #[trigger] pre.is_bucket(
                dd,
                j,
            ) implies self.is_bucket(dd, j) && self.bucket_kv(dd, j) == pre.bucket_kv(dd, j) && ((
            dd,
            j,
        ) != (d, i) ==> self.bucket_value(dd, j) == pre.bucket_value(dd, j)) by {
            if dd != d {
                assert(self.lslots(dd) == pre.lslots(dd));
            } else if j != i {
                assert(self.lslots(d)[j] == pre.lslots(d)[j]);
            }
        }
    }

}

} // verus!
