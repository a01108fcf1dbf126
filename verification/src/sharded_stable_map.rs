//! A stable map partitioned into independently-locked shards.
//!
//! The key space is split by the high bits of the key's hash across a
//! power-of-two number of shards, each owning its own key-index table and
//! arena slice, so contention under parallel load is bounded to one shard
//! per operation while the stable-address guarantee is untouched.

use vstd::prelude::*;
use vstd::arithmetic::power2::pow2;
use vstd::arithmetic::power2::lemma_pow2_pos;
use vstd::arithmetic::power2::lemma_pow2_adds;
use vstd::arithmetic::div_mod::lemma_mod_division_less_than_divisor;
use crate::key::MapKey;
use crate::stable_map::StableMap;
use crate::math::pow2_exec;

verus! {

/// Number of bits in a hash.
pub const HASH_BITS: usize = 64;

/// A sharded stable map: handles are `(shard, index)` pairs.
pub struct ShardedStableMap<K, V> {
    shards: Vec<StableMap<K, V>>,
    shard_bits: usize,
}

impl<K: MapKey, V> ShardedStableMap<K, V> {
    /// Number of shards.
    pub closed spec fn shard_count(self) -> nat {
        self.shards.len() as nat
    }

    /// The shard assigned to hash `h`: its topmost bits.
    pub closed spec fn shard_of(self, h: u64) -> int {
        h as int / pow2((HASH_BITS - self.shard_bits) as nat) as int
    }

    /// The shard-local map observations.
    pub closed spec fn shard_map(self, s: int) -> StableMap<K, V> {
        self.shards[s]
    }

    /// Structural invariant.
    pub closed spec fn wf(self) -> bool {
        &&& self.shard_bits <= HASH_BITS
        &&& self.shards.len() == pow2(self.shard_bits as nat)
        &&& forall|s: int| 0 <= s < self.shards.len() ==> (#[trigger] self.shards[s]).wf()
    }

    /// Creates a map with `pow2(shard_bits)` shards.
    pub fn with_shards(shard_bits: usize) -> (r: Self)
        requires
            shard_bits <= HASH_BITS,
            pow2(shard_bits as nat) <= usize::MAX,
        ensures
            r.wf(),
            r.shard_count() == pow2(shard_bits as nat),
            forall|s: int|
                0 <= s < r.shard_count() ==> (#[trigger] r.shard_map(s)).len_spec() == 0,
    {
        let n = pow2_exec(shard_bits);
        let mut shards: Vec<StableMap<K, V>> = Vec::new();
        let mut k: usize = 0;
        while k < n
            invariant
                shards.len() == k,
                k <= n,
                forall|s: int| 0 <= s < k ==> (#[trigger] shards[s]).wf(),
                forall|s: int| 0 <= s < k ==> (#[trigger] shards[s]).len_spec() == 0,
            decreases n - k,
        {
            shards.push(StableMap::new());
            k = k + 1;
        }
        ShardedStableMap { shards, shard_bits }
    }

    /// The stable `(shard, index)` handle of `key`, created on first sight.
    /// The shard is picked by the high bits of the key's hash; within the
    /// shard the contract of [`StableMap::get_or_insert`] applies.
    pub fn get_or_insert(&mut self, key: K) -> (r: (usize, usize))
        requires
            old(self).wf(),
            forall|s: int|
                0 <= s < old(self).shard_count() ==> (#[trigger] old(self).shard_map(
                    s,
                )).len_spec() + 1 < usize::MAX,
        ensures
            final(self).wf(),
            final(self).shard_count() == old(self).shard_count(),
            (r.0 as int) == old(self).shard_of(K::hash_of(key@)),
            final(self).shard_map(r.0 as int).contains_kv(key@),
            (r.1 as int) == final(self).shard_map(r.0 as int).index_of(key@),
            // a key already present is found in place, with nothing changed
            old(self).shard_map(r.0 as int).contains_kv(key@) ==> (forall|s2: int|
                0 <= s2 < old(self).shard_count() ==> final(self).shard_map(s2) == old(self).shard_map(s2)) && (r.1 as int) == old(self).shard_map(r.0 as int).index_of(key@),
            // other shards are never touched
            forall|s: int|
                0 <= s < old(self).shard_count() && s != r.0 as int ==> final(self).shard_map(s)
                    == old(self).shard_map(s),
            // a new key gets the shard's next index and an empty cell
            !old(self).shard_map(r.0 as int).contains_kv(key@) ==> (r.1 as nat) == old(self).shard_map(r.0 as int).len_spec() && final(self).shard_map(r.0 as int).len_spec() == old(self).shard_map(r.0 as int).len_spec() + 1 && final(self).shard_map(r.0 as int).cell_view(
                r.1 as int,
            ) is None,
            // no shard grows by more than one key
            forall|s: int|
                0 <= s < old(self).shard_count() ==> (#[trigger] final(self).shard_map(
                    s,
                )).len_spec() <= old(self).shard_map(s).len_spec() + 1,
            // every key already present in the shard keeps its index
            forall|kv: K::V|
                #[trigger] old(self).shard_map(r.0 as int).contains_kv(kv) ==> final(self).shard_map(r.0 as int).contains_kv(kv) && final(self).shard_map(r.0 as int).index_of(kv)
                    == old(self).shard_map(r.0 as int).index_of(kv),
            // slots already issued in this shard keep their cells
            forall|j: int|
                0 <= j < old(self).shard_map(r.0 as int).len_spec() ==> final(self).shard_map(
                    r.0 as int,
                ).cell_view(j) == old(self).shard_map(r.0 as int).cell_view(j),
    {
        let h = key.key_hash();
        let s = self.shard_for(h);
        proof {
            assert(old(self).shard_map(s as int).len_spec() + 1 < usize::MAX);
        }
        let shard = &mut self.shards[s];
        let i = shard.get_or_insert(key);
        (s, i)
    }

    /// The shard a hash falls into: its topmost bits.
    fn shard_for(&self, h: u64) -> (s: usize)
        requires
            self.wf(),
        ensures
            (s as int) == self.shard_of(h),
            (s as int) < self.shard_count(),
    {
        proof {
            lemma_pow2_pos((HASH_BITS - self.shard_bits) as nat);
            lemma_pow2_adds(
                (HASH_BITS - self.shard_bits) as nat,
                self.shard_bits as nat,
            );
            vstd::arithmetic::power2::lemma2_to64();
            vstd::layout::unsigned_int_max_values();
            assert(pow2(HASH_BITS as nat) == 0x1_0000_0000_0000_0000) by {
                vstd::arithmetic::power2::lemma2_to64_rest();
            }
            assert((h as int) < pow2((HASH_BITS - self.shard_bits) as nat) as int * pow2(
                self.shard_bits as nat,
            ) as int);
            vstd::arithmetic::div_mod::lemma_multiply_divide_lt(
                h as int,
                pow2((HASH_BITS - self.shard_bits) as nat) as int,
                pow2(self.shard_bits as nat) as int,
            );
        }
        if self.shard_bits == 0 {
            proof {
                vstd::arithmetic::div_mod::lemma_basic_div(
                    h as int,
                    pow2((HASH_BITS - self.shard_bits) as nat) as int,
                );
            }
            0
        } else {
            let div = crate::math::pow2_u64(HASH_BITS - self.shard_bits);
            (h / div) as usize
        }
    }

    /// The largest number of keys any one shard holds.
    pub fn max_shard_len(&self) -> (n: usize)
        requires
            self.wf(),
        ensures
            forall|s: int|
                0 <= s < self.shard_count() ==> (#[trigger] self.shard_map(s)).len_spec() <= n,
    {
        let mut n: usize = 0;
        let mut s: usize = 0;
        let count = self.shards.len();
        while s < count
            invariant
                self.wf(),
                s <= count,
                count == self.shard_count(),
                forall|t: int| 0 <= t < s ==> (#[trigger] self.shard_map(t)).len_spec() <= n,
            decreases count - s,
        {
            let l = self.shards[s].len();
            if l > n {
                n = l;
            }
            s = s + 1;
        }
        n
    }

    /// Returns the value for `key`, running `f` at most once to compute it,
    /// in the shard the key's hash selects; no other shard is touched.
    pub fn get_or_init<F: FnOnce() -> V>(&mut self, key: K, f: F) -> (r: &V)
        requires
            old(self).wf(),
            forall|s: int|
                0 <= s < old(self).shard_count() ==> (#[trigger] old(self).shard_map(
                    s,
                )).len_spec() + 1 < usize::MAX,
            call_requires(f, ()),
        ensures
            final(self).wf(),
            final(self).shard_count() == old(self).shard_count(),
            ({
                let sh = old(self).shard_of(K::hash_of(key@));
                &&& final(self).shard_map(sh).contains_kv(key@)
                &&& final(self).shard_map(sh).cell_view(
                    final(self).shard_map(sh).index_of(key@),
                ) == Some(*r)
                // an already computed value is returned unchanged
                &&& (old(self).shard_map(sh).contains_kv(key@) && old(self).shard_map(
                    sh,
                ).cell_view(old(self).shard_map(sh).index_of(key@)) is Some ==> old(self).shard_map(
                    sh,
                ).cell_view(old(self).shard_map(sh).index_of(key@)) == Some(*r))
                // a fresh computation is one output of f
                &&& (!(old(self).shard_map(sh).contains_kv(key@) && old(self).shard_map(
                    sh,
                ).cell_view(old(self).shard_map(sh).index_of(key@)) is Some) ==> call_ensures(
                    f,
                    (),
                    *r,
                ))
                // other shards are never touched
                &&& (forall|s: int|
                    0 <= s < old(self).shard_count() && s != sh ==> final(self).shard_map(s) == old(self).shard_map(s))
                &&& final(self).shard_map(sh).len_spec() <= old(self).shard_map(sh).len_spec() + 1
            }),
    {
        let h = key.key_hash();
        let s = self.shard_for(h);
        proof {
            assert(old(self).shard_map(s as int).len_spec() + 1 < usize::MAX);
        }
        let shard = &mut self.shards[s];
        shard.get_or_init(key, f)
    }
}

} // verus!
