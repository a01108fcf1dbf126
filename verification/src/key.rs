//! Keys of the hash-based maps.
//!
//! A key supplies an executable hash, equality and clone, each pinned to the
//! key's view, so the tables' contracts can speak about abstract key values.
//! Hash-builder selection is deliberately not configurable: every key type
//! fixes one deterministic hash of its view.

use vstd::prelude::*;
use vstd::string::StrSliceExecFns;

verus! {

/// Offset basis of the FNV-1a hash.
pub const FNV_OFFSET: u64 = 0xcbf2_9ce4_8422_2325;

/// Prime multiplier of the FNV-1a hash.
pub const FNV_PRIME: u64 = 0x0000_0100_0000_01b3;

/// A key a hash table can probe for: hash, equality and clone are all
/// functions of the key's view alone.
pub trait MapKey: Sized + View {
    /// The hash assigned to a key with view `v`.
    spec fn hash_of(v: Self::V) -> u64;

    /// Computes the hash of this key.
    fn key_hash(&self) -> (h: u64)
        ensures
            h == Self::hash_of(self@),
    ;

    /// Compares two keys; equality of keys is equality of their views.
    fn key_eq(&self, other: &Self) -> (b: bool)
        ensures
            b == (self@ == other@),
    ;

    /// Clones the key, preserving its view.
    fn clone_key(&self) -> (r: Self)
        ensures
            r@ == self@,
    ;
}

impl MapKey for u64 {
    /// Integers hash to themselves.
    open spec fn hash_of(v: u64) -> u64 {
        v
    }

    fn key_hash(&self) -> u64 {
        *self
    }

    fn key_eq(&self, other: &Self) -> bool {
        *self == *other
    }

    fn clone_key(&self) -> Self {
        *self
    }
}

/// One FNV-1a round: fold character `c` into state `h`.
pub open spec fn fnv_step(h: u64, c: char) -> u64 {
    mul_wrapped(h ^ (c as u64), FNV_PRIME)
}

/// Wrapping multiplication on 64 bits.
pub open spec fn mul_wrapped(a: u64, b: u64) -> u64 {
    ((a * b) % 0x1_0000_0000_0000_0000) as u64
}

/// FNV-1a over a character sequence.
pub open spec fn hash_chars(s: Seq<char>) -> u64
    decreases s.len(),
{
    if s.len() == 0 {
        FNV_OFFSET
    } else {
        fnv_step(hash_chars(s.drop_last()), s.last())
    }
}

impl MapKey for String {
    /// Strings hash by FNV-1a over their characters.
    open spec fn hash_of(v: Seq<char>) -> u64 {
        hash_chars(v)
    }

    fn key_hash(&self) -> (h: u64)
        ensures
            h == hash_chars(self@),
    {
        let s = self.as_str();
        let len = s.unicode_len();
        let mut h: u64 = FNV_OFFSET;
        let mut i: usize = 0;
        proof {
            assert(s@.subrange(0, 0) =~= Seq::<char>::empty());
        }
        while i < len
            invariant
                i <= len,
                len == s@.len(),
                s@ == self@,
                h == hash_chars(s@.subrange(0, i as int)),
            decreases len - i,
        {
            let c = s.get_char(i);
            h = (h ^ (c as u64)).wrapping_mul(FNV_PRIME);
            i = i + 1;
            proof {
                let pre = s@.subrange(0, i - 1);
                let cur = s@.subrange(0, i as int);
                assert(cur.drop_last() =~= pre);
                assert(cur.last() == c);
            }
        }
        proof {
            assert(s@.subrange(0, len as int) =~= s@);
        }
        h
    }

    fn key_eq(&self, other: &Self) -> bool {
        self.eq(other)
    }

    fn clone_key(&self) -> Self {
        self.clone()
    }
}

} // verus!
