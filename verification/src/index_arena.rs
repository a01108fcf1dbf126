//! A lazily-populated, power-of-two-segmented, append-only array.
//!
//! Slot `i` lives in segment `major = log2(i + 1)` at offset
//! `minor = i + 1 - 2^major`; segment `m` holds `2^m` slots and is created at
//! most once, on the first access to any of its slots.  A segment, once
//! created, is never reallocated, so the address of a slot never changes for
//! the lifetime of the arena — the property the maps built on top rely on to
//! hand out stable references.

use vstd::prelude::*;
use vstd::arithmetic::power2::pow2;
use vstd::arithmetic::power2::lemma_pow2_unfold;
use vstd::arithmetic::power2::lemma_pow2_strictly_increases;
use vstd::arithmetic::div_mod::lemma_fundamental_div_mod;
use crate::math::log2;
use crate::math::lemma_log2_bounds;
use crate::math::lemma_log2_unique;
use crate::math::pow2_exec;

verus! {

/// Splits an external slot index into `(major, minor)`: the segment holding
/// the slot and the offset inside that segment.
pub fn arena_index(index: usize) -> (r: (usize, usize))
    requires
        index < usize::MAX,
    ensures
        r.0 == log2((index + 1) as nat),
        r.1 == index + 1 - pow2(r.0 as nat),
        pow2(r.0 as nat) <= index + 1 < pow2(r.0 as nat + 1),
        r.1 < pow2(r.0 as nat),
        r.0 < usize::BITS,
{
    let target = index + 1;
    let mut major: usize = 0;
    let mut lo: usize = 1;
    proof {
        vstd::arithmetic::power2::lemma2_to64();
        vstd::layout::unsigned_int_max_values();
        lemma_fundamental_div_mod(target as int, 2);
    }
    while lo <= target / 2
        invariant
            1 <= lo <= target,
            target == index + 1,
            index < usize::MAX,
            lo == pow2(major as nat),
            major < usize::BITS,
            target as nat == pow2(usize::BITS as nat) - 1 || target < pow2(usize::BITS as nat) - 1,
        decreases target - lo,
    {
        proof {
            lemma_fundamental_div_mod(target as int, 2);
            lemma_pow2_unfold(major as nat + 1);
            vstd::layout::unsigned_int_max_values();
            if major as nat + 1 >= usize::BITS as nat {
                if major as nat + 1 > usize::BITS as nat {
                    lemma_pow2_strictly_increases(usize::BITS as nat, major as nat + 1);
                }
                assert(pow2(major as nat + 1) >= pow2(usize::BITS as nat));
                assert(false);
            }
        }
        lo = lo * 2;
        major = major + 1;
    }
    proof {
        lemma_fundamental_div_mod(target as int, 2);
        lemma_pow2_unfold(major as nat + 1);
        lemma_log2_unique(target as nat, major as nat);
    }
    (major, index + 1 - lo)
}

/// Segment holding the slot of external index `i`.
pub open spec fn major_of(i: nat) -> nat {
    log2(i + 1)
}

/// Offset of the slot of external index `i` inside its segment.
pub open spec fn minor_of(i: nat) -> nat {
    (i + 1 - pow2(major_of(i))) as nat
}

/// An append-only arena addressed by `usize` indices.  Segments are created
/// lazily; a created segment keeps its slots at fixed addresses forever.
pub struct IndexArena<T> {
    segments: Vec<Vec<T>>,
}

impl<T: Default> IndexArena<T> {
    /// One segment per bit of the index space, each holding `2^m` slots once
    /// created.
    pub closed spec fn wf(self) -> bool {
        &&& self.segments.len() == usize::BITS
        &&& forall|m: int|
            0 <= m < self.segments.len() && (#[trigger] self.segments[m]).len() != 0
                ==> self.segments[m].len() == pow2(m as nat)
    }

    /// Whether the segment owning slot `i` has been created.
    pub closed spec fn slot_ready(self, i: nat) -> bool {
        &&& major_of(i) < self.segments.len()
        &&& self.segments[major_of(i) as int].len() != 0
    }

    /// The value currently held in slot `i` (meaningful when the slot is
    /// ready).
    pub closed spec fn spec_at(self, i: nat) -> T {
        self.segments[major_of(i) as int][minor_of(i) as int]
    }

    /// A fresh arena with no segment created yet.
    pub fn new() -> (r: Self)
        ensures
            r.wf(),
            forall|i: nat| !r.slot_ready(i),
    {
        let n = usize::BITS as usize;
        let mut segments: Vec<Vec<T>> = Vec::new();
        let mut k: usize = 0;
        while k < n
            invariant
                segments.len() == k,
                k <= n,
                n == usize::BITS,
                forall|m: int| 0 <= m < k ==> (#[trigger] segments[m]).len() == 0,
            decreases n - k,
        {
            segments.push(Vec::new());
            k = k + 1;
        }
        IndexArena { segments }
    }

    /// Returns the slot of index `index`, creating (and default-filling) its
    /// segment on first access.  Slots that were already created keep their
    /// values untouched: references previously handed out stay valid.
    pub fn get_or_init(&mut self, index: usize) -> (r: &T)
        requires
            old(self).wf(),
            index < usize::MAX,
        ensures
            final(self).wf(),
            final(self).slot_ready(index as nat),
            *r == final(self).spec_at(index as nat),
            // stability: every slot that was ready keeps its value
            forall|j: nat|
                old(self).slot_ready(j) ==> final(self).slot_ready(j) && final(self).spec_at(j)
                    == old(self).spec_at(j),
            // slots only become ready, never the reverse
            forall|j: nat|
                final(self).slot_ready(j) ==> old(self).slot_ready(j) || major_of(j) == major_of(
                    index as nat,
                ),
            // an access to an existing segment changes nothing at all
            old(self).slot_ready(index as nat) ==> *final(self) == *old(self),
            // freshly created slots hold default values
            !old(self).slot_ready(index as nat) ==> forall|j: nat|
                !old(self).slot_ready(j) && final(self).slot_ready(j) ==> call_ensures(
                    T::default,
                    (),
                    final(self).spec_at(j),
                ),
    {
        let (major, minor) = arena_index(index);
        proof {
            vstd::layout::unsigned_int_max_values();
            assert(index + 1 < pow2(usize::BITS as nat));
            if major as nat >= usize::BITS as nat {
                if major as nat > usize::BITS as nat {
                    lemma_pow2_strictly_increases(usize::BITS as nat, major as nat);
                }
                assert(false);
            }
            assert(major_of(index as nat) == major);
            assert(minor_of(index as nat) == minor);
        }
        if self.segments[major].len() == 0 {
            proof {
                if major as nat + 1 > usize::BITS as nat {
                    lemma_pow2_strictly_increases(usize::BITS as nat, major as nat + 1);
                }
                assert(pow2(major as nat) < pow2(major as nat + 1)) by {
                    lemma_pow2_strictly_increases(major as nat, major as nat + 1);
                }
            }
            let len = pow2_exec(major);
            let mut seg: Vec<T> = Vec::new();
            let mut k: usize = 0;
            while k < len
                invariant
                    seg.len() == k,
                    k <= len,
                    forall|q: int| 0 <= q < k ==> call_ensures(T::default, (), #[trigger] seg[q]),
                decreases len - k,
            {
                seg.push(T::default());
                k = k + 1;
            }
            self.segments.set(major, seg);
            proof {
                assert(forall|j: nat|
                    #[trigger] major_of(j) == major_of(index as nat) && self.slot_ready(j)
                        ==> minor_of(j) < pow2(major as nat) && call_ensures(
                        T::default,
                        (),
                        self.spec_at(j),
                    )) by {
                    assert forall|j: nat|
                        #[trigger] major_of(j) == major_of(index as nat) && self.slot_ready(
                            j,
                        ) implies minor_of(j) < pow2(major as nat) && call_ensures(
                        T::default,
                        (),
                        self.spec_at(j),
                    ) by {
                        lemma_log2_bounds(j + 1);
                        lemma_pow2_unfold(major as nat + 1);
                    }
                }
            }
        }
        proof {
            lemma_log2_bounds(index as nat + 1);
            lemma_pow2_unfold(major as nat + 1);
        }
        proof {
            assert(self.segments[major as int].len() == pow2(major as nat));
        }
        &self.segments[major][minor]
    }

    /// Reads slot `index` if its segment was already created.
    pub fn try_get(&self, index: usize) -> (r: Option<&T>)
        requires
            self.wf(),
            index < usize::MAX,
        ensures
            match r {
                Some(v) => self.slot_ready(index as nat) && *v == self.spec_at(index as nat),
                None => !self.slot_ready(index as nat),
            },
    {
        let (major, minor) = arena_index(index);
        proof {
            vstd::layout::unsigned_int_max_values();
            if major as nat >= usize::BITS as nat {
                if major as nat > usize::BITS as nat {
                    lemma_pow2_strictly_increases(usize::BITS as nat, major as nat);
                }
                assert(false);
            }
            lemma_log2_bounds(index as nat + 1);
            lemma_pow2_unfold(major as nat + 1);
        }
        if self.segments[major].len() == 0 {
            None
        } else {
            Some(&self.segments[major][minor])
        }
    }
}

impl<W> IndexArena<crate::once::OnceCell<W>> {
    /// Runs `f` at most once to fill the once-cell in slot `index`, and
    /// returns the cell's value.  Every other slot keeps its value.
    pub fn cell_get_or_init<F: FnOnce() -> W>(&mut self, index: usize, f: F) -> (r: &W)
        requires
            old(self).wf(),
            index < usize::MAX,
            (!old(self).slot_ready(index as nat) || old(self).spec_at(index as nat)@ is None)
                ==> call_requires(f, ()),
        ensures
            final(self).wf(),
            final(self).slot_ready(index as nat),
            forall|j: nat| old(self).slot_ready(j) ==> final(self).slot_ready(j),
            final(self).spec_at(index as nat)@ == Some(*r),
            old(self).slot_ready(index as nat) && old(self).spec_at(index as nat)@ is Some ==> old(self).spec_at(index as nat)@ == Some(*r),
            (!old(self).slot_ready(index as nat) || old(self).spec_at(index as nat)@ is None)
                ==> call_ensures(f, (), *r),
            forall|j: nat|
                old(self).slot_ready(j) && j != index ==> final(self).spec_at(j) == old(self).spec_at(j),
            // freshly materialized slots other than this one hold empty cells
            forall|j: nat|
                !old(self).slot_ready(j) && final(self).slot_ready(j) && j != index ==> final(self).spec_at(j)@ is None,
    {
        let _seg = self.get_or_init(index);
        let ghost mid = *self;
        proof {
            if old(self).slot_ready(index as nat) {
                assert(mid.spec_at(index as nat) == old(self).spec_at(index as nat));
            } else {
                assert(call_ensures(
                    crate::once::OnceCell::<W>::default,
                    (),
                    mid.spec_at(index as nat),
                ));
                assert(mid.spec_at(index as nat)@ is None);
            }
        }
        let (major, minor) = arena_index(index);
        proof {
            vstd::layout::unsigned_int_max_values();
            if major as nat >= usize::BITS as nat {
                if major as nat > usize::BITS as nat {
                    lemma_pow2_strictly_increases(usize::BITS as nat, major as nat);
                }
                assert(false);
            }
            lemma_log2_bounds(index as nat + 1);
            lemma_pow2_unfold(major as nat + 1);
            assert(major_of(index as nat) == major);
            assert(minor_of(index as nat) == minor);
            assert(self.segments[major as int].len() == pow2(major as nat));
        }
        let cell = &mut self.segments[major][minor];
        let r0 = cell.get_or_init(f);
        let ghost v0 = *r0;
        proof {
            assert(self.spec_at(index as nat)@ == Some(v0));
            assert forall|j: nat|
                mid.slot_ready(j) && j != index implies self.spec_at(j) == mid.spec_at(j) by {
                if major_of(j) == major as nat {
                    lemma_log2_bounds(j + 1);
                    assert(minor_of(j) != minor as nat);
                }
            }
            assert(forall|j: nat| self.slot_ready(j) == mid.slot_ready(j));
            assert forall|j: nat|
                !old(self).slot_ready(j) && self.slot_ready(j) && j != index implies self.spec_at(
                j,
            )@ is None by {
                assert(call_ensures(crate::once::OnceCell::<W>::default, (), mid.spec_at(j)));
                assert(self.spec_at(j) == mid.spec_at(j));
            }
        }
        match self.segments[major][minor].get() {
            Some(v) => v,
            None => unreached(),
        }
    }
}

} // verus!
