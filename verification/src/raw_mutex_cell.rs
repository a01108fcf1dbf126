//! A single-threaded mutex modeled as a boolean flag.
//!
//! Locking an already-locked cell, or unlocking an unlocked one, is a
//! programming error the contracts rule out.

use vstd::prelude::*;

verus! {

/// A non-reentrant single-threaded lock flag.
pub struct RawMutexCell {
    locked: bool,
}

impl RawMutexCell {
    /// Whether the lock is held.
    pub closed spec fn locked_spec(self) -> bool {
        self.locked
    }

    /// An unlocked mutex.
    pub fn new() -> (r: Self)
        ensures
            !r.locked_spec(),
    {
        RawMutexCell { locked: false }
    }

    /// Acquires the lock; re-entrant locking is ruled out.
    pub fn lock(&mut self)
        requires
            !old(self).locked_spec(),
        ensures
            final(self).locked_spec(),
    {
        self.locked = true;
    }

    /// Tries to acquire the lock, reporting whether it was taken.
    pub fn try_lock(&mut self) -> (taken: bool)
        ensures
            taken == !old(self).locked_spec(),
            final(self).locked_spec(),
    {
        let was = self.locked;
        self.locked = true;
        !was
    }

    /// Releases the lock; it must be held.
    pub fn unlock(&mut self)
        requires
            old(self).locked_spec(),
        ensures
            !final(self).locked_spec(),
    {
        self.locked = false;
    }
}

} // verus!
