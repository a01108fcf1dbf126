//! The cell-flavored variant of the boolean lock flag.
//!
//! Identical protocol to [`crate::raw_mutex_cell::RawMutexCell`]; the two
//! exist so each mutex flavor of the maps has its own named type.

use vstd::prelude::*;

verus! {

/// A non-reentrant single-threaded lock flag.
pub struct RawCellMutex {
    locked: bool,
}

impl RawCellMutex {
    /// Whether the lock is held.
    pub closed spec fn locked_spec(self) -> bool {
        self.locked
    }

    /// An unlocked mutex.
    pub fn new() -> (r: Self)
        ensures
            !r.locked_spec(),
    {
        RawCellMutex { locked: false }
    }

    /// Acquires the lock; re-entrant locking is ruled out.
    pub fn lock(&mut self)
        requires
            !old(self).locked_spec(),
        ensures
            final(self).locked_spec(),
    {
        self.locked = true;
    }

    /// Tries to acquire the lock, reporting whether it was taken.
    pub fn try_lock(&mut self) -> (taken: bool)
        ensures
            taken == !old(self).locked_spec(),
            final(self).locked_spec(),
    {
        let was = self.locked;
        self.locked = true;
        !was
    }

    /// Releases the lock; it must be held.
    pub fn unlock(&mut self)
        requires
            old(self).locked_spec(),
        ensures
            !final(self).locked_spec(),
    {
        self.locked = false;
    }
}

} // verus!
