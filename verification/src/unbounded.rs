//! A shared-ownership handle to a value that outlives any one borrow.
//!
//! Stands in for handing out addresses of arena-owned values: the handle
//! shares ownership, so the value it points at lives (and never changes)
//! for as long as any holder keeps it.

use vstd::prelude::*;
use std::sync::Arc;

verus! {

/// A clonable handle to an immutable value.
pub struct UnboundedRef<T> {
    inner: Arc<T>,
}

impl<T> UnboundedRef<T> {
    /// The value this handle points at.
    pub closed spec fn value_spec(self) -> T {
        *self.inner
    }

    /// Takes ownership of `value` and hands out a stable handle to it.
    pub fn new(value: T) -> (r: Self)
        ensures
            r.value_spec() == value,
    {
        UnboundedRef { inner: Arc::new(value) }
    }

    /// Borrows the value; every borrow of every clone sees the same value.
    pub fn deref_unbounded(&self) -> (r: &T)
        ensures
            *r == self.value_spec(),
    {
        &*self.inner
    }

    /// Another handle to the same value.
    pub fn duplicate(&self) -> (r: Self)
        ensures
            r.value_spec() == self.value_spec(),
    {
        UnboundedRef { inner: Arc::clone(&self.inner) }
    }
}

} // verus!
