//! Exactly-once initialization of a single slot.
//!
//! A cell starts empty; the first successful initializer moves it to ready
//! and the value then never changes again, so a reference to it can be handed
//! to every later caller.  The plain [`OnceCell`] lets a failed initializer be
//! retried; the fused [`FusedCell`] instead poisons permanently, so a failing
//! computation is never silently re-run.

use vstd::prelude::*;

verus! {

/// A slot initialized at most once: the first `get_or_init` fills it, every
/// later call sees the same value and runs no initializer.
pub struct OnceCell<T> {
    value: Option<T>,
}

/// Error of a fused cell: either a prior initializer already failed, or the
/// initializer run by this very call failed (carrying its error).
#[derive(Debug, PartialEq, Eq)]
pub enum InitError<E> {
    Poisoned,
    Failed(E),
}

impl<T> View for OnceCell<T> {
    type V = Option<T>;

    closed spec fn view(&self) -> Option<T> {
        self.value
    }
}

impl<T> OnceCell<T> {
    /// An empty cell.
    pub fn new() -> (r: Self)
        ensures
            r@ is None,
    {
        OnceCell { value: None }
    }

    /// Reads the cell without running anything.
    pub fn get(&self) -> (r: Option<&T>)
        ensures
            match r {
                Some(v) => self@ == Some(*v),
                None => self@ is None,
            },
    {
        match &self.value {
            Some(v) => Some(v),
            None => None,
        }
    }

    /// Stores `v` if the cell is still empty; a ready cell rejects the write
    /// and hands `v` back.
    pub fn set(&mut self, v: T) -> (r: Result<(), T>)
        ensures
            match r {
                Ok(()) => old(self)@ is None && final(self)@ == Some(v),
                Err(w) => old(self)@ is Some && *final(self) == *old(self) && w == v,
            },
    {
        match &self.value {
            Some(_) => Err(v),
            None => {
                self.value = Some(v);
                Ok(())
            },
        }
    }

    /// Runs `f` only if the cell is empty; always returns a reference to the
    /// ready value.  A ready cell is never touched again, which is what makes
    /// the returned reference stable across later calls.
    pub fn get_or_init<F: FnOnce() -> T>(&mut self, f: F) -> (r: &T)
        requires
            old(self)@ is None ==> call_requires(f, ()),
        ensures
            final(self)@ == Some(*r),
            old(self)@ is Some ==> *final(self) == *old(self) && old(self)@ == Some(*r),
            old(self)@ is None ==> call_ensures(f, (), *r),
    {
        if self.value.is_none() {
            let v = f();
            self.value = Some(v);
        }
        match &self.value {
            Some(v) => v,
            None => unreached(),
        }
    }

    /// Runs the fallible `f` only if the cell is empty.  On failure the cell
    /// stays empty, so a later caller may retry with a fresh initializer.
    pub fn get_or_try_init<E, F: FnOnce() -> Result<T, E>>(&mut self, f: F) -> (r: Result<&T, E>)
        requires
            old(self)@ is None ==> call_requires(f, ()),
        ensures
            match r {
                Ok(v) => {
                    &&& final(self)@ == Some(*v)
                    &&& old(self)@ is Some ==> *final(self) == *old(self) && old(self)@ == Some(*v)
                    &&& old(self)@ is None ==> call_ensures(f, (), Ok(*v))
                },
                Err(e) => {
                    &&& old(self)@ is None
                    &&& final(self)@ is None
                    &&& call_ensures(f, (), Err::<T, E>(e))
                },
            },
    {
        if self.value.is_none() {
            match f() {
                Ok(v) => self.value = Some(v),
                Err(e) => {
                    return Err(e);
                },
            }
        }
        match &self.value {
            Some(v) => Ok(v),
            None => unreached(),
        }
    }
}

impl<T> Default for OnceCell<T> {
    /// Fresh slots of an arena start as empty cells.
    fn default() -> (r: Self)
        ensures
            r@ is None,
    {
        OnceCell { value: None }
    }
}

/// The state a fused cell can be in: never initialized, initialized exactly
/// once, or permanently poisoned by a failed initializer.
pub enum FuseState<T> {
    Empty,
    Ready(T),
    Poisoned,
}

/// A once-cell that fuses on failure: after an initializer fails, every
/// caller (current and future) deterministically sees the poisoned error
/// instead of re-running an expensive failing computation.
pub struct FusedCell<T> {
    state: FuseState<T>,
}

impl<T> View for FusedCell<T> {
    type V = FuseState<T>;

    closed spec fn view(&self) -> FuseState<T> {
        self.state
    }
}

impl<T> FusedCell<T> {
    /// An empty fused cell.
    pub fn new() -> (r: Self)
        ensures
            r@ is Empty,
    {
        FusedCell { state: FuseState::Empty }
    }

    /// Reads the cell without running anything.
    pub fn get(&self) -> (r: Option<&T>)
        ensures
            match r {
                Some(v) => self@ == FuseState::Ready(*v),
                None => !(self@ is Ready),
            },
    {
        match &self.state {
            FuseState::Ready(v) => Some(v),
            _ => None,
        }
    }

    /// Runs the fallible `f` only if the cell is empty.  Failure poisons the
    /// cell permanently; a poisoned cell reports `InitError::Poisoned` to
    /// every caller without running anything.
    pub fn get_or_try_init<E, F: FnOnce() -> Result<T, E>>(&mut self, f: F) -> (r: Result<
        &T,
        InitError<E>,
    >)
        requires
            old(self)@ is Empty ==> call_requires(f, ()),
        ensures
            match r {
                Ok(v) => {
                    &&& final(self)@ == FuseState::Ready(*v)
                    &&& old(self)@ is Ready ==> *final(self) == *old(self) && old(self)@
                        == FuseState::Ready(*v)
                    &&& old(self)@ is Empty ==> call_ensures(f, (), Ok(*v))
                    &&& !(old(self)@ is Poisoned)
                },
                Err(InitError::Poisoned) => old(self)@ is Poisoned && *final(self) == *old(self),
                Err(InitError::Failed(e)) => {
                    &&& old(self)@ is Empty
                    &&& final(self)@ is Poisoned
                    &&& call_ensures(f, (), Err::<T, E>(e))
                },
            },
    {
        match &self.state {
            FuseState::Ready(_) => (),
            FuseState::Poisoned => {
                return Err(InitError::Poisoned);
            },
            FuseState::Empty => {
                match f() {
                    Ok(v) => self.state = FuseState::Ready(v),
                    Err(e) => {
                        self.state = FuseState::Poisoned;
                        return Err(InitError::Failed(e));
                    },
                }
            },
        }
        match &self.state {
            FuseState::Ready(v) => Ok(v),
            _ => unreached(),
        }
    }
}

impl<T> Default for FusedCell<T> {
    /// Fresh slots start as empty cells.
    fn default() -> (r: Self)
        ensures
            r@ is Empty,
    {
        FusedCell { state: FuseState::Empty }
    }
}

} // verus!
