//! A value that is either live or erased; both states keep the value.
use vstd::prelude::*;

verus! {

/// A value that is either live or erased.
#[derive(Debug, PartialEq, Eq)]
pub enum DeadOrAlive<T> {
    Live(T),
    Erased(T),
}

impl<T> DeadOrAlive<T> {
    /// The value, whatever the state.
    pub open spec fn value(&self) -> T {
        match self {
            DeadOrAlive::Live(v) => *v,
            DeadOrAlive::Erased(v) => *v,
        }
    }

    pub fn is_live(&self) -> (b: bool)
        ensures
            b == (self is Live),
    {
        match self {
            DeadOrAlive::Live(_) => true,
            DeadOrAlive::Erased(_) => false,
        }
    }

    pub fn is_erased(&self) -> (b: bool)
        ensures
            b == (self is Erased),
    {
        match self {
            DeadOrAlive::Erased(_) => true,
            DeadOrAlive::Live(_) => false,
        }
    }

    /// Borrows the value, keeping the state.
    pub fn as_ref(&self) -> (r: DeadOrAlive<&T>)
        ensures
            r is Live == self is Live,
            *r.value() == self.value(),
    {
        match self {
            DeadOrAlive::Live(v) => DeadOrAlive::Live(v),
            DeadOrAlive::Erased(v) => DeadOrAlive::Erased(v),
        }
    }

    /// Borrows the value mutably, keeping the state.
    pub fn as_mut(&mut self) -> (r: DeadOrAlive<&mut T>)
        ensures
            r is Live == *old(self) is Live,
            *r.value() == old(self).value(),
            *final(self) is Live == *old(self) is Live,
            final(self).value() == *final(r.value()),
    {
        match self {
            DeadOrAlive::Live(v) => DeadOrAlive::Live(v),
            DeadOrAlive::Erased(v) => DeadOrAlive::Erased(v),
        }
    }

    /// The value of a live cell.
    pub fn unwrap(self) -> (v: T)
        requires
            self is Live,
        ensures
            v == self.value(),
    {
        match self {
            DeadOrAlive::Live(v) => v,
            DeadOrAlive::Erased(v) => v,
        }
    }

    /// The value of an erased cell.
    pub fn unwrap_erased(self) -> (v: T)
        requires
            self is Erased,
        ensures
            v == self.value(),
    {
        match self {
            DeadOrAlive::Erased(v) => v,
            DeadOrAlive::Live(v) => v,
        }
    }

    /// The cell erased, with the same value; an erased cell stays as it is.
    pub fn erase(self) -> (r: DeadOrAlive<T>)
        ensures
            r is Erased,
            r.value() == self.value(),
    {
        match self {
            DeadOrAlive::Live(v) => DeadOrAlive::Erased(v),
            DeadOrAlive::Erased(v) => DeadOrAlive::Erased(v),
        }
    }

    /// The value, whatever the state.
    pub fn unjail(self) -> (v: T)
        ensures
            v == self.value(),
    {
        match self {
            DeadOrAlive::Erased(v) => v,
            DeadOrAlive::Live(v) => v,
        }
    }
}

} // verus!
