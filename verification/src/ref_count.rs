//! A non-negative reference counter that reports when it reaches zero.

use vstd::prelude::*;

verus! {

/// Outcome of a decrement: whether holders remain.
#[derive(Clone, Copy, Debug, PartialEq, Eq, Structural)]
pub enum TryDecrement {
    /// At least one holder remains.
    Alive,
    /// The decrement took the count to zero.
    Dead,
}

/// Counts the holders of a resource.
#[derive(Debug)]
pub struct RefCount {
    count: usize,
}

impl View for RefCount {
    type V = nat;

    closed spec fn view(&self) -> nat {
        self.count as nat
    }
}

impl RefCount {
    /// A counter with no holders.
    pub fn new() -> (rc: Self)
        ensures
            rc@ == 0,
    {
        RefCount { count: 0 }
    }

    /// Adds one holder.
    pub fn increment(&mut self)
        requires
            old(self)@ < usize::MAX,
        ensures
            final(self)@ == old(self)@ + 1,
    {
        self.count = self.count + 1;
    }

    /// Removes one holder and reports `Dead` exactly when none remains.
    pub fn decrement(&mut self) -> (outcome: TryDecrement)
        requires
            old(self)@ > 0,
        ensures
            final(self)@ == old(self)@ - 1,
            outcome == (if final(self)@ == 0 {
                TryDecrement::Dead
            } else {
                TryDecrement::Alive
            }),
    {
        self.count = self.count - 1;
        if self.count == 0 {
            TryDecrement::Dead
        } else {
            TryDecrement::Alive
        }
    }

    /// The number of holders.
    pub fn current(&self) -> (n: usize)
        ensures
            n == self@,
    {
        self.count
    }
}

} // verus!
