//! A plain guard counter: guards raise it, releasing them lowers it, and
//! whoever waits for it wants to see it reach zero.
use vstd::prelude::*;

verus! {

/// What releasing one guard did to a counter.
#[derive(Debug, Clone, Copy, PartialEq, Eq, Structural)]
pub enum Decrement {
    /// The counter was at zero already and stays there.
    Saturated,
    /// The counter has just reached zero: wake whoever waits for it.
    ReachedZero,
    /// The counter went down and is still above zero.
    Decremented,
}

/// Keeps track of the guards handed out; waiting on it is over once the count
/// is zero.
#[derive(Debug)]
pub struct Manager {
    count: usize,
}

/// A guard counted by a [`Manager`].
#[derive(Debug)]
pub struct Guard {
    _private: (),
}

impl Manager {
    /// The current count.
    pub closed spec fn spec_count(&self) -> nat {
        self.count as nat
    }

    /// A counter at zero.
    pub fn new() -> (m: Manager)
        ensures
            m.spec_count() == 0,
    {
        Manager { count: 0 }
    }

    /// A counter that starts with one guard out, which the returned guard is.
    pub fn with_one_guard() -> (r: (Manager, Guard))
        ensures
            r.0.spec_count() == 1,
    {
        (Manager { count: 1 }, Guard { _private: () })
    }

    /// The current number of guards.
    pub fn count(&self) -> (n: usize)
        ensures
            n == self.spec_count(),
    {
        self.count
    }

    /// Hand out one more guard.
    pub fn guard(&mut self) -> (g: Guard)
        requires
            old(self).spec_count() < usize::MAX,
        ensures
            final(self).spec_count() == old(self).spec_count() + 1,
    {
        self.increment();
        Guard { _private: () }
    }

    /// Count one more guard.
    pub fn increment(&mut self)
        requires
            old(self).spec_count() < usize::MAX,
        ensures
            final(self).spec_count() == old(self).spec_count() + 1,
    {
        self.count = self.count + 1;
    }

    /// Count one guard less; at zero the count stays at zero.
    pub fn decrement(&mut self) -> (d: Decrement)
        ensures
            old(self).spec_count() == 0 ==> d == Decrement::Saturated && final(self).spec_count() == 0,
            old(self).spec_count() == 1 ==> d == Decrement::ReachedZero && final(self).spec_count() == 0,
            old(self).spec_count() > 1 ==> d == Decrement::Decremented && final(self).spec_count() == old(self).spec_count() - 1,
    {
        match self.count {
            0 => Decrement::Saturated,
            1 => {
                self.count = 0;
                Decrement::ReachedZero
            },
            n => {
                self.count = n - 1;
                Decrement::Decremented
            },
        }
    }

    /// Give up a guard of this counter, as dropping it does.
    pub fn release(&mut self, guard: Guard) -> (d: Decrement)
        ensures
            old(self).spec_count() == 0 ==> d == Decrement::Saturated && final(self).spec_count() == 0,
            old(self).spec_count() == 1 ==> d == Decrement::ReachedZero && final(self).spec_count() == 0,
            old(self).spec_count() > 1 ==> d == Decrement::Decremented && final(self).spec_count() == old(self).spec_count() - 1,
    {
        self.decrement()
    }

    /// Whether waiting on this counter is over: the count is zero.
    pub fn is_zero(&self) -> (r: bool)
        ensures
            r == (self.spec_count() == 0),
    {
        self.count == 0
    }
}

} // verus!
