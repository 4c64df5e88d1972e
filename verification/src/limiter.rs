//! A counting limiter that bounds the number of probes in flight.

use vstd::prelude::*;

verus! {

/// Capacity used when fanning out DNS lookups.
pub const DNS_CAPACITY: usize = 600;

/// Capacity used when fanning out port probes.
pub const PORT_CAPACITY: usize = 1000;

/// A limiter with a fixed number of slots. A slot is taken when a probe starts
/// and handed back when it ends; the limiter never holds more probes than it has
/// slots.
pub struct Limiter {
    capacity: usize,
    in_flight: usize,
}

impl Limiter {
    #[verifier::type_invariant]
    spec fn within_capacity(&self) -> bool {
        self.in_flight <= self.capacity
    }

    /// The number of slots the limiter was made with.
    pub closed spec fn slots(&self) -> nat {
        self.capacity as nat
    }

    /// The number of slots currently taken.
    pub closed spec fn held(&self) -> nat {
        self.in_flight as nat
    }

    /// A limiter with `capacity` free slots.
    pub fn new(capacity: usize) -> (limiter: Limiter)
        ensures
            limiter.slots() == capacity,
            limiter.held() == 0,
    {
        Limiter { capacity, in_flight: 0 }
    }

    /// The number of slots.
    pub fn capacity(&self) -> (n: usize)
        ensures
            n == self.slots(),
    {
        self.capacity
    }

    /// The number of slots taken, which never exceeds the capacity.
    pub fn in_flight(&self) -> (n: usize)
        ensures
            n == self.held(),
            n <= self.slots(),
    {
        proof {
            use_type_invariant(self);
        }
        self.in_flight
    }

    /// Takes a slot if one is free. A saturated limiter grants nothing and stays
    /// as it was: the caller keeps its task waiting and asks again later.
    pub fn try_acquire(&mut self) -> (granted: bool)
        ensures
            granted == (old(self).held() < old(self).slots()),
            final(self).slots() == old(self).slots(),
            final(self).held() == old(self).held() + if granted { 1nat } else { 0nat },
            final(self).held() <= final(self).slots(),
    {
        proof {
            use_type_invariant(&*self);
        }
        if self.in_flight < self.capacity {
            self.in_flight = self.in_flight + 1;
            true
        } else {
            false
        }
    }

    /// Hands a slot back.
    pub fn release(&mut self)
        requires
            old(self).held() > 0,
        ensures
            final(self).slots() == old(self).slots(),
            final(self).held() == old(self).held() - 1,
            final(self).held() < final(self).slots(),
    {
        proof {
            use_type_invariant(&*self);
        }
        self.in_flight = self.in_flight - 1;
    }
}

} // verus!
