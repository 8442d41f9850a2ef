//! Sets of readiness events.
use vstd::prelude::*;

verus! {

/// A set of readiness events: those that a connection is interested in, or
/// those that a poll has reported for it.
#[derive(Clone, Copy, PartialEq, Eq, Structural, Debug)]
pub struct EventSet {
    /// There is something to read.
    pub readable: bool,
    /// The socket accepts bytes.
    pub writable: bool,
    /// The socket is in an error state.
    pub error: bool,
    /// The other side hung up.
    pub hup: bool,
}

impl EventSet {
    /// The events that are in `self` or in `other`.
    pub open spec fn union(self, other: EventSet) -> EventSet {
        EventSet {
            readable: self.readable || other.readable,
            writable: self.writable || other.writable,
            error: self.error || other.error,
            hup: self.hup || other.hup,
        }
    }

    /// The events that are in `self` and not in `other`.
    pub open spec fn minus(self, other: EventSet) -> EventSet {
        EventSet {
            readable: self.readable && !other.readable,
            writable: self.writable && !other.writable,
            error: self.error && !other.error,
            hup: self.hup && !other.hup,
        }
    }

    /// The set without any event.
    pub fn none() -> (set: EventSet)
        ensures
            set == (EventSet { readable: false, writable: false, error: false, hup: false }),
    {
        EventSet { readable: false, writable: false, error: false, hup: false }
    }

    /// The set that holds only `readable`.
    pub fn readable() -> (set: EventSet)
        ensures
            set == (EventSet { readable: true, writable: false, error: false, hup: false }),
    {
        EventSet { readable: true, writable: false, error: false, hup: false }
    }

    /// The set that holds only `writable`.
    pub fn writable() -> (set: EventSet)
        ensures
            set == (EventSet { readable: false, writable: true, error: false, hup: false }),
    {
        EventSet { readable: false, writable: true, error: false, hup: false }
    }

    /// The set that holds only `error`.
    pub fn error() -> (set: EventSet)
        ensures
            set == (EventSet { readable: false, writable: false, error: true, hup: false }),
    {
        EventSet { readable: false, writable: false, error: true, hup: false }
    }

    /// The set that holds only `hup`.
    pub fn hup() -> (set: EventSet)
        ensures
            set == (EventSet { readable: false, writable: false, error: false, hup: true }),
    {
        EventSet { readable: false, writable: false, error: false, hup: true }
    }

    /// Adds every event of `other`.
    pub fn insert(&mut self, other: EventSet)
        ensures
            *final(self) == old(self).union(other),
    {
        self.readable = self.readable || other.readable;
        self.writable = self.writable || other.writable;
        self.error = self.error || other.error;
        self.hup = self.hup || other.hup;
    }

    /// Takes every event of `other` out.
    pub fn remove(&mut self, other: EventSet)
        ensures
            *final(self) == old(self).minus(other),
    {
        self.readable = self.readable && !other.readable;
        self.writable = self.writable && !other.writable;
        self.error = self.error && !other.error;
        self.hup = self.hup && !other.hup;
    }
}

/// An event is in a union where it is in one of the two sets.
pub proof fn law_unions_hold_both(a: EventSet, b: EventSet)
    ensures
        a.union(b).readable <==> a.readable || b.readable,
        a.union(b).writable <==> a.writable || b.writable,
        a.union(b).error <==> a.error || b.error,
        a.union(b).hup <==> a.hup || b.hup,
{
}

/// An event is in a difference where it is in the first set and not in the second.
pub proof fn law_differences_hold_the_rest(a: EventSet, b: EventSet)
    ensures
        a.minus(b).readable <==> a.readable && !b.readable,
        a.minus(b).writable <==> a.writable && !b.writable,
        a.minus(b).error <==> a.error && !b.error,
        a.minus(b).hup <==> a.hup && !b.hup,
{
}

} // verus!
