//! the event module
use vstd::prelude::*;
use core::cmp::Ordering;

verus! {

/// An event which have a type and a finished time.
pub struct Event<EventType> {
    /// the finished time of the event
    pub finished_time: u64,
    /// the type of the event
    pub event: EventType,
}

/// Events are ordered by finished time, reversed: the earliest event is the
/// greatest, so that a max-heap pops it first.
pub open spec fn event_order(a: u64, b: u64) -> Ordering {
    if b < a {
        Ordering::Less
    } else if b == a {
        Ordering::Equal
    } else {
        Ordering::Greater
    }
}

impl<EventType> PartialEq for Event<EventType> {
    fn eq(&self, other: &Self) -> (r: bool) {
        self.finished_time == other.finished_time
    }
}

impl<EventType> vstd::std_specs::cmp::PartialEqSpecImpl for Event<EventType> {
    open spec fn obeys_eq_spec() -> bool {
        true
    }

    open spec fn eq_spec(&self, other: &Self) -> bool {
        self.finished_time == other.finished_time
    }
}

impl<EventType> Event<EventType> {
    /// Compares by finished time, reversed.
    pub fn compare(&self, other: &Self) -> (r: Ordering)
        ensures
            r == event_order(self.finished_time, other.finished_time),
    {
        if other.finished_time < self.finished_time {
            Ordering::Less
        } else if other.finished_time == self.finished_time {
            Ordering::Equal
        } else {
            Ordering::Greater
        }
    }
}

impl<EventType> PartialOrd for Event<EventType> {
    fn partial_cmp(&self, other: &Self) -> (r: Option<Ordering>) {
        Some(self.compare(other))
    }
}

impl<EventType> vstd::std_specs::cmp::PartialOrdSpecImpl for Event<EventType> {
    open spec fn obeys_partial_cmp_spec() -> bool {
        true
    }

    open spec fn partial_cmp_spec(&self, other: &Self) -> Option<Ordering> {
        Some(event_order(self.finished_time, other.finished_time))
    }
}

} // verus!
