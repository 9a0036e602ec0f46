use vstd::prelude::*;
use core::cmp::Ordering;

verus! {

/// An item together with the priority it is ordered by. Two priorities
/// compare by their priority values alone; the items play no part.
#[derive(Debug)]
pub struct Priority<T>(pub T, pub u64);

impl<T> Priority<T> {
    /// Pairs `item` with `priority`.
    pub fn new(item: T, priority: u64) -> (r: Priority<T>)
        ensures
            r.0 == item,
            r.1 == priority,
    {
        Priority(item, priority)
    }
}

/// The order of two priority values.
pub open spec fn priority_order(a: u64, b: u64) -> Ordering {
    if a < b {
        Ordering::Less
    } else if a > b {
        Ordering::Greater
    } else {
        Ordering::Equal
    }
}

impl<T> PartialEq for Priority<T> {
    fn eq(&self, other: &Priority<T>) -> (r: bool) {
        self.1 == other.1
    }
}

impl<T> vstd::std_specs::cmp::PartialEqSpecImpl for Priority<T> {
    open spec fn obeys_eq_spec() -> bool {
        true
    }

    open spec fn eq_spec(&self, other: &Priority<T>) -> bool {
        self.1 == other.1
    }
}

impl<T> PartialOrd for Priority<T> {
    fn partial_cmp(&self, other: &Priority<T>) -> (r: Option<Ordering>) {
        if self.1 < other.1 {
            Some(Ordering::Less)
        } else if self.1 > other.1 {
            Some(Ordering::Greater)
        } else {
            Some(Ordering::Equal)
        }
    }
}

impl<T> vstd::std_specs::cmp::PartialOrdSpecImpl for Priority<T> {
    open spec fn obeys_partial_cmp_spec() -> bool {
        true
    }

    open spec fn partial_cmp_spec(&self, other: &Priority<T>) -> Option<Ordering> {
        Some(priority_order(self.1, other.1))
    }
}

} // verus!
