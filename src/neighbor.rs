use vstd::prelude::*;

verus! {

/// A point found by a neighbor search: its index in the searched points and
/// its distance from the query.
#[derive(Debug, Clone, Copy, PartialEq, Eq, Structural)]
pub struct Neighbor {
    /// The index of the point.
    pub index: usize,
    /// The distance between the query and the point.
    pub distance: u64,
}

impl Neighbor {
    /// Creates a neighbor.
    pub fn new(index: usize, distance: u64) -> (n: Neighbor)
        ensures
            n.index == index,
            n.distance == distance,
    {
        Neighbor { index, distance }
    }
}

/// `a` comes strictly before `b`: it is closer, or as close with a smaller index.
pub open spec fn precedes(a: Neighbor, b: Neighbor) -> bool {
    a.distance < b.distance || (a.distance == b.distance && a.index < b.index)
}

/// The neighbors are in strictly increasing order of distance, then index.
pub open spec fn is_ordered(s: Seq<Neighbor>) -> bool {
    forall|i: int, j: int| 0 <= i < j < s.len() ==> precedes(#[trigger] s[i], #[trigger] s[j])
}

} // verus!
