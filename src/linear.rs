use vstd::prelude::*;
use crate::kdtree::KDTreeSearch;
use crate::neighbor::Neighbor;
use crate::point::{DistanceMetric, MAX_DIMENSION};
use crate::topk::{holds_index, is_top, lemma_top_unique, offer, precedes_point};

verus! {

/// Neighbor search by measuring every point.
#[derive(Debug)]
pub struct LinearSearch<'a, const N: usize> {
    points: &'a Vec<[u16; N]>,
    metric: DistanceMetric,
}

impl<'a, const N: usize> LinearSearch<'a, N> {
    /// The searched points.
    pub closed spec fn spec_points(&self) -> Seq<[u16; N]> {
        self.points@
    }

    /// The metric that distances are measured with.
    pub closed spec fn spec_metric(&self) -> DistanceMetric {
        self.metric
    }

    /// The distance of point `i` from `query`.
    pub open spec fn dist(&self, i: usize, query: [u16; N]) -> nat {
        self.spec_metric().spec_measure(self.spec_points()[i as int]@, query@)
    }

    /// Creates a search over `points`.
    pub fn new(points: &'a Vec<[u16; N]>, metric: &DistanceMetric) -> (s: Self)
        ensures
            s.spec_points() == points@,
            s.spec_metric() == *metric,
    {
        LinearSearch { points, metric: *metric }
    }

    /// Returns the `k` points nearest to `query`, nearest first; points at
    /// equal distance come in index order.
    pub fn search(&self, query: &[u16; N], k: usize) -> (r: Vec<Neighbor>)
        requires
            1 <= N <= MAX_DIMENSION,
        ensures
            is_top(r@, Set::new(|i: usize| i < self.spec_points().len()), k as nat, self.spec_metric(),
                self.spec_points(), *query),
    {
        let mut neighbors: Vec<Neighbor> = Vec::new();
        if k == 0 {
            return neighbors;
        }
        let ghost m = self.metric;
        let ghost pts = self.points@;
        let mut i: usize = 0;
        while i < self.points.len()
            invariant
                1 <= N <= MAX_DIMENSION,
                k > 0,
                i <= pts.len(),
                m == self.spec_metric(),
                pts == self.spec_points(),
                is_top(neighbors@, Set::new(|t: usize| t < i), k as nat, m, pts, *query),
            decreases pts.len() - i,
        {
            let distance = self.metric.measure(&self.points[i], query);
            offer::<N>(&mut neighbors, Neighbor::new(i, distance), k, Ghost(Set::new(|t: usize| t < i)), Ghost(m), Ghost(pts), Ghost(*query));
            proof {
                assert(Set::new(|t: usize| t < i).insert(i) =~= Set::new(|t: usize| t < i + 1));
            }
            i = i + 1;
        }
        neighbors
    }

    /// Returns the point nearest to `query`, the one with the smallest index
    /// among equally near ones, or none when there are no points.
    pub fn search_nearest(&self, query: &[u16; N]) -> (r: Option<Neighbor>)
        requires
            1 <= N <= MAX_DIMENSION,
        ensures
            r is None <==> self.spec_points().len() == 0,
            r matches Some(nb) ==> nb.index < self.spec_points().len()
                && nb.distance == self.dist(nb.index, *query)
                && forall|j: usize| j < self.spec_points().len() && j != nb.index
                    ==> precedes_point(nb, #[trigger] self.dist(j, *query), j),
    {
        let found = self.search(query, 1);
        let ghost all = Set::new(|i: usize| i < self.spec_points().len());
        if found.len() == 0 {
            proof {
                if self.spec_points().len() > 0 {
                    assert(all.contains(0usize));
                }
            }
            None
        } else {
            proof {
                assert forall|j: usize| j < self.spec_points().len() && j != found[0].index
                    implies precedes_point(found[0], #[trigger] self.dist(j, *query), j) by {
                    assert(all.contains(j));
                    if holds_index(found@, j) {
                        let t = choose|t: int| 0 <= t < found.len() && (#[trigger] found[t]).index == j;
                    }
                }
            }
            Some(found[0])
        }
    }

    /// Returns every point within `radius` of `query`, in index order.
    pub fn search_radius(&self, query: &[u16; N], radius: u64) -> (r: Vec<Neighbor>)
        requires
            1 <= N <= MAX_DIMENSION,
        ensures
            forall|k: int| 0 <= k < r.len() ==> (#[trigger] r[k]).index < self.spec_points().len()
                && r[k].distance == self.dist(r[k].index, *query) && r[k].distance <= radius,
            forall|a: int, b: int| 0 <= a < b < r.len() ==> (#[trigger] r[a]).index < (#[trigger] r[b]).index,
            forall|j: usize| j < self.spec_points().len() && self.dist(j, *query) <= radius
                ==> exists|k: int| 0 <= k < r.len() && (#[trigger] r[k]).index == j,
    {
        let mut neighbors: Vec<Neighbor> = Vec::new();
        let mut i: usize = 0;
        while i < self.points.len()
            invariant
                1 <= N <= MAX_DIMENSION,
                i <= self.spec_points().len(),
                forall|k: int| 0 <= k < neighbors.len() ==> (#[trigger] neighbors[k]).index < i
                    && neighbors[k].distance == self.dist(neighbors[k].index, *query) && neighbors[k].distance <= radius,
                forall|a: int, b: int| 0 <= a < b < neighbors.len() ==> (#[trigger] neighbors[a]).index < (#[trigger] neighbors[b]).index,
                forall|j: usize| j < i && self.dist(j, *query) <= radius
                    ==> exists|k: int| 0 <= k < neighbors.len() && (#[trigger] neighbors[k]).index == j,
            decreases self.spec_points().len() - i,
        {
            let distance = self.metric.measure(&self.points[i], query);
            if distance <= radius {
                let ghost before = neighbors@;
                neighbors.push(Neighbor::new(i, distance));
                proof {
                    assert forall|j: usize| j < i + 1 && self.dist(j, *query) <= radius
                        implies exists|k: int| 0 <= k < neighbors.len() && (#[trigger] neighbors[k]).index == j by {
                        if j == i {
                            assert(neighbors[before.len() as int].index == j);
                        } else {
                            let k = choose|k: int| 0 <= k < before.len() && (#[trigger] before[k]).index == j;
                            assert(neighbors[k] == before[k]);
                        }
                    }
                }
            }
            i = i + 1;
        }
        neighbors
    }
}

/// The k-d tree and the linear scan agree: over the same points, metric and
/// query, the lists that their `search` returns for the same `k` are equal.
pub proof fn lemma_kdtree_search_matches_linear<const N: usize>(
    tree: &KDTreeSearch<N>,
    scan: &LinearSearch<N>,
    query: [u16; N],
    k: nat,
    from_tree: Seq<Neighbor>,
    from_scan: Seq<Neighbor>,
)
    requires
        tree.spec_points() == scan.spec_points(),
        tree.spec_metric() == scan.spec_metric(),
        is_top(from_tree, Set::new(|i: usize| i < tree.spec_points().len()), k, tree.spec_metric(),
            tree.spec_points(), query),
        is_top(from_scan, Set::new(|i: usize| i < scan.spec_points().len()), k, scan.spec_metric(),
            scan.spec_points(), query),
    ensures
        from_tree == from_scan,
{
    lemma_top_unique(from_tree, from_scan, Set::new(|i: usize| i < tree.spec_points().len()), k,
        tree.spec_metric(), tree.spec_points(), query);
}

} // verus!
