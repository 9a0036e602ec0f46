use vstd::prelude::*;
use crate::point::{DistanceMetric, MAX_DIMENSION};
use crate::neighbor::Neighbor;
use crate::topk::{is_top, offer, holds_index, precedes_point, dist_of};

verus! {

/// A node of a k-d tree: the index of a point, the axis along which the node
/// splits, and its two subtrees.
#[derive(Debug)]
pub struct KDNode {
    /// The index of a point in the indexed points.
    pub index: usize,
    /// The axis of the split.
    pub axis: usize,
    /// The subtree of points at or below this one on the split axis.
    pub left: Option<Box<KDNode>>,
    /// The subtree of points at or above this one on the split axis.
    pub right: Option<Box<KDNode>>,
}

/// The point indices held by an optional subtree.
pub closed spec fn tree_members(t: Option<Box<KDNode>>) -> Set<usize>
    decreases t,
{
    match t {
        None => Set::empty(),
        Some(n) => n.members(),
    }
}

/// A subtree is a valid k-d tree over `pts`.
pub closed spec fn tree_wf<const N: usize>(t: Option<Box<KDNode>>, pts: Seq<[u16; N]>) -> bool
    decreases t,
{
    match t {
        None => true,
        Some(n) => n.wf(pts),
    }
}

impl KDNode {
    /// The point indices held by this node and its subtrees.
    pub closed spec fn members(self) -> Set<usize>
        decreases self,
    {
        tree_members(self.left).union(tree_members(self.right)).insert(self.index)
    }

    /// The left subtree, unboxed.
    pub closed spec fn left_child(self) -> Option<KDNode> {
        match self.left {
            Some(b) => Some(*b),
            None => None,
        }
    }

    /// The right subtree, unboxed.
    pub closed spec fn right_child(self) -> Option<KDNode> {
        match self.right {
            Some(b) => Some(*b),
            None => None,
        }
    }

    /// Every point of the left subtree lies at or below this node's point on
    /// the split axis, every point of the right subtree at or above it, and
    /// no index occurs twice.
    pub closed spec fn wf<const N: usize>(self, pts: Seq<[u16; N]>) -> bool
        decreases self,
    {
        &&& self.index < pts.len()
        &&& self.axis < N
        &&& (forall|j: usize| #[trigger] self.members().contains(j) ==> j < pts.len())
        &&& (forall|j: usize| #[trigger] tree_members(self.left).contains(j)
            ==> pts[j as int][self.axis as int] <= pts[self.index as int][self.axis as int])
        &&& (forall|j: usize| #[trigger] tree_members(self.right).contains(j)
            ==> pts[j as int][self.axis as int] >= pts[self.index as int][self.axis as int])
        &&& !tree_members(self.left).contains(self.index)
        &&& !tree_members(self.right).contains(self.index)
        &&& tree_members(self.left).disjoint(tree_members(self.right))
        &&& tree_wf(self.left, pts)
        &&& tree_wf(self.right, pts)
    }

    /// Creates a node.
    pub fn new(index: usize, axis: usize, left: Option<KDNode>, right: Option<KDNode>) -> (n: KDNode)
        ensures
            n.index == index,
            n.axis == axis,
            n.left_child() == left,
            n.right_child() == right,
            n.left == option_box(left),
            n.right == option_box(right),
    {
        let left = match left {
            Some(l) => Some(Box::new(l)),
            None => None,
        };
        let right = match right {
            Some(r) => Some(Box::new(r)),
            None => None,
        };
        KDNode { index, axis, left, right }
    }

    /// The left subtree.
    pub fn left(&self) -> (r: &Option<Box<KDNode>>)
        ensures
            r == self.left,
    {
        &self.left
    }

    /// The right subtree.
    pub fn right(&self) -> (r: &Option<Box<KDNode>>)
        ensures
            r == self.right,
    {
        &self.right
    }

    /// Whether this node has no subtree.
    pub fn is_leaf(&self) -> (b: bool)
        ensures
            b == (self.left_child().is_none() && self.right_child().is_none()),
    {
        self.left.is_none() && self.right.is_none()
    }
}

/// The set of the first `i` elements of a sequence grows by one element per step.
pub(crate) proof fn lemma_take_to_set(s: Seq<usize>, i: int)
    requires
        0 <= i < s.len(),
    ensures
        s.take(i + 1).to_set() == s.take(i).to_set().insert(s[i]),
{
    let a = s.take(i + 1).to_set();
    let b = s.take(i).to_set().insert(s[i]);
    assert forall|x: usize| a.contains(x) implies b.contains(x) by {
        let k = choose|k: int| 0 <= k < i + 1 && #[trigger] s.take(i + 1)[k] == x;
        if k < i {
            assert(s.take(i)[k] == x);
        }
    }
    assert forall|x: usize| b.contains(x) implies a.contains(x) by {
        if x == s[i] {
            assert(s.take(i + 1)[i] == x);
        } else {
            let k = choose|k: int| 0 <= k < i && #[trigger] s.take(i)[k] == x;
            assert(s.take(i + 1)[k] == x);
        }
    }
    assert(a =~= b);
}

/// Counts the indexed points whose coordinate on `axis` is at most `t`.
fn count_at_most<const N: usize>(points: &Vec<[u16; N]>, ids: &Vec<usize>, axis: usize, t: u16) -> (c: usize)
    requires
        axis < N,
        forall|i: int| 0 <= i < ids.len() ==> ids[i] < points.len(),
    ensures
        c <= ids.len(),
{
    let mut c: usize = 0;
    let mut i: usize = 0;
    while i < ids.len()
        invariant
            i <= ids.len(),
            c <= i,
            axis < N,
            forall|i: int| 0 <= i < ids.len() ==> ids[i] < points.len(),
        decreases ids.len() - i,
    {
        if points[ids[i]][axis] <= t {
            c = c + 1;
        }
        i = i + 1;
    }
    c
}

/// The least coordinate value on `axis` at or below which more than half of
/// the indexed points lie.
fn median_value<const N: usize>(points: &Vec<[u16; N]>, ids: &Vec<usize>, axis: usize) -> u16
    requires
        axis < N,
        forall|i: int| 0 <= i < ids.len() ==> ids[i] < points.len(),
{
    let half = ids.len() / 2;
    let mut lo: u16 = 0;
    let mut hi: u16 = 65535;
    while lo < hi
        invariant
            lo <= hi,
            axis < N,
            forall|i: int| 0 <= i < ids.len() ==> ids[i] < points.len(),
        decreases hi - lo,
    {
        let mid = lo + (hi - lo) / 2;
        if count_at_most(points, ids, axis, mid) > half {
            hi = mid;
        } else {
            lo = mid + 1;
        }
    }
    lo
}

/// The position in `ids` of the point whose coordinate on `axis` is nearest to `t`.
fn closest_position<const N: usize>(points: &Vec<[u16; N]>, ids: &Vec<usize>, axis: usize, t: u16) -> (p: usize)
    requires
        axis < N,
        ids.len() > 0,
        forall|i: int| 0 <= i < ids.len() ==> ids[i] < points.len(),
    ensures
        p < ids.len(),
{
    let mut best: usize = 0;
    let mut best_gap: u16 = 65535;
    let mut i: usize = 0;
    while i < ids.len()
        invariant
            i <= ids.len(),
            best < ids.len(),
            axis < N,
            forall|i: int| 0 <= i < ids.len() ==> ids[i] < points.len(),
        decreases ids.len() - i,
    {
        let v = points[ids[i]][axis];
        let gap = if v >= t {
            v - t
        } else {
            t - v
        };
        if gap < best_gap {
            best = i;
            best_gap = gap;
        }
        i = i + 1;
    }
    best
}

/// Builds a balanced k-d tree over the points named by `ids`, splitting on
/// axis `depth mod N` at the root.
fn build_node<const N: usize>(points: &Vec<[u16; N]>, ids: Vec<usize>, depth: usize) -> (r: Option<KDNode>)
    requires
        1 <= N,
        ids@.no_duplicates(),
        forall|i: int| 0 <= i < ids.len() ==> ids[i] < points.len(),
    ensures
        tree_wf(option_box(r), points@),
        tree_members(option_box(r)) == ids@.to_set(),
    decreases ids.len(),
{
    if ids.len() == 0 {
        proof {
            assert(ids@.to_set() =~= Set::empty());
        }
        return None;
    }
    let axis = depth % N;
    let target = median_value(points, &ids, axis);
    let p = closest_position(points, &ids, axis, target);
    let pivot = ids[p];
    let pv = points[pivot][axis];
    let half = ids.len() / 2;
    let mut left: Vec<usize> = Vec::new();
    let mut right: Vec<usize> = Vec::new();
    let mut i: usize = 0;
    while i < ids.len()
        invariant
            i <= ids.len(),
            p < ids.len(),
            pivot == ids[p as int],
            axis < N,
            pv == points[pivot as int][axis as int],
            ids@.no_duplicates(),
            forall|i: int| 0 <= i < ids.len() ==> ids[i] < points.len(),
            left@.no_duplicates(),
            right@.no_duplicates(),
            left@.to_set().disjoint(right@.to_set()),
            !left@.to_set().contains(pivot),
            !right@.to_set().contains(pivot),
            left@.to_set().union(right@.to_set()) + (if p < i {
                set![pivot]
            } else {
                Set::empty()
            }) == ids@.take(i as int).to_set(),
            left.len() + right.len() + (if p < i { 1int } else { 0int }) == i,
            forall|k: int| 0 <= k < left.len() ==> left[k] < points.len()
                && points[left[k] as int][axis as int] <= pv,
            forall|k: int| 0 <= k < right.len() ==> right[k] < points.len()
                && points[right[k] as int][axis as int] >= pv,
        decreases ids.len() - i,
    {
        proof {
            lemma_take_to_set(ids@, i as int);
        }
        let x = ids[i];
        if i != p {
            proof {
                assert(x != pivot);
                assert(!ids@.take(i as int).to_set().contains(x)) by {
                    if ids@.take(i as int).to_set().contains(x) {
                        let k = choose|k: int| 0 <= k < i && #[trigger] ids@.take(i as int)[k] == x;
                        assert(ids[k] == ids[i as int]);
                    }
                }
            }
            let v = points[x][axis];
            if v < pv || (v == pv && left.len() < half) {
                proof {
                    assert(left@.push(x).to_set() =~= left@.to_set().insert(x)) by {
                        assert forall|y: usize| left@.push(x).to_set().contains(y) implies left@.to_set().insert(x).contains(y) by {
                            let k = choose|k: int| 0 <= k < left@.push(x).len() && #[trigger] left@.push(x)[k] == y;
                            if k < left.len() {
                                assert(left@[k] == y);
                            }
                        }
                        assert forall|y: usize| left@.to_set().insert(x).contains(y) implies left@.push(x).to_set().contains(y) by {
                            if y == x {
                                assert(left@.push(x)[left.len() as int] == y);
                            } else {
                                let k = choose|k: int| 0 <= k < left.len() && #[trigger] left@[k] == y;
                                assert(left@.push(x)[k] == y);
                            }
                        }
                    }
                    assert(!left@.to_set().contains(x));
                }
                left.push(x);
            } else {
                proof {
                    assert(right@.push(x).to_set() =~= right@.to_set().insert(x)) by {
                        assert forall|y: usize| right@.push(x).to_set().contains(y) implies right@.to_set().insert(x).contains(y) by {
                            let k = choose|k: int| 0 <= k < right@.push(x).len() && #[trigger] right@.push(x)[k] == y;
                            if k < right.len() {
                                assert(right@[k] == y);
                            }
                        }
                        assert forall|y: usize| right@.to_set().insert(x).contains(y) implies right@.push(x).to_set().contains(y) by {
                            if y == x {
                                assert(right@.push(x)[right.len() as int] == y);
                            } else {
                                let k = choose|k: int| 0 <= k < right.len() && #[trigger] right@[k] == y;
                                assert(right@.push(x)[k] == y);
                            }
                        }
                    }
                    assert(!right@.to_set().contains(x));
                }
                right.push(x);
            }
        }
        i = i + 1;
        proof {
            assert(ids@.take(i as int).to_set() =~= left@.to_set().union(right@.to_set()) + (if p < i {
                set![pivot]
            } else {
                Set::empty()
            }));
        }
    }
    proof {
        assert(ids@.take(ids.len() as int) =~= ids@);
    }
    let l = build_node(points, left, axis + 1);
    let r = build_node(points, right, axis + 1);
    let node = KDNode::new(pivot, axis, l, r);
    proof {
        assert(node.left == option_box(l));
        assert(node.right == option_box(r));
        assert(node.members() =~= ids@.to_set());
    }
    Some(node)
}

/// Boxes the node of an optional subtree.
pub open spec fn option_box(t: Option<KDNode>) -> Option<Box<KDNode>> {
    match t {
        Some(n) => Some(Box::new(n)),
        None => None,
    }
}

} // verus!

verus! {

/// A k-d tree over a borrowed set of points, answering nearest-neighbor and
/// radius queries under one distance metric.
#[derive(Debug)]
pub struct KDTreeSearch<'a, const N: usize> {
    root: Option<Box<KDNode>>,
    points: &'a Vec<[u16; N]>,
    metric: DistanceMetric,
}

impl<'a, const N: usize> KDTreeSearch<'a, N> {
    /// The indexed points.
    pub closed spec fn spec_points(&self) -> Seq<[u16; N]> {
        self.points@
    }

    /// The metric that distances are measured with.
    pub closed spec fn spec_metric(&self) -> DistanceMetric {
        self.metric
    }

    /// The tree is a valid k-d tree that holds every point index once.
    pub closed spec fn wf(&self) -> bool {
        &&& 1 <= N <= MAX_DIMENSION
        &&& tree_wf(self.root, self.points@)
        &&& tree_members(self.root) == Set::new(|i: usize| i < self.points@.len())
    }

    /// The distance of point `i` from `query`.
    pub open spec fn dist(&self, i: usize, query: [u16; N]) -> nat {
        self.spec_metric().spec_measure(self.spec_points()[i as int]@, query@)
    }

    /// `e` names a point and holds its distance from `query`.
    pub open spec fn entry_ok(&self, e: Neighbor, query: [u16; N]) -> bool {
        e.index < self.spec_points().len() && e.distance == self.dist(e.index, query)
    }

    /// Builds a k-d tree over `points`.
    pub fn new(points: &'a Vec<[u16; N]>, metric: &DistanceMetric) -> (s: Self)
        requires
            1 <= N <= MAX_DIMENSION,
        ensures
            s.wf(),
            s.spec_points() == points@,
            s.spec_metric() == *metric,
    {
        let mut ids: Vec<usize> = Vec::new();
        let mut i: usize = 0;
        while i < points.len()
            invariant
                i <= points.len(),
                ids@ == Seq::new(i as nat, |k: int| k as usize),
            decreases points.len() - i,
        {
            ids.push(i);
            i = i + 1;
        }
        proof {
            assert(ids@.to_set() =~= Set::new(|i: usize| i < points@.len())) by {
                assert forall|x: usize| x < points@.len() implies ids@.to_set().contains(x) by {
                    assert(ids@[x as int] == x);
                }
            }
        }
        let root = build_node(points, ids, 0);
        let root = match root {
            Some(n) => Some(Box::new(n)),
            None => None,
        };
        KDTreeSearch { root, points, metric: *metric }
    }

    /// Returns every point within `radius` of `query`, each once, in no
    /// particular order.
    pub fn search_radius(&self, query: &[u16; N], radius: u64) -> (r: Vec<Neighbor>)
        requires
            self.wf(),
        ensures
            forall|k: int| 0 <= k < r.len() ==> self.entry_ok(#[trigger] r[k], *query)
                && r[k].distance <= radius,
            forall|a: int, b: int| 0 <= a < b < r.len() ==> (#[trigger] r[a]).index != (#[trigger] r[b]).index,
            forall|j: usize| j < self.spec_points().len() && self.dist(j, *query) <= radius
                ==> exists|k: int| 0 <= k < r.len() && (#[trigger] r[k]).index == j,
    {
        let mut neighbors: Vec<Neighbor> = Vec::new();
        self.search_radius_recursively(&self.root, query, radius, &mut neighbors);
        proof {
            assert forall|j: usize| j < self.spec_points().len() && self.dist(j, *query) <= radius
                implies exists|k: int| 0 <= k < neighbors.len() && (#[trigger] neighbors[k]).index == j by {
                assert(Set::new(|i: usize| i < self.points@.len()).contains(j));
                assert(tree_members(self.root).contains(j));
            }
        }
        neighbors
    }

    fn search_radius_recursively(
        &self,
        root: &Option<Box<KDNode>>,
        query: &[u16; N],
        radius: u64,
        neighbors: &mut Vec<Neighbor>,
    )
        requires
            1 <= N <= MAX_DIMENSION,
            tree_wf(*root, self.spec_points()),
        ensures
            final(neighbors).len() >= old(neighbors).len(),
            forall|k: int| 0 <= k < old(neighbors).len() ==> final(neighbors)[k] == old(neighbors)[k],
            forall|k: int| old(neighbors).len() <= k < final(neighbors).len()
                ==> self.entry_ok(#[trigger] final(neighbors)[k], *query)
                && final(neighbors)[k].distance <= radius
                && tree_members(*root).contains(final(neighbors)[k].index),
            forall|a: int, b: int| old(neighbors).len() <= a < b < final(neighbors).len()
                ==> (#[trigger] final(neighbors)[a]).index != (#[trigger] final(neighbors)[b]).index,
            forall|j: usize| tree_members(*root).contains(j) && self.dist(j, *query) <= radius
                ==> exists|k: int| old(neighbors).len() <= k < final(neighbors).len()
                && (#[trigger] final(neighbors)[k]).index == j,
        decreases root,
    {
        let ghost v0 = neighbors@;
        match root {
            None => {
                assert(tree_members(*root) == Set::<usize>::empty());
            },
            Some(node) => {
                let ghost n = **node;
                assert(n.wf(self.spec_points()));
                let point = &self.points[node.index];
                let distance = self.metric.measure(point, query);
                if distance <= radius {
                    neighbors.push(Neighbor::new(node.index, distance));
                }
                let ghost v1 = neighbors@;
                let axis = node.axis;
                let bound = self.metric.measure_axis(query[axis], point[axis]);
                let go_left = bound <= radius || query[axis] < point[axis];
                let go_right = bound <= radius || query[axis] >= point[axis];
                if go_left {
                    self.search_radius_recursively(node.left(), query, radius, neighbors);
                }
                let ghost v2 = neighbors@;
                if go_right {
                    self.search_radius_recursively(node.right(), query, radius, neighbors);
                }
                let ghost v3 = neighbors@;
                proof {
                    let pts = self.spec_points();
                    let pv = pts[n.index as int][n.axis as int];
                    let qv = query@[n.axis as int];
                    assert(n.members() == tree_members(n.left).union(tree_members(n.right)).insert(n.index));
                    assert forall|j: usize| tree_members(*root).contains(j) && self.dist(j, *query) <= radius
                        implies exists|k: int| v0.len() <= k < v3.len() && (#[trigger] v3[k]).index == j by {
                        if j == n.index {
                            assert(v3[v0.len() as int] == v1[v0.len() as int]);
                            assert(v3[v0.len() as int].index == j);
                        } else if tree_members(n.left).contains(j) {
                            let pj = pts[j as int][n.axis as int];
                            if !go_left {
                                self.metric.lemma_axis_bound(pts[j as int]@, query@, n.axis as int);
                                self.metric.lemma_axis_bound_monotone(qv - pv, qv - pj);
                                assert(false);
                            }
                            let k = choose|k: int| v1.len() <= k < v2.len() && (#[trigger] v2[k]).index == j;
                            assert(v3[k] == v2[k]);
                        } else {
                            assert(tree_members(n.right).contains(j));
                            let pj = pts[j as int][n.axis as int];
                            if !go_right {
                                self.metric.lemma_axis_bound(pts[j as int]@, query@, n.axis as int);
                                self.metric.lemma_axis_bound_monotone(qv - pv, qv - pj);
                                assert(false);
                            }
                            let k = choose|k: int| v2.len() <= k < v3.len() && (#[trigger] v3[k]).index == j;
                        }
                    }
                    assert forall|a: int, b: int| v0.len() <= a < b < v3.len()
                        implies (#[trigger] v3[a]).index != (#[trigger] v3[b]).index by {
                        if a < v1.len() {
                            assert(v3[a] == v1[a]);
                        }
                        if b < v2.len() {
                            assert(v3[b] == v2[b]);
                        }
                        if a < v2.len() {
                            assert(v3[a] == v2[a]);
                        }
                        if b < v1.len() {
                            assert(v3[b] == v1[b]);
                        }
                    }
                    assert forall|k: int| v0.len() <= k < v3.len()
                        implies self.entry_ok(#[trigger] v3[k], *query) && v3[k].distance <= radius
                        && tree_members(*root).contains(v3[k].index) by {
                        if k < v1.len() {
                            assert(v3[k] == v1[k]);
                        } else if k < v2.len() {
                            assert(v3[k] == v2[k]);
                        }
                    }
                }
            },
        }
    }
}

} // verus!

verus! {

impl<'a, const N: usize> KDTreeSearch<'a, N> {
    /// Returns the `k` points nearest to `query`, nearest first; points at
    /// equal distance come in index order.
    pub fn search(&self, query: &[u16; N], k: usize) -> (r: Vec<Neighbor>)
        requires
            self.wf(),
        ensures
            is_top(r@, Set::new(|i: usize| i < self.spec_points().len()), k as nat, self.spec_metric(),
                self.spec_points(), *query),
    {
        let ghost all = Set::new(|i: usize| i < self.spec_points().len());
        if k == 0 {
            return Vec::new();
        }
        let mut neighbors: Vec<Neighbor> = Vec::new();
        self.search_recursively(&self.root, query, k, &mut neighbors, Ghost(Set::empty()));
        proof {
            assert(Set::<usize>::empty().union(tree_members(self.root)) =~= all);
        }
        neighbors
    }

    /// Returns the point nearest to `query`, the one with the smallest index
    /// among equally near ones, or none when there are no points.
    pub fn search_nearest(&self, query: &[u16; N]) -> (r: Option<Neighbor>)
        requires
            self.wf(),
        ensures
            r is None <==> self.spec_points().len() == 0,
            r matches Some(nb) ==> nb.index < self.spec_points().len()
                && nb.distance == self.dist(nb.index, *query)
                && forall|j: usize| j < self.spec_points().len() && j != nb.index
                    ==> precedes_point(nb, #[trigger] self.dist(j, *query), j),
    {
        let found = self.search(query, 1);
        let ghost all = Set::new(|i: usize| i < self.spec_points().len());
        if found.len() == 0 {
            proof {
                if self.spec_points().len() > 0 {
                    assert(all.contains(0usize));
                }
            }
            None
        } else {
            proof {
                assert forall|j: usize| j < self.spec_points().len() && j != found[0].index
                    implies precedes_point(found[0], #[trigger] self.dist(j, *query), j) by {
                    assert(all.contains(j));
                    if holds_index(found@, j) {
                        let t = choose|t: int| 0 <= t < found.len() && (#[trigger] found[t]).index == j;
                    }
                }
            }
            Some(found[0])
        }
    }

    fn search_recursively(
        &self,
        root: &Option<Box<KDNode>>,
        query: &[u16; N],
        k: usize,
        neighbors: &mut Vec<Neighbor>,
        Ghost(visited): Ghost<Set<usize>>,
    )
        requires
            1 <= N <= MAX_DIMENSION,
            k > 0,
            tree_wf(*root, self.spec_points()),
            visited.disjoint(tree_members(*root)),
            is_top(old(neighbors)@, visited, k as nat, self.spec_metric(), self.spec_points(), *query),
        ensures
            is_top(final(neighbors)@, visited.union(tree_members(*root)), k as nat, self.spec_metric(),
                self.spec_points(), *query),
        decreases root,
    {
        let ghost m = self.spec_metric();
        let ghost pts = self.spec_points();
        match root {
            None => {
                proof {
                    assert(visited.union(tree_members(*root)) =~= visited);
                }
            },
            Some(node) => {
                let ghost n = **node;
                assert(n.wf(pts));
                let point = &self.points[node.index];
                let distance = self.metric.measure(point, query);
                offer::<N>(neighbors, Neighbor::new(node.index, distance), k, Ghost(visited), Ghost(m), Ghost(pts), Ghost(*query));
                let ghost v1 = visited.insert(n.index);
                let axis = node.axis;
                let near_is_left = query[axis] < point[axis];
                let (near, far) = if near_is_left {
                    (node.left(), node.right())
                } else {
                    (node.right(), node.left())
                };
                proof {
                    assert(n.members() == tree_members(n.left).union(tree_members(n.right)).insert(n.index));
                }
                self.search_recursively(near, query, k, neighbors, Ghost(v1));
                let ghost v2 = v1.union(tree_members(*near));
                let bound = self.metric.measure_axis(query[axis], point[axis]);
                if neighbors.len() < k || bound <= neighbors[neighbors.len() - 1].distance {
                    self.search_recursively(far, query, k, neighbors, Ghost(v2));
                    proof {
                        assert(v2.union(tree_members(*far)) =~= visited.union(tree_members(*root)));
                    }
                } else {
                    proof {
                        let best = neighbors@;
                        let v3 = visited.union(tree_members(*root));
                        assert(v3 =~= v2.union(tree_members(*far)));
                        let pv = pts[n.index as int][n.axis as int];
                        let qv = query@[n.axis as int];
                        assert forall|j: usize| #[trigger] v3.contains(j) && !holds_index(best, j) implies best.len() == k
                            && (k == 0 || precedes_point(best.last(), dist_of(m, pts, *query, j), j)) by {
                            if !v2.contains(j) {
                                assert(tree_members(*far).contains(j));
                                let pj = pts[j as int][n.axis as int];
                                m.lemma_axis_bound(pts[j as int]@, query@, n.axis as int);
                                m.lemma_axis_bound_monotone(qv - pv, qv - pj);
                            }
                        }
                    }
                }
            },
        }
    }
}

} // verus!
