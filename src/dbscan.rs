use vstd::prelude::*;
use crate::cluster::{Cluster, MAX_MEMBERS};
use crate::kdtree::KDTreeSearch;
use crate::neighbor::Neighbor;
use crate::point::{DistanceMetric, MAX_DIMENSION, floor_sqrt, partial_squared_distance, squared_distance};

verus! {

/// The state of a point during a DBSCAN run.
#[derive(Debug, Clone, Copy, PartialEq, Eq, Structural)]
pub enum Label {
    /// The point belongs to the cluster with this number.
    Assigned(usize),
    /// The point is not dense enough to start a cluster.
    Outlier,
    /// The point waits in the queue of the cluster being expanded.
    Marked,
    /// The point has not been looked at.
    Undefined,
}

impl Label {
    /// Whether the point belongs to a cluster.
    pub fn is_assigned(&self) -> (b: bool)
        ensures
            b == (*self is Assigned),
    {
        match self {
            Label::Assigned(_) => true,
            _ => false,
        }
    }

    /// Whether the point is an outlier.
    pub fn is_outlier(&self) -> (b: bool)
        ensures
            b == (*self is Outlier),
    {
        match self {
            Label::Outlier => true,
            _ => false,
        }
    }

    /// Whether the point has not been looked at.
    pub fn is_undefined(&self) -> (b: bool)
        ensures
            b == (*self is Undefined),
    {
        match self {
            Label::Undefined => true,
            _ => false,
        }
    }
}

/// The number of labels that are not `Assigned`.
pub open spec fn unassigned(labels: Seq<Label>) -> nat
    decreases labels.len(),
{
    if labels.len() == 0 {
        0
    } else {
        unassigned(labels.drop_last()) + if labels.last() is Assigned {
            0nat
        } else {
            1nat
        }
    }
}

proof fn lemma_unassigned_update(s: Seq<Label>, i: int, v: Label)
    requires
        0 <= i < s.len(),
    ensures
        unassigned(s.update(i, v)) + (if s[i] is Assigned { 0int } else { 1int })
            == unassigned(s) + (if v is Assigned { 0int } else { 1int }),
    decreases s.len(),
{
    let t = s.update(i, v);
    if i == s.len() - 1 {
        assert(t.drop_last() =~= s.drop_last());
    } else {
        assert(t.drop_last() =~= s.drop_last().update(i, v));
        lemma_unassigned_update(s.drop_last(), i, v);
    }
}

pub(crate) proof fn lemma_distance_to_self<const N: usize>(m: DistanceMetric, p: [u16; N])
    ensures
        m.spec_measure(p@, p@) == 0,
{
    assert forall|n: int| 0 <= n implies partial_squared_distance(p@, p@, n) == 0 by {
        lemma_partial_zero(p@, n);
    }
    assert(squared_distance(p@, p@) == 0);
    assert(floor_sqrt(0) == 0);
}

proof fn lemma_partial_zero(p: Seq<u16>, n: int)
    requires
        0 <= n,
    ensures
        partial_squared_distance(p, p, n) == 0,
    decreases n,
{
    if n > 0 {
        lemma_partial_zero(p, n - 1);
    }
}

/// The number of the first `k` points within `eps` of `q`.
pub open spec fn count_within<const N: usize>(m: DistanceMetric, pts: Seq<[u16; N]>, q: [u16; N], eps: u64, k: int) -> nat
    decreases k,
{
    if k <= 0 {
        0
    } else {
        count_within(m, pts, q, eps, k - 1) + if m.spec_measure(pts[k - 1]@, q@) <= eps {
            1nat
        } else {
            0nat
        }
    }
}

/// The indices of the first `k` points within `eps` of `q`.
spec fn within_set<const N: usize>(m: DistanceMetric, pts: Seq<[u16; N]>, q: [u16; N], eps: u64, k: int) -> Set<usize>
    decreases k,
{
    if k <= 0 {
        Set::empty()
    } else if m.spec_measure(pts[k - 1]@, q@) <= eps {
        within_set(m, pts, q, eps, k - 1).insert((k - 1) as usize)
    } else {
        within_set(m, pts, q, eps, k - 1)
    }
}

proof fn lemma_within_set<const N: usize>(m: DistanceMetric, pts: Seq<[u16; N]>, q: [u16; N], eps: u64, k: int)
    requires
        0 <= k <= usize::MAX,
    ensures
        within_set(m, pts, q, eps, k).finite(),
        within_set(m, pts, q, eps, k).len() == count_within(m, pts, q, eps, k),
        forall|j: usize| #[trigger] within_set(m, pts, q, eps, k).contains(j)
            <==> j < k && m.spec_measure(pts[j as int]@, q@) <= eps,
    decreases k,
{
    if k > 0 {
        lemma_within_set(m, pts, q, eps, k - 1);
        let prev = within_set(m, pts, q, eps, k - 1);
        if m.spec_measure(pts[k - 1]@, q@) <= eps {
            assert(!prev.contains((k - 1) as usize));
        }
        assert forall|j: usize| #[trigger] within_set(m, pts, q, eps, k).contains(j)
            <==> j < k && m.spec_measure(pts[j as int]@, q@) <= eps by {
            if j == k - 1 {
            } else {
                assert(within_set(m, pts, q, eps, k).contains(j) == prev.contains(j));
            }
        }
    }
}

/// A list of neighbors that names each point within `eps` of `q` exactly
/// once is as long as the number of such points.
proof fn lemma_neighbor_count<const N: usize>(r: Seq<Neighbor>, m: DistanceMetric, pts: Seq<[u16; N]>, q: [u16; N], eps: u64)
    requires
        pts.len() <= usize::MAX,
        forall|k: int| 0 <= k < r.len() ==> (#[trigger] r[k]).index < pts.len()
            && m.spec_measure(pts[r[k].index as int]@, q@) <= eps,
        forall|a: int, b: int| 0 <= a < b < r.len() ==> (#[trigger] r[a]).index != (#[trigger] r[b]).index,
        forall|j: usize| j < pts.len() && m.spec_measure(pts[j as int]@, q@) <= eps
            ==> exists|k: int| 0 <= k < r.len() && (#[trigger] r[k]).index == j,
    ensures
        r.len() == count_within(m, pts, q, eps, pts.len() as int),
{
    let idx = r.map_values(|e: Neighbor| e.index);
    assert(idx.no_duplicates()) by {
        assert forall|a: int, b: int| 0 <= a < idx.len() && 0 <= b < idx.len() && a != b implies idx[a] != idx[b] by {
            if a < b {
                assert(r[a].index != r[b].index);
            } else {
                assert(r[b].index != r[a].index);
            }
        }
    }
    idx.unique_seq_to_set();
    lemma_within_set(m, pts, q, eps, pts.len() as int);
    let w = within_set(m, pts, q, eps, pts.len() as int);
    assert(idx.to_set() =~= w) by {
        assert forall|j: usize| idx.to_set().contains(j) implies w.contains(j) by {
            let k = choose|k: int| 0 <= k < idx.len() && idx[k] == j;
            assert(r[k].index == j);
        }
        assert forall|j: usize| w.contains(j) implies idx.to_set().contains(j) by {
            let k = choose|k: int| 0 <= k < r.len() && (#[trigger] r[k]).index == j;
            assert(idx[k] == j);
        }
    }
}

/// Point `x` is a core point: at least `min_samples` points, itself
/// included, lie within `eps` of it.
pub open spec fn is_core<const N: usize>(m: DistanceMetric, pts: Seq<[u16; N]>, eps: u64, min_samples: usize, x: int) -> bool {
    count_within(m, pts, pts[x], eps, pts.len() as int) >= min_samples
}

/// Point `x` lies within `eps` of a core point (possibly itself).
pub open spec fn near_core<const N: usize>(m: DistanceMetric, pts: Seq<[u16; N]>, eps: u64, min_samples: usize, x: int) -> bool {
    exists|j: int| 0 <= j < pts.len() && #[trigger] is_core(m, pts, eps, min_samples, j)
        && m.spec_measure(pts[x]@, pts[j]@) <= eps
}

proof fn lemma_count_within_bound<const N: usize>(m: DistanceMetric, pts: Seq<[u16; N]>, q: [u16; N], eps: u64, k: int)
    requires
        0 <= k,
    ensures
        count_within(m, pts, q, eps, k) <= k,
    decreases k,
{
    if k > 0 {
        lemma_count_within_bound(m, pts, q, eps, k - 1);
    }
}

/// The radius search around point `c` finds as many points as lie within
/// `eps` of it.
proof fn lemma_search_count<const N: usize>(ns: &KDTreeSearch<N>, points: Seq<[u16; N]>, c: int, eps: u64, r: Seq<Neighbor>)
    requires
        ns.spec_points() == points,
        points.len() <= usize::MAX,
        0 <= c < points.len(),
        forall|k: int| 0 <= k < r.len() ==> ns.entry_ok(#[trigger] r[k], points[c]) && r[k].distance <= eps,
        forall|a: int, b: int| 0 <= a < b < r.len() ==> (#[trigger] r[a]).index != (#[trigger] r[b]).index,
        forall|j: usize| j < points.len() && ns.dist(j, points[c]) <= eps
            ==> exists|k: int| 0 <= k < r.len() && (#[trigger] r[k]).index == j,
    ensures
        r.len() == count_within(ns.spec_metric(), points, points[c], eps, points.len() as int),
{
    let q = points[c];
    let m = ns.spec_metric();
    assert forall|j: usize| j < points.len() && m.spec_measure(points[j as int]@, q@) <= eps
        implies exists|k: int| 0 <= k < r.len() && (#[trigger] r[k]).index == j by {
        assert(ns.dist(j, q) <= eps);
    }
    assert forall|k: int| 0 <= k < r.len() implies (#[trigger] r[k]).index < points.len()
        && m.spec_measure(points[r[k].index as int]@, q@) <= eps by {
        assert(ns.entry_ok(r[k], q));
    }
    lemma_neighbor_count(r, m, points, q, eps);
}

/// Point `y` waits in the queue from position `head` on.
pub open spec fn pending(queue: Seq<usize>, head: int, y: int) -> bool {
    exists|j: int| head <= j < queue.len() && queue[j] as int == y
}

/// Every point within `eps` of an assigned core point other than `skip`
/// is assigned, or waits in the queue.
pub open spec fn core_reach_except<const N: usize>(
    m: DistanceMetric,
    pts: Seq<[u16; N]>,
    eps: u64,
    min_samples: usize,
    labels: Seq<Label>,
    queue: Seq<usize>,
    head: int,
    skip: int,
) -> bool {
    forall|x: int, y: int| 0 <= x < pts.len() && 0 <= y < pts.len() && x != skip && (#[trigger] labels[x]) is Assigned
        && is_core(m, pts, eps, min_samples, x) && #[trigger] m.spec_measure(pts[y]@, pts[x]@) <= eps
        ==> labels[y] is Assigned || pending(queue, head, y)
}

/// Every point within `eps` of an assigned core point is assigned, or
/// waits in the queue.
pub open spec fn core_reach_done<const N: usize>(
    m: DistanceMetric,
    pts: Seq<[u16; N]>,
    eps: u64,
    min_samples: usize,
    labels: Seq<Label>,
    queue: Seq<usize>,
    head: int,
) -> bool {
    core_reach_except(m, pts, eps, min_samples, labels, queue, head, -1)
}

proof fn lemma_pending_pop<const N: usize>(
    m: DistanceMetric,
    pts: Seq<[u16; N]>,
    eps: u64,
    min_samples: usize,
    labels: Seq<Label>,
    queue: Seq<usize>,
    head: int,
    current: int,
)
    requires
        labels.len() == pts.len(),
        0 < head <= queue.len(),
        queue[head - 1] as int == current,
        0 <= current < labels.len(),
        labels[current] is Assigned,
        core_reach_done(m, pts, eps, min_samples, labels, queue, head - 1),
    ensures
        core_reach_done(m, pts, eps, min_samples, labels, queue, head),
{
    assert forall|x: int, y: int| 0 <= x < pts.len() && 0 <= y < pts.len() && x != -1 && (#[trigger] labels[x]) is Assigned
        && is_core(m, pts, eps, min_samples, x) && #[trigger] m.spec_measure(pts[y]@, pts[x]@) <= eps
        implies labels[y] is Assigned || pending(queue, head, y) by {
        if !(labels[y] is Assigned) {
            let j = choose|j: int| head - 1 <= j < queue.len() && queue[j] as int == y;
            assert(j != head - 1);
        }
    }
}

proof fn lemma_reach_assign<const N: usize>(
    m: DistanceMetric,
    pts: Seq<[u16; N]>,
    eps: u64,
    min_samples: usize,
    before: Seq<Label>,
    labels: Seq<Label>,
    queue: Seq<usize>,
    head: int,
    current: int,
    cluster_id: usize,
)
    requires
        before.len() == pts.len(),
        0 < head <= queue.len(),
        queue[head - 1] as int == current,
        0 <= current < before.len(),
        labels == before.update(current, Label::Assigned(cluster_id)),
        core_reach_done(m, pts, eps, min_samples, before, queue, head - 1),
    ensures
        core_reach_except(m, pts, eps, min_samples, labels, queue, head, current),
{
    assert forall|x: int, y: int| 0 <= x < pts.len() && 0 <= y < pts.len() && x != current && (#[trigger] labels[x]) is Assigned
        && is_core(m, pts, eps, min_samples, x) && #[trigger] m.spec_measure(pts[y]@, pts[x]@) <= eps
        implies labels[y] is Assigned || pending(queue, head, y) by {
        assert(before[x] is Assigned);
        assert(before[y] is Assigned || pending(queue, head - 1, y));
        if !(labels[y] is Assigned) {
            assert(y != current);
            let j = choose|j: int| head - 1 <= j < queue.len() && queue[j] as int == y;
            assert(j != head - 1);
        }
    }
}

proof fn lemma_reach_push<const N: usize>(
    m: DistanceMetric,
    pts: Seq<[u16; N]>,
    eps: u64,
    min_samples: usize,
    before: Seq<Label>,
    labels: Seq<Label>,
    queue_before: Seq<usize>,
    queue: Seq<usize>,
    head: int,
    current: int,
    idx: usize,
)
    requires
        before.len() == pts.len(),
        labels.len() == pts.len(),
        0 <= head <= queue_before.len(),
        idx < pts.len(),
        !(before[idx as int] is Assigned),
        !(labels[idx as int] is Assigned),
        forall|x: int| 0 <= x < pts.len() && x != idx ==> labels[x] == before[x],
        queue == queue_before.push(idx),
        core_reach_except(m, pts, eps, min_samples, before, queue_before, head, current),
    ensures
        core_reach_except(m, pts, eps, min_samples, labels, queue, head, current),
        pending(queue, head, idx as int),
        forall|y: int| pending(queue_before, head, y) ==> #[trigger] pending(queue, head, y),
{
    assert(queue[queue_before.len() as int] == idx);
    assert forall|y: int| pending(queue_before, head, y) implies #[trigger] pending(queue, head, y) by {
        let j = choose|j: int| head <= j < queue_before.len() && queue_before[j] as int == y;
        assert(queue[j] == queue_before[j]);
    }
    assert forall|x: int, y: int| 0 <= x < pts.len() && 0 <= y < pts.len() && x != current && (#[trigger] labels[x]) is Assigned
        && is_core(m, pts, eps, min_samples, x) && #[trigger] m.spec_measure(pts[y]@, pts[x]@) <= eps
        implies labels[y] is Assigned || pending(queue, head, y) by {
        assert(x != idx);
        assert(labels[x] == before[x]);
        assert(before[y] is Assigned || pending(queue_before, head, y));
        if y != idx as int {
            assert(labels[y] == before[y]);
        }
    }
}

/// The number of the cluster that an `Assigned` label names.
pub open spec fn assigned_id(l: Label) -> int {
    match l {
        Label::Assigned(c) => c as int,
        _ => -1,
    }
}

/// DBSCAN: density-based clustering with a radius and a minimum number of
/// neighbors.
#[derive(Debug, PartialEq, Eq, Structural)]
pub struct DBSCAN {
    /// The least number of points within `epsilon` (itself included) that
    /// makes a point a core point.
    pub min_samples: usize,
    /// The neighborhood radius.
    pub epsilon: u64,
    /// The metric that distances are measured with.
    pub metric: DistanceMetric,
}

/// Every pair of points lies within `eps` of each other.
pub open spec fn all_within<const N: usize>(m: DistanceMetric, points: Seq<[u16; N]>, eps: u64) -> bool {
    forall|i: int, j: int| 0 <= i < points.len() && 0 <= j < points.len()
        ==> #[trigger] m.spec_measure(points[i]@, points[j]@) <= eps
}

impl DBSCAN {
    /// Creates a DBSCAN configuration.
    pub fn new(min_samples: usize, epsilon: u64, metric: &DistanceMetric) -> (d: DBSCAN)
        ensures
            d.min_samples == min_samples,
            d.epsilon == epsilon,
            d.metric == *metric,
    {
        DBSCAN { min_samples, epsilon, metric: *metric }
    }

    /// The density facts that a cluster expansion keeps: the queued
    /// neighbors and the assigned points lie near a core point, no outlier is
    /// a core point, and every point within reach of an assigned core point
    /// is assigned or queued.
    pub open spec fn expansion_ready<const N: usize>(&self, points: Seq<[u16; N]>, neighbors: Seq<Neighbor>, labels: Seq<Label>) -> bool {
        &&& forall|k: int| 0 <= k < neighbors.len()
            ==> near_core(self.metric, points, self.epsilon, self.min_samples, (#[trigger] neighbors[k]).index as int)
        &&& forall|x: int| 0 <= x < labels.len() && (#[trigger] labels[x]) is Assigned
            ==> near_core(self.metric, points, self.epsilon, self.min_samples, x)
        &&& forall|x: int| 0 <= x < labels.len() && (#[trigger] labels[x]) is Outlier
            ==> !is_core(self.metric, points, self.epsilon, self.min_samples, x)
        &&& core_reach_done(self.metric, points, self.epsilon, self.min_samples, labels,
            neighbors.map_values(|nb: Neighbor| nb.index), 0)
    }

    /// Grows cluster `cluster_id` from the queued `neighbors` through every
    /// point that is density-reachable from them.
    fn expand_cluster<const N: usize>(
        &self,
        cluster_id: usize,
        points: &Vec<[u16; N]>,
        ns: &KDTreeSearch<N>,
        neighbors: &Vec<Neighbor>,
        labels: &mut Vec<Label>,
    )
        requires
            ns.wf(),
            ns.spec_points() == points@,
            ns.spec_metric() == self.metric,
            old(labels).len() == points.len(),
            forall|k: int| 0 <= k < neighbors.len() ==> (#[trigger] neighbors[k]).index < points.len(),
            forall|x: int| 0 <= x < old(labels).len() && (#[trigger] old(labels)[x]) is Marked
                ==> exists|k: int| 0 <= k < neighbors.len() && (#[trigger] neighbors[k]).index == x,
        ensures
            self.expansion_ready(points@, neighbors@, old(labels)@) ==> {
                &&& core_reach_done(self.metric, points@, self.epsilon, self.min_samples, final(labels)@, Seq::empty(), 0)
                &&& forall|x: int| 0 <= x < final(labels).len() && (#[trigger] final(labels)[x]) is Assigned
                    ==> near_core(self.metric, points@, self.epsilon, self.min_samples, x)
            },
            final(labels).len() == old(labels).len(),
            forall|x: int| 0 <= x < final(labels).len() ==> !((#[trigger] final(labels)[x]) is Marked),
            forall|k: int| 0 <= k < neighbors.len()
                ==> final(labels)[(#[trigger] neighbors[k]).index as int] is Assigned,
            forall|x: int| 0 <= x < final(labels).len() && (#[trigger] old(labels)[x]) is Assigned
                ==> final(labels)[x] == old(labels)[x],
            forall|x: int| 0 <= x < final(labels).len() && !((#[trigger] old(labels)[x]) is Undefined)
                ==> !(final(labels)[x] is Undefined),
            forall|x: int| 0 <= x < final(labels).len() && (#[trigger] final(labels)[x]) is Outlier
                ==> old(labels)[x] is Outlier,
            forall|x: int| 0 <= x < final(labels).len() && #[trigger] final(labels)[x] != old(labels)[x]
                ==> final(labels)[x] == Label::Assigned(cluster_id),
    {
        let n = points.len();
        let ghost ready = self.expansion_ready(points@, neighbors@, labels@);
        let mut queue: Vec<usize> = Vec::new();
        let mut k: usize = 0;
        while k < neighbors.len()
            invariant
                k <= neighbors.len(),
                queue.len() == k,
                forall|j: int| 0 <= j < k ==> queue[j] == (#[trigger] neighbors[j]).index,
            decreases neighbors.len() - k,
        {
            queue.push(neighbors[k].index);
            k = k + 1;
        }
        assert(queue@ =~= neighbors@.map_values(|nb: Neighbor| nb.index));
        assert forall|j: int| 0 <= j < queue.len() implies (#[trigger] queue[j]) < n
            && (ready ==> near_core(self.metric, points@, self.epsilon, self.min_samples, queue[j] as int)) by {
            assert(queue[j] == neighbors[j].index);
        }
        let mut head: usize = 0;
        while head < queue.len()
            invariant
                ns.wf(),
                ns.spec_points() == points@,
                ns.spec_metric() == self.metric,
                n == points.len(),
                labels.len() == n,
                old(labels).len() == n,
                head <= queue.len(),
                queue.len() >= neighbors.len(),
                forall|j: int| 0 <= j < neighbors.len() ==> queue[j] == (#[trigger] neighbors[j]).index,
                forall|j: int| 0 <= j < queue.len() ==> (#[trigger] queue[j]) < n,
                forall|j: int| 0 <= j < head ==> labels[(#[trigger] queue[j]) as int] is Assigned,
                forall|x: int| 0 <= x < n && (#[trigger] labels[x]) is Marked
                    ==> exists|j: int| head <= j < queue.len() && (#[trigger] queue[j]) == x,
                forall|x: int| 0 <= x < n && (#[trigger] old(labels)[x]) is Assigned ==> labels[x] == old(labels)[x],
                forall|x: int| 0 <= x < n && !((#[trigger] old(labels)[x]) is Undefined) ==> !(labels[x] is Undefined),
                forall|x: int| 0 <= x < n && (#[trigger] labels[x]) is Outlier ==> old(labels)[x] is Outlier,
                forall|x: int| 0 <= x < n && #[trigger] labels[x] != old(labels)[x]
                    ==> labels[x] == Label::Assigned(cluster_id) || labels[x] is Marked,
                ready == self.expansion_ready(points@, neighbors@, old(labels)@),
                ready ==> {
                    &&& forall|j: int| 0 <= j < queue.len()
                        ==> near_core(self.metric, points@, self.epsilon, self.min_samples, (#[trigger] queue[j]) as int)
                    &&& forall|x: int| 0 <= x < n && (#[trigger] labels[x]) is Assigned
                        ==> near_core(self.metric, points@, self.epsilon, self.min_samples, x)
                    &&& forall|x: int| 0 <= x < n && (#[trigger] labels[x]) is Outlier
                        ==> !is_core(self.metric, points@, self.epsilon, self.min_samples, x)
                    &&& core_reach_done(self.metric, points@, self.epsilon, self.min_samples, labels@, queue@, head as int)
                },
            decreases unassigned(labels@), queue.len() - head,
        {
            let current = queue[head];
            let ghost before = labels@;
            head = head + 1;
            if labels[current].is_assigned() {
                proof {
                    assert forall|x: int| 0 <= x < n && (#[trigger] labels[x]) is Marked
                        implies exists|j: int| head <= j < queue.len() && (#[trigger] queue[j]) == x by {
                        let j = choose|j: int| head - 1 <= j < queue.len() && (#[trigger] queue[j]) == x;
                        assert(j != head - 1);
                    }
                    if ready {
                        lemma_pending_pop(self.metric, points@, self.epsilon, self.min_samples, labels@, queue@, head as int, current as int);
                    }
                }
                continue;
            }
            let was_outlier = labels[current].is_outlier();
            proof {
                lemma_unassigned_update(labels@, current as int, Label::Assigned(cluster_id));
            }
            labels.set(current, Label::Assigned(cluster_id));
            proof {
                assert forall|x: int| 0 <= x < n && (#[trigger] labels[x]) is Marked
                    implies exists|j: int| head <= j < queue.len() && (#[trigger] queue[j]) == x by {
                    assert(x != current);
                    assert(before[x] is Marked);
                    let j = choose|j: int| head - 1 <= j < queue.len() && (#[trigger] queue[j]) == x;
                    assert(j != head - 1);
                }
                assert forall|j: int| 0 <= j < head implies labels[(#[trigger] queue[j]) as int] is Assigned by {
                    if j < head - 1 {
                        assert(before[queue[j] as int] is Assigned);
                    }
                }
                if ready {
                    lemma_reach_assign(self.metric, points@, self.epsilon, self.min_samples, before, labels@, queue@,
                        head as int, current as int, cluster_id);
                }
            }
            if was_outlier {
                proof {
                    if ready {
                        assert(!is_core(self.metric, points@, self.epsilon, self.min_samples, current as int));
                        assert(core_reach_done(self.metric, points@, self.epsilon, self.min_samples, labels@, queue@, head as int));
                    }
                }
                continue;
            }
            let ghost after_assign = labels@;
            let secondary = ns.search_radius(&points[current], self.epsilon);
            if secondary.len() < self.min_samples {
                proof {
                    lemma_search_count(ns, points@, current as int, self.epsilon, secondary@);
                    assert(!is_core(self.metric, points@, self.epsilon, self.min_samples, current as int));
                    if ready {
                        assert(core_reach_done(self.metric, points@, self.epsilon, self.min_samples, labels@, queue@, head as int));
                    }
                }
                continue;
            }
            proof {
                lemma_search_count(ns, points@, current as int, self.epsilon, secondary@);
                assert(is_core(self.metric, points@, self.epsilon, self.min_samples, current as int));
            }
            let mut t: usize = 0;
            while t < secondary.len()
                invariant
                    t <= secondary.len(),
                    n == points.len(),
                    labels.len() == n,
                    old(labels).len() == n,
                    head <= queue.len(),
                    queue.len() >= neighbors.len(),
                    forall|k: int| 0 <= k < secondary.len() ==> (#[trigger] secondary[k]).index < n,
                    forall|j: int| 0 <= j < neighbors.len() ==> queue[j] == (#[trigger] neighbors[j]).index,
                    forall|j: int| 0 <= j < queue.len() ==> (#[trigger] queue[j]) < n,
                    forall|j: int| 0 <= j < head ==> labels[(#[trigger] queue[j]) as int] is Assigned,
                    forall|x: int| 0 <= x < n && (#[trigger] labels[x]) is Marked
                        ==> exists|j: int| head <= j < queue.len() && (#[trigger] queue[j]) == x,
                    forall|x: int| 0 <= x < n && (#[trigger] old(labels)[x]) is Assigned ==> labels[x] == old(labels)[x],
                        forall|x: int| 0 <= x < n && !((#[trigger] old(labels)[x]) is Undefined) ==> !(labels[x] is Undefined),
                    forall|x: int| 0 <= x < n && (#[trigger] labels[x]) is Outlier ==> old(labels)[x] is Outlier,
                    forall|x: int| 0 <= x < n && #[trigger] labels[x] != old(labels)[x]
                        ==> labels[x] == Label::Assigned(cluster_id) || labels[x] is Marked,
                    unassigned(labels@) == unassigned(after_assign),
                    ns.wf(),
                    ns.spec_points() == points@,
                    ns.spec_metric() == self.metric,
                    current < n,
                    is_core(self.metric, points@, self.epsilon, self.min_samples, current as int),
                    forall|k: int| 0 <= k < secondary.len() ==> ns.entry_ok(#[trigger] secondary[k], points@[current as int])
                        && secondary[k].distance <= self.epsilon,
                    labels[current as int] is Assigned,
                    ready == self.expansion_ready(points@, neighbors@, old(labels)@),
                    ready ==> {
                        &&& forall|j: int| 0 <= j < queue.len()
                            ==> near_core(self.metric, points@, self.epsilon, self.min_samples, (#[trigger] queue[j]) as int)
                        &&& forall|x: int| 0 <= x < n && (#[trigger] labels[x]) is Assigned
                            ==> near_core(self.metric, points@, self.epsilon, self.min_samples, x)
                        &&& forall|x: int| 0 <= x < n && (#[trigger] labels[x]) is Outlier
                            ==> !is_core(self.metric, points@, self.epsilon, self.min_samples, x)
                        &&& core_reach_except(self.metric, points@, self.epsilon, self.min_samples, labels@, queue@, head as int,
                            current as int)
                        &&& forall|k: int| 0 <= k < t ==> labels[(#[trigger] secondary[k]).index as int] is Assigned
                            || pending(queue@, head as int, secondary[k].index as int)
                    },
                    forall|j: usize| j < n && ns.dist(j, points@[current as int]) <= self.epsilon
                        ==> exists|k: int| 0 <= k < secondary.len() && (#[trigger] secondary[k]).index == j,
                decreases secondary.len() - t,
            {
                let index = secondary[t].index;
                proof {
                    assert(ns.entry_ok(secondary[t as int], points@[current as int]));
                    assert(secondary[t as int].distance <= self.epsilon);
                    assert(near_core(self.metric, points@, self.epsilon, self.min_samples, index as int));
                }
                let ghost before_inner = labels@;
                let ghost queue_before = queue@;
                match labels[index] {
                    Label::Undefined => {
                        proof {
                            lemma_unassigned_update(labels@, index as int, Label::Marked);
                        }
                        labels.set(index, Label::Marked);
                        queue.push(index);
                        proof {
                            if ready {
                                lemma_reach_push(self.metric, points@, self.epsilon, self.min_samples, before_inner, labels@,
                                    queue_before, queue@, head as int, current as int, index);
                                assert forall|k: int| 0 <= k < t + 1 implies labels[(#[trigger] secondary[k]).index as int] is Assigned
                                    || pending(queue@, head as int, secondary[k].index as int) by {
                                    if k < t {
                                        let y = secondary[k].index as int;
                                        if !(labels[y] is Assigned) {
                                            if y != index as int {
                                                assert(labels[y] == before_inner[y]);
                                            }
                                        }
                                    }
                                }
                            }
                            assert forall|x: int| 0 <= x < n && (#[trigger] labels[x]) is Marked
                                implies exists|j: int| head <= j < queue.len() && (#[trigger] queue[j]) == x by {
                                if x == index {
                                    assert(queue[queue.len() - 1] == x);
                                } else {
                                    assert(before_inner[x] is Marked);
                                    let j = choose|j: int| head <= j < queue_before.len() && (#[trigger] queue_before[j]) == x;
                                    assert(queue[j] == x);
                                }
                            }
                            assert forall|j: int| 0 <= j < head implies labels[(#[trigger] queue[j]) as int] is Assigned by {
                                assert(queue[j] == queue_before[j]);
                                assert(before_inner[queue_before[j] as int] is Assigned);
                            }
                        }
                    },
                    Label::Outlier => {
                        queue.push(index);
                        proof {
                            if ready {
                                lemma_reach_push(self.metric, points@, self.epsilon, self.min_samples, before_inner, labels@,
                                    queue_before, queue@, head as int, current as int, index);
                                assert forall|k: int| 0 <= k < t + 1 implies labels[(#[trigger] secondary[k]).index as int] is Assigned
                                    || pending(queue@, head as int, secondary[k].index as int) by {}
                            }
                            assert forall|x: int| 0 <= x < n && (#[trigger] labels[x]) is Marked
                                implies exists|j: int| head <= j < queue.len() && (#[trigger] queue[j]) == x by {
                                let j = choose|j: int| head <= j < queue_before.len() && (#[trigger] queue_before[j]) == x;
                                assert(queue[j] == x);
                            }
                            assert forall|j: int| 0 <= j < head implies labels[(#[trigger] queue[j]) as int] is Assigned by {
                                assert(queue[j] == queue_before[j]);
                            }
                        }
                    },
                    _ => {
                        proof {
                            if labels[index as int] is Marked {
                                let j = choose|j: int| head <= j < queue.len() && (#[trigger] queue[j]) == index;
                                assert(pending(queue@, head as int, index as int));
                            }
                        }
                    },
                }
                t = t + 1;
            }
            proof {
                let c = current as int;
                if ready {
                assert forall|x: int, y: int| 0 <= x < n && 0 <= y < n && x != -1 && (#[trigger] labels[x]) is Assigned
                    && is_core(self.metric, points@, self.epsilon, self.min_samples, x)
                    && #[trigger] self.metric.spec_measure(points@[y]@, points@[x]@) <= self.epsilon
                    implies labels[y] is Assigned || pending(queue@, head as int, y) by {
                    if x == c {
                        assert(ns.dist(y as usize, points@[c]) <= self.epsilon);
                        let k = choose|k: int| 0 <= k < secondary.len() && (#[trigger] secondary[k]).index == y as usize;
                    }
                }
                }
            }
        }
        proof {
            assert forall|x: int| 0 <= x < labels.len() implies !((#[trigger] labels[x]) is Marked) by {
                if labels[x] is Marked {
                    let j = choose|j: int| head <= j < queue.len() && (#[trigger] queue[j]) == x;
                }
            }
            assert forall|k: int| 0 <= k < neighbors.len()
                implies labels[(#[trigger] neighbors[k]).index as int] is Assigned by {
                assert(queue[k] == neighbors[k].index);
            }
            if ready {
                assert forall|x: int, y: int| 0 <= x < n && 0 <= y < n && x != -1 && (#[trigger] labels[x]) is Assigned
                    && is_core(self.metric, points@, self.epsilon, self.min_samples, x)
                    && #[trigger] self.metric.spec_measure(points@[y]@, points@[x]@) <= self.epsilon
                    implies labels[y] is Assigned || pending(Seq::<usize>::empty(), 0, y) by {
                    assert(labels[y] is Assigned || pending(queue@, head as int, y));
                }
            }
        }
    }

    /// Clusters `points`: returns the clusters, in the order in which they
    /// were found, and the indices of the outliers, in increasing order.
    pub fn fit<const N: usize>(&self, points: &Vec<[u16; N]>) -> (r: (Vec<Cluster<N>>, Vec<usize>))
        requires
            1 <= N <= MAX_DIMENSION,
            points.len() <= MAX_MEMBERS,
        ensures
            clusters_partition(r.0@, r.1@, points@),
            points.len() == 0 ==> r.0.len() == 0 && r.1.len() == 0,
            forall|o: int| 0 <= o < r.1.len() ==> count_within(self.metric, points@, points@[(#[trigger] r.1[o]) as int],
                self.epsilon, points.len() as int) < self.min_samples,
            forall|j: usize| j < points.len() && !near_core(self.metric, points@, self.epsilon, self.min_samples, j as int)
                ==> #[trigger] r.1@.contains(j),
            forall|o: int| 0 <= o < r.1.len()
                ==> !near_core(self.metric, points@, self.epsilon, self.min_samples, (#[trigger] r.1[o]) as int),
            forall|c: int, k: int| 0 <= c < r.0.len() && 0 <= k < r.0[c].members().len()
                ==> near_core(self.metric, points@, self.epsilon, self.min_samples, (#[trigger] r.0[c].members()[k]) as int),
            self.min_samples > points.len() ==> r.0.len() == 0 && forall|j: usize| j < points.len() ==> r.1@.contains(j),
            self.min_samples <= 1 && points.len() > 0 && all_within(self.metric, points@, self.epsilon)
                ==> r.0.len() == 1 && r.1.len() == 0
                && forall|j: usize| j < points.len() ==> r.0[0].members().contains(j),
    {
        let n = points.len();
        if n == 0 {
            return (Vec::new(), Vec::new());
        }
        let ns = KDTreeSearch::new(points, &self.metric);
        let mut labels: Vec<Label> = Vec::new();
        let mut i: usize = 0;
        while i < n
            invariant
                i <= n,
                labels.len() == i,
                forall|x: int| 0 <= x < i ==> (#[trigger] labels[x]) is Undefined,
            decreases n - i,
        {
            labels.push(Label::Undefined);
            i = i + 1;
        }
        let ghost large = self.min_samples <= 1 && all_within(self.metric, points@, self.epsilon);
        let mut cluster_id: usize = 0;
        let mut index: usize = 0;
        while index < n
            invariant
                ns.wf(),
                ns.spec_points() == points@,
                ns.spec_metric() == self.metric,
                n == points.len(),
                n > 0,
                index <= n,
                cluster_id <= index,
                labels.len() == n,
                large == (self.min_samples <= 1 && all_within(self.metric, points@, self.epsilon)),
                forall|x: int| 0 <= x < n ==> !((#[trigger] labels[x]) is Marked),
                forall|x: int| 0 <= x < index ==> !((#[trigger] labels[x]) is Undefined),
                forall|x: int| 0 <= x < n && (#[trigger] labels[x]) is Outlier
                    ==> count_within(self.metric, points@, points@[x], self.epsilon, n as int) < self.min_samples,
                forall|x: int| 0 <= x < n && (#[trigger] labels[x]) is Assigned
                    ==> near_core(self.metric, points@, self.epsilon, self.min_samples, x),
                n <= MAX_MEMBERS,
                core_reach_done(self.metric, points@, self.epsilon, self.min_samples, labels@, Seq::empty(), 0),
                forall|x: int| 0 <= x < n && (#[trigger] labels[x]) is Assigned ==> assigned_id(labels[x]) < cluster_id,
                index == 0 ==> forall|x: int| 0 <= x < n ==> (#[trigger] labels[x]) is Undefined,
                large && index > 0 ==> cluster_id == 1 && forall|x: int| 0 <= x < n ==> (#[trigger] labels[x]) == Label::Assigned(0),
            decreases n - index,
        {
            if !labels[index].is_undefined() {
                index = index + 1;
                continue;
            }
            let neighbors = ns.search_radius(&points[index], self.epsilon);
            proof {
                lemma_distance_to_self(self.metric, points@[index as int]);
                assert(ns.dist(index, points@[index as int]) == 0);
                let t = choose|t: int| 0 <= t < neighbors.len() && (#[trigger] neighbors[t]).index == index;
                assert(neighbors.len() > 0);
            }
            if neighbors.len() < self.min_samples {
                proof {
                    let q = points@[index as int];
                    assert forall|j: usize| j < points@.len() && self.metric.spec_measure(points@[j as int]@, q@) <= self.epsilon
                        implies exists|k: int| 0 <= k < neighbors@.len() && (#[trigger] neighbors@[k]).index == j by {
                        assert(ns.dist(j, q) <= self.epsilon);
                        let k = choose|k: int| 0 <= k < neighbors.len() && (#[trigger] neighbors[k]).index == j;
                        assert(neighbors@[k].index == j);
                    }
                    assert forall|k: int| 0 <= k < neighbors@.len() implies (#[trigger] neighbors@[k]).index < points@.len()
                        && self.metric.spec_measure(points@[neighbors@[k].index as int]@, q@) <= self.epsilon by {
                        assert(ns.entry_ok(neighbors[k], q));
                    }
                    assert forall|a: int, b: int| 0 <= a < b < neighbors@.len()
                        implies (#[trigger] neighbors@[a]).index != (#[trigger] neighbors@[b]).index by {
                        assert(neighbors[a].index != neighbors[b].index);
                    }
                    lemma_neighbor_count(neighbors@, self.metric, points@, q, self.epsilon);
                }
                let ghost pre_outlier = labels@;
                labels.set(index, Label::Outlier);
                proof {
                    assert forall|x: int, y: int| 0 <= x < n && 0 <= y < n && x != -1 && (#[trigger] labels@[x]) is Assigned
                        && is_core(self.metric, points@, self.epsilon, self.min_samples, x)
                        && #[trigger] self.metric.spec_measure(points@[y]@, points@[x]@) <= self.epsilon
                        implies labels@[y] is Assigned || pending(Seq::<usize>::empty(), 0, y) by {
                        assert(x != index);
                        assert(pre_outlier[x] is Assigned);
                        assert(pre_outlier[y] is Assigned || pending(Seq::<usize>::empty(), 0, y));
                    }
                }
                index = index + 1;
                continue;
            }
            let ghost before = labels@;
            let mut k: usize = 0;
            while k < neighbors.len()
                invariant
                    k <= neighbors.len(),
                    labels.len() == n,
                    before.len() == n,
                    forall|t: int| 0 <= t < neighbors.len() ==> (#[trigger] neighbors[t]).index < n,
                    forall|x: int| 0 <= x < n && (#[trigger] labels[x]) is Marked
                        ==> exists|t: int| 0 <= t < k && (#[trigger] neighbors[t]).index == x,
                    forall|x: int| 0 <= x < n && !((#[trigger] labels[x]) is Marked) ==> labels[x] == before[x],
                decreases neighbors.len() - k,
            {
                proof {
                    assert(neighbors[k as int].index < n);
                }
                labels.set(neighbors[k].index, Label::Marked);
                k = k + 1;
            }
            proof {
                assert forall|x: int| 0 <= x < n && (#[trigger] labels[x]) is Assigned
                    implies assigned_id(labels[x]) <= cluster_id by {
                    assert(labels[x] == before[x]);
                }
            }
            proof {
                lemma_search_count(&ns, points@, index as int, self.epsilon, neighbors@);
                assert(is_core(self.metric, points@, self.epsilon, self.min_samples, index as int));
                let nq = neighbors@.map_values(|nb: Neighbor| nb.index);
                assert forall|x: int, y: int| 0 <= x < n && 0 <= y < n && x != -1 && (#[trigger] labels@[x]) is Assigned
                    && is_core(self.metric, points@, self.epsilon, self.min_samples, x)
                    && #[trigger] self.metric.spec_measure(points@[y]@, points@[x]@) <= self.epsilon
                    implies labels@[y] is Assigned || pending(nq, 0, y) by {
                    assert(labels[x] == before[x]);
                    assert(before[y] is Assigned || pending(Seq::<usize>::empty(), 0, y));
                    if labels[y] is Marked {
                        let t = choose|t: int| 0 <= t < neighbors.len() && (#[trigger] neighbors[t]).index == y;
                        assert(nq[t] as int == y);
                    } else {
                        assert(labels[y] == before[y]);
                    }
                }
                assert forall|k: int| 0 <= k < neighbors.len()
                    implies near_core(self.metric, points@, self.epsilon, self.min_samples, (#[trigger] neighbors[k]).index as int) by {
                    assert(ns.entry_ok(neighbors[k], points@[index as int]));
                }
                assert forall|x: int| 0 <= x < n && (#[trigger] labels[x]) is Assigned
                    implies near_core(self.metric, points@, self.epsilon, self.min_samples, x) by {
                    assert(labels[x] == before[x]);
                }
            }
            let ghost marked = labels@;
            self.expand_cluster(cluster_id, points, &ns, &neighbors, &mut labels);
            proof {
                let t = choose|t: int| 0 <= t < neighbors.len() && (#[trigger] neighbors[t]).index == index;
                assert(labels[index as int] is Assigned);
                assert forall|x: int| 0 <= x < index + 1 implies !((#[trigger] labels[x]) is Undefined) by {
                    if x < index {
                        if !(marked[x] is Marked) {
                            assert(marked[x] == before[x]);
                        } else {
                            let t = choose|t: int| 0 <= t < neighbors.len() && (#[trigger] neighbors[t]).index == x;
                            assert(labels[neighbors[t].index as int] is Assigned);
                        }
                    }
                }
                if large {
                    assert(index == 0);
                    assert forall|x: int| 0 <= x < n implies (#[trigger] labels[x]) == Label::Assigned(0) by {
                        assert(self.metric.spec_measure(points@[x]@, points@[0]@) <= self.epsilon);
                        assert(ns.dist(x as usize, points@[0]) <= self.epsilon);
                        let t = choose|t: int| 0 <= t < neighbors.len() && (#[trigger] neighbors[t]).index == x as usize;
                        assert(labels[neighbors[t].index as int] is Assigned);
                    }
                }
            }
            proof {
                assert forall|x: int| 0 <= x < n && (#[trigger] labels[x]) is Outlier
                    implies count_within(self.metric, points@, points@[x], self.epsilon, n as int) < self.min_samples by {
                    assert(marked[x] is Outlier);
                    assert(marked[x] == before[x]);
                }
            }
            cluster_id = cluster_id + 1;
            index = index + 1;
        }
        proof {
            assert forall|x: int| 0 <= x < n implies (#[trigger] labels[x]) is Assigned || labels[x] is Outlier by {
                assert(!(labels[x] is Undefined));
                assert(!(labels[x] is Marked));
            }
        }
        let r = group_labels(&labels, points, cluster_id);
        proof {
            let (cs, os) = (r.0@, r.1@);
            assert forall|c: int, k: int| 0 <= c < r.0.len() && 0 <= k < r.0[c].members().len()
                implies near_core(self.metric, points@, self.epsilon, self.min_samples, (#[trigger] r.0[c].members()[k]) as int) by {
                assert(labels[r.0[c].members()[k] as int] is Assigned);
            }
            assert forall|o: int| 0 <= o < r.1.len()
                implies !near_core(self.metric, points@, self.epsilon, self.min_samples, (#[trigger] r.1[o]) as int) by {
                let x = r.1[o] as int;
                assert(labels[x] is Outlier);
                if near_core(self.metric, points@, self.epsilon, self.min_samples, x) {
                    let j = choose|j: int| 0 <= j < points@.len() && #[trigger] is_core(self.metric, points@, self.epsilon, self.min_samples, j)
                        && self.metric.spec_measure(points@[x]@, points@[j]@) <= self.epsilon;
                    assert(labels[j] is Assigned || labels[j] is Outlier);
                    assert(labels[j] is Assigned);
                    assert(labels@[x] is Assigned || pending(Seq::<usize>::empty(), 0, x));
                }
            }
            assert forall|j: usize| j < points.len() && !near_core(self.metric, points@, self.epsilon, self.min_samples, j as int)
                implies #[trigger] r.1@.contains(j) by {
                assert(labels[j as int] is Assigned || labels[j as int] is Outlier);
            }
            if self.min_samples > n {
                assert forall|j: int| 0 <= j < n implies !#[trigger] is_core(self.metric, points@, self.epsilon, self.min_samples, j) by {
                    lemma_count_within_bound(self.metric, points@, points@[j], self.epsilon, n as int);
                }
                assert forall|j: usize| j < n implies r.1@.contains(j) by {
                    assert(!near_core(self.metric, points@, self.epsilon, self.min_samples, j as int));
                }
                if r.0.len() > 0 {
                    let x = r.0[0].members()[0];
                    assert(r.1@.contains(x));
                    assert(!r.1@.contains(r.0@[0].members()[0]));
                }
            }
            assert forall|o: int| 0 <= o < r.1.len() implies count_within(self.metric, points@, points@[(#[trigger] r.1[o]) as int],
                self.epsilon, points.len() as int) < self.min_samples by {
                assert(labels[r.1[o] as int] is Outlier);
            }
            if large {
                assert(cs.len() == 1) by {
                    assert(cs.len() >= 1) by {
                        assert(labels[0] is Assigned);
                        let (c, k) = choose|c: int, k: int| 0 <= c < cs.len() && 0 <= k < cs[c].members().len()
                            && #[trigger] cs[c].members()[k] == 0usize;
                    }
                    if cs.len() > 1 {
                        let a = cs[0].members()[0];
                        let b = cs[1].members()[0];
                        assert(labels[a as int] == Label::Assigned(0));
                        assert(labels[b as int] == Label::Assigned(0));
                    }
                }
                assert(os.len() == 0) by {
                    if os.len() > 0 {
                        assert(labels[os[0] as int] is Outlier);
                    }
                }
                assert forall|j: usize| j < n implies cs[0].members().contains(j) by {
                    assert(labels[j as int] is Assigned);
                    let (c, k) = choose|c: int, k: int| 0 <= c < cs.len() && 0 <= k < cs[c].members().len()
                        && #[trigger] cs[c].members()[k] == j;
                    assert(c == 0);
                    assert(cs[0].members()[k] == j);
                }
            }
            assert forall|c1: int, c2: int, k: int| 0 <= c1 < cs.len() && 0 <= c2 < cs.len() && c1 != c2
                && 0 <= k < cs[c1].members().len() implies !(#[trigger] cs[c2].members()).contains(#[trigger] cs[c1].members()[k]) by {
                if cs[c2].members().contains(cs[c1].members()[k]) {
                    let k2 = choose|k2: int| 0 <= k2 < cs[c2].members().len() && cs[c2].members()[k2] == cs[c1].members()[k];
                    if c1 < c2 {
                        assert(assigned_id(labels[cs[c1].members()[k] as int]) < assigned_id(labels[cs[c2].members()[k2] as int]));
                    } else {
                        assert(assigned_id(labels[cs[c2].members()[k2] as int]) < assigned_id(labels[cs[c1].members()[k] as int]));
                    }
                }
            }
            assert forall|c: int, k: int| 0 <= c < cs.len() && 0 <= k < cs[c].members().len()
                implies !os.contains(#[trigger] cs[c].members()[k]) by {
                if os.contains(cs[c].members()[k]) {
                    let o = choose|o: int| 0 <= o < os.len() && os[o] == cs[c].members()[k];
                    assert(labels[os[o] as int] is Outlier);
                    assert(labels[cs[c].members()[k] as int] is Assigned);
                }
            }
            assert forall|j: usize| j < points.len() implies os.contains(j)
                || exists|c: int| 0 <= c < cs.len() && (#[trigger] cs[c].members()).contains(j) by {
                if labels[j as int] is Assigned {
                    let (c, k) = choose|c: int, k: int| 0 <= c < cs.len() && 0 <= k < cs[c].members().len()
                        && #[trigger] cs[c].members()[k] == j;
                    assert(cs[c].members()[k] == j);
                } else {
                    assert(labels[j as int] is Outlier);
                }
            }
        }
        r
    }
}

/// The clusters and outliers split the indices of `points`: each cluster is
/// non-empty and holds increasing indices together with their points, no
/// index is in two places, and every index is somewhere.
pub open spec fn clusters_partition<const N: usize>(cs: Seq<Cluster<N>>, os: Seq<usize>, points: Seq<[u16; N]>) -> bool {
    &&& forall|c: int| 0 <= c < cs.len() ==> {
        &&& (#[trigger] cs[c]).wf()
        &&& cs[c].members().len() > 0
        &&& is_increasing(cs[c].members(), points.len())
        &&& cs[c].points() == cs[c].members().map_values(|i: usize| points[i as int])
    }
    &&& forall|c1: int, c2: int, k: int| 0 <= c1 < cs.len() && 0 <= c2 < cs.len() && c1 != c2
        && 0 <= k < cs[c1].members().len() ==> !(#[trigger] cs[c2].members()).contains(#[trigger] cs[c1].members()[k])
    &&& is_increasing(os, points.len())
    &&& forall|c: int, k: int| 0 <= c < cs.len() && 0 <= k < cs[c].members().len()
        ==> !os.contains(#[trigger] cs[c].members()[k])
    &&& forall|j: usize| j < points.len() ==> os.contains(j)
        || exists|c: int| 0 <= c < cs.len() && (#[trigger] cs[c].members()).contains(j)
}

/// The sequence is strictly increasing and below `bound`.
pub open spec fn is_increasing(s: Seq<usize>, bound: nat) -> bool {
    &&& forall|a: int, b: int| 0 <= a < b < s.len() ==> (#[trigger] s[a]) < (#[trigger] s[b])
    &&& forall|a: int| 0 <= a < s.len() ==> (#[trigger] s[a]) < bound
}

proof fn lemma_increasing_len(s: Seq<usize>, bound: nat)
    requires
        is_increasing(s, bound),
    ensures
        s.len() <= bound,
    decreases s.len(),
{
    if s.len() > 0 {
        let t = s.drop_last();
        assert(is_increasing(t, s.last() as nat)) by {
            assert forall|a: int| 0 <= a < t.len() implies (#[trigger] t[a]) < s.last() by {
                assert(s[a] < s[s.len() - 1]);
            }
        }
        lemma_increasing_len(t, s.last() as nat);
    }
}

/// Gathers the points of each cluster number, in increasing index order,
/// and the outliers.
fn group_labels<const N: usize>(labels: &Vec<Label>, points: &Vec<[u16; N]>, num_clusters: usize)
    -> (r: (Vec<Cluster<N>>, Vec<usize>))
    requires
        labels.len() == points.len(),
        points.len() <= MAX_MEMBERS,
        forall|x: int| 0 <= x < labels.len() ==> (#[trigger] labels[x]) is Assigned || labels[x] is Outlier,
        forall|x: int| 0 <= x < labels.len() && (#[trigger] labels[x]) is Assigned ==> assigned_id(labels[x]) < num_clusters,
    ensures
        forall|c: int| 0 <= c < r.0.len() ==> {
            &&& (#[trigger] r.0[c]).wf()
            &&& r.0[c].members().len() > 0
            &&& is_increasing(r.0[c].members(), points.len() as nat)
            &&& r.0[c].points() == r.0[c].members().map_values(|i: usize| points@[i as int])
        },
        forall|c: int, k: int| 0 <= c < r.0.len() && 0 <= k < r.0[c].members().len()
            ==> labels[(#[trigger] r.0[c].members()[k]) as int] is Assigned,
        forall|c1: int, c2: int, k1: int, k2: int| 0 <= c1 < c2 < r.0.len()
            && 0 <= k1 < r.0[c1].members().len() && 0 <= k2 < r.0[c2].members().len()
            ==> assigned_id(labels[(#[trigger] r.0[c1].members()[k1]) as int])
            < assigned_id(labels[(#[trigger] r.0[c2].members()[k2]) as int]),
        forall|j: int| 0 <= j < labels.len() && (#[trigger] labels[j]) is Assigned
            ==> exists|c: int, k: int| 0 <= c < r.0.len() && 0 <= k < r.0[c].members().len()
            && #[trigger] r.0[c].members()[k] == j as usize,
        is_increasing(r.1@, points.len() as nat),
        forall|o: int| 0 <= o < r.1.len() ==> labels[(#[trigger] r.1[o]) as int] is Outlier,
        forall|j: int| 0 <= j < labels.len() && (#[trigger] labels[j]) is Outlier ==> r.1@.contains(j as usize),
{
    let n = labels.len();
    let mut groups: Vec<Vec<usize>> = Vec::new();
    let mut c: usize = 0;
    while c < num_clusters
        invariant
            c <= num_clusters,
            groups.len() == c,
            forall|a: int| 0 <= a < c ==> (#[trigger] groups[a]).len() == 0,
        decreases num_clusters - c,
    {
        groups.push(Vec::new());
        c = c + 1;
    }
    let mut outliers: Vec<usize> = Vec::new();
    let mut i: usize = 0;
    while i < n
        invariant
            i <= n,
            n == labels.len(),
            groups.len() == num_clusters,
            forall|x: int| 0 <= x < labels.len() && (#[trigger] labels[x]) is Assigned ==> assigned_id(labels[x]) < num_clusters,
            forall|a: int| 0 <= a < num_clusters ==> is_increasing((#[trigger] groups[a])@, i as nat),
            forall|a: int, k: int| 0 <= a < num_clusters && 0 <= k < groups[a].len()
                ==> labels[(#[trigger] groups[a][k]) as int] == Label::Assigned(a as usize),
            forall|j: int| 0 <= j < i && (#[trigger] labels[j]) is Assigned
                ==> groups[assigned_id(labels[j])]@.contains(j as usize),
            is_increasing(outliers@, i as nat),
            forall|o: int| 0 <= o < outliers.len() ==> labels[(#[trigger] outliers[o]) as int] is Outlier,
            forall|j: int| 0 <= j < i && (#[trigger] labels[j]) is Outlier ==> outliers@.contains(j as usize),
        decreases n - i,
    {
        match labels[i] {
            Label::Assigned(a) => {
                let ghost old_groups = groups@;
                let mut g: Vec<usize> = Vec::new();
                groups.set_and_swap(a, &mut g);
                let ghost gv = g@;
                g.push(i);
                groups.set_and_swap(a, &mut g);
                proof {
                    assert(groups[a as int]@ == gv.push(i));
                    assert forall|b: int| 0 <= b < num_clusters implies is_increasing((#[trigger] groups[b])@, (i + 1) as nat) by {
                        if b != a as int {
                            assert(groups[b] == old_groups[b]);
                        }
                    }
                    assert forall|b: int, k: int| 0 <= b < num_clusters && 0 <= k < groups[b].len()
                        implies labels[(#[trigger] groups[b][k]) as int] == Label::Assigned(b as usize) by {
                        if b != a as int {
                            assert(groups[b] == old_groups[b]);
                        } else if k < gv.len() {
                            assert(groups[b][k] == gv[k]);
                        }
                    }
                    assert forall|j: int| 0 <= j < i + 1 && (#[trigger] labels[j]) is Assigned
                        implies groups[assigned_id(labels[j])]@.contains(j as usize) by {
                        let b = assigned_id(labels[j]);
                        if j == i {
                            assert(groups[b]@[gv.len() as int] == i);
                        } else if b != a as int {
                            assert(groups[b] == old_groups[b]);
                        } else {
                            let k = choose|k: int| 0 <= k < gv.len() && gv[k] == j as usize;
                            assert(groups[b]@[k] == j as usize);
                        }
                    }
                }
            },
            Label::Outlier => {
                let ghost ov = outliers@;
                outliers.push(i);
                proof {
                    assert forall|j: int| 0 <= j < i + 1 && (#[trigger] labels[j]) is Outlier
                        implies outliers@.contains(j as usize) by {
                        if j == i {
                            assert(outliers@[ov.len() as int] == i);
                        } else {
                            let k = choose|k: int| 0 <= k < ov.len() && ov[k] == j as usize;
                            assert(outliers@[k] == j as usize);
                        }
                    }
                }
            },
            _ => {},
        }
        i = i + 1;
    }
    let mut clusters: Vec<Cluster<N>> = Vec::new();
    let ghost mut ids: Seq<int> = Seq::empty();
    let mut c: usize = 0;
    while c < num_clusters
        invariant
            c <= num_clusters,
            n == labels.len(),
            n == points.len(),
            n <= MAX_MEMBERS,
            groups.len() == num_clusters,
            forall|a: int| 0 <= a < num_clusters ==> is_increasing((#[trigger] groups[a])@, n as nat),
            forall|a: int, k: int| 0 <= a < num_clusters && 0 <= k < groups[a].len()
                ==> labels[(#[trigger] groups[a][k]) as int] == Label::Assigned(a as usize),
            ids.len() == clusters.len(),
            forall|t: int| 0 <= t < ids.len() ==> 0 <= #[trigger] ids[t] < c,
            forall|t1: int, t2: int| 0 <= t1 < t2 < ids.len() ==> #[trigger] ids[t1] < #[trigger] ids[t2],
            forall|t: int| 0 <= t < clusters.len() ==> {
                &&& (#[trigger] clusters[t]).wf()
                &&& clusters[t].members() == groups[ids[t]]@
                &&& clusters[t].members().len() > 0
                &&& clusters[t].points() == clusters[t].members().map_values(|i: usize| points@[i as int])
            },
            forall|a: int| 0 <= a < c && (#[trigger] groups[a]).len() > 0
                ==> exists|t: int| 0 <= t < ids.len() && ids[t] == a,
        decreases num_clusters - c,
    {
        let ghost old_ids = ids;
        if groups[c].len() > 0 {
            let group = &groups[c];
            proof {
                lemma_increasing_len(group@, n as nat);
            }
            let mut cluster = Cluster::new(points[group[0]]);
            let mut k: usize = 0;
            while k < group.len()
                invariant
                    k <= group.len(),
                    group.len() <= n,
                    n == points.len(),
                    n <= MAX_MEMBERS,
                    is_increasing(group@, n as nat),
                    cluster.wf(),
                    cluster.members() == group@.take(k as int),
                    cluster.points() == group@.take(k as int).map_values(|i: usize| points@[i as int]),
                decreases group.len() - k,
            {
                proof {
                    assert(group@.take(k as int + 1) =~= group@.take(k as int).push(group[k as int]));
                    assert(group@.take(k as int + 1).map_values(|i: usize| points@[i as int])
                        =~= group@.take(k as int).map_values(|i: usize| points@[i as int]).push(points@[group[k as int] as int]));
                    assert(group@.len() <= n);
                }
                let idx = group[k];
                cluster.insert(idx, &points[idx]);
                k = k + 1;
            }
            proof {
                assert(group@.take(group.len() as int) =~= group@);
            }
            clusters.push(cluster);
            proof {
                ids = ids.push(c as int);
            }
        }
        proof {
            assert forall|a: int| 0 <= a < c + 1 && (#[trigger] groups[a]).len() > 0
                implies exists|t: int| 0 <= t < ids.len() && ids[t] == a by {
                if a == c {
                    assert(ids[ids.len() - 1] == a);
                } else {
                    let t = choose|t: int| 0 <= t < old_ids.len() && old_ids[t] == a;
                    assert(ids[t] == a);
                }
            }
        }
        c = c + 1;
    }
    proof {
        assert forall|t1: int, t2: int, k1: int, k2: int| 0 <= t1 < t2 < clusters.len()
            && 0 <= k1 < clusters[t1].members().len() && 0 <= k2 < clusters[t2].members().len()
            implies assigned_id(labels[(#[trigger] clusters[t1].members()[k1]) as int])
            < assigned_id(labels[(#[trigger] clusters[t2].members()[k2]) as int]) by {
            assert(clusters[t1].members()[k1] == groups[ids[t1]][k1]);
            assert(clusters[t2].members()[k2] == groups[ids[t2]][k2]);
        }
        assert forall|t: int, k: int| 0 <= t < clusters.len() && 0 <= k < clusters[t].members().len()
            implies labels[(#[trigger] clusters[t].members()[k]) as int] is Assigned by {
            assert(clusters[t].members()[k] == groups[ids[t]][k]);
        }
        assert forall|j: int| 0 <= j < labels.len() && (#[trigger] labels[j]) is Assigned
            implies exists|t: int, k: int| 0 <= t < clusters.len() && 0 <= k < clusters[t].members().len()
            && #[trigger] clusters[t].members()[k] == j as usize by {
            let a = assigned_id(labels[j]);
            let k = choose|k: int| 0 <= k < groups[a].len() && groups[a]@[k] == j as usize;
            let t = choose|t: int| 0 <= t < ids.len() && ids[t] == a;
            assert(clusters[t].members()[k] == j as usize);
        }
    }
    (clusters, outliers)
}

} // verus!
