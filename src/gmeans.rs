use vstd::prelude::*;
use crate::cluster::{Cluster, MAX_MEMBERS, centroid_of, is_floor_mean, lemma_centroid_unique, lemma_floor_mean_unique};
use crate::kdtree::{KDTreeSearch, lemma_take_to_set};
use crate::point::{DistanceMetric, MAX_DIMENSION, lemma_measure_zero};
use crate::dbscan::lemma_distance_to_self;
use crate::topk::precedes_point;

verus! {

/// The total number of members over a sequence of clusters.
pub open spec fn total_size<const N: usize>(cs: Seq<Cluster<N>>) -> nat
    decreases cs.len(),
{
    if cs.len() == 0 {
        0
    } else {
        total_size(cs.drop_last()) + cs.last().members().len()
    }
}

proof fn lemma_total_size_update<const N: usize>(cs: Seq<Cluster<N>>, i: int, c: Cluster<N>)
    requires
        0 <= i < cs.len(),
    ensures
        total_size(cs.update(i, c)) + cs[i].members().len() == total_size(cs) + c.members().len(),
    decreases cs.len(),
{
    let t = cs.update(i, c);
    if i == cs.len() - 1 {
        assert(t.drop_last() =~= cs.drop_last());
    } else {
        assert(t.drop_last() =~= cs.drop_last().update(i, c));
        lemma_total_size_update(cs.drop_last(), i, c);
    }
}

proof fn lemma_total_size_push<const N: usize>(cs: Seq<Cluster<N>>, c: Cluster<N>)
    ensures
        total_size(cs.push(c)) == total_size(cs) + c.members().len(),
{
    assert(cs.push(c).drop_last() =~= cs);
}

proof fn lemma_total_size_member<const N: usize>(cs: Seq<Cluster<N>>, i: int)
    requires
        0 <= i < cs.len(),
    ensures
        cs[i].members().len() <= total_size(cs),
    decreases cs.len(),
{
    if i < cs.len() - 1 {
        lemma_total_size_member(cs.drop_last(), i);
    }
}

proof fn lemma_total_size_count<const N: usize>(cs: Seq<Cluster<N>>)
    requires
        forall|i: int| 0 <= i < cs.len() ==> (#[trigger] cs[i]).members().len() >= 1,
    ensures
        cs.len() <= total_size(cs),
    decreases cs.len(),
{
    if cs.len() > 0 {
        lemma_total_size_count(cs.drop_last());
    }
}

/// No point index occurs twice over the members of the clusters.
pub open spec fn members_distinct<const N: usize>(cs: Seq<Cluster<N>>) -> bool {
    forall|a: int, b: int, ma: int, mb: int|
        0 <= a < cs.len() && 0 <= b < cs.len() && 0 <= ma < cs[a].members().len()
            && 0 <= mb < cs[b].members().len() && (a != b || ma != mb)
            ==> #[trigger] cs[a].members()[ma] != #[trigger] cs[b].members()[mb]
}

/// Every member of the clusters is in `s`.
pub open spec fn members_within<const N: usize>(cs: Seq<Cluster<N>>, s: Set<usize>) -> bool {
    forall|a: int, m: int| 0 <= a < cs.len() && 0 <= m < cs[a].members().len()
        ==> s.contains(#[trigger] cs[a].members()[m])
}

proof fn lemma_insert_distinct<const N: usize>(
    before: Seq<Cluster<N>>,
    after: Seq<Cluster<N>>,
    target: int,
    x: usize,
    s: Set<usize>,
)
    requires
        members_distinct(before),
        members_within(before, s),
        !s.contains(x),
        0 <= target < before.len(),
        after.len() == before.len(),
        forall|a: int| 0 <= a < before.len() && a != target ==> after[a] == before[a],
        after[target].members() == before[target].members().push(x),
    ensures
        members_distinct(after),
        members_within(after, s.insert(x)),
{
    assert forall|a: int, m: int| 0 <= a < after.len() && 0 <= m < after[a].members().len()
        implies s.insert(x).contains(#[trigger] after[a].members()[m]) by {
        if a != target {
            assert(s.contains(before[a].members()[m]));
        } else if m < before[a].members().len() {
            assert(after[a].members()[m] == before[a].members()[m]);
            assert(s.contains(before[a].members()[m]));
        }
    }
    assert forall|a: int, b: int, ma: int, mb: int|
        0 <= a < after.len() && 0 <= b < after.len() && 0 <= ma < after[a].members().len()
            && 0 <= mb < after[b].members().len() && (a != b || ma != mb)
        implies #[trigger] after[a].members()[ma] != #[trigger] after[b].members()[mb] by {
        let new_a = a == target && ma == before[a].members().len();
        let new_b = b == target && mb == before[b].members().len();
        if !new_a {
            assert(after[a].members()[ma] == before[a].members()[ma]);
            assert(s.contains(before[a].members()[ma]));
        }
        if !new_b {
            assert(after[b].members()[mb] == before[b].members()[mb]);
            assert(s.contains(before[b].members()[mb]));
        }
        if !new_a && !new_b {
            assert(before[a].members()[ma] != before[b].members()[mb]);
        }
    }
}

/// Each cluster holds the points of its members, in order.
pub open spec fn points_match<const N: usize>(cs: Seq<Cluster<N>>, points: Seq<[u16; N]>) -> bool {
    forall|a: int| 0 <= a < cs.len() ==> (#[trigger] cs[a]).points() == cs[a].members().map_values(|i: usize| points[i as int])
}

/// Some cluster holds `x` as a member.
pub open spec fn holds_member<const N: usize>(cs: Seq<Cluster<N>>, x: usize) -> bool {
    exists|t: int, m: int| 0 <= t < cs.len() && 0 <= m < cs[t].members().len() && #[trigger] cs[t].members()[m] == x
}

/// The sequence is strictly increasing.
pub open spec fn ascending(s: Seq<usize>) -> bool {
    forall|a: int, b: int| 0 <= a < b < s.len() ==> #[trigger] s[a] < #[trigger] s[b]
}

/// The centroid of a cluster.
pub open spec fn cent<const N: usize>(c: Cluster<N>) -> [u16; N] {
    centroid_of(c.seed(), c.points())
}

/// No member of a cluster in `xs` is a member of a cluster in `ys`.
pub open spec fn members_apart<const N: usize>(xs: Seq<Cluster<N>>, ys: Seq<Cluster<N>>) -> bool {
    forall|a: int, b: int, ma: int, mb: int|
        0 <= a < xs.len() && 0 <= b < ys.len() && 0 <= ma < xs[a].members().len()
            && 0 <= mb < ys[b].members().len()
            ==> #[trigger] xs[a].members()[ma] != #[trigger] ys[b].members()[mb]
}

proof fn lemma_apart_symmetric<const N: usize>(xs: Seq<Cluster<N>>, ys: Seq<Cluster<N>>)
    requires
        members_apart(xs, ys),
    ensures
        members_apart(ys, xs),
{
    assert forall|a: int, b: int, ma: int, mb: int|
        0 <= a < ys.len() && 0 <= b < xs.len() && 0 <= ma < ys[a].members().len()
            && 0 <= mb < xs[b].members().len()
        implies #[trigger] ys[a].members()[ma] != #[trigger] xs[b].members()[mb] by {
        assert(xs[b].members()[mb] != ys[a].members()[ma]);
    }
}

/// Taking cluster `p` out of a list by `swap_remove` leaves a list whose
/// members are distinct and apart from the removed cluster's.
proof fn lemma_swap_remove_apart<const N: usize>(h0: Seq<Cluster<N>>, p: int, rs: Seq<Cluster<N>>)
    requires
        members_distinct(h0),
        members_apart(h0, rs),
        0 <= p < h0.len(),
    ensures
        members_distinct(h0.update(p, h0.last()).drop_last()),
        members_apart(h0.update(p, h0.last()).drop_last(), seq![h0[p]]),
        members_apart(h0.update(p, h0.last()).drop_last(), rs),
{
    let h1 = h0.update(p, h0.last()).drop_last();
    let last = h0.len() - 1;
    assert forall|a: int| 0 <= a < h1.len() implies #[trigger] h1[a] == h0[if a == p { last } else { a }] by {}
    assert forall|a: int, b: int, ma: int, mb: int|
        0 <= a < h1.len() && 0 <= b < h1.len() && 0 <= ma < h1[a].members().len()
            && 0 <= mb < h1[b].members().len() && (a != b || ma != mb)
        implies #[trigger] h1[a].members()[ma] != #[trigger] h1[b].members()[mb] by {
        let oa = if a == p { last } else { a };
        let ob = if b == p { last } else { b };
        assert(h1[a] == h0[oa]);
        assert(h1[b] == h0[ob]);
        assert(h0[oa].members()[ma] != h0[ob].members()[mb]);
    }
    assert forall|a: int, b: int, ma: int, mb: int|
        0 <= a < h1.len() && 0 <= b < 1 && 0 <= ma < h1[a].members().len()
            && 0 <= mb < seq![h0[p]][b].members().len()
        implies #[trigger] h1[a].members()[ma] != #[trigger] seq![h0[p]][b].members()[mb] by {
        let oa = if a == p { last } else { a };
        assert(h1[a] == h0[oa]);
        assert(seq![h0[p]][b] == h0[p]);
        assert(h0[oa].members()[ma] != h0[p].members()[mb]);
    }
    assert forall|a: int, b: int, ma: int, mb: int|
        0 <= a < h1.len() && 0 <= b < rs.len() && 0 <= ma < h1[a].members().len()
            && 0 <= mb < rs[b].members().len()
        implies #[trigger] h1[a].members()[ma] != #[trigger] rs[b].members()[mb] by {
        let oa = if a == p { last } else { a };
        assert(h1[a] == h0[oa]);
        assert(h0[oa].members()[ma] != rs[b].members()[mb]);
    }
}

proof fn lemma_apart_one<const N: usize>(h0: Seq<Cluster<N>>, p: int, rs: Seq<Cluster<N>>)
    requires
        members_apart(h0, rs),
        0 <= p < h0.len(),
    ensures
        members_apart(rs, seq![h0[p]]),
{
    assert forall|a: int, b: int, ma: int, mb: int|
        0 <= a < rs.len() && 0 <= b < 1 && 0 <= ma < rs[a].members().len()
            && 0 <= mb < seq![h0[p]][b].members().len()
        implies #[trigger] rs[a].members()[ma] != #[trigger] seq![h0[p]][b].members()[mb] by {
        assert(seq![h0[p]][b] == h0[p]);
        assert(h0[p].members()[mb] != rs[a].members()[ma]);
    }
}

/// Appending the two halves of `parent` to a list whose members are
/// distinct and apart from `parent`'s keeps them distinct, and keeps the
/// list apart from any list that was apart from both.
proof fn lemma_add_halves<const N: usize>(
    base: Seq<Cluster<N>>,
    other: Seq<Cluster<N>>,
    parent: Cluster<N>,
    c1: Cluster<N>,
    c2: Cluster<N>,
)
    requires
        members_distinct(base),
        members_apart(base, seq![parent]),
        members_apart(base, other),
        members_apart(other, seq![parent]),
        members_distinct(seq![c1, c2]),
        members_within(seq![c1, c2], parent.members().to_set()),
    ensures
        members_distinct(base.push(c1).push(c2)),
        members_apart(base.push(c1).push(c2), other),
{
    let halves = seq![c1, c2];
    let nb = base.push(c1).push(c2);
    let bl = base.len() as int;
    assert forall|a: int| 0 <= a < nb.len() implies #[trigger] nb[a] == if a < bl { base[a] } else { halves[a - bl] } by {}
    assert forall|h: int, m: int| 0 <= h < 2 && 0 <= m < halves[h].members().len()
        implies exists|k: int| 0 <= k < parent.members().len() && parent.members()[k] == #[trigger] halves[h].members()[m] by {
        assert(parent.members().to_set().contains(halves[h].members()[m]));
    }
    assert forall|a: int, b: int, ma: int, mb: int|
        0 <= a < nb.len() && 0 <= b < nb.len() && 0 <= ma < nb[a].members().len()
            && 0 <= mb < nb[b].members().len() && (a != b || ma != mb)
        implies #[trigger] nb[a].members()[ma] != #[trigger] nb[b].members()[mb] by {
        if a < bl && b < bl {
            assert(base[a].members()[ma] != base[b].members()[mb]);
        } else if a >= bl && b >= bl {
            assert(halves[a - bl].members()[ma] != halves[b - bl].members()[mb]);
        } else if a < bl {
            let k = choose|k: int| 0 <= k < parent.members().len() && parent.members()[k] == #[trigger] halves[b - bl].members()[mb];
            assert(base[a].members()[ma] != seq![parent][0].members()[k]);
        } else {
            let k = choose|k: int| 0 <= k < parent.members().len() && parent.members()[k] == #[trigger] halves[a - bl].members()[ma];
            assert(base[b].members()[mb] != seq![parent][0].members()[k]);
        }
    }
    assert forall|a: int, b: int, ma: int, mb: int|
        0 <= a < nb.len() && 0 <= b < other.len() && 0 <= ma < nb[a].members().len()
            && 0 <= mb < other[b].members().len()
        implies #[trigger] nb[a].members()[ma] != #[trigger] other[b].members()[mb] by {
        if a < bl {
            assert(base[a].members()[ma] != other[b].members()[mb]);
        } else {
            let k = choose|k: int| 0 <= k < parent.members().len() && parent.members()[k] == #[trigger] halves[a - bl].members()[ma];
            assert(other[b].members()[mb] != seq![parent][0].members()[k]);
        }
    }
}

/// G-means: k-means clustering that splits clusters while a normality test
/// says that a cluster does not look like one Gaussian.
#[derive(Debug, PartialEq, Eq, Structural)]
pub struct Gmeans {
    /// The number of finished clusters after which no more splits are tried.
    pub max_k: usize,
    /// The largest number of k-means rounds per split.
    pub max_iter: usize,
    /// The smallest cluster that is split.
    pub min_cluster_size: usize,
    /// The centroid movement below which k-means has converged.
    pub tolerance: u64,
    /// The metric that distances are measured with.
    pub metric: DistanceMetric,
}

impl Gmeans {
    /// Creates a G-means configuration.
    pub fn new(max_k: usize, max_iter: usize, min_cluster_size: usize, tolerance: u64, metric: &DistanceMetric) -> (g: Gmeans)
        requires
            max_k >= 2,
        ensures
            g == (Gmeans { max_k, max_iter, min_cluster_size, tolerance, metric: *metric }),
    {
        Gmeans { max_k, max_iter, min_cluster_size, tolerance, metric: *metric }
    }

    /// One k-means round: moves each of `indices` to the cluster whose
    /// current centroid is nearest, then reports whether no centroid moved by
    /// `tolerance` or more.
    fn assign<const N: usize>(&self, clusters: &mut Vec<Cluster<N>>, indices: &Vec<usize>, points: &Vec<[u16; N]>) -> (converged: bool)
        requires
            1 <= N <= MAX_DIMENSION,
            old(clusters).len() > 0,
            forall|t: int| 0 <= t < old(clusters).len() ==> (#[trigger] old(clusters)[t]).wf(),
            indices.len() <= MAX_MEMBERS,
            indices@.no_duplicates(),
            forall|t: int| 0 <= t < indices.len() ==> (#[trigger] indices[t]) < points.len(),
        ensures
            members_distinct(final(clusters)@),
            members_within(final(clusters)@, indices@.to_set()),
            points_match(final(clusters)@, points@),
            final(clusters).len() == old(clusters).len(),
            forall|t: int| 0 <= t < final(clusters).len() ==> (#[trigger] final(clusters)[t]).wf(),
            total_size(final(clusters)@) == indices.len(),
            forall|t: int, m: int| 0 <= t < final(clusters).len() && 0 <= m < final(clusters)[t].members().len()
                ==> #[trigger] final(clusters)[t].members()[m] < points.len(),
            forall|t: int, m: int, u: int| 0 <= t < final(clusters).len() && 0 <= m < final(clusters)[t].members().len()
                && 0 <= u < final(clusters).len()
                ==> self.metric.spec_measure(cent(old(clusters)[t])@, points@[#[trigger] final(clusters)[t].members()[m] as int]@)
                <= #[trigger] self.metric.spec_measure(cent(old(clusters)[u])@, points@[final(clusters)[t].members()[m] as int]@),
            old(clusters).len() == 1 ==> final(clusters)[0].members() == indices@,
            forall|j: int| 0 <= j < indices.len() ==> #[trigger] holds_member(final(clusters)@, indices@[j]),
            ascending(indices@) ==> forall|t: int| 0 <= t < final(clusters).len() ==> ascending(#[trigger] final(clusters)[t].members()),
            converged == forall|t: int, c: [u16; N]| 0 <= t < final(clusters).len() && (#[trigger] final(clusters)[t]).members().len() > 0
                && #[trigger] is_floor_mean(c, final(clusters)[t].points())
                ==> self.metric.spec_measure(cent(old(clusters)[t])@, c@) < self.tolerance,
    {
        let k = clusters.len();
        let mut centroids: Vec<[u16; N]> = Vec::new();
        let mut t: usize = 0;
        while t < k
            invariant
                t <= k,
                k == clusters.len(),
                centroids.len() == t,
                forall|s: int| 0 <= s < k ==> (#[trigger] clusters[s]).wf(),
                forall|s: int| t <= s < k ==> clusters[s] == old(clusters)[s],
                forall|s: int| 0 <= s < t ==> (#[trigger] clusters[s]).members().len() == 0
                    && clusters[s].points().len() == 0,
                forall|s: int| 0 <= s < t ==> #[trigger] centroids@[s] == cent(old(clusters)[s]),
            decreases k - t,
        {
            let c = clusters[t].centroid();
            centroids.push(c);
            let mut slot = Cluster::vacant(c);
            clusters.set_and_swap(t, &mut slot);
            slot.clear();
            clusters.set_and_swap(t, &mut slot);
            t = t + 1;
        }
        proof {
            lemma_total_zero(clusters@);
            assert(indices@.take(0).to_set() =~= Set::<usize>::empty());
            assert forall|a: int| 0 <= a < clusters.len() implies (#[trigger] clusters@[a]).points()
                == clusters@[a].members().map_values(|i: usize| points@[i as int]) by {
                assert(clusters@[a].points() =~= clusters@[a].members().map_values(|i: usize| points@[i as int]));
            }
        }
        let ns = KDTreeSearch::new(&centroids, &self.metric);
        proof {
            assert(indices@.take(0) =~= Seq::<usize>::empty());
        }
        let mut i: usize = 0;
        while i < indices.len()
            invariant
                1 <= N <= MAX_DIMENSION,
                i <= indices.len(),
                indices.len() <= MAX_MEMBERS,
                k == clusters.len(),
                k == centroids.len(),
                k > 0,
                ns.wf(),
                ns.spec_points() == centroids@,
                forall|s: int| 0 <= s < indices.len() ==> (#[trigger] indices[s]) < points.len(),
                forall|s: int| 0 <= s < k ==> (#[trigger] clusters[s]).wf(),
                total_size(clusters@) == i,
                forall|s: int, m: int| 0 <= s < k && 0 <= m < clusters[s].members().len()
                    ==> #[trigger] clusters[s].members()[m] < points.len(),
                indices@.no_duplicates(),
                members_distinct(clusters@),
                members_within(clusters@, indices@.take(i as int).to_set()),
                points_match(clusters@, points@),
                ns.spec_metric() == self.metric,
                forall|s: int| 0 <= s < k ==> #[trigger] centroids@[s] == cent(old(clusters)[s]),
                forall|s: int, m: int, u: int| 0 <= s < k && 0 <= m < clusters[s].members().len() && 0 <= u < k
                    ==> self.metric.spec_measure(centroids@[s]@, points@[#[trigger] clusters[s].members()[m] as int]@)
                    <= #[trigger] self.metric.spec_measure(centroids@[u]@, points@[clusters[s].members()[m] as int]@),
                k == 1 ==> clusters[0].members() == indices@.take(i as int),
                forall|j: int| 0 <= j < i ==> #[trigger] holds_member(clusters@, indices@[j]),
                ascending(indices@) ==> forall|s: int| 0 <= s < k ==> ascending(#[trigger] clusters[s].members()),
            decreases indices.len() - i,
        {
            let index = indices[i];
            let point = &points[index];
            match ns.search_nearest(point) {
                Some(nearest) => {
                    let target = nearest.index;
                    let ghost before = clusters@;
                    let mut slot = Cluster::vacant(*point);
                    let ghost placeholder = slot;
                    clusters.set_and_swap(target, &mut slot);
                    proof {
                        lemma_total_size_member(before, target as int);
                        lemma_total_size_update(before, target as int, placeholder);
                        assert(slot.members().len() <= indices.len());
                    }
                    slot.insert(index, point);
                    let ghost mid = clusters@;
                    clusters.set_and_swap(target, &mut slot);
                    proof {
                        lemma_total_size_update(mid, target as int, clusters@[target as int]);
                        lemma_take_to_set(indices@, i as int);
                        assert(!indices@.take(i as int).to_set().contains(index)) by {
                            if indices@.take(i as int).to_set().contains(index) {
                                let j = choose|j: int| 0 <= j < i && #[trigger] indices@.take(i as int)[j] == index;
                                assert(indices[j] == indices[i as int]);
                            }
                        }
                        lemma_insert_distinct(before, clusters@, target as int, index, indices@.take(i as int).to_set());
                        let t = target as int;
                        assert(clusters@[t].members().map_values(|i: usize| points@[i as int])
                            =~= before[t].members().map_values(|i: usize| points@[i as int]).push(points@[index as int]));
                        assert forall|a: int| 0 <= a < clusters.len() implies (#[trigger] clusters@[a]).points()
                            == clusters@[a].members().map_values(|i: usize| points@[i as int]) by {
                            if a != t {
                                assert(clusters@[a] == before[a]);
                            }
                        }
                        assert forall|s: int, m: int| 0 <= s < k && 0 <= m < clusters[s].members().len()
                            implies #[trigger] clusters[s].members()[m] < points.len() by {
                            if s != target as int {
                                assert(clusters[s] == before[s]);
                            } else if m < clusters[s].members().len() - 1 {
                                assert(clusters[s].members()[m] == before[s].members()[m]);
                            }
                        }
                        assert forall|s: int, m: int, u: int| 0 <= s < k && 0 <= m < clusters[s].members().len() && 0 <= u < k
                            implies self.metric.spec_measure(centroids@[s]@, points@[#[trigger] clusters[s].members()[m] as int]@)
                            <= #[trigger] self.metric.spec_measure(centroids@[u]@, points@[clusters[s].members()[m] as int]@) by {
                            if s != t {
                                assert(clusters[s] == before[s]);
                            } else if m < clusters[s].members().len() - 1 {
                                assert(clusters[s].members()[m] == before[s].members()[m]);
                            } else {
                                assert(clusters[s].members()[m] == index);
                                if u != t {
                                    assert(ns.dist(nearest.index, *point) == self.metric.spec_measure(centroids@[t]@, point@));
                                    assert(precedes_point(nearest, ns.dist(u as usize, *point), u as usize));
                                }
                            }
                        }
                        if k == 1 {
                            assert(t == 0);
                            assert(clusters[0].members() =~= indices@.take(i as int + 1));
                        }
                        assert forall|j: int| 0 <= j < i + 1 implies #[trigger] holds_member(clusters@, indices@[j]) by {
                            if j == i {
                                assert(clusters@[t].members()[clusters@[t].members().len() - 1] == index);
                            } else {
                                assert(holds_member(before, indices@[j]));
                                let (u, m) = choose|u: int, m: int| 0 <= u < before.len() && 0 <= m < before[u].members().len()
                                    && #[trigger] before[u].members()[m] == indices@[j];
                                if u != t {
                                    assert(clusters@[u] == before[u]);
                                }
                                assert(clusters@[u].members()[m] == indices@[j]);
                            }
                        }
                        if ascending(indices@) {
                            assert forall|s: int| 0 <= s < k implies ascending(#[trigger] clusters[s].members()) by {
                                if s != t {
                                    assert(clusters[s] == before[s]);
                                } else {
                                    let bm = before[t].members();
                                    let cm = clusters[s].members();
                                    assert forall|a: int, b: int| 0 <= a < b < cm.len() implies #[trigger] cm[a] < #[trigger] cm[b] by {
                                        if b < bm.len() {
                                            assert(cm[a] == bm[a] && cm[b] == bm[b]);
                                            assert(ascending(bm));
                                        } else {
                                            assert(cm[a] == bm[a]);
                                            assert(indices@.take(i as int).to_set().contains(bm[a]));
                                            let j = choose|j: int| 0 <= j < i && #[trigger] indices@.take(i as int)[j] == bm[a];
                                            assert(indices@[j] < indices@[i as int]);
                                        }
                                    }
                                }
                            }
                        }
                    }
                },
                None => {},
            }
            i = i + 1;
        }
        proof {
            assert(indices@.take(indices.len() as int) =~= indices@);
        }
        let mut converged = true;
        let mut t: usize = 0;
        while t < k
            invariant
                t <= k,
                k == clusters.len(),
                k == centroids.len(),
                1 <= N <= MAX_DIMENSION,
                forall|s: int| 0 <= s < k ==> (#[trigger] clusters[s]).wf(),
                forall|s: int, m: int| 0 <= s < k && 0 <= m < clusters[s].members().len()
                    ==> #[trigger] clusters[s].members()[m] < points.len(),
                members_distinct(clusters@),
                members_within(clusters@, indices@.to_set()),
                points_match(clusters@, points@),
                forall|s: int| 0 <= s < k ==> #[trigger] centroids@[s] == cent(old(clusters)[s]),
                converged == forall|s: int, c: [u16; N]| 0 <= s < t && (#[trigger] clusters[s]).members().len() > 0
                    && #[trigger] is_floor_mean(c, clusters[s].points())
                    ==> self.metric.spec_measure(cent(old(clusters)[s])@, c@) < self.tolerance,
                forall|s: int, m: int, u: int| 0 <= s < k && 0 <= m < clusters[s].members().len() && 0 <= u < k
                    ==> self.metric.spec_measure(centroids@[s]@, points@[#[trigger] clusters[s].members()[m] as int]@)
                    <= #[trigger] self.metric.spec_measure(centroids@[u]@, points@[clusters[s].members()[m] as int]@),
                forall|j: int| 0 <= j < indices.len() ==> #[trigger] holds_member(clusters@, indices@[j]),
                ascending(indices@) ==> forall|s: int| 0 <= s < k ==> ascending(#[trigger] clusters[s].members()),
            decreases k - t,
        {
            if !clusters[t].is_empty() {
                let c = clusters[t].centroid();
                let difference = self.metric.measure(&centroids[t], &c);
                let ghost before = converged;
                if difference >= self.tolerance {
                    converged = false;
                }
                proof {
                    assert forall|c2: [u16; N]| #[trigger] is_floor_mean(c2, clusters[t as int].points()) implies c2 == c by {
                        lemma_floor_mean_unique(c2, c, clusters[t as int].points());
                    }
                }
            }
            t = t + 1;
        }
        proof {
            assert forall|s: int, m: int, u: int| 0 <= s < k && 0 <= m < clusters[s].members().len() && 0 <= u < k
                implies self.metric.spec_measure(cent(old(clusters)[s])@, points@[#[trigger] clusters[s].members()[m] as int]@)
                <= #[trigger] self.metric.spec_measure(cent(old(clusters)[u])@, points@[clusters[s].members()[m] as int]@) by {
                assert(centroids@[s] == cent(old(clusters)[s]));
                assert(centroids@[u] == cent(old(clusters)[u]));
                assert(self.metric.spec_measure(centroids@[s]@, points@[clusters[s].members()[m] as int]@)
                    <= self.metric.spec_measure(centroids@[u]@, points@[clusters[s].members()[m] as int]@));
            }
        }
        converged
    }

    /// Clusters `points`. Starts from one cluster seeded at the middle
    /// point; when one k-means round moves its centroid by less than
    /// `tolerance`, that cluster of all points is the result. Otherwise
    /// repeatedly takes the largest cluster and splits it in two; the split
    /// is kept when `accept_split`, given the projections of the cluster's
    /// points onto the axis through the two new centroids, accepts it, and
    /// the two halves are put back as candidates otherwise. A cluster that
    /// k-means leaves whole (one half empty) cannot be split and is set
    /// aside. Stops when no further pair fits within `max_k` kept clusters,
    /// or the largest candidate is smaller than `min_cluster_size` or has
    /// one point. Kept clusters come in the pairs in which they were split.
    pub fn fit<const N: usize, F: Fn(&Vec<i64>) -> bool>(&self, points: &Vec<[u16; N]>, accept_split: &F) -> (r: Vec<Cluster<N>>)
        requires
            1 <= N <= MAX_DIMENSION,
            points.len() <= MAX_MEMBERS,
            self.max_k >= 2,
            forall|x: &Vec<i64>| #[trigger] accept_split.requires((x,)),
        ensures
            forall|t: int| 0 <= t < r.len() ==> (#[trigger] r[t]).wf() && r[t].members().len() > 0,
            forall|t: int, m: int| 0 <= t < r.len() && 0 <= m < r[t].members().len()
                ==> #[trigger] r[t].members()[m] < points.len(),
            total_size(r@) <= points.len(),
            members_distinct(r@),
            points_match(r@, points@),
            r.len() <= self.max_k,
            r.len() == 1 || kept_in_pairs(r@, self.min_cluster_size),
            r.len() == 1 || pairs_accepted(r@, *accept_split),
            forall|m: [u16; N]| points.len() > 0 && #[trigger] is_floor_mean(m, points@) ==> (
                (self.metric.spec_measure(points@[(points.len() / 2) as int]@, m@) < self.tolerance)
                <==> (r.len() == 1 && r[0].members() == Seq::new(points.len() as nat, |i: int| i as usize))),
            (forall|x: &Vec<i64>, b: bool| #[trigger] accept_split.ensures((x,), b) ==> b)
                && self.max_iter > 0 && points.len() >= 2 && points.len() >= self.min_cluster_size
                && points@[(points.len() / 3) as int] != points@[((2 * points.len()) / 3) as int]
                && (exists|m: [u16; N]| #[trigger] is_floor_mean(m, points@)
                    && !(self.metric.spec_measure(points@[(points.len() / 2) as int]@, m@) < self.tolerance))
                ==> r.len() >= 2,
    {
        let n = points.len();
        if n == 0 {
            return Vec::new();
        }
        let mut clusters: Vec<Cluster<N>> = Vec::new();
        clusters.push(Cluster::new(points[n / 2]));
        let mut membership: Vec<usize> = Vec::new();
        let mut i: usize = 0;
        while i < n
            invariant
                i <= n,
                membership.len() == i,
                forall|t: int| 0 <= t < i ==> #[trigger] membership[t] == t,
            decreases n - i,
        {
            membership.push(i);
            i = i + 1;
        }
        let ghost first = clusters@;
        proof {
            lemma_centroid_unique(points@[(n / 2) as int], points@[(n / 2) as int], Seq::<[u16; N]>::empty());
            assert(first[0].points() == Seq::<[u16; N]>::empty());
            assert(membership@ =~= Seq::new(n as nat, |i: int| i as usize));
        }
        let converged = self.assign(&mut clusters, &membership, points);
        proof {
            assert(clusters[0].members() == Seq::new(n as nat, |i: int| i as usize));
            assert(clusters[0].points() =~= points@);
            assert(cent(first[0]) == points@[(n / 2) as int]);
            assert forall|m: [u16; N]| #[trigger] is_floor_mean(m, points@) implies
                (self.metric.spec_measure(points@[(n / 2) as int]@, m@) < self.tolerance) == converged by {
                if !converged {
                    let (t, c) = choose|t: int, c: [u16; N]| 0 <= t < clusters.len() && (#[trigger] clusters[t]).members().len() > 0
                        && #[trigger] is_floor_mean(c, clusters[t].points())
                        && !(self.metric.spec_measure(cent(first[t])@, c@) < self.tolerance);
                    lemma_floor_mean_unique(c, m, points@);
                } else {
                    assert(clusters[0].members().len() > 0);
                }
            }
        }
        if converged {
            proof {
                assert(clusters@.drop_last() =~= Seq::<Cluster<N>>::empty());
                assert(total_size(clusters@.drop_last()) == 0);
                assert(clusters@.last() == clusters[0]);
                assert(total_size(clusters@) == clusters[0].members().len());
                if exists|m: [u16; N]| #[trigger] is_floor_mean(m, points@)
                    && !(self.metric.spec_measure(points@[(points.len() / 2) as int]@, m@) < self.tolerance) {
                    let m = choose|m: [u16; N]| #[trigger] is_floor_mean(m, points@)
                        && !(self.metric.spec_measure(points@[(points.len() / 2) as int]@, m@) < self.tolerance);
                    assert((self.metric.spec_measure(points@[(n / 2) as int]@, m@) < self.tolerance) == converged);
                }
            }
            return clusters;
        }
        let ghost all_points = Seq::new(n as nat, |i: int| i as usize);
        let ghost strong = (forall|x: &Vec<i64>, b: bool| #[trigger] accept_split.ensures((x,), b) ==> b)
            && self.max_iter > 0 && n >= 2 && n >= self.min_cluster_size
            && points@[(n / 3) as int] != points@[((2 * n) / 3) as int];
        let mut heap = clusters;
        let mut result: Vec<Cluster<N>> = Vec::new();
        proof {
            assert(heap@.drop_last() =~= Seq::<Cluster<N>>::empty());
            assert(total_size(heap@.drop_last()) == 0);
            assert(heap@.last() == heap[0]);
            assert(total_size(heap@) == heap[0].members().len());
        }
        while result.len() < self.max_k - 1
            invariant
                1 <= N <= MAX_DIMENSION,
                n == points.len(),
                n <= MAX_MEMBERS,
                forall|x: &Vec<i64>| #[trigger] accept_split.requires((x,)),
                forall|t: int| 0 <= t < heap.len() ==> (#[trigger] heap[t]).wf() && heap[t].members().len() > 0,
                forall|t: int, m: int| 0 <= t < heap.len() && 0 <= m < heap[t].members().len()
                    ==> #[trigger] heap[t].members()[m] < n,
                forall|t: int| 0 <= t < result.len() ==> (#[trigger] result[t]).wf() && result[t].members().len() > 0,
                forall|t: int, m: int| 0 <= t < result.len() && 0 <= m < result[t].members().len()
                    ==> #[trigger] result[t].members()[m] < n,
                total_size(heap@) + total_size(result@) <= n,
                self.max_k >= 2,
                result.len() <= self.max_k,
                result.len() % 2 == 0,
                kept_in_pairs(result@, self.min_cluster_size),
                members_distinct(heap@),
                members_distinct(result@),
                members_apart(heap@, result@),
                points_match(heap@, points@),
                points_match(result@, points@),
                strong ==> result.len() >= 2
                    || (result.len() == 0 && heap.len() == 1 && heap[0].members() == all_points),
                strong == ((forall|x: &Vec<i64>, b: bool| #[trigger] accept_split.ensures((x,), b) ==> b)
                    && self.max_iter > 0 && n >= 2 && n >= self.min_cluster_size
                    && points@[(n / 3) as int] != points@[((2 * n) / 3) as int]),
                all_points == Seq::new(n as nat, |i: int| i as usize),
                pairs_accepted(result@, *accept_split),
            ensures
                strong ==> result.len() >= 2,
            decreases total_size(heap@), n - heap.len() - result.len(),
        {
            proof {
                lemma_total_size_count(heap@);
                lemma_total_size_count(result@);
            }
            let ghost count0 = heap.len() + result.len();
            if heap.len() == 0 {
                break;
            }
            let mut p: usize = 0;
            let mut t: usize = 1;
            while t < heap.len()
                invariant
                    p < heap.len(),
                    t <= heap.len(),
                    forall|s: int| 0 <= s < heap.len() ==> (#[trigger] heap[s]).wf(),
                decreases heap.len() - t,
            {
                if heap[t].size() > heap[p].size() {
                    p = t;
                }
                t = t + 1;
            }
            let ghost h0 = heap@;
            let largest = heap.swap_remove(p);
            proof {
                lemma_total_size_update(h0, p as int, h0.last());
                assert(h0.update(p as int, h0.last()).last() == h0.last());
                assert(total_size(heap@) + largest.members().len() == total_size(h0));
                assert forall|s: int| 0 <= s < heap.len() implies (#[trigger] heap[s]) == h0[s] || heap[s] == h0.last() by {}
                lemma_swap_remove_apart(h0, p as int, result@);
                assert forall|a: int| 0 <= a < heap.len() implies (#[trigger] heap@[a]).points()
                    == heap@[a].members().map_values(|i: usize| points@[i as int]) by {
                    assert(heap@[a] == h0[a] || heap@[a] == h0.last());
                }
                lemma_apart_one(h0, p as int, result@);
                assert(largest.members().no_duplicates()) by {
                    assert forall|i: int, j: int| 0 <= i < largest.members().len() && 0 <= j < largest.members().len() && i != j
                        implies largest.members()[i] != largest.members()[j] by {
                        assert(h0[p as int].members()[i] != h0[p as int].members()[j]);
                    }
                }
            }
            let size = largest.size();
            if size < self.min_cluster_size || size <= 1 {
                break;
            }
            let (c1, c2) = self.split(&largest, points);
            if c1.is_empty() || c2.is_empty() {
                // The cluster cannot be split: it is set aside.
                continue;
            }
            let centroid1 = c1.centroid();
            let centroid2 = c2.centroid();
            let x = projections(&centroid1, &centroid2, largest.membership(), points);
            let ghost r0 = result@;
            let ghost h1 = heap@;
            let accepted = accept_split(&x);
            if accepted {
                result.push(c1);
                result.push(c2);
                proof {
                    assert forall|t: int| 0 <= t < result.len() / 2 implies exists|y: Vec<i64>| accept_split.ensures((&y,), true)
                        && y.len() == (#[trigger] result[2 * t]).members().len() + result[2 * t + 1].members().len() by {
                        if t < r0.len() / 2 {
                            assert(result[2 * t] == r0[2 * t]);
                            assert(result[2 * t + 1] == r0[2 * t + 1]);
                            assert(pairs_accepted(r0, *accept_split));
                            assert(r0[2 * t] == r0[2 * t]);
                        } else {
                            assert(result[2 * t] == c1 && result[2 * t + 1] == c2);
                            assert(accept_split.ensures((&x,), true));
                        }
                    }
                    lemma_apart_symmetric(h1, r0);
                    lemma_add_halves(r0, h1, largest, c1, c2);
                    lemma_apart_symmetric(result@, h1);
                    lemma_total_size_push(r0, c1);
                    lemma_total_size_push(r0.push(c1), c2);
                    assert(seq![c1, c2][0] == c1 && seq![c1, c2][1] == c2);
                    assert forall|a: int| 0 <= a < result.len() implies (#[trigger] result@[a]).points()
                        == result@[a].members().map_values(|i: usize| points@[i as int]) by {
                        if a < r0.len() {
                            assert(result@[a] == r0[a]);
                        }
                    }
                    assert forall|t: int| 0 <= t < result.len() / 2 implies
                        #[trigger] result[2 * t].members().len() + result[2 * t + 1].members().len() >= self.min_cluster_size
                        && result[2 * t].members().len() + result[2 * t + 1].members().len() >= 2 by {
                        if t < r0.len() / 2 {
                            assert(result[2 * t] == r0[2 * t]);
                            assert(result[2 * t + 1] == r0[2 * t + 1]);
                        }
                    }
                }
            } else {
                heap.push(c1);
                heap.push(c2);
                proof {
                    lemma_add_halves(h1, r0, largest, c1, c2);
                    lemma_total_size_push(h1, c1);
                    lemma_total_size_push(h1.push(c1), c2);
                    assert(seq![c1, c2][0] == c1 && seq![c1, c2][1] == c2);
                    assert forall|a: int| 0 <= a < heap.len() implies (#[trigger] heap@[a]).points()
                        == heap@[a].members().map_values(|i: usize| points@[i as int]) by {
                        if a < h1.len() {
                            assert(heap@[a] == h1[a]);
                        }
                    }
                }
            }
            proof {
                assert(heap.len() + result.len() == count0 + 1);
                lemma_total_size_count(heap@);
                lemma_total_size_count(result@);
            }
        }
        proof {
            assert(strong ==> result.len() >= 2);
        }
        result
    }

    /// Splits `cluster` in two: seeds two clusters at the members one third
    /// and two thirds along its membership, then runs k-means over its members.
    fn split<const N: usize>(&self, cluster: &Cluster<N>, points: &Vec<[u16; N]>) -> (r: (Cluster<N>, Cluster<N>))
        requires
            1 <= N <= MAX_DIMENSION,
            cluster.wf(),
            cluster.members().len() >= 2,
            cluster.members().no_duplicates(),
            forall|t: int| 0 <= t < cluster.members().len() ==> (#[trigger] cluster.members()[t]) < points.len(),
        ensures
            members_distinct(seq![r.0, r.1]),
            members_within(seq![r.0, r.1], cluster.members().to_set()),
            points_match(seq![r.0, r.1], points@),
            r.0.wf(),
            r.1.wf(),
            (r.0.members().len() == 0 && r.1.members().len() == 0)
                || r.0.members().len() + r.1.members().len() == cluster.members().len(),
            forall|m: int| 0 <= m < r.0.members().len() ==> #[trigger] r.0.members()[m] < points.len(),
            forall|m: int| 0 <= m < r.1.members().len() ==> #[trigger] r.1.members()[m] < points.len(),
            self.max_iter > 0 && points@[cluster.members()[(cluster.members().len() / 3) as int] as int]
                != points@[cluster.members()[((2 * cluster.members().len()) / 3) as int] as int]
                ==> r.0.members().len() > 0 && r.1.members().len() > 0,
    {
        let membership = cluster.membership();
        let size = cluster.size();
        proof {
            cluster.lemma_wf_size();
        }
        let mut clusters: Vec<Cluster<N>> = Vec::new();
        let first = membership[size / 3];
        let second_pos = ((size as u64) * 2 / 3) as usize;
        let second = membership[second_pos];
        clusters.push(Cluster::new(points[first]));
        clusters.push(Cluster::new(points[second]));
        proof {
            lemma_total_zero(clusters@);
            assert forall|a: int| 0 <= a < clusters.len() implies (#[trigger] clusters@[a]).points()
                == clusters@[a].members().map_values(|i: usize| points@[i as int]) by {
                assert(clusters@[a].points() =~= clusters@[a].members().map_values(|i: usize| points@[i as int]));
            }
        }
        let mut round: usize = 0;
        while round < self.max_iter
            invariant
                1 <= N <= MAX_DIMENSION,
                clusters.len() == 2,
                membership@ == cluster.members(),
                membership.len() <= MAX_MEMBERS,
                forall|t: int| 0 <= t < membership.len() ==> (#[trigger] membership[t]) < points.len(),
                forall|t: int| 0 <= t < 2 ==> (#[trigger] clusters[t]).wf(),
                total_size(clusters@) == 0 || total_size(clusters@) == membership.len(),
                forall|s: int, m: int| 0 <= s < 2 && 0 <= m < clusters[s].members().len()
                    ==> #[trigger] clusters[s].members()[m] < points.len(),
                membership@.no_duplicates(),
                members_distinct(clusters@),
                members_within(clusters@, membership@.to_set()),
                points_match(clusters@, points@),
            decreases self.max_iter - round,
        {
            let converged = self.assign(&mut clusters, membership, points);
            round = round + 1;
            if converged {
                break;
            }
        }
        if self.max_iter > 0 && (clusters[0].is_empty() || clusters[1].is_empty()) {
            // k-means emptied one half: keep the halves of the first round,
            // in which each seed's own point stays with its seed.
            let mut fresh: Vec<Cluster<N>> = Vec::new();
            fresh.push(Cluster::new(points[first]));
            fresh.push(Cluster::new(points[second]));
            let ghost seeds = fresh@;
            proof {
                lemma_total_zero(fresh@);
                assert forall|a: int| 0 <= a < fresh.len() implies (#[trigger] fresh@[a]).points()
                    == fresh@[a].members().map_values(|i: usize| points@[i as int]) by {
                    assert(fresh@[a].points() =~= fresh@[a].members().map_values(|i: usize| points@[i as int]));
                }
                assert(seeds[0].points() =~= Seq::<[u16; N]>::empty());
                assert(seeds[1].points() =~= Seq::<[u16; N]>::empty());
                lemma_centroid_unique(points@[first as int], points@[first as int], Seq::<[u16; N]>::empty());
                lemma_centroid_unique(points@[second as int], points@[second as int], Seq::<[u16; N]>::empty());
                assert(cent(seeds[0]) == points@[first as int]);
                assert(cent(seeds[1]) == points@[second as int]);
            }
            let _ = self.assign(&mut fresh, membership, points);
            proof {
                let pf = points@[first as int];
                let ps = points@[second as int];
                if pf != ps {
                    lemma_distance_to_self(self.metric, pf);
                    lemma_distance_to_self(self.metric, ps);
                    assert(holds_member(fresh@, membership@[(size / 3) as int]));
                    let (t, m) = choose|t: int, m: int| 0 <= t < fresh@.len() && 0 <= m < fresh@[t].members().len()
                        && #[trigger] fresh@[t].members()[m] == membership@[(size / 3) as int];
                    if t == 1 {
                        assert(self.metric.spec_measure(cent(seeds[1])@, points@[fresh@[1].members()[m] as int]@)
                            <= self.metric.spec_measure(cent(seeds[0])@, points@[fresh@[1].members()[m] as int]@));
                        lemma_measure_zero(self.metric, ps, pf);
                    }
                    assert(fresh[0].members().len() > 0);
                    assert(holds_member(fresh@, membership@[second_pos as int]));
                    let (t2, m2) = choose|t: int, m: int| 0 <= t < fresh@.len() && 0 <= m < fresh@[t].members().len()
                        && #[trigger] fresh@[t].members()[m] == membership@[second_pos as int];
                    if t2 == 0 {
                        assert(self.metric.spec_measure(cent(seeds[0])@, points@[fresh@[0].members()[m2] as int]@)
                            <= self.metric.spec_measure(cent(seeds[1])@, points@[fresh@[0].members()[m2] as int]@));
                        lemma_measure_zero(self.metric, pf, ps);
                    }
                    assert(fresh[1].members().len() > 0);
                }
            }
            clusters = fresh;
        }
        proof {
            let d1 = clusters@.drop_last();
            assert(d1.drop_last() =~= Seq::<Cluster<N>>::empty());
            assert(total_size(d1.drop_last()) == 0);
            assert(d1.last() == clusters[0]);
            assert(total_size(d1) == clusters[0].members().len());
            assert(total_size(clusters@) == clusters[0].members().len() + clusters[1].members().len());
        }
        proof {
            assert(clusters@ =~= seq![clusters[0], clusters[1]]);
        }
        let second_cluster = clusters.pop().unwrap();
        let first_cluster = clusters.pop().unwrap();
        (first_cluster, second_cluster)
    }
}

/// The dot product of `p` with `a - b` over the first `n` axes.
pub open spec fn partial_projection(p: Seq<u16>, a: Seq<u16>, b: Seq<u16>, n: int) -> int
    decreases n,
{
    if n <= 0 {
        0
    } else {
        partial_projection(p, a, b, n - 1) + p[n - 1] * (a[n - 1] - b[n - 1])
    }
}

/// The dot product of `p` with `a - b`: the position of `p` along the axis
/// from `b` to `a`, scaled by that axis's length.
pub open spec fn projection(p: Seq<u16>, a: Seq<u16>, b: Seq<u16>) -> int {
    partial_projection(p, a, b, p.len() as int)
}

/// Projects each member's point onto the axis through `c2` and `c1`.
fn projections<const N: usize>(c1: &[u16; N], c2: &[u16; N], members: &Vec<usize>, points: &Vec<[u16; N]>) -> (x: Vec<i64>)
    requires
        N <= MAX_DIMENSION,
        forall|t: int| 0 <= t < members.len() ==> (#[trigger] members[t]) < points.len(),
    ensures
        x.len() == members.len(),
        forall|t: int| 0 <= t < x.len() ==> #[trigger] x[t] == projection(points[members[t] as int]@, c1@, c2@),
{
    let mut x: Vec<i64> = Vec::new();
    let mut t: usize = 0;
    while t < members.len()
        invariant
            t <= members.len(),
            N <= MAX_DIMENSION,
            x.len() == t,
            forall|s: int| 0 <= s < members.len() ==> (#[trigger] members[s]) < points.len(),
            forall|s: int| 0 <= s < t ==> #[trigger] x[s] == projection(points[members[s] as int]@, c1@, c2@),
        decreases members.len() - t,
    {
        let p = &points[members[t]];
        let mut acc: i64 = 0;
        let mut d: usize = 0;
        while d < N
            invariant
                d <= N,
                N <= MAX_DIMENSION,
                acc == partial_projection(p@, c1@, c2@, d as int),
                -(d * 4294836225) <= acc <= d * 4294836225,
            decreases N - d,
        {
            let pv = p[d] as i64;
            let delta = c1[d] as i64 - c2[d] as i64;
            assert(-4294836225 <= pv * delta <= 4294836225) by (nonlinear_arith)
                requires
                    0 <= pv <= 65535,
                    -65535 <= delta <= 65535,
            ;
            assert(d * 4294836225 + 4294836225 <= MAX_DIMENSION * 4294836225) by (nonlinear_arith)
                requires
                    d < MAX_DIMENSION,
            ;
            acc = acc + pv * delta;
            d = d + 1;
        }
        x.push(acc);
        t = t + 1;
    }
    x
}

proof fn lemma_total_zero<const N: usize>(cs: Seq<Cluster<N>>)
    requires
        forall|s: int| 0 <= s < cs.len() ==> (#[trigger] cs[s]).members().len() == 0,
    ensures
        total_size(cs) == 0,
    decreases cs.len(),
{
    if cs.len() > 0 {
        lemma_total_zero(cs.drop_last());
    }
}

/// `accept_split` accepted every kept pair, given as many projections as
/// the pair holds points.
pub open spec fn pairs_accepted<const N: usize, F: Fn(&Vec<i64>) -> bool>(r: Seq<Cluster<N>>, accept_split: F) -> bool {
    forall|t: int| 0 <= t < r.len() / 2 ==> exists|x: Vec<i64>| accept_split.ensures((&x,), true)
        && x.len() == (#[trigger] r[2 * t]).members().len() + r[2 * t + 1].members().len()
}

/// Every two consecutive kept clusters are the halves of one split, of a
/// cluster that had at least `min_cluster_size` and at least two members.
pub open spec fn kept_in_pairs<const N: usize>(r: Seq<Cluster<N>>, min_cluster_size: usize) -> bool {
    &&& r.len() % 2 == 0
    &&& forall|t: int| 0 <= t < r.len() / 2 ==>
        #[trigger] r[2 * t].members().len() + r[2 * t + 1].members().len() >= min_cluster_size
        && r[2 * t].members().len() + r[2 * t + 1].members().len() >= 2
}

} // verus!
