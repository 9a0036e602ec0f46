use vstd::prelude::*;
use crate::cluster::{Cluster, MAX_MEMBERS, is_floor_mean};
use crate::dbscan::{DBSCAN, count_within};
use crate::gmeans::{Gmeans, kept_in_pairs, members_distinct, points_match};
use crate::point::{DistanceMetric, MAX_DIMENSION};

verus! {

/// The DBSCAN radius used on pixel points: 0.04 of the unit range, squared,
/// with coordinates scaled to `0..=65535`.
pub const PIXEL_EPSILON: u64 = 6871738;

/// The G-means convergence tolerance used on pixel points: 0.001 of the
/// squared unit range, with coordinates scaled to `0..=65535`.
pub const PIXEL_TOLERANCE: u64 = 4294836;

/// The clustering that groups pixels into candidate swatches.
#[derive(Debug, Clone, Copy, PartialEq, Eq, Structural)]
pub enum Algorithm {
    /// G-means clustering.
    GMeans,
    /// DBSCAN clustering.
    DBSCAN,
}

impl Algorithm {
    /// Clusters pixel points with this algorithm's settings for palette
    /// extraction: G-means with at most 32 clusters, 8 rounds and clusters
    /// of at least 16 points, or DBSCAN with 16 neighbors within
    /// `PIXEL_EPSILON`. `accept_split` is G-means' normality test.
    pub fn apply<const N: usize, F: Fn(&Vec<i64>) -> bool>(&self, points: &Vec<[u16; N]>, accept_split: &F) -> (r: Vec<Cluster<N>>)
        requires
            1 <= N <= MAX_DIMENSION,
            points.len() <= MAX_MEMBERS,
            forall|x: &Vec<i64>| #[trigger] accept_split.requires((x,)),
        ensures
            forall|t: int| 0 <= t < r.len() ==> (#[trigger] r[t]).wf() && r[t].members().len() > 0,
            forall|t: int, m: int| 0 <= t < r.len() && 0 <= m < r[t].members().len()
                ==> #[trigger] r[t].members()[m] < points.len(),
            members_distinct(r@),
            points_match(r@, points@),
            *self == Algorithm::DBSCAN ==> forall|j: usize| j < points.len()
                && count_within(DistanceMetric::SquaredEuclidean, points@, points@[j as int], PIXEL_EPSILON, points.len() as int) >= 16
                ==> exists|t: int| 0 <= t < r.len() && (#[trigger] r[t].members()).contains(j),
            *self == Algorithm::GMeans ==> {
                &&& r.len() <= 32
                &&& (r.len() == 1 || kept_in_pairs(r@, 16))
                &&& forall|m: [u16; N]| points.len() > 0 && #[trigger] is_floor_mean(m, points@) ==> (
                    (DistanceMetric::SquaredEuclidean.spec_measure(points@[(points.len() / 2) as int]@, m@) < PIXEL_TOLERANCE)
                    <==> (r.len() == 1 && r[0].members() == Seq::new(points.len() as nat, |i: int| i as usize)))
                &&& (forall|x: &Vec<i64>, b: bool| #[trigger] accept_split.ensures((x,), b) ==> b)
                    && points.len() >= 16
                    && points@[(points.len() / 3) as int] != points@[((2 * points.len()) / 3) as int]
                    && (exists|m: [u16; N]| #[trigger] is_floor_mean(m, points@)
                        && !(DistanceMetric::SquaredEuclidean.spec_measure(points@[(points.len() / 2) as int]@, m@) < PIXEL_TOLERANCE))
                    ==> r.len() >= 2
            },
    {
        match self {
            Algorithm::GMeans => {
                let gmeans = Gmeans::new(32, 8, 16, PIXEL_TOLERANCE, &DistanceMetric::SquaredEuclidean);
                gmeans.fit(points, accept_split)
            },
            Algorithm::DBSCAN => {
                let dbscan = DBSCAN::new(16, PIXEL_EPSILON, &DistanceMetric::SquaredEuclidean);
                let (clusters, outliers) = dbscan.fit(points);
                proof {
                    let cs = clusters@;
                    assert forall|t: int, m: int| 0 <= t < clusters.len() && 0 <= m < clusters[t].members().len()
                        implies #[trigger] clusters[t].members()[m] < points.len() by {
                        assert(clusters@[t] == clusters[t]);
                    }
                    assert forall|a: int, b: int, ma: int, mb: int|
                        0 <= a < cs.len() && 0 <= b < cs.len() && 0 <= ma < cs[a].members().len()
                            && 0 <= mb < cs[b].members().len() && (a != b || ma != mb)
                        implies #[trigger] cs[a].members()[ma] != #[trigger] cs[b].members()[mb] by {
                        if a == b {
                            if ma < mb {
                                assert(cs[a].members()[ma] < cs[a].members()[mb]);
                            } else {
                                assert(cs[a].members()[mb] < cs[a].members()[ma]);
                            }
                        } else {
                            assert(!cs[b].members().contains(cs[a].members()[ma]));
                        }
                    }
                    assert forall|t: int| 0 <= t < cs.len() implies (#[trigger] cs[t]).points()
                        == cs[t].members().map_values(|i: usize| points@[i as int]) by {}
                    assert forall|j: usize| j < points.len()
                        && count_within(DistanceMetric::SquaredEuclidean, points@, points@[j as int], PIXEL_EPSILON, points.len() as int) >= 16
                        implies exists|t: int| 0 <= t < cs.len() && (#[trigger] cs[t].members()).contains(j) by {
                        if outliers@.contains(j) {
                            let o = choose|o: int| 0 <= o < outliers.len() && outliers@[o] == j;
                            assert(outliers[o] == j);
                        }
                    }
                }
                clusters
            },
        }
    }
}

} // verus!
