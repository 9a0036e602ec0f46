use auto_palette::algorithm::Algorithm;
use auto_palette::cluster::Cluster;
use auto_palette::dbscan::{Label, DBSCAN};
use auto_palette::gmeans::Gmeans;
use auto_palette::point::DistanceMetric;

fn random_points(n: usize, seed: u64) -> Vec<[u16; 2]> {
    let mut state = seed;
    let mut next = || {
        state = state.wrapping_mul(6364136223846793005).wrapping_add(1442695040888963407);
        ((state >> 33) % 60000) as u16
    };
    (0..n).map(|_| [next(), next()]).collect()
}

#[test]
fn cluster_centroid_is_the_floor_mean() {
    let mut cluster = Cluster::new([7u16, 7]);
    assert!(cluster.is_empty());
    assert_eq!(cluster.centroid(), [7, 7]);
    cluster.insert(3, &[1, 10]);
    cluster.insert(5, &[2, 20]);
    assert_eq!(cluster.size(), 2);
    assert_eq!(cluster.membership(), &vec![3, 5]);
    assert_eq!(cluster.centroid(), [1, 15]);
    cluster.clear();
    assert!(cluster.is_empty());
    assert_eq!(cluster.centroid(), [0, 0]);
}

#[test]
fn labels_report_their_state() {
    assert!(Label::Assigned(2).is_assigned());
    assert!(!Label::Outlier.is_assigned());
    assert!(Label::Outlier.is_outlier());
    assert!(Label::Undefined.is_undefined());
    assert!(!Label::Marked.is_undefined());
}

#[test]
fn dbscan_on_empty_input() {
    let points: Vec<[u16; 2]> = Vec::new();
    let (clusters, outliers) = DBSCAN::new(3, 10, &DistanceMetric::Euclidean).fit(&points);
    assert!(clusters.is_empty());
    assert!(outliers.is_empty());
}

#[test]
fn dbscan_with_large_radius_finds_one_cluster() {
    let points = random_points(50, 9);
    let (clusters, outliers) = DBSCAN::new(1, u64::MAX, &DistanceMetric::SquaredEuclidean).fit(&points);
    assert_eq!(clusters.len(), 1);
    assert!(outliers.is_empty());
    assert_eq!(clusters[0].membership(), &(0..50).collect::<Vec<usize>>());
}

#[test]
fn dbscan_separates_groups_and_outliers() {
    let points: Vec<[u16; 2]> = vec![
        [0, 0], [1, 0], [0, 1], [1, 1],
        [100, 100], [101, 100], [100, 101],
        [50, 50],
    ];
    let (clusters, outliers) = DBSCAN::new(3, 2, &DistanceMetric::Euclidean).fit(&points);
    assert_eq!(clusters.len(), 2);
    assert_eq!(clusters[0].membership(), &vec![0, 1, 2, 3]);
    assert_eq!(clusters[1].membership(), &vec![4, 5, 6]);
    assert_eq!(clusters[0].centroid(), [0, 0]);
    assert_eq!(clusters[1].centroid(), [100, 100]);
    assert_eq!(outliers, vec![7]);
}

#[test]
fn gmeans_keeps_at_most_max_k_clusters() {
    let points = random_points(400, 21);
    for max_k in [2usize, 4, 6] {
        let gmeans = Gmeans::new(max_k, 8, 4, 10, &DistanceMetric::SquaredEuclidean);
        let clusters = gmeans.fit(&points, &|_x: &Vec<i64>| true);
        assert!(clusters.len() <= max_k);
        assert_eq!(clusters.len() % 2, 0);
        let total: usize = clusters.iter().map(|c| c.size()).sum();
        assert!(total <= points.len());
    }
}

#[test]
fn gmeans_does_not_split_small_clusters() {
    let points = random_points(10, 4);
    let gmeans = Gmeans::new(8, 8, 16, 10, &DistanceMetric::SquaredEuclidean);
    let mut calls = 0usize;
    let counter = std::cell::Cell::new(0usize);
    let clusters = gmeans.fit(&points, &|_x: &Vec<i64>| {
        counter.set(counter.get() + 1);
        true
    });
    calls += counter.get();
    assert_eq!(calls, 0);
    assert!(clusters.len() <= 1);
}

#[test]
fn gmeans_projections_reach_the_test() {
    let mut points = random_points(40, 8);
    for p in points.iter_mut().take(20) {
        p[0] /= 10;
    }
    let gmeans = Gmeans::new(2, 8, 4, 10, &DistanceMetric::SquaredEuclidean);
    let seen = std::cell::Cell::new(0usize);
    let clusters = gmeans.fit(&points, &|x: &Vec<i64>| {
        seen.set(x.len());
        true
    });
    assert_eq!(seen.get(), 40);
    assert_eq!(clusters.len(), 2);
    assert_eq!(clusters[0].size() + clusters[1].size(), 40);
}

#[test]
fn algorithm_dbscan_needs_sixteen_neighbors() {
    let points: Vec<[u16; 5]> = vec![[0, 0, 0, 0, 0], [65535, 0, 0, 0, 0], [0, 65535, 0, 0, 0], [65535; 5]];
    let clusters = Algorithm::DBSCAN.apply(&points, &|_x: &Vec<i64>| true);
    assert!(clusters.is_empty());
    let dense: Vec<[u16; 5]> = (0..20u16).map(|i| [100 + i, 200, 300, 400, 500]).collect();
    let clusters = Algorithm::DBSCAN.apply(&dense, &|_x: &Vec<i64>| true);
    assert_eq!(clusters.len(), 1);
    assert_eq!(clusters[0].size(), 20);
}

#[test]
fn dbscan_with_too_few_points_has_only_outliers() {
    let points: Vec<[u16; 2]> = vec![[0, 0], [1, 0], [0, 1], [1, 1]];
    let (clusters, outliers) = DBSCAN::new(16, 100, &DistanceMetric::Euclidean).fit(&points);
    assert!(clusters.is_empty());
    assert_eq!(outliers, vec![0, 1, 2, 3]);
}

#[test]
fn dbscan_border_points_join_their_core() {
    // 0..=3 form a dense group; 4 lies within reach of point 3 only.
    let points: Vec<[u16; 2]> = vec![[0, 0], [1, 0], [0, 1], [1, 1], [3, 1]];
    let (clusters, outliers) = DBSCAN::new(4, 2, &DistanceMetric::Euclidean).fit(&points);
    assert_eq!(clusters.len(), 1);
    assert_eq!(clusters[0].membership(), &vec![0, 1, 2, 3, 4]);
    assert!(outliers.is_empty());
}

#[test]
fn gmeans_never_exceeds_odd_max_k() {
    let points = random_points(400, 33);
    for max_k in [3usize, 5] {
        let gmeans = Gmeans::new(max_k, 8, 4, 10, &DistanceMetric::SquaredEuclidean);
        let clusters = gmeans.fit(&points, &|_x: &Vec<i64>| true);
        assert!(clusters.len() <= max_k);
    }
}

#[test]
fn gmeans_converged_single_cluster_holds_everything() {
    let points: Vec<[u16; 2]> = vec![[7, 7]; 30];
    let gmeans = Gmeans::new(8, 8, 4, 10, &DistanceMetric::SquaredEuclidean);
    let clusters = gmeans.fit(&points, &|_x: &Vec<i64>| true);
    assert_eq!(clusters.len(), 1);
    assert_eq!(clusters[0].membership(), &(0..30).collect::<Vec<usize>>());
    assert_eq!(clusters[0].centroid(), [7, 7]);
}
