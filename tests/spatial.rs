use auto_palette::kdtree::KDTreeSearch;
use auto_palette::linear::LinearSearch;
use auto_palette::neighbor::Neighbor;
use auto_palette::point::{integer_sqrt, squared_euclidean, DistanceMetric};

fn random_points(n: usize, seed: u64) -> Vec<[u16; 3]> {
    let mut state = seed;
    let mut next = || {
        state = state.wrapping_mul(6364136223846793005).wrapping_add(1442695040888963407);
        ((state >> 33) % 1000) as u16
    };
    (0..n).map(|_| [next(), next(), next()]).collect()
}

#[test]
fn squared_distance_of_known_points() {
    assert_eq!(squared_euclidean(&[0u16, 0, 0], &[3, 4, 12]), 169);
    assert_eq!(squared_euclidean(&[10u16, 20], &[10, 20]), 0);
    assert_eq!(squared_euclidean(&[65535u16], &[0]), 4294836225);
}

#[test]
fn integer_sqrt_rounds_down() {
    assert_eq!(integer_sqrt(0), 0);
    assert_eq!(integer_sqrt(15), 3);
    assert_eq!(integer_sqrt(16), 4);
    assert_eq!(integer_sqrt(u64::MAX), 4294967295);
    assert_eq!(DistanceMetric::Euclidean.measure(&[0u16, 0], &[3, 4]), 5);
    assert_eq!(DistanceMetric::SquaredEuclidean.measure(&[0u16, 0], &[3, 4]), 25);
}

#[test]
fn kdtree_radius_matches_brute_force() {
    let points = random_points(300, 7);
    let metric = DistanceMetric::SquaredEuclidean;
    let tree = KDTreeSearch::new(&points, &metric);
    let query = [500u16, 500, 500];
    let radius = 40000u64;
    let mut found: Vec<usize> = tree.search_radius(&query, radius).iter().map(|n| n.index).collect();
    found.sort();
    let expected: Vec<usize> = (0..points.len())
        .filter(|&i| squared_euclidean(&points[i], &query) <= radius)
        .collect();
    assert_eq!(found, expected);
    assert!(!expected.is_empty());
}

#[test]
fn kdtree_search_matches_linear_search() {
    let points = random_points(200, 11);
    for metric in [DistanceMetric::Euclidean, DistanceMetric::SquaredEuclidean] {
        let tree = KDTreeSearch::new(&points, &metric);
        let scan = LinearSearch::new(&points, &metric);
        for query in random_points(10, 3) {
            for k in [1usize, 3, points.len()] {
                let a = tree.search(&query, k);
                let b = scan.search(&query, k);
                assert_eq!(a, b);
                assert_eq!(a.len(), k);
                for w in a.windows(2) {
                    assert!(w[0].distance <= w[1].distance);
                }
            }
        }
    }
}

#[test]
fn kdtree_search_of_zero_or_on_empty_set() {
    let points = random_points(20, 5);
    let metric = DistanceMetric::Euclidean;
    let tree = KDTreeSearch::new(&points, &metric);
    assert!(tree.search(&[1, 2, 3], 0).is_empty());
    let empty: Vec<[u16; 3]> = Vec::new();
    let tree = KDTreeSearch::new(&empty, &metric);
    assert!(tree.search(&[1, 2, 3], 4).is_empty());
    assert_eq!(tree.search_nearest(&[1, 2, 3]), None);
}

#[test]
fn nearest_prefers_smaller_index_on_ties() {
    let points: Vec<[u16; 2]> = vec![[5, 5], [1, 1], [3, 3], [1, 1]];
    let metric = DistanceMetric::SquaredEuclidean;
    let tree = KDTreeSearch::new(&points, &metric);
    assert_eq!(tree.search_nearest(&[0, 0]), Some(Neighbor::new(1, 2)));
    let scan = LinearSearch::new(&points, &metric);
    assert_eq!(scan.search_nearest(&[0, 0]), Some(Neighbor::new(1, 2)));
    assert_eq!(scan.search_nearest(&[3, 4]), Some(Neighbor::new(2, 1)));
}

#[test]
fn linear_radius_is_in_index_order() {
    let points: Vec<[u16; 2]> = vec![[0, 0], [10, 0], [1, 1], [0, 2]];
    let metric = DistanceMetric::Euclidean;
    let scan = LinearSearch::new(&points, &metric);
    let found: Vec<(usize, u64)> = scan.search_radius(&[0, 0], 2).iter().map(|n| (n.index, n.distance)).collect();
    assert_eq!(found, vec![(0, 0), (2, 1), (3, 2)]);
}
