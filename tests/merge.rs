use auto_palette::dendrogram::{Dendrogram, Node};
use auto_palette::hierarchical::HierarchicalClustering;
use auto_palette::linkage::{CompleteLinkage, Linkage, SingleLinkage};

fn leaves_of(nodes: &[Node], label: usize) -> Vec<usize> {
    let node = &nodes[label];
    match (node.node1, node.node2) {
        (Some(a), Some(b)) => {
            let mut v = leaves_of(nodes, a);
            v.extend(leaves_of(nodes, b));
            v
        }
        _ => vec![label],
    }
}

fn values() -> Vec<i64> {
    vec![0, 1, 10, 12, 30, 31, 32, 100]
}

fn distance(a: &i64, b: &i64) -> u64 {
    (a - b).unsigned_abs()
}

#[test]
fn single_linkage_merges_closest_first() {
    let data = values();
    let dendrogram = HierarchicalClustering::new().fit(&data, &distance);
    let nodes = dendrogram.nodes();
    assert_eq!(dendrogram.len(), 15);
    assert_eq!(nodes[8], Node::new(8, Some(0), Some(1), 1));
    assert!(nodes[..8].iter().all(|n| n.node1.is_none() && n.node2.is_none()));
    let mut all = leaves_of(nodes, 14);
    all.sort();
    assert_eq!(all, (0..8).collect::<Vec<usize>>());
    assert_eq!(nodes[14].distance, 68);
}

#[test]
fn complete_linkage_uses_the_farthest_pair() {
    let data = values();
    let dendrogram = HierarchicalClustering::new().fit_complete(&data, &distance);
    let nodes = dendrogram.nodes();
    assert_eq!(dendrogram.len(), 15);
    assert_eq!(nodes[14].distance, 100);
}

#[test]
fn partition_returns_min_of_n_and_leaf_count_groups() {
    let data = values();
    let dendrogram = HierarchicalClustering::new().fit_complete(&data, &distance);
    let nodes = dendrogram.nodes();
    for n in 0..12usize {
        let groups = dendrogram.partition(n);
        assert_eq!(groups.len(), n.min(8));
        let mut all: Vec<usize> = groups.iter().flat_map(|g| leaves_of(nodes, g.label)).collect();
        all.sort();
        if n > 0 {
            assert_eq!(all, (0..8).collect::<Vec<usize>>());
        }
    }
    let groups = dendrogram.partition(3);
    let mut sets: Vec<Vec<usize>> = groups
        .iter()
        .map(|g| {
            let mut v = leaves_of(nodes, g.label);
            v.sort();
            v
        })
        .collect();
    sets.sort();
    assert_eq!(sets, vec![vec![0, 1, 2, 3], vec![4, 5, 6], vec![7]]);
}

#[test]
fn partition_of_empty_dendrogram() {
    let dendrogram = Dendrogram::new(0);
    assert!(dendrogram.partition(3).is_empty());
    let data: Vec<i64> = Vec::new();
    assert_eq!(HierarchicalClustering::new().fit(&data, &distance).len(), 0);
}

#[test]
fn linkage_merge_records_min_or_max() {
    let data: Vec<i64> = vec![0, 4, 10];
    let mut single = SingleLinkage::new(&data, &distance);
    assert_eq!(single.distance(0, 1), 4);
    let label = single.merge(0, 1);
    assert_eq!(label, 3);
    assert_eq!(single.distance(2, 3), 6);
    assert_eq!(single.distance(0, 2), u64::MAX);
    let mut complete = CompleteLinkage::new(&data, &distance);
    let label = complete.merge(0, 1);
    assert_eq!(complete.distance(2, label), 10);
}
