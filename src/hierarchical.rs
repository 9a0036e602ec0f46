use vstd::prelude::*;
use crate::dendrogram::{Dendrogram, Node, is_leaf, leaves, nodes_wf};
use crate::linkage::{CompleteLinkage, Linkage, MAX_ITEMS, SingleLinkage, linkage_distance};

verus! {

/// The number of `true` entries.
pub open spec fn count_true(s: Seq<bool>) -> nat
    decreases s.len(),
{
    if s.len() == 0 {
        0
    } else {
        count_true(s.drop_last()) + if s.last() {
            1nat
        } else {
            0nat
        }
    }
}

proof fn lemma_count_update(s: Seq<bool>, i: int, v: bool)
    requires
        0 <= i < s.len(),
    ensures
        count_true(s.update(i, v)) + (if s[i] { 1int } else { 0int }) == count_true(s) + (if v { 1int } else { 0int }),
    decreases s.len(),
{
    let t = s.update(i, v);
    if i == s.len() - 1 {
        assert(t.drop_last() =~= s.drop_last());
    } else {
        assert(t.drop_last() =~= s.drop_last().update(i, v));
        lemma_count_update(s.drop_last(), i, v);
    }
}

proof fn lemma_count_push(s: Seq<bool>, v: bool)
    ensures
        count_true(s.push(v)) == count_true(s) + (if v { 1nat } else { 0nat }),
{
    assert(s.push(v).drop_last() =~= s);
}

proof fn lemma_count_pos(s: Seq<bool>, i: int)
    requires
        0 <= i < s.len(),
        s[i],
    ensures
        count_true(s) >= 1,
    decreases s.len(),
{
    if i < s.len() - 1 {
        lemma_count_pos(s.drop_last(), i);
    }
}

proof fn lemma_count_two(s: Seq<bool>, i: int, j: int)
    requires
        0 <= i < s.len(),
        0 <= j < s.len(),
        i != j,
        s[i],
        s[j],
    ensures
        count_true(s) >= 2,
{
    lemma_count_update(s, i, false);
    lemma_count_pos(s.update(i, false), j);
}

proof fn lemma_count_zero(s: Seq<bool>)
    requires
        forall|i: int| 0 <= i < s.len() ==> !s[i],
    ensures
        count_true(s) == 0,
    decreases s.len(),
{
    if s.len() > 0 {
        lemma_count_zero(s.drop_last());
    }
}

proof fn lemma_count_at_most_one(s: Seq<bool>)
    requires
        forall|i: int, j: int| 0 <= i < j < s.len() ==> !(s[i] && s[j]),
    ensures
        count_true(s) <= 1,
    decreases s.len(),
{
    if s.len() > 0 {
        let d = s.drop_last();
        lemma_count_at_most_one(d);
        if s.last() {
            assert forall|i: int| 0 <= i < d.len() implies !d[i] by {
                assert(!(s[i] && s[s.len() - 1]));
            }
            lemma_count_zero(d);
        }
    }
}

proof fn lemma_leaves_push(nodes: Seq<Node>, x: Node, i: int)
    requires
        0 <= i < nodes.len(),
    ensures
        leaves(nodes.push(x), i) == leaves(nodes, i),
    decreases i,
{
    let p = nodes.push(x);
    assert(p[i] == nodes[i]);
    if !is_leaf(nodes[i]) {
        match (nodes[i].node1, nodes[i].node2) {
            (Some(a), Some(b)) => {
                if a < i && b < i {
                    lemma_leaves_push(nodes, x, a as int);
                    lemma_leaves_push(nodes, x, b as int);
                }
            },
            _ => {},
        }
    }
}

/// Node `p` merges node `c`.
pub open spec fn is_child_of(nodes: Seq<Node>, c: int, p: int) -> bool {
    (nodes[p].node1 is Some && nodes[p].node1.unwrap() as int == c)
        || (nodes[p].node2 is Some && nodes[p].node2.unwrap() as int == c)
}

/// Some node merges node `c`.
pub open spec fn has_parent(nodes: Seq<Node>, c: int) -> bool {
    exists|p: int| 0 <= p < nodes.len() && #[trigger] is_child_of(nodes, c, p)
}

/// No node before `k` merges node `c`: `c` was still unmerged when node
/// `k` was made.
pub open spec fn unmerged_before(nodes: Seq<Node>, c: int, k: int) -> bool {
    forall|p: int| 0 <= p < k ==> !#[trigger] is_child_of(nodes, c, p)
}

/// The merges of a dendrogram made with `linkage`: leaves have distance
/// zero, each inner node names its smaller child first, every node but the
/// root has exactly one parent, and each inner node records the linkage
/// distance of its children, which is the least over all pairs of nodes
/// still unmerged when it was made. The distance from an inner node to a
/// node still unmerged when it was made combines, by the linkage's rule,
/// the distances from its two children.
pub open spec fn merges_closest<L: Linkage>(nodes: Seq<Node>, n: nat, linkage: L) -> bool {
    &&& forall|i: int| 0 <= i < n ==> (#[trigger] nodes[i]).distance == 0
    &&& forall|k: int| n <= k < nodes.len() ==> (#[trigger] nodes[k]).node1.unwrap() < nodes[k].node2.unwrap()
    &&& forall|c: int, p1: int, p2: int| 0 <= p1 < nodes.len() && 0 <= p2 < nodes.len()
        && #[trigger] is_child_of(nodes, c, p1) && #[trigger] is_child_of(nodes, c, p2) ==> p1 == p2
    &&& forall|k: int| n <= k < nodes.len() ==> (#[trigger] nodes[k]).distance
        == linkage.spec_entry(nodes[k].node1.unwrap() as int, nodes[k].node2.unwrap() as int)
    &&& forall|k: int, a: int, b: int| n <= k < nodes.len() && 0 <= a < b < k
        && #[trigger] unmerged_before(nodes, a, k) && #[trigger] unmerged_before(nodes, b, k)
        ==> nodes[k].distance <= linkage.spec_entry(a, b)
    &&& forall|v: int, k: int| n <= v < nodes.len() && 0 <= k < v
        && k != nodes[v].node1.unwrap() && k != nodes[v].node2.unwrap() && #[trigger] unmerged_before(nodes, k, v)
        ==> linkage.spec_entry(k, v) == linkage.spec_combine(
            linkage.spec_entry(nodes[v].node1.unwrap() as int, k), linkage.spec_entry(nodes[v].node2.unwrap() as int, k))
}

/// Leaf `x` lies below some active node.
pub open spec fn is_covered(nodes: Seq<Node>, active: Seq<bool>, x: usize) -> bool {
    exists|a: int| 0 <= a < active.len() && active[a] && #[trigger] leaves(nodes, a).contains(x)
}

/// `nodes` is the complete dendrogram of `n` items: the first `n` nodes are
/// the leaves, each later node merges two earlier ones, there are `2n - 1`
/// nodes, and the root's leaves are exactly the items.
pub open spec fn is_full_dendrogram(nodes: Seq<Node>, n: nat) -> bool {
    &&& nodes_wf(nodes)
    &&& n == 0 ==> nodes.len() == 0
    &&& n > 0 ==> {
        &&& nodes.len() == 2 * n - 1
        &&& forall|i: int| 0 <= i < nodes.len() ==> (is_leaf(#[trigger] nodes[i]) <==> i < n)
        &&& forall|x: usize| #[trigger] leaves(nodes, nodes.len() - 1).contains(x) <==> x < n
    }
}

/// Agglomerative clustering: repeatedly merges the two closest unmerged nodes.
#[derive(Debug, PartialEq, Eq)]
pub struct HierarchicalClustering {}

impl HierarchicalClustering {
    /// Creates the algorithm.
    pub fn new() -> (h: HierarchicalClustering) {
        HierarchicalClustering {}
    }

    /// Builds the dendrogram of `dataset` with single linkage over `distance_fn`.
    pub fn fit<T, DF: Fn(&T, &T) -> u64>(&self, dataset: &Vec<T>, distance_fn: &DF) -> (d: Dendrogram)
        requires
            dataset.len() <= MAX_ITEMS,
            forall|a: &T, b: &T| #[trigger] distance_fn.requires((a, b)),
        ensures
            is_full_dendrogram(d.spec_nodes(), dataset.len() as nat),
            dataset.len() > 0 ==> exists|l: SingleLinkage| {
                &&& merges_closest(d.spec_nodes(), dataset.len() as nat, l)
                &&& forall|a: u64, b: u64| #[trigger] l.spec_combine(a, b) == if a <= b { a } else { b }
                &&& forall|i: int, j: int| 0 <= i < dataset.len() && 0 <= j < dataset.len() && i != j
                    ==> distance_fn.ensures((&dataset[i], &dataset[j]), #[trigger] l.spec_entry(i, j))
                    || distance_fn.ensures((&dataset[j], &dataset[i]), l.spec_entry(i, j))
            },
    {
        if dataset.len() == 0 {
            return Dendrogram::new(0);
        }
        let mut linkage = SingleLinkage::new(dataset, distance_fn);
        let d = self.fit_with_linkage(dataset, &mut linkage);
        proof {
            assert(merges_closest(d.spec_nodes(), dataset.len() as nat, linkage));
        }
        d
    }

    /// Builds the dendrogram of `dataset` with complete linkage over `distance_fn`.
    pub fn fit_complete<T, DF: Fn(&T, &T) -> u64>(&self, dataset: &Vec<T>, distance_fn: &DF) -> (d: Dendrogram)
        requires
            dataset.len() <= MAX_ITEMS,
            forall|a: &T, b: &T| #[trigger] distance_fn.requires((a, b)),
        ensures
            is_full_dendrogram(d.spec_nodes(), dataset.len() as nat),
            dataset.len() > 0 ==> exists|l: CompleteLinkage| {
                &&& merges_closest(d.spec_nodes(), dataset.len() as nat, l)
                &&& forall|a: u64, b: u64| #[trigger] l.spec_combine(a, b) == if a >= b { a } else { b }
                &&& forall|i: int, j: int| 0 <= i < dataset.len() && 0 <= j < dataset.len() && i != j
                    ==> distance_fn.ensures((&dataset[i], &dataset[j]), #[trigger] l.spec_entry(i, j))
                    || distance_fn.ensures((&dataset[j], &dataset[i]), l.spec_entry(i, j))
            },
    {
        if dataset.len() == 0 {
            return Dendrogram::new(0);
        }
        let mut linkage = CompleteLinkage::new(dataset, distance_fn);
        let d = self.fit_with_linkage(dataset, &mut linkage);
        proof {
            assert(merges_closest(d.spec_nodes(), dataset.len() as nat, linkage));
        }
        d
    }

    /// Builds the dendrogram of `dataset` with the given linkage, which must
    /// hold the distances of the items and no merge yet.
    pub fn fit_with_linkage<T, L: Linkage>(&self, dataset: &Vec<T>, linkage: &mut L) -> (d: Dendrogram)
        requires
            dataset.len() <= MAX_ITEMS,
            old(linkage).spec_wf(),
            dataset.len() > 0 ==> old(linkage).spec_next() == dataset.len()
                && old(linkage).spec_size() == 2 * dataset.len() - 1,
            forall|i: int| 0 <= i < old(linkage).spec_size() ==> !old(linkage).spec_inactive(i),
        ensures
            is_full_dendrogram(d.spec_nodes(), dataset.len() as nat),
            merges_closest(d.spec_nodes(), dataset.len() as nat, *final(linkage)),
            forall|c: int| 0 <= c < d.spec_nodes().len() - 1 ==> #[trigger] has_parent(d.spec_nodes(), c),
            forall|a: int, b: int| 0 <= a < dataset.len() && 0 <= b < dataset.len()
                ==> #[trigger] final(linkage).spec_entry(a, b) == old(linkage).spec_entry(a, b),
            forall|a: u64, b: u64| #[trigger] final(linkage).spec_combine(a, b) == old(linkage).spec_combine(a, b),
    {
        let n = dataset.len();
        if n == 0 {
            return Dendrogram::new(0);
        }
        let mut dendrogram = Dendrogram::new(n * 2 - 1);
        let mut active: Vec<bool> = Vec::new();
        let mut i: usize = 0;
        while i < n
            invariant
                i <= n,
                dendrogram.spec_capacity() == 2 * n - 1,
                dendrogram.spec_nodes().len() == i,
                active@.len() == i,
                forall|k: int| 0 <= k < i ==> (#[trigger] active@[k]),
                forall|k: int| 0 <= k < i ==> #[trigger] dendrogram.spec_nodes()[k] == (Node { label: k as usize, node1: None, node2: None, distance: 0 }),
            decreases n - i,
        {
            dendrogram.push(Node::new(i, None, None, 0));
            active.push(true);
            i = i + 1;
        }
        proof {
            let nodes = dendrogram.spec_nodes();
            assert forall|k: int| 0 <= k < n implies leaves(nodes, k) == set![k as usize] by {
                assert(is_leaf(nodes[k]));
            }
            assert(active@ =~= Seq::new(n as nat, |k: int| true));
            lemma_count_prefix_all(active@, n as int);
            assert(active@.take(n as int) =~= active@);
            assert forall|x: usize| x < n implies #[trigger] is_covered(nodes, active@, x) by {
                assert(leaves(nodes, x as int) == set![x]);
                assert(leaves(nodes, x as int).contains(x) && active@[x as int]);
            }
            assert forall|a: int| 0 <= a < active@.len()
                implies #[trigger] active@[a] == unmerged_before(nodes, a, active@.len() as int) by {
                assert forall|p: int| 0 <= p < active@.len() implies !#[trigger] is_child_of(nodes, a, p) by {
                    assert(is_leaf(nodes[p]));
                }
            }
        }
        loop
            invariant
                n == dataset.len(),
                0 < n <= MAX_ITEMS,
                linkage.spec_wf(),
                linkage.spec_size() == 2 * n - 1,
                linkage.spec_next() == dendrogram.spec_nodes().len(),
                dendrogram.spec_capacity() == 2 * n - 1,
                n <= dendrogram.spec_nodes().len() <= 2 * n - 1,
                active@.len() == dendrogram.spec_nodes().len(),
                count_true(active@) + dendrogram.spec_nodes().len() == 2 * n,
                nodes_wf(dendrogram.spec_nodes()),
                forall|i: int| 0 <= i < dendrogram.spec_nodes().len()
                    ==> (is_leaf(#[trigger] dendrogram.spec_nodes()[i]) <==> i < n),
                forall|a: int, b: int| 0 <= a < active@.len() && 0 <= b < active@.len() && a != b
                    && active@[a] && active@[b] ==> (#[trigger] leaves(dendrogram.spec_nodes(), a)).disjoint(
                    #[trigger] leaves(dendrogram.spec_nodes(), b)),
                forall|x: usize| x < n ==> #[trigger] is_covered(dendrogram.spec_nodes(), active@, x),
                forall|a: int, x: usize| 0 <= a < active@.len() && #[trigger] leaves(dendrogram.spec_nodes(), a).contains(x) ==> x < n,
                dendrogram.spec_nodes().len() > n ==> active@[dendrogram.spec_nodes().len() - 1],
                merges_closest(dendrogram.spec_nodes(), n as nat, *linkage),
                forall|a: int| 0 <= a < active@.len()
                    ==> #[trigger] active@[a] == unmerged_before(dendrogram.spec_nodes(), a, active@.len() as int),
                forall|a: int| 0 <= a < active@.len() ==> #[trigger] linkage.spec_inactive(a) == !active@[a],
                forall|a: int| active@.len() <= a < linkage.spec_size() ==> !#[trigger] linkage.spec_inactive(a),
                forall|a: int, b: int| 0 <= a < n && 0 <= b < n
                    ==> #[trigger] linkage.spec_entry(a, b) == old(linkage).spec_entry(a, b),
                forall|a: u64, b: u64| #[trigger] linkage.spec_combine(a, b) == old(linkage).spec_combine(a, b),
            ensures
                forall|i: int, j: int| 0 <= i < j < active@.len() ==> !(active@[i] && active@[j]),
            decreases count_true(active@),
        {
            let pair = closest_active_pair(&*linkage, &active);
            match pair {
                None => {
                    break;
                },
                Some((i, j, d)) => {
                    let ghost nodes = dendrogram.spec_nodes();
                    let ghost act = active@;
                    let ghost l0 = *linkage;
                    proof {
                        lemma_count_two(active@, i as int, j as int);
                    }
                    let label = linkage.merge(i, j);
                    let node = Node::new(label, Some(i), Some(j), d);
                    dendrogram.push(node);
                    active.set(i, false);
                    active.set(j, false);
                    active.push(true);
                    proof {
                        let nn = dendrogram.spec_nodes();
                        assert(nn == nodes.push(node));
                        lemma_count_update(act, i as int, false);
                        lemma_count_update(act.update(i as int, false), j as int, false);
                        lemma_count_push(act.update(i as int, false).update(j as int, false), true);
                        assert forall|k: int| 0 <= k < nodes.len() implies #[trigger] leaves(nn, k) == leaves(nodes, k) by {
                            lemma_leaves_push(nodes, node, k);
                        }
                        let l = label as int;
                        assert(leaves(nn, i as int) == leaves(nodes, i as int));
                        assert(leaves(nn, j as int) == leaves(nodes, j as int));
                        assert(!is_leaf(nn[l]));
                        assert(leaves(nn, l) == leaves(nodes, i as int).union(leaves(nodes, j as int)));
                        assert(nodes_wf(nn)) by {
                            assert forall|k: int| 0 <= k < nn.len() implies {
                                &&& (#[trigger] nn[k]).label == k
                                &&& (is_leaf(nn[k]) || {
                                    &&& nn[k].node1 is Some
                                    &&& nn[k].node2 is Some
                                    &&& nn[k].node1.unwrap() < k
                                    &&& nn[k].node2.unwrap() < k
                                    &&& leaves(nn, nn[k].node1.unwrap() as int).disjoint(leaves(nn, nn[k].node2.unwrap() as int))
                                })
                            } by {
                                if k < nodes.len() {
                                    assert(nn[k] == nodes[k]);
                                    if !is_leaf(nodes[k]) {
                                        assert(leaves(nn, nodes[k].node1.unwrap() as int) == leaves(nodes, nodes[k].node1.unwrap() as int));
                                        assert(leaves(nn, nodes[k].node2.unwrap() as int) == leaves(nodes, nodes[k].node2.unwrap() as int));
                                    }
                                }
                            }
                        }
                        assert forall|a: int, b: int| 0 <= a < active@.len() && 0 <= b < active@.len() && a != b
                            && active@[a] && active@[b] implies (#[trigger] leaves(nn, a)).disjoint(#[trigger] leaves(nn, b)) by {
                            if a == l {
                                assert(act[b]);
                                assert(leaves(nn, b) == leaves(nodes, b));
                            } else if b == l {
                                assert(act[a]);
                                assert(leaves(nn, a) == leaves(nodes, a));
                            } else {
                                assert(leaves(nn, a) == leaves(nodes, a));
                                assert(leaves(nn, b) == leaves(nodes, b));
                            }
                        }
                        assert forall|x: usize| x < n implies #[trigger] is_covered(nn, active@, x) by {
                            assert(is_covered(nodes, act, x));
                            let a = choose|a: int| 0 <= a < act.len() && act[a] && #[trigger] leaves(nodes, a).contains(x);
                            assert(leaves(nn, a) == leaves(nodes, a));
                            if a == i as int || a == j as int {
                                assert(leaves(nn, l).contains(x));
                                assert(active@[l]);
                            } else {
                                assert(active@[a]);
                            }
                        }
                        assert forall|a: int, x: usize| 0 <= a < active@.len() && #[trigger] leaves(nn, a).contains(x) implies x < n by {
                            if a < nodes.len() {
                                assert(leaves(nn, a) == leaves(nodes, a));
                            } else {
                                assert(leaves(nodes, i as int).contains(x) || leaves(nodes, j as int).contains(x));
                            }
                        }
                        lemma_merge_active(nodes, act, l0, *linkage, n as nat, i as int, j as int, d, node);
                        lemma_merge_closest(nodes, act, l0, *linkage, n as nat, i as int, j as int, d, node);
                    }
                },
            }
        }
        proof {
            let nodes = dendrogram.spec_nodes();
            lemma_count_at_most_one(active@);
            let r = nodes.len() - 1;
            assert(nodes.len() == 2 * n - 1);
            assert forall|x: usize| #[trigger] leaves(nodes, r).contains(x) <==> x < n by {
                if x < n {
                    assert(is_covered(nodes, active@, x));
                    let a = choose|a: int| 0 <= a < active@.len() && active@[a] && #[trigger] leaves(nodes, a).contains(x);
                    if a != r {
                        if nodes.len() > n {
                            lemma_count_two(active@, a, r);
                        }
                    }
                }
            }
            assert forall|c: int| 0 <= c < nodes.len() - 1 implies #[trigger] has_parent(nodes, c) by {
                if active@[c] {
                    if nodes.len() > n {
                        lemma_count_two(active@, c, r);
                    }
                }
                assert(!unmerged_before(nodes, c, nodes.len() as int));
            }
        }
        dendrogram
    }
}

/// Pushing a node changes nothing about which earlier nodes merge which.
proof fn lemma_unmerged_push(nodes: Seq<Node>, node: Node)
    ensures
        forall|c: int, k: int| 0 <= k <= nodes.len() ==> #[trigger] unmerged_before(nodes.push(node), c, k)
            == unmerged_before(nodes, c, k),
{
    let nn = nodes.push(node);
    let len = nodes.len() as int;
    assert forall|c: int, k: int| 0 <= k <= len implies #[trigger] unmerged_before(nn, c, k) == unmerged_before(nodes, c, k) by {
        if unmerged_before(nodes, c, k) {
            assert forall|p: int| 0 <= p < k implies !#[trigger] is_child_of(nn, c, p) by {
                assert(nn[p] == nodes[p]);
                assert(!is_child_of(nodes, c, p));
            }
        }
        if unmerged_before(nn, c, k) {
            assert forall|p: int| 0 <= p < k implies !#[trigger] is_child_of(nodes, c, p) by {
                assert(nn[p] == nodes[p]);
                assert(!is_child_of(nn, c, p));
            }
        }
    }
}

/// After one merge, the active flags still say which nodes are unmerged,
/// and agree with the linkage.
#[verifier::rlimit(100)]
proof fn lemma_merge_active<L: Linkage>(
    nodes: Seq<Node>,
    act: Seq<bool>,
    l0: L,
    l1: L,
    n: nat,
    i: int,
    j: int,
    d: u64,
    node: Node,
)
    requires
        nodes_wf(nodes),
        n <= nodes.len(),
        act.len() == nodes.len(),
        forall|k: int| 0 <= k < nodes.len() ==> (is_leaf(#[trigger] nodes[k]) <==> k < n),
        merges_closest(nodes, n, l0),
        forall|a: int| 0 <= a < act.len() ==> #[trigger] act[a] == unmerged_before(nodes, a, act.len() as int),
        forall|a: int| 0 <= a < act.len() ==> #[trigger] l0.spec_inactive(a) == !act[a],
        forall|a: int| act.len() <= a < l0.spec_size() ==> !#[trigger] l0.spec_inactive(a),
        0 <= i < j < nodes.len(),
        act[i] && act[j],
        d == linkage_distance(l0, i, j),
        forall|a: int, b: int| 0 <= a < b < act.len() && act[a] && act[b] ==> d <= #[trigger] linkage_distance(l0, a, b),
        nodes.len() < l0.spec_size(),
        l0.spec_size() <= 2 * MAX_ITEMS,
        l0.spec_next() == nodes.len(),
        l1.spec_size() == l0.spec_size(),
        l1.spec_inactive(i),
        l1.spec_inactive(j),
        forall|k: int| 0 <= k < l1.spec_size() && k != i && k != j ==> l1.spec_inactive(k) == l0.spec_inactive(k),
        forall|a: int, b: int| 0 <= a < nodes.len() && 0 <= b < nodes.len()
            ==> #[trigger] l1.spec_entry(a, b) == l0.spec_entry(a, b),
        forall|k: int| 0 <= k < nodes.len() && k != i && k != j
            ==> #[trigger] l1.spec_entry(k, nodes.len() as int) == l0.spec_combine(
                linkage_distance(l0, i, k), linkage_distance(l0, j, k)),
        forall|a: u64, b: u64| #[trigger] l1.spec_combine(a, b) == l0.spec_combine(a, b),
        node == (Node { label: nodes.len() as usize, node1: Some(i as usize), node2: Some(j as usize), distance: d }),
    ensures
        ({
            let act1 = act.update(i, false).update(j, false).push(true);
            &&& forall|a: int| 0 <= a < act1.len()
                ==> #[trigger] act1[a] == unmerged_before(nodes.push(node), a, act1.len() as int)
            &&& forall|a: int| 0 <= a < act1.len() ==> #[trigger] l1.spec_inactive(a) == !act1[a]
            &&& forall|a: int| act1.len() <= a < l1.spec_size() ==> !#[trigger] l1.spec_inactive(a)
        }),
{
    let nn = nodes.push(node);
    let len = nodes.len() as int;
    let act1 = act.update(i, false).update(j, false).push(true);
    lemma_unmerged_push(nodes, node);
    assert forall|a: int| 0 <= a < act1.len() implies #[trigger] act1[a] == unmerged_before(nn, a, act1.len() as int) by {
        if a < len {
            assert(act[a] == unmerged_before(nodes, a, len));
            if a == i || a == j {
                assert(is_child_of(nn, a, len));
            } else {
                if unmerged_before(nodes, a, len) {
                    assert forall|p: int| 0 <= p < len + 1 implies !#[trigger] is_child_of(nn, a, p) by {
                        if p < len {
                            assert(nn[p] == nodes[p]);
                            assert(!is_child_of(nodes, a, p));
                        } else {
                            assert(nn[p] == node);
                        }
                    }
                } else {
                    let p = choose|p: int| 0 <= p < len && #[trigger] is_child_of(nodes, a, p);
                    assert(is_child_of(nn, a, p));
                }
            }
        } else {
            assert forall|p: int| 0 <= p < len + 1 implies !#[trigger] is_child_of(nn, a, p) by {
                if p < len {
                    assert(nodes[p].label == p);
                    if !is_leaf(nodes[p]) {
                        assert(nodes[p].node1.unwrap() < p && nodes[p].node2.unwrap() < p);
                    }
                }
            }
        }
    }
    assert forall|a: int| 0 <= a < act1.len() implies #[trigger] l1.spec_inactive(a) == !act1[a] by {
        if a < len && a != i && a != j {
            assert(l0.spec_inactive(a) == !act[a]);
        }
    }
}

/// One merge keeps the merge properties: `node` joins the closest active
/// pair `i < j` at distance `d`, and the linkage went from `l0` to `l1`.
#[verifier::rlimit(100)]
proof fn lemma_merge_closest<L: Linkage>(
    nodes: Seq<Node>,
    act: Seq<bool>,
    l0: L,
    l1: L,
    n: nat,
    i: int,
    j: int,
    d: u64,
    node: Node,
)
    requires
        nodes_wf(nodes),
        n <= nodes.len(),
        act.len() == nodes.len(),
        forall|k: int| 0 <= k < nodes.len() ==> (is_leaf(#[trigger] nodes[k]) <==> k < n),
        merges_closest(nodes, n, l0),
        forall|a: int| 0 <= a < act.len() ==> #[trigger] act[a] == unmerged_before(nodes, a, act.len() as int),
        forall|a: int| 0 <= a < act.len() ==> #[trigger] l0.spec_inactive(a) == !act[a],
        forall|a: int| act.len() <= a < l0.spec_size() ==> !#[trigger] l0.spec_inactive(a),
        0 <= i < j < nodes.len(),
        act[i] && act[j],
        d == linkage_distance(l0, i, j),
        forall|a: int, b: int| 0 <= a < b < act.len() && act[a] && act[b] ==> d <= #[trigger] linkage_distance(l0, a, b),
        nodes.len() < l0.spec_size(),
        l0.spec_size() <= 2 * MAX_ITEMS,
        l0.spec_next() == nodes.len(),
        l1.spec_size() == l0.spec_size(),
        l1.spec_inactive(i),
        l1.spec_inactive(j),
        forall|k: int| 0 <= k < l1.spec_size() && k != i && k != j ==> l1.spec_inactive(k) == l0.spec_inactive(k),
        forall|a: int, b: int| 0 <= a < nodes.len() && 0 <= b < nodes.len()
            ==> #[trigger] l1.spec_entry(a, b) == l0.spec_entry(a, b),
        forall|k: int| 0 <= k < nodes.len() && k != i && k != j
            ==> #[trigger] l1.spec_entry(k, nodes.len() as int) == l0.spec_combine(
                linkage_distance(l0, i, k), linkage_distance(l0, j, k)),
        forall|a: u64, b: u64| #[trigger] l1.spec_combine(a, b) == l0.spec_combine(a, b),
        node == (Node { label: nodes.len() as usize, node1: Some(i as usize), node2: Some(j as usize), distance: d }),
    ensures
        merges_closest(nodes.push(node), n, l1),
{
    let nn = nodes.push(node);
    let len = nodes.len() as int;
    let act1 = act.update(i, false).update(j, false).push(true);
    lemma_unmerged_push(nodes, node);
    // Leaves, child order.
    assert forall|k: int| 0 <= k < n implies (#[trigger] nn[k]).distance == 0 by {
        assert(nn[k] == nodes[k]);
    }
    assert forall|k: int| n <= k < nn.len() implies (#[trigger] nn[k]).node1.unwrap() < nn[k].node2.unwrap() by {
        if k < len {
            assert(nn[k] == nodes[k]);
        }
    }
    // One parent.
    assert forall|c: int, p1: int, p2: int| 0 <= p1 < nn.len() && 0 <= p2 < nn.len()
        && #[trigger] is_child_of(nn, c, p1) && #[trigger] is_child_of(nn, c, p2) implies p1 == p2 by {
        if p1 < len && p2 < len {
            assert(is_child_of(nodes, c, p1) && is_child_of(nodes, c, p2));
        } else if p1 < len {
            assert(c == i || c == j);
            assert(is_child_of(nodes, c, p1));
            assert(!unmerged_before(nodes, c, len));
        } else if p2 < len {
            assert(c == i || c == j);
            assert(is_child_of(nodes, c, p2));
            assert(!unmerged_before(nodes, c, len));
        }
    }
    // Recorded distances.
    assert(l0.spec_inactive(i) == !act[i]);
    assert(l0.spec_inactive(j) == !act[j]);
    assert(linkage_distance(l0, i, j) == l0.spec_entry(i, j));
    assert forall|k: int| n <= k < nn.len() implies (#[trigger] nn[k]).distance
        == l1.spec_entry(nn[k].node1.unwrap() as int, nn[k].node2.unwrap() as int) by {
        if k < len {
            assert(nn[k] == nodes[k]);
            assert(!is_leaf(nodes[k]));
            assert(nodes[k].distance == l0.spec_entry(nodes[k].node1.unwrap() as int, nodes[k].node2.unwrap() as int));
        } else {
            assert(l1.spec_entry(i, j) == l0.spec_entry(i, j));
        }
    }
    assert forall|k: int, a: int, b: int| n <= k < nn.len() && 0 <= a < b < k
        && #[trigger] unmerged_before(nn, a, k) && #[trigger] unmerged_before(nn, b, k)
        implies nn[k].distance <= l1.spec_entry(a, b) by {
        assert(l1.spec_entry(a, b) == l0.spec_entry(a, b));
        if k < len {
            assert(nn[k] == nodes[k]);
            assert(unmerged_before(nodes, a, k) && unmerged_before(nodes, b, k));
        } else {
            assert(unmerged_before(nn, a, len) == unmerged_before(nodes, a, len));
            assert(unmerged_before(nn, b, len) == unmerged_before(nodes, b, len));
            assert(act[a] == unmerged_before(nodes, a, len));
            assert(act[b] == unmerged_before(nodes, b, len));
            assert(l0.spec_inactive(a) == !act[a]);
            assert(l0.spec_inactive(b) == !act[b]);
            assert(d <= linkage_distance(l0, a, b));
        }
    }
    assert forall|v: int, k: int| n <= v < nn.len() && 0 <= k < v
        && k != nn[v].node1.unwrap() && k != nn[v].node2.unwrap() && #[trigger] unmerged_before(nn, k, v)
        implies l1.spec_entry(k, v) == l1.spec_combine(
            l1.spec_entry(nn[v].node1.unwrap() as int, k), l1.spec_entry(nn[v].node2.unwrap() as int, k)) by {
        if v < len {
            assert(nn[v] == nodes[v]);
            assert(unmerged_before(nodes, k, v));
            assert(!is_leaf(nodes[v]));
            let a = nodes[v].node1.unwrap() as int;
            let b = nodes[v].node2.unwrap() as int;
            assert(l1.spec_entry(k, v) == l0.spec_entry(k, v));
            assert(l1.spec_entry(a, k) == l0.spec_entry(a, k));
            assert(l1.spec_entry(b, k) == l0.spec_entry(b, k));
        } else {
            assert(unmerged_before(nodes, k, len));
            assert(act[k] == unmerged_before(nodes, k, len));
            assert(l0.spec_inactive(k) == !act[k]);
            assert(l0.spec_inactive(i) == !act[i]);
            assert(l0.spec_inactive(j) == !act[j]);
            assert(l1.spec_entry(i, k) == l0.spec_entry(i, k));
            assert(l1.spec_entry(j, k) == l0.spec_entry(j, k));
        }
    }
}

proof fn lemma_count_prefix_all(s: Seq<bool>, k: int)
    requires
        0 <= k <= s.len(),
        forall|i: int| 0 <= i < s.len() ==> s[i],
    ensures
        count_true(s.take(k)) == k,
    decreases k,
{
    if k > 0 {
        lemma_count_prefix_all(s, k - 1);
        assert(s.take(k).drop_last() =~= s.take(k - 1));
    }
}

/// Finds the closest pair of active nodes, by the linkage's distance; the
/// first such pair in label order when several tie.
fn closest_active_pair<L: Linkage>(linkage: &L, active: &Vec<bool>) -> (r: Option<(usize, usize, u64)>)
    requires
        linkage.spec_wf(),
        active@.len() <= linkage.spec_size(),
    ensures
        r is None ==> forall|i: int, j: int| 0 <= i < j < active@.len() ==> !(active@[i] && active@[j]),
        r matches Some((i, j, d)) ==> {
            &&& i < j < active@.len()
            &&& active@[i as int] && active@[j as int]
            &&& d == linkage_distance(*linkage, i as int, j as int)
            &&& forall|a: int, b: int| 0 <= a < b < active@.len() && active@[a] && active@[b]
                ==> d <= #[trigger] linkage_distance(*linkage, a, b)
        },
{
    let len = active.len();
    let mut best: Option<(usize, usize, u64)> = None;
    let mut i: usize = 0;
    while i < len
        invariant
            i <= len,
            len == active@.len(),
            len <= linkage.spec_size(),
            linkage.spec_wf(),
            best is None ==> forall|a: int, b: int| 0 <= a < b < len && a < i ==> !(active@[a] && active@[b]),
            best matches Some((bi, bj, bd)) ==> {
                &&& bi < bj < len
                &&& active@[bi as int] && active@[bj as int]
                &&& bd == linkage_distance(*linkage, bi as int, bj as int)
                &&& forall|a: int, b: int| 0 <= a < b < len && a < i && active@[a] && active@[b]
                    ==> bd <= #[trigger] linkage_distance(*linkage, a, b)
            },
        decreases len - i,
    {
        if active[i] {
            let mut j: usize = i + 1;
            while j < len
                invariant
                    i < len,
                    i + 1 <= j <= len,
                    len == active@.len(),
                    len <= linkage.spec_size(),
                    linkage.spec_wf(),
                    active@[i as int],
                    best is None ==> forall|a: int, b: int| 0 <= a < b < len && (a < i || (a == i && b < j))
                        ==> !(active@[a] && active@[b]),
                    best matches Some((bi, bj, bd)) ==> {
                        &&& bi < bj < len
                        &&& active@[bi as int] && active@[bj as int]
                        &&& bd == linkage_distance(*linkage, bi as int, bj as int)
                        &&& forall|a: int, b: int| 0 <= a < b < len && (a < i || (a == i && b < j)) && active@[a] && active@[b]
                            ==> bd <= #[trigger] linkage_distance(*linkage, a, b)
                    },
                decreases len - j,
            {
                if active[j] {
                    let d = linkage.distance(i, j);
                    let better = match best {
                        None => true,
                        Some((_, _, bd)) => d < bd,
                    };
                    if better {
                        best = Some((i, j, d));
                    }
                }
                j = j + 1;
            }
        }
        i = i + 1;
    }
    best
}

} // verus!
