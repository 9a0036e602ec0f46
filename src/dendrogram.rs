use vstd::prelude::*;

verus! {

/// A node of a dendrogram: its label, the labels of the two nodes it
/// merges (none for a leaf), and the distance at which they were merged.
#[derive(Debug, Clone, Copy, PartialEq, Eq, Structural)]
pub struct Node {
    /// The label of this node; a node's label is its position in the dendrogram.
    pub label: usize,
    /// The label of the first merged node.
    pub node1: Option<usize>,
    /// The label of the second merged node.
    pub node2: Option<usize>,
    /// The distance between the two merged nodes.
    pub distance: u64,
}

impl Node {
    /// Creates a node.
    pub fn new(label: usize, node1: Option<usize>, node2: Option<usize>, distance: u64) -> (n: Node)
        ensures
            n == (Node { label, node1, node2, distance }),
    {
        Node { label, node1, node2, distance }
    }
}

/// A node without children.
pub open spec fn is_leaf(n: Node) -> bool {
    n.node1 is None && n.node2 is None
}

/// The labels of the leaves below node `i`.
pub open spec fn leaves(nodes: Seq<Node>, i: int) -> Set<usize>
    decreases i,
{
    if i < 0 || i >= nodes.len() {
        Set::empty()
    } else if is_leaf(nodes[i]) {
        set![i as usize]
    } else {
        match (nodes[i].node1, nodes[i].node2) {
            (Some(a), Some(b)) => if a < i && b < i {
                leaves(nodes, a as int).union(leaves(nodes, b as int))
            } else {
                Set::empty()
            },
            _ => Set::empty(),
        }
    }
}

/// Each node carries its position as label, and each inner node merges two
/// earlier nodes whose leaves are disjoint.
pub open spec fn nodes_wf(nodes: Seq<Node>) -> bool {
    forall|i: int| 0 <= i < nodes.len() ==> {
        &&& (#[trigger] nodes[i]).label == i
        &&& (is_leaf(nodes[i]) || {
            &&& nodes[i].node1 is Some
            &&& nodes[i].node2 is Some
            &&& nodes[i].node1.unwrap() < i
            &&& nodes[i].node2.unwrap() < i
            &&& leaves(nodes, nodes[i].node1.unwrap() as int).disjoint(leaves(nodes, nodes[i].node2.unwrap() as int))
        })
    }
}

/// Group `b` of `parts` is the first inner node with the largest merge
/// distance among the inner nodes of `parts`.
pub open spec fn is_first_widest(nodes: Seq<Node>, parts: Seq<usize>, b: int) -> bool {
    &&& 0 <= b < parts.len()
    &&& !is_leaf(nodes[parts[b] as int])
    &&& forall|t: int| 0 <= t < parts.len() && !is_leaf(#[trigger] nodes[parts[t] as int])
        ==> nodes[parts[t] as int].distance <= nodes[parts[b] as int].distance
    &&& forall|t: int| 0 <= t < b && !is_leaf(#[trigger] nodes[parts[t] as int])
        ==> nodes[parts[t] as int].distance < nodes[parts[b] as int].distance
}

/// Some group of `parts` is an inner node.
pub open spec fn has_inner(nodes: Seq<Node>, parts: Seq<usize>) -> bool {
    exists|t: int| 0 <= t < parts.len() && !is_leaf(#[trigger] nodes[parts[t] as int])
}

/// `parts` with group `b` replaced by its two children.
pub open spec fn split_group(nodes: Seq<Node>, parts: Seq<usize>, b: int) -> Seq<usize> {
    parts.update(b, nodes[parts[b] as int].node1.unwrap()).push(nodes[parts[b] as int].node2.unwrap())
}

/// The groups after at most `fuel` steps, each of which splits the first
/// group with the largest merge distance, stopping early when every group
/// is a leaf.
pub open spec fn cut(nodes: Seq<Node>, parts: Seq<usize>, fuel: nat) -> Seq<usize>
    decreases fuel,
{
    if fuel == 0 || !has_inner(nodes, parts) {
        parts
    } else {
        cut(nodes, split_group(nodes, parts, choose|b: int| is_first_widest(nodes, parts, b)), (fuel - 1) as nat)
    }
}

proof fn lemma_first_widest_unique(nodes: Seq<Node>, parts: Seq<usize>, b: int, c: int)
    requires
        is_first_widest(nodes, parts, b),
        is_first_widest(nodes, parts, c),
    ensures
        b == c,
{
    if b < c {
        assert(!is_leaf(nodes[parts[b] as int]));
    } else if c < b {
        assert(!is_leaf(nodes[parts[c] as int]));
    }
}

/// An append-only binary merge tree.
#[derive(Debug)]
pub struct Dendrogram {
    nodes: Vec<Node>,
    capacity: usize,
}

impl Dendrogram {
    /// The nodes, in label order.
    pub closed spec fn spec_nodes(&self) -> Seq<Node> {
        self.nodes@
    }

    /// The number of nodes this dendrogram was made to hold.
    pub closed spec fn spec_capacity(&self) -> nat {
        self.capacity as nat
    }

    /// Creates an empty dendrogram for `capacity` nodes.
    pub fn new(capacity: usize) -> (d: Dendrogram)
        ensures
            d.spec_nodes().len() == 0,
            d.spec_capacity() == capacity,
    {
        Dendrogram { nodes: Vec::with_capacity(capacity), capacity }
    }

    /// The number of nodes.
    pub fn len(&self) -> (n: usize)
        ensures
            n == self.spec_nodes().len(),
    {
        self.nodes.len()
    }

    /// The nodes, in label order.
    pub fn nodes(&self) -> (r: &Vec<Node>)
        ensures
            r@ == self.spec_nodes(),
    {
        &self.nodes
    }

    /// Appends a node.
    pub fn push(&mut self, node: Node)
        requires
            old(self).spec_nodes().len() < old(self).spec_capacity(),
        ensures
            final(self).spec_nodes() == old(self).spec_nodes().push(node),
            final(self).spec_capacity() == old(self).spec_capacity(),
    {
        self.nodes.push(node);
    }

    /// Cuts the dendrogram into at most `n` groups: starting from the root,
    /// repeatedly splits the group whose node has the largest merge distance
    /// into its two children, until there are `n` groups or only leaves are
    /// left. The groups' leaves are disjoint and together are the root's leaves.
    pub fn partition(&self, n: usize) -> (r: Vec<Node>)
        requires
            nodes_wf(self.spec_nodes()),
        ensures
            r.len() <= n,
            forall|k: int| 0 <= k < r.len() ==> (#[trigger] r[k]).label < self.spec_nodes().len()
                && self.spec_nodes()[r[k].label as int] == r[k],
            forall|a: int, b: int| 0 <= a < r.len() && 0 <= b < r.len() && a != b
                ==> leaves(self.spec_nodes(), (#[trigger] r[a]).label as int).disjoint(
                    leaves(self.spec_nodes(), (#[trigger] r[b]).label as int)),
            n > 0 ==> forall|x: usize| #[trigger] leaves(self.spec_nodes(), self.spec_nodes().len() - 1).contains(x)
                <==> exists|k: int| 0 <= k < r.len() && leaves(self.spec_nodes(), (#[trigger] r[k]).label as int).contains(x),
            self.spec_nodes().len() > 0 && n > 0 ==> r.len() == n || forall|k: int| 0 <= k < r.len() ==> is_leaf(#[trigger] r[k]),
            self.spec_nodes().len() > 0 && n > 0 ==> r@.map_values(|nd: Node| nd.label)
                == cut(self.spec_nodes(), seq![(self.spec_nodes().len() - 1) as usize], (n - 1) as nat),
    {
        let ghost nodes = self.nodes@;
        let len = self.nodes.len();
        let mut parts: Vec<usize> = Vec::new();
        if len == 0 || n == 0 {
            return Vec::new();
        }
        parts.push(len - 1);
        let ghost target = cut(nodes, parts@, (n - 1) as nat);
        proof {
            assert forall|x: usize| #[trigger] leaves(nodes, len - 1).contains(x)
                <==> exists|k: int| 0 <= k < parts.len() && leaves(nodes, (#[trigger] parts[k]) as int).contains(x) by {
                assert(parts[0] == len - 1);
            }
        }
        loop
            invariant
                0 < parts.len() <= n,
                len == nodes.len(),
                nodes == self.nodes@,
                nodes_wf(nodes),
                forall|k: int| 0 <= k < parts.len() ==> (#[trigger] parts[k]) < len,
                forall|a: int, b: int| 0 <= a < parts.len() && 0 <= b < parts.len() && a != b
                    ==> leaves(nodes, (#[trigger] parts[a]) as int).disjoint(leaves(nodes, (#[trigger] parts[b]) as int)),
                forall|x: usize| #[trigger] leaves(nodes, len - 1).contains(x)
                    <==> exists|k: int| 0 <= k < parts.len() && leaves(nodes, (#[trigger] parts[k]) as int).contains(x),
                cut(nodes, parts@, (n - parts.len()) as nat) == target,
            ensures
                parts@ == target,
                0 < parts.len() <= n,
                forall|k: int| 0 <= k < parts.len() ==> (#[trigger] parts[k]) < len,
                forall|a: int, b: int| 0 <= a < parts.len() && 0 <= b < parts.len() && a != b
                    ==> leaves(nodes, (#[trigger] parts[a]) as int).disjoint(leaves(nodes, (#[trigger] parts[b]) as int)),
                forall|x: usize| #[trigger] leaves(nodes, len - 1).contains(x)
                    <==> exists|k: int| 0 <= k < parts.len() && leaves(nodes, (#[trigger] parts[k]) as int).contains(x),
                parts.len() == n || forall|t: int| 0 <= t < parts.len() ==> is_leaf(nodes[(#[trigger] parts[t]) as int]),
            decreases n - parts.len(),
        {
            if parts.len() >= n {
                break;
            }
            let mut best: usize = parts.len();
            let mut k: usize = 0;
            while k < parts.len()
                invariant
                    k <= parts.len(),
                    len == nodes.len(),
                    nodes == self.nodes@,
                    forall|k: int| 0 <= k < parts.len() ==> (#[trigger] parts[k]) < len,
                    best == parts.len() || (best < k && !is_leaf(nodes[parts[best as int] as int])),
                    best == parts.len() ==> forall|t: int| 0 <= t < k ==> is_leaf(nodes[(#[trigger] parts[t]) as int]),
                    best < parts.len() ==> {
                        &&& forall|t: int| 0 <= t < k && !is_leaf(#[trigger] nodes[parts@[t] as int])
                            ==> nodes[parts@[t] as int].distance <= nodes[parts@[best as int] as int].distance
                        &&& forall|t: int| 0 <= t < best && !is_leaf(#[trigger] nodes[parts@[t] as int])
                            ==> nodes[parts@[t] as int].distance < nodes[parts@[best as int] as int].distance
                    },
                decreases parts.len() - k,
            {
                let node = &self.nodes[parts[k]];
                if node.node1.is_some() || node.node2.is_some() {
                    if best == parts.len() || node.distance > self.nodes[parts[best]].distance {
                        best = k;
                    }
                }
                k = k + 1;
            }
            if best == parts.len() {
                proof {
                    assert(!has_inner(nodes, parts@));
                }
                break;
            }
            proof {
                assert(is_first_widest(nodes, parts@, best as int));
                let c = choose|b: int| is_first_widest(nodes, parts@, b);
                lemma_first_widest_unique(nodes, parts@, best as int, c);
                assert(has_inner(nodes, parts@));
            }
            let x = parts[best];
            let node = self.nodes[x];
            proof {
                assert(nodes[x as int].label == x);
            }
            let c1 = node.node1.unwrap();
            let c2 = node.node2.unwrap();
            let ghost before = parts@;
            parts.set(best, c1);
            parts.push(c2);
            proof {
                let lx = leaves(nodes, x as int);
                assert(lx == leaves(nodes, c1 as int).union(leaves(nodes, c2 as int)));
                assert forall|a: int, b: int| 0 <= a < parts.len() && 0 <= b < parts.len() && a != b
                    implies leaves(nodes, (#[trigger] parts[a]) as int).disjoint(leaves(nodes, (#[trigger] parts[b]) as int)) by {
                    let la = if a == best as int || a == before.len() { lx } else { leaves(nodes, before[a] as int) };
                    let lb = if b == best as int || b == before.len() { lx } else { leaves(nodes, before[b] as int) };
                    assert(leaves(nodes, parts[a] as int).subset_of(la));
                    assert(leaves(nodes, parts[b] as int).subset_of(lb));
                    if (a == best as int || a == before.len()) && (b == best as int || b == before.len()) {
                    } else if a == best as int || a == before.len() {
                        assert(lx.disjoint(leaves(nodes, before[b] as int)));
                    } else if b == best as int || b == before.len() {
                        assert(leaves(nodes, before[a] as int).disjoint(lx));
                    } else {
                        assert(leaves(nodes, before[a] as int).disjoint(leaves(nodes, before[b] as int)));
                    }
                }
                assert forall|y: usize| #[trigger] leaves(nodes, len - 1).contains(y)
                    implies exists|k: int| 0 <= k < parts.len() && leaves(nodes, (#[trigger] parts[k]) as int).contains(y) by {
                    let k = choose|k: int| 0 <= k < before.len() && leaves(nodes, (#[trigger] before[k]) as int).contains(y);
                    if k == best as int {
                        if leaves(nodes, c1 as int).contains(y) {
                            assert(parts[k] == c1);
                        } else {
                            assert(parts[before.len() as int] == c2);
                        }
                    } else {
                        assert(parts[k] == before[k]);
                    }
                }
                assert forall|y: usize| (exists|k: int| 0 <= k < parts.len() && leaves(nodes, (#[trigger] parts[k]) as int).contains(y))
                    implies #[trigger] leaves(nodes, len - 1).contains(y) by {
                    let k = choose|k: int| 0 <= k < parts.len() && leaves(nodes, (#[trigger] parts[k]) as int).contains(y);
                    if k == best as int || k == before.len() {
                        assert(leaves(nodes, before[best as int] as int).contains(y));
                    } else {
                        assert(leaves(nodes, before[k] as int).contains(y));
                    }
                }
            }
        }
        let mut result: Vec<Node> = Vec::new();
        let mut k: usize = 0;
        while k < parts.len()
            invariant
                k <= parts.len(),
                len == nodes.len(),
                nodes == self.nodes@,
                forall|k: int| 0 <= k < parts.len() ==> (#[trigger] parts[k]) < len,
                result.len() == k,
                forall|t: int| 0 <= t < k ==> #[trigger] result[t] == nodes[parts[t] as int],
            decreases parts.len() - k,
        {
            result.push(self.nodes[parts[k]]);
            k = k + 1;
        }
        proof {
            assert forall|t: int| 0 <= t < result.len() implies (#[trigger] result[t]).label == parts[t] by {
                assert(nodes[parts[t] as int].label == parts[t]);
            }
            assert forall|x: usize| #[trigger] leaves(nodes, len - 1).contains(x)
                <==> exists|k: int| 0 <= k < result.len() && leaves(nodes, (#[trigger] result[k]).label as int).contains(x) by {
                if leaves(nodes, len - 1).contains(x) {
                    let k = choose|k: int| 0 <= k < parts.len() && leaves(nodes, (#[trigger] parts[k]) as int).contains(x);
                    assert(result[k].label == parts[k]);
                }
                if exists|k: int| 0 <= k < result.len() && leaves(nodes, (#[trigger] result[k]).label as int).contains(x) {
                    let k = choose|k: int| 0 <= k < result.len() && leaves(nodes, (#[trigger] result[k]).label as int).contains(x);
                    assert(result[k].label == parts[k]);
                }
            }
        }
        result
    }
}


/// The leaves of the first `k` groups together.
pub open spec fn group_leaves(nodes: Seq<Node>, groups: Seq<Node>, k: int) -> Set<usize>
    decreases k,
{
    if k <= 0 {
        Set::empty()
    } else {
        group_leaves(nodes, groups, k - 1).union(leaves(nodes, groups[k - 1].label as int))
    }
}

proof fn lemma_leaves_finite(nodes: Seq<Node>, i: int)
    requires
        nodes_wf(nodes),
        0 <= i < nodes.len(),
    ensures
        leaves(nodes, i).finite(),
        leaves(nodes, i).len() >= 1,
        is_leaf(nodes[i]) ==> leaves(nodes, i).len() == 1,
    decreases i,
{
    if is_leaf(nodes[i]) {
        assert(leaves(nodes, i) == set![i as usize]);
        assert(set![i as usize].len() == 1) by {
            assert(Set::<usize>::empty().insert(i as usize).len() == 1);
        }
    } else {
        let a = nodes[i].node1.unwrap() as int;
        let b = nodes[i].node2.unwrap() as int;
        lemma_leaves_finite(nodes, a);
        lemma_leaves_finite(nodes, b);
        vstd::set_lib::lemma_len_union_ind(leaves(nodes, a), leaves(nodes, b));
    }
}

proof fn lemma_group_leaves(nodes: Seq<Node>, groups: Seq<Node>, k: int)
    requires
        nodes_wf(nodes),
        0 <= k <= groups.len(),
        forall|t: int| 0 <= t < groups.len() ==> (#[trigger] groups[t]).label < nodes.len(),
        forall|a: int, b: int| 0 <= a < groups.len() && 0 <= b < groups.len() && a != b
            ==> leaves(nodes, (#[trigger] groups[a]).label as int).disjoint(leaves(nodes, (#[trigger] groups[b]).label as int)),
    ensures
        group_leaves(nodes, groups, k).finite(),
        group_leaves(nodes, groups, k).len() >= k,
        (forall|t: int| 0 <= t < k ==> is_leaf(nodes[(#[trigger] groups[t]).label as int]))
            ==> group_leaves(nodes, groups, k).len() == k,
        forall|x: usize| #[trigger] group_leaves(nodes, groups, k).contains(x)
            ==> exists|t: int| 0 <= t < k && leaves(nodes, (#[trigger] groups[t]).label as int).contains(x),
    decreases k,
{
    if k > 0 {
        lemma_group_leaves(nodes, groups, k - 1);
        let prev = group_leaves(nodes, groups, k - 1);
        let last = leaves(nodes, groups[k - 1].label as int);
        lemma_leaves_finite(nodes, groups[k - 1].label as int);
        assert(prev.disjoint(last)) by {
            assert forall|x: usize| prev.contains(x) implies !last.contains(x) by {
                let t = choose|t: int| 0 <= t < k - 1 && leaves(nodes, (#[trigger] groups[t]).label as int).contains(x);
                assert(leaves(nodes, groups[t].label as int).disjoint(leaves(nodes, groups[k - 1].label as int)));
            }
        }
        vstd::set_lib::lemma_set_disjoint_lens(prev, last);
        assert(prev + last == group_leaves(nodes, groups, k));
        if forall|t: int| 0 <= t < k ==> is_leaf(nodes[(#[trigger] groups[t]).label as int]) {
            assert(is_leaf(nodes[groups[k - 1].label as int]));
        }
        assert forall|x: usize| #[trigger] group_leaves(nodes, groups, k).contains(x)
            implies exists|t: int| 0 <= t < k && leaves(nodes, (#[trigger] groups[t]).label as int).contains(x) by {
            if prev.contains(x) {
                let t = choose|t: int| 0 <= t < k - 1 && leaves(nodes, (#[trigger] groups[t]).label as int).contains(x);
            } else {
                assert(leaves(nodes, groups[k - 1].label as int).contains(x));
            }
        }
    }
}

/// Cutting a non-empty dendrogram into `n > 0` groups, as `partition` does,
/// gives exactly `min(n, leaf count)` groups, where the leaf count is the
/// number of leaves below the root.
pub proof fn lemma_partition_size(d: &Dendrogram, n: usize, r: Seq<Node>)
    requires
        nodes_wf(d.spec_nodes()),
        d.spec_nodes().len() > 0,
        n > 0,
        r.len() <= n,
        forall|k: int| 0 <= k < r.len() ==> (#[trigger] r[k]).label < d.spec_nodes().len()
            && d.spec_nodes()[r[k].label as int] == r[k],
        forall|a: int, b: int| 0 <= a < r.len() && 0 <= b < r.len() && a != b
            ==> leaves(d.spec_nodes(), (#[trigger] r[a]).label as int).disjoint(
                leaves(d.spec_nodes(), (#[trigger] r[b]).label as int)),
        forall|x: usize| #[trigger] leaves(d.spec_nodes(), d.spec_nodes().len() - 1).contains(x)
            <==> exists|k: int| 0 <= k < r.len() && leaves(d.spec_nodes(), (#[trigger] r[k]).label as int).contains(x),
        r.len() == n || forall|k: int| 0 <= k < r.len() ==> is_leaf(#[trigger] r[k]),
    ensures
        leaves(d.spec_nodes(), d.spec_nodes().len() - 1).finite(),
        r.len() == if n <= leaves(d.spec_nodes(), d.spec_nodes().len() - 1).len() {
            n as nat
        } else {
            leaves(d.spec_nodes(), d.spec_nodes().len() - 1).len()
        },
{
    let nodes = d.spec_nodes();
    let root = leaves(nodes, nodes.len() - 1);
    lemma_group_leaves(nodes, r, r.len() as int);
    let all = group_leaves(nodes, r, r.len() as int);
    assert forall|x: usize| all.contains(x) <==> root.contains(x) by {
        if all.contains(x) {
            let t = choose|t: int| 0 <= t < r.len() && leaves(nodes, (#[trigger] r[t]).label as int).contains(x);
            assert(root.contains(x));
        }
        if root.contains(x) {
            let t = choose|t: int| 0 <= t < r.len() && leaves(nodes, (#[trigger] r[t]).label as int).contains(x);
            lemma_group_member(nodes, r, r.len() as int, t, x);
        }
    }
    assert(all == root);
    if r.len() < n {
        assert forall|t: int| 0 <= t < r.len() implies is_leaf(nodes[(#[trigger] r[t]).label as int]) by {
            assert(is_leaf(r[t]));
        }
    }
}

proof fn lemma_group_member(nodes: Seq<Node>, groups: Seq<Node>, k: int, t: int, x: usize)
    requires
        0 <= t < k,
        leaves(nodes, groups[t].label as int).contains(x),
    ensures
        group_leaves(nodes, groups, k).contains(x),
    decreases k,
{
    if t < k - 1 {
        lemma_group_member(nodes, groups, k - 1, t, x);
    }
}

} // verus!
