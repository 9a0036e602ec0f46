use vstd::prelude::*;

verus! {

/// The largest number of items that a linkage can hold; it keeps the
/// square distance matrix inside `usize`.
pub const MAX_ITEMS: usize = 16384;

/// The distance between nodes `i` and `j` of a linkage: the largest value
/// for a node that has been merged, else the recorded distance.
pub open spec fn linkage_distance<L: Linkage>(l: L, i: int, j: int) -> u64 {
    if l.spec_inactive(i) || l.spec_inactive(j) {
        u64::MAX
    } else {
        l.spec_entry(i, j)
    }
}

/// The rule that gives the distance from a merged node to another node.
pub trait Linkage: Sized {
    /// The number of node slots: the items and the merges to come.
    spec fn spec_size(&self) -> nat;

    /// The label that the next merge creates.
    spec fn spec_next(&self) -> nat;

    /// The internal state is consistent.
    spec fn spec_wf(&self) -> bool;

    /// Whether node `i` has been merged into another.
    spec fn spec_inactive(&self, i: int) -> bool;

    /// The recorded distance between nodes `i` and `j`.
    spec fn spec_entry(&self, i: int, j: int) -> u64;

    /// The distance that `merge` records from the merged node to a third
    /// node, given the distances of the two merged nodes to it.
    spec fn spec_combine(&self, d1: u64, d2: u64) -> u64;

    /// Returns the distance between nodes `i` and `j`.
    fn distance(&self, i: usize, j: usize) -> (d: u64)
        requires
            self.spec_wf(),
            i < self.spec_size(),
            j < self.spec_size(),
        ensures
            d == if self.spec_inactive(i as int) || self.spec_inactive(j as int) {
                u64::MAX
            } else {
                self.spec_entry(i as int, j as int)
            };

    /// Merges nodes `i` and `j` into a new node and returns its label.
    fn merge(&mut self, i: usize, j: usize) -> (label: usize)
        requires
            old(self).spec_wf(),
            i < j < old(self).spec_next(),
            old(self).spec_next() < old(self).spec_size(),
        ensures
            final(self).spec_wf(),
            label == old(self).spec_next(),
            final(self).spec_next() == old(self).spec_next() + 1,
            final(self).spec_size() == old(self).spec_size(),
            final(self).spec_inactive(i as int),
            final(self).spec_inactive(j as int),
            !final(self).spec_inactive(label as int),
            forall|k: int| 0 <= k < final(self).spec_size() && k != i && k != j
                ==> final(self).spec_inactive(k) == old(self).spec_inactive(k),
            forall|k: int| 0 <= k < label && k != i && k != j
                ==> #[trigger] final(self).spec_entry(k, label as int) == old(self).spec_combine(
                    if old(self).spec_inactive(i as int) || old(self).spec_inactive(k) {
                        u64::MAX
                    } else {
                        old(self).spec_entry(i as int, k)
                    },
                    if old(self).spec_inactive(j as int) || old(self).spec_inactive(k) {
                        u64::MAX
                    } else {
                        old(self).spec_entry(j as int, k)
                    },
                ),
            forall|a: int, b: int| 0 <= a < label && 0 <= b < label
                ==> #[trigger] final(self).spec_entry(a, b) == old(self).spec_entry(a, b),
            forall|a: u64, b: u64| #[trigger] final(self).spec_combine(a, b) == old(self).spec_combine(a, b);
}

/// A symmetric matrix of distances between node slots.
#[derive(Debug, PartialEq, Eq)]
struct DistanceMatrix {
    distances: Vec<u64>,
    size: usize,
}

impl DistanceMatrix {
    spec fn wf(&self) -> bool {
        &&& self.size <= 2 * MAX_ITEMS
        &&& self.distances@.len() == self.size * self.size
    }

    spec fn entry(&self, i: int, j: int) -> u64 {
        self.distances@[i * self.size + j]
    }

    /// A matrix for `n_elements` items and their merges, holding the
    /// distance of every pair of items.
    fn new<T, DF: Fn(&T, &T) -> u64>(dataset: &Vec<T>, distance_fn: &DF) -> (m: DistanceMatrix)
        requires
            0 < dataset.len() <= MAX_ITEMS,
            forall|a: &T, b: &T| #[trigger] distance_fn.requires((a, b)),
        ensures
            m.wf(),
            m.size == 2 * dataset.len() - 1,
            forall|i: int, j: int| 0 <= i < dataset.len() && 0 <= j < dataset.len() && i != j
                ==> distance_fn.ensures((&dataset[i], &dataset[j]), #[trigger] m.entry(i, j))
                || distance_fn.ensures((&dataset[j], &dataset[i]), m.entry(i, j)),
    {
        let n = dataset.len();
        let size = n * 2 - 1;
        assert(size * size <= 4 * MAX_ITEMS * MAX_ITEMS) by (nonlinear_arith)
            requires
                size <= 2 * MAX_ITEMS,
        ;
        let total = size * size;
        let mut distances: Vec<u64> = Vec::new();
        let mut t: usize = 0;
        while t < total
            invariant
                t <= total,
                distances@.len() == t,
            decreases total - t,
        {
            distances.push(u64::MAX);
            t = t + 1;
        }
        let mut m = DistanceMatrix { distances, size };
        let mut i: usize = 0;
        while i < n
            invariant
                i <= n,
                n == dataset.len(),
                size == 2 * n - 1,
                m.size == size,
                m.wf(),
                forall|a: &T, b: &T| #[trigger] distance_fn.requires((a, b)),
                forall|a: int, b: int| 0 <= a < i && 0 <= b < n && a < b
                    ==> distance_fn.ensures((&dataset[a], &dataset[b]), #[trigger] m.entry(a, b))
                    && m.entry(b, a) == m.entry(a, b),
            decreases n - i,
        {
            let mut j: usize = i + 1;
            while j < n
                invariant
                    i < n,
                    i + 1 <= j <= n,
                    n == dataset.len(),
                    size == 2 * n - 1,
                    m.size == size,
                    m.wf(),
                    forall|a: &T, b: &T| #[trigger] distance_fn.requires((a, b)),
                    forall|a: int, b: int| 0 <= a < n && 0 <= b < n && a < b && (a < i || (a == i && b < j))
                        ==> distance_fn.ensures((&dataset[a], &dataset[b]), #[trigger] m.entry(a, b))
                        && m.entry(b, a) == m.entry(a, b),
                decreases n - j,
            {
                let d = distance_fn(&dataset[i], &dataset[j]);
                m.set(i, j, d);
                j = j + 1;
            }
            i = i + 1;
        }
        proof {
            assert forall|i: int, j: int| 0 <= i < dataset.len() && 0 <= j < dataset.len() && i != j
                implies distance_fn.ensures((&dataset[i], &dataset[j]), #[trigger] m.entry(i, j))
                || distance_fn.ensures((&dataset[j], &dataset[i]), m.entry(i, j)) by {
                if j < i {
                    assert(distance_fn.ensures((&dataset[j], &dataset[i]), m.entry(j, i)));
                }
            }
        }
        m
    }

    /// The distance between `i` and `j`.
    fn get(&self, i: usize, j: usize) -> (d: u64)
        requires
            self.wf(),
            i < self.size,
            j < self.size,
        ensures
            d == self.entry(i as int, j as int),
    {
        proof {
            lemma_index_in_range(i as int, j as int, self.size as int);
        }
        self.distances[i * self.size + j]
    }

    /// Sets the distance between `i` and `j`, in both directions.
    fn set(&mut self, i: usize, j: usize, value: u64)
        requires
            old(self).wf(),
            i < old(self).size,
            j < old(self).size,
        ensures
            final(self).wf(),
            final(self).size == old(self).size,
            final(self).entry(i as int, j as int) == value,
            final(self).entry(j as int, i as int) == value,
            forall|a: int, b: int| 0 <= a < final(self).size && 0 <= b < final(self).size
                && !(a == i && b == j) && !(a == j && b == i)
                ==> #[trigger] final(self).entry(a, b) == old(self).entry(a, b),
    {
        proof {
            lemma_index_in_range(i as int, j as int, self.size as int);
            lemma_index_in_range(j as int, i as int, self.size as int);
        }
        let size = self.size;
        self.distances.set(i * size + j, value);
        self.distances.set(j * size + i, value);
        proof {
            assert forall|a: int, b: int| 0 <= a < self.size && 0 <= b < self.size
                && !(a == i && b == j) && !(a == j && b == i)
                implies #[trigger] self.entry(a, b) == old(self).entry(a, b) by {
                lemma_index_in_range(a, b, size as int);
                if a * size + b == i * size + j {
                    lemma_index_injective(a, b, i as int, j as int, size as int);
                }
                if a * size + b == j * size + i {
                    lemma_index_injective(a, b, j as int, i as int, size as int);
                }
            }
        }
    }
}

proof fn lemma_index_in_range(i: int, j: int, size: int)
    requires
        0 <= i < size,
        0 <= j < size,
        size <= 2 * MAX_ITEMS,
    ensures
        0 <= i * size + j < size * size,
        size * size <= 4 * MAX_ITEMS * MAX_ITEMS,
{
    assert(size * size <= 4 * MAX_ITEMS * MAX_ITEMS) by (nonlinear_arith)
        requires
            0 <= size <= 2 * MAX_ITEMS,
    ;
    assert(i * size + j < size * size) by (nonlinear_arith)
        requires
            0 <= i < size,
            0 <= j < size,
    ;
    assert(0 <= i * size) by (nonlinear_arith)
        requires
            0 <= i,
            0 <= size,
    ;
}

proof fn lemma_index_injective(a: int, b: int, i: int, j: int, size: int)
    requires
        0 <= a < size,
        0 <= b < size,
        0 <= i < size,
        0 <= j < size,
        a * size + b == i * size + j,
    ensures
        a == i && b == j,
{
    if a < i {
        assert(a * size + b < i * size) by (nonlinear_arith)
            requires
                a < i,
                0 <= b < size,
        ;
        assert(i * size <= i * size + j);
    } else if i < a {
        assert(i * size + j < a * size) by (nonlinear_arith)
            requires
                i < a,
                0 <= j < size,
        ;
    }
}


/// Single linkage: the distance from a merged node to another node is the
/// minimum of the distances from its two parts.
#[derive(Debug, PartialEq, Eq)]
pub struct SingleLinkage {
    matrix: DistanceMatrix,
    inactive: Vec<bool>,
    next_index: usize,
}

impl SingleLinkage {
    /// The distance between nodes `i` and `j`: the largest value for a
    /// merged node, else the recorded distance.
    spec fn pair_distance(&self, i: int, j: int) -> u64 {
        if (0 <= i < self.inactive@.len() && self.inactive@[i]) || (0 <= j < self.inactive@.len() && self.inactive@[j]) {
            u64::MAX
        } else {
            self.matrix.entry(i, j)
        }
    }

    /// Creates the linkage over `dataset`, measuring each pair of items
    /// with `distance_fn`.
    pub fn new<T, DF: Fn(&T, &T) -> u64>(dataset: &Vec<T>, distance_fn: &DF) -> (l: SingleLinkage)
        requires
            0 < dataset.len() <= MAX_ITEMS,
            forall|a: &T, b: &T| #[trigger] distance_fn.requires((a, b)),
        ensures
            l.spec_wf(),
            l.spec_next() == dataset.len(),
            l.spec_size() == 2 * dataset.len() - 1,
            forall|i: int| 0 <= i < l.spec_size() ==> !l.spec_inactive(i),
            forall|i: int, j: int| 0 <= i < dataset.len() && 0 <= j < dataset.len() && i != j
                ==> distance_fn.ensures((&dataset[i], &dataset[j]), #[trigger] l.spec_entry(i, j))
                || distance_fn.ensures((&dataset[j], &dataset[i]), l.spec_entry(i, j)),
    {
        let matrix = DistanceMatrix::new(dataset, distance_fn);
        let mut inactive: Vec<bool> = Vec::new();
        let mut k: usize = 0;
        while k < matrix.size
            invariant
                k <= matrix.size,
                inactive@.len() == k,
                forall|t: int| 0 <= t < k ==> !(#[trigger] inactive@[t]),
            decreases matrix.size - k,
        {
            inactive.push(false);
            k = k + 1;
        }
        SingleLinkage { matrix, inactive, next_index: dataset.len() }
    }
}

impl Linkage for SingleLinkage {
    closed spec fn spec_size(&self) -> nat {
        self.matrix.size as nat
    }

    closed spec fn spec_next(&self) -> nat {
        self.next_index as nat
    }

    closed spec fn spec_wf(&self) -> bool {
        &&& self.matrix.wf()
        &&& self.inactive@.len() == self.matrix.size
        &&& self.next_index <= self.matrix.size
        &&& forall|i: int| self.next_index <= i < self.inactive@.len() ==> !(#[trigger] self.inactive@[i])
    }

    closed spec fn spec_inactive(&self, i: int) -> bool {
        0 <= i < self.inactive@.len() && self.inactive@[i]
    }

    closed spec fn spec_entry(&self, i: int, j: int) -> u64 {
        self.matrix.entry(i, j)
    }

    open spec fn spec_combine(&self, d1: u64, d2: u64) -> u64 {
        if d1 <= d2 {
            d1
        } else {
            d2
        }
    }

    fn distance(&self, i: usize, j: usize) -> (d: u64) {
        if self.inactive[i] || self.inactive[j] {
            return u64::MAX;
        }
        self.matrix.get(i, j)
    }

    fn merge(&mut self, i: usize, j: usize) -> (label: usize) {
        let label = self.next_index;
        let mut k: usize = 0;
        while k < label
            invariant
                k <= label,
                label == old(self).next_index,
                label < self.matrix.size,
                i < j < label,
                self.spec_wf(),
                self.inactive@ == old(self).inactive@,
                self.next_index == old(self).next_index,
                self.matrix.size == old(self).matrix.size,
                forall|t: int| 0 <= t < k && t != i && t != j
                    ==> #[trigger] self.spec_entry(t, label as int) == old(self).spec_combine(
                        old(self).pair_distance(i as int, t), old(self).pair_distance(j as int, t)),
                forall|a: int, b: int| 0 <= a < label && 0 <= b < label
                    ==> #[trigger] self.spec_entry(a, b) == old(self).spec_entry(a, b),
            decreases label - k,
        {
            let d1 = self.distance(i, k);
            let d2 = self.distance(j, k);
            let d = if d1 <= d2 {
                d1
            } else {
                d2
            };
            let ghost prev = self.matrix;
            let ghost pre = *self;
            self.matrix.set(k, label, d);
            proof {
                assert forall|t: int| 0 <= t < k + 1 && t != i && t != j
                    implies #[trigger] self.spec_entry(t, label as int) == old(self).spec_combine(
                        old(self).pair_distance(i as int, t), old(self).pair_distance(j as int, t)) by {
                    if t < k {
                        assert(self.matrix.entry(t, label as int) == prev.entry(t, label as int));
                        assert(pre.spec_entry(t, label as int) == prev.entry(t, label as int));
                    } else {
                        assert(pre.pair_distance(i as int, t) == old(self).pair_distance(i as int, t)) by {
                            assert(pre.spec_entry(i as int, t) == old(self).spec_entry(i as int, t));
                        }
                        assert(pre.pair_distance(j as int, t) == old(self).pair_distance(j as int, t)) by {
                            assert(pre.spec_entry(j as int, t) == old(self).spec_entry(j as int, t));
                        }
                    }
                }
                assert forall|a: int, b: int| 0 <= a < label && 0 <= b < label
                    implies #[trigger] self.spec_entry(a, b) == old(self).spec_entry(a, b) by {
                    assert(self.matrix.entry(a, b) == prev.entry(a, b));
                    assert(pre.spec_entry(a, b) == prev.entry(a, b));
                }
            }
            k = k + 1;
        }
        let ghost pre = *self;
        self.inactive.set(i, true);
        self.inactive.set(j, true);
        self.next_index = self.next_index + 1;
        proof {
            assert forall|t: int| 0 <= t < label && t != i && t != j
                implies #[trigger] self.spec_entry(t, label as int) == old(self).spec_combine(
                    old(self).pair_distance(i as int, t), old(self).pair_distance(j as int, t)) by {
                assert(pre.spec_entry(t, label as int) == self.spec_entry(t, label as int));
            }
            assert forall|a: int, b: int| 0 <= a < label && 0 <= b < label
                implies #[trigger] self.spec_entry(a, b) == old(self).spec_entry(a, b) by {
                assert(pre.spec_entry(a, b) == self.spec_entry(a, b));
            }
        }
        label
    }
}

/// Complete linkage: the distance from a merged node to another node is the
/// maximum of the distances from its two parts.
#[derive(Debug, PartialEq, Eq)]
pub struct CompleteLinkage {
    matrix: DistanceMatrix,
    inactive: Vec<bool>,
    next_index: usize,
}

impl CompleteLinkage {
    /// The distance between nodes `i` and `j`: the largest value for a
    /// merged node, else the recorded distance.
    spec fn pair_distance(&self, i: int, j: int) -> u64 {
        if (0 <= i < self.inactive@.len() && self.inactive@[i]) || (0 <= j < self.inactive@.len() && self.inactive@[j]) {
            u64::MAX
        } else {
            self.matrix.entry(i, j)
        }
    }

    /// Creates the linkage over `dataset`, measuring each pair of items
    /// with `distance_fn`.
    pub fn new<T, DF: Fn(&T, &T) -> u64>(dataset: &Vec<T>, distance_fn: &DF) -> (l: CompleteLinkage)
        requires
            0 < dataset.len() <= MAX_ITEMS,
            forall|a: &T, b: &T| #[trigger] distance_fn.requires((a, b)),
        ensures
            l.spec_wf(),
            l.spec_next() == dataset.len(),
            l.spec_size() == 2 * dataset.len() - 1,
            forall|i: int| 0 <= i < l.spec_size() ==> !l.spec_inactive(i),
            forall|i: int, j: int| 0 <= i < dataset.len() && 0 <= j < dataset.len() && i != j
                ==> distance_fn.ensures((&dataset[i], &dataset[j]), #[trigger] l.spec_entry(i, j))
                || distance_fn.ensures((&dataset[j], &dataset[i]), l.spec_entry(i, j)),
    {
        let matrix = DistanceMatrix::new(dataset, distance_fn);
        let mut inactive: Vec<bool> = Vec::new();
        let mut k: usize = 0;
        while k < matrix.size
            invariant
                k <= matrix.size,
                inactive@.len() == k,
                forall|t: int| 0 <= t < k ==> !(#[trigger] inactive@[t]),
            decreases matrix.size - k,
        {
            inactive.push(false);
            k = k + 1;
        }
        CompleteLinkage { matrix, inactive, next_index: dataset.len() }
    }
}

impl Linkage for CompleteLinkage {
    closed spec fn spec_size(&self) -> nat {
        self.matrix.size as nat
    }

    closed spec fn spec_next(&self) -> nat {
        self.next_index as nat
    }

    closed spec fn spec_wf(&self) -> bool {
        &&& self.matrix.wf()
        &&& self.inactive@.len() == self.matrix.size
        &&& self.next_index <= self.matrix.size
        &&& forall|i: int| self.next_index <= i < self.inactive@.len() ==> !(#[trigger] self.inactive@[i])
    }

    closed spec fn spec_inactive(&self, i: int) -> bool {
        0 <= i < self.inactive@.len() && self.inactive@[i]
    }

    closed spec fn spec_entry(&self, i: int, j: int) -> u64 {
        self.matrix.entry(i, j)
    }

    open spec fn spec_combine(&self, d1: u64, d2: u64) -> u64 {
        if d1 >= d2 {
            d1
        } else {
            d2
        }
    }

    fn distance(&self, i: usize, j: usize) -> (d: u64) {
        if self.inactive[i] || self.inactive[j] {
            return u64::MAX;
        }
        self.matrix.get(i, j)
    }

    fn merge(&mut self, i: usize, j: usize) -> (label: usize) {
        let label = self.next_index;
        let mut k: usize = 0;
        while k < label
            invariant
                k <= label,
                label == old(self).next_index,
                label < self.matrix.size,
                i < j < label,
                self.spec_wf(),
                self.inactive@ == old(self).inactive@,
                self.next_index == old(self).next_index,
                self.matrix.size == old(self).matrix.size,
                forall|t: int| 0 <= t < k && t != i && t != j
                    ==> #[trigger] self.spec_entry(t, label as int) == old(self).spec_combine(
                        old(self).pair_distance(i as int, t), old(self).pair_distance(j as int, t)),
                forall|a: int, b: int| 0 <= a < label && 0 <= b < label
                    ==> #[trigger] self.spec_entry(a, b) == old(self).spec_entry(a, b),
            decreases label - k,
        {
            let d1 = self.distance(i, k);
            let d2 = self.distance(j, k);
            let d = if i == k {
                d2
            } else if j == k {
                d1
            } else if d1 >= d2 {
                d1
            } else {
                d2
            };
            let ghost prev = self.matrix;
            let ghost pre = *self;
            self.matrix.set(k, label, d);
            proof {
                assert forall|t: int| 0 <= t < k + 1 && t != i && t != j
                    implies #[trigger] self.spec_entry(t, label as int) == old(self).spec_combine(
                        old(self).pair_distance(i as int, t), old(self).pair_distance(j as int, t)) by {
                    if t < k {
                        assert(self.matrix.entry(t, label as int) == prev.entry(t, label as int));
                        assert(pre.spec_entry(t, label as int) == prev.entry(t, label as int));
                    } else {
                        assert(pre.pair_distance(i as int, t) == old(self).pair_distance(i as int, t)) by {
                            assert(pre.spec_entry(i as int, t) == old(self).spec_entry(i as int, t));
                        }
                        assert(pre.pair_distance(j as int, t) == old(self).pair_distance(j as int, t)) by {
                            assert(pre.spec_entry(j as int, t) == old(self).spec_entry(j as int, t));
                        }
                    }
                }
                assert forall|a: int, b: int| 0 <= a < label && 0 <= b < label
                    implies #[trigger] self.spec_entry(a, b) == old(self).spec_entry(a, b) by {
                    assert(self.matrix.entry(a, b) == prev.entry(a, b));
                    assert(pre.spec_entry(a, b) == prev.entry(a, b));
                }
            }
            k = k + 1;
        }
        let ghost pre = *self;
        self.inactive.set(i, true);
        self.inactive.set(j, true);
        self.next_index = self.next_index + 1;
        proof {
            assert forall|t: int| 0 <= t < label && t != i && t != j
                implies #[trigger] self.spec_entry(t, label as int) == old(self).spec_combine(
                    old(self).pair_distance(i as int, t), old(self).pair_distance(j as int, t)) by {
                assert(pre.spec_entry(t, label as int) == self.spec_entry(t, label as int));
            }
            assert forall|a: int, b: int| 0 <= a < label && 0 <= b < label
                implies #[trigger] self.spec_entry(a, b) == old(self).spec_entry(a, b) by {
                assert(pre.spec_entry(a, b) == self.spec_entry(a, b));
            }
        }
        label
    }
}

} // verus!
