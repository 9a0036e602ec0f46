use vstd::prelude::*;
use crate::neighbor::{Neighbor, is_ordered, precedes};
use crate::point::DistanceMetric;

verus! {

/// The distance of point `i` from `q`.
pub open spec fn dist_of<const N: usize>(m: DistanceMetric, pts: Seq<[u16; N]>, q: [u16; N], i: usize) -> nat {
    m.spec_measure(pts[i as int]@, q@)
}

/// Neighbor `a` comes strictly before point `i` at distance `d`.
pub open spec fn precedes_point(a: Neighbor, d: nat, i: usize) -> bool {
    a.distance < d || (a.distance == d && a.index < i)
}

/// `s` holds the index `i`.
pub open spec fn holds_index(s: Seq<Neighbor>, i: usize) -> bool {
    exists|t: int| 0 <= t < s.len() && (#[trigger] s[t]).index == i
}

/// `best` is the list of the `k` nearest points of `visited` to `q`, nearest
/// first, ties going to the smaller index: it is ordered, each entry names a
/// visited point with its true distance, it holds every visited point when
/// shorter than `k`, and every visited point that it leaves out comes after
/// its last entry.
pub open spec fn is_top<const N: usize>(
    best: Seq<Neighbor>,
    visited: Set<usize>,
    k: nat,
    m: DistanceMetric,
    pts: Seq<[u16; N]>,
    q: [u16; N],
) -> bool {
    &&& best.len() <= k
    &&& is_ordered(best)
    &&& forall|t: int| 0 <= t < best.len() ==> visited.contains((#[trigger] best[t]).index)
        && best[t].index < pts.len() && best[t].distance == dist_of(m, pts, q, best[t].index)
    &&& forall|j: usize| #[trigger] visited.contains(j) && !holds_index(best, j) ==> best.len() == k
        && (k == 0 || precedes_point(best.last(), dist_of(m, pts, q, j), j))
}

/// Two lists that are both the `k` nearest points of the same set are equal.
pub proof fn lemma_top_unique<const N: usize>(
    a: Seq<Neighbor>,
    b: Seq<Neighbor>,
    visited: Set<usize>,
    k: nat,
    m: DistanceMetric,
    pts: Seq<[u16; N]>,
    q: [u16; N],
)
    requires
        is_top(a, visited, k, m, pts, q),
        is_top(b, visited, k, m, pts, q),
    ensures
        a == b,
{
    let n = if a.len() < b.len() { a.len() } else { b.len() };
    if n > 0 {
        lemma_top_prefix(a, b, visited, k, m, pts, q, n - 1);
    }
    if a.len() < b.len() {
        lemma_longer(a, b, visited, k, m, pts, q);
    } else if b.len() < a.len() {
        lemma_longer(b, a, visited, k, m, pts, q);
    }
    assert(a =~= b);
}

proof fn lemma_longer<const N: usize>(
    a: Seq<Neighbor>,
    b: Seq<Neighbor>,
    visited: Set<usize>,
    k: nat,
    m: DistanceMetric,
    pts: Seq<[u16; N]>,
    q: [u16; N],
)
    requires
        is_top(a, visited, k, m, pts, q),
        is_top(b, visited, k, m, pts, q),
        forall|t: int| 0 <= t < a.len() && t < b.len() ==> a[t] == b[t],
    ensures
        a.len() >= b.len(),
{
    if a.len() < b.len() {
        let x = b[a.len() as int];
        assert(visited.contains(x.index));
        if !holds_index(a, x.index) {
            assert(a.len() == k);
        } else {
            let s = choose|s: int| 0 <= s < a.len() && (#[trigger] a[s]).index == x.index;
            assert(b[s] == a[s]);
            assert(precedes(b[s], b[a.len() as int]));
        }
    }
}

proof fn lemma_top_prefix<const N: usize>(
    a: Seq<Neighbor>,
    b: Seq<Neighbor>,
    visited: Set<usize>,
    k: nat,
    m: DistanceMetric,
    pts: Seq<[u16; N]>,
    q: [u16; N],
    t: int,
)
    requires
        is_top(a, visited, k, m, pts, q),
        is_top(b, visited, k, m, pts, q),
        0 <= t < a.len(),
        t < b.len(),
    ensures
        forall|s: int| 0 <= s <= t ==> a[s] == b[s],
    decreases t,
{
    if t > 0 {
        lemma_top_prefix(a, b, visited, k, m, pts, q, t - 1);
    }
    if a[t] != b[t] {
        assert(a[t].index != b[t].index);
        if precedes(a[t], b[t]) {
            lemma_not_held(a, b, visited, k, m, pts, q, t);
        } else {
            lemma_not_held(b, a, visited, k, m, pts, q, t);
        }
    }
}

proof fn lemma_not_held<const N: usize>(
    a: Seq<Neighbor>,
    b: Seq<Neighbor>,
    visited: Set<usize>,
    k: nat,
    m: DistanceMetric,
    pts: Seq<[u16; N]>,
    q: [u16; N],
    t: int,
)
    requires
        is_top(a, visited, k, m, pts, q),
        is_top(b, visited, k, m, pts, q),
        0 <= t < a.len(),
        t < b.len(),
        forall|s: int| 0 <= s < t ==> a[s] == b[s],
    ensures
        !precedes(a[t], b[t]),
{
    if precedes(a[t], b[t]) {
        let x = a[t];
        assert(visited.contains(x.index));
        if holds_index(b, x.index) {
            let s = choose|s: int| 0 <= s < b.len() && (#[trigger] b[s]).index == x.index;
            assert(b[s] == x);
            if s < t {
                assert(a[s] == b[s]);
                assert(precedes(a[s], a[t]));
            } else if s > t {
                assert(precedes(b[t], b[s]));
            }
        } else {
            assert(b.len() == k);
            let l = b.len() - 1;
            if l > t {
                assert(precedes(b[t], b[l]));
            }
        }
    }
}

/// Offers `cand` to the list of the `k` nearest points of `visited`; the list
/// becomes that of `visited` with `cand`'s point added.
pub(crate) fn offer<const N: usize>(
    best: &mut Vec<Neighbor>,
    cand: Neighbor,
    k: usize,
    Ghost(visited): Ghost<Set<usize>>,
    Ghost(m): Ghost<DistanceMetric>,
    Ghost(pts): Ghost<Seq<[u16; N]>>,
    Ghost(q): Ghost<[u16; N]>,
)
    requires
        k > 0,
        is_top(old(best)@, visited, k as nat, m, pts, q),
        !visited.contains(cand.index),
        cand.index < pts.len(),
        cand.distance == dist_of(m, pts, q, cand.index),
    ensures
        is_top(final(best)@, visited.insert(cand.index), k as nat, m, pts, q),
{
    let ghost b0 = best@;
    let ghost v1 = visited.insert(cand.index);
    let len = best.len();
    if len == k {
        let last = best[len - 1];
        if !(cand.distance < last.distance || (cand.distance == last.distance && cand.index < last.index)) {
            proof {
                assert forall|j: usize| #[trigger] v1.contains(j) && !holds_index(b0, j) implies b0.len() == k
                    && (k == 0 || precedes_point(b0.last(), dist_of(m, pts, q, j), j)) by {
                    if j == cand.index {
                        assert(last.index != cand.index);
                    }
                }
            }
            return;
        }
        best.pop();
    }
    let ghost b1 = best@;
    let mut p: usize = 0;
    while p < best.len() && (best[p].distance < cand.distance
        || (best[p].distance == cand.distance && best[p].index < cand.index))
        invariant
            p <= best.len(),
            best@ == b1,
            forall|t: int| 0 <= t < p ==> precedes(#[trigger] b1[t], cand),
        decreases best.len() - p,
    {
        p = p + 1;
    }
    best.insert(p, cand);
    proof {
        lemma_offer_insert(b0, b1, best@, p as int, cand, len as int, visited, k as nat, m, pts, q);
    }
}

#[verifier::rlimit(50)]
proof fn lemma_offer_insert<const N: usize>(
    b0: Seq<Neighbor>,
    b1: Seq<Neighbor>,
    b2: Seq<Neighbor>,
    p: int,
    cand: Neighbor,
    len: int,
    visited: Set<usize>,
    k: nat,
    m: DistanceMetric,
    pts: Seq<[u16; N]>,
    q: [u16; N],
)
    requires
        k > 0,
        is_top(b0, visited, k, m, pts, q),
        !visited.contains(cand.index),
        cand.index < pts.len(),
        cand.distance == dist_of(m, pts, q, cand.index),
        len == b0.len(),
        len == k ==> b1 == b0.drop_last() && precedes(cand, b0[len - 1]),
        len < k ==> b1 == b0,
        0 <= p <= b1.len(),
        forall|t: int| 0 <= t < p ==> precedes(#[trigger] b1[t], cand),
        p < b1.len() ==> !precedes(b1[p], cand),
        b2 == b1.insert(p, cand),
    ensures
        is_top(b2, visited.insert(cand.index), k, m, pts, q),
{
    let v1 = visited.insert(cand.index);

    assert(b1.len() < k);
    assert(forall|t: int| 0 <= t < b1.len() ==> b1[t] == b0[t]);
    assert forall|t: int| 0 <= t < b1.len() implies (#[trigger] b1[t]).index != cand.index by {
        assert(visited.contains(b0[t].index));
    }
    assert forall|t: int| p <= t < b1.len() implies precedes(cand, #[trigger] b1[t]) by {
        if t > p {
            assert(precedes(b1[p], b1[t]));
        }
    }
    assert(is_ordered(b2)) by {
        assert forall|i: int, j: int| 0 <= i < j < b2.len() implies precedes(#[trigger] b2[i], #[trigger] b2[j]) by {
            if i < p && j < p {
                assert(b2[i] == b1[i] && b2[j] == b1[j]);
            } else if i < p && j == p {
            } else if i < p {
                assert(b2[j] == b1[j - 1]);
                assert(precedes(b1[i], b1[j - 1]));
            } else if i == p {
                assert(b2[j] == b1[j - 1]);
            } else {
                assert(b2[i] == b1[i - 1] && b2[j] == b1[j - 1]);
            }
        }
    }
    assert forall|t: int| 0 <= t < b2.len() implies v1.contains((#[trigger] b2[t]).index)
        && b2[t].index < pts.len() && b2[t].distance == dist_of(m, pts, q, b2[t].index) by {
        if t < p {
            assert(b2[t] == b1[t]);
        } else if t > p {
            assert(b2[t] == b1[t - 1]);
        }
    }
    assert forall|j: usize| #[trigger] v1.contains(j) && !holds_index(b2, j) implies b2.len() == k
        && (k == 0 || precedes_point(b2.last(), dist_of(m, pts, q, j), j)) by {
        if j == cand.index {
            assert(b2[p].index == j);
        } else if exists|t: int| 0 <= t < b1.len() && (#[trigger] b1[t]).index == j {
            let t = choose|t: int| 0 <= t < b1.len() && (#[trigger] b1[t]).index == j;
            if t < p {
                assert(b2[t] == b1[t]);
            } else {
                assert(b2[t + 1] == b1[t]);
            }
        } else {
            // j was left out of the old list, or was its dropped last entry.
            assert(len == k);
            let l2 = b2.len() - 1;
            let old_last = b0[len - 1];
            if holds_index(b0, j) {
                let t = choose|t: int| 0 <= t < b0.len() && (#[trigger] b0[t]).index == j;
                assert(t == len - 1);
                assert(old_last.distance == dist_of(m, pts, q, j));
            } else {
                assert(precedes_point(old_last, dist_of(m, pts, q, j), j));
            }
            if l2 == p {
                assert(precedes(cand, old_last));
            } else {
                assert(b2[l2] == b1[l2 - 1]);
                assert(b1[l2 - 1] == b0[l2 - 1]);
                assert(precedes(b0[l2 - 1], old_last));
            }
        }
    }
}

} // verus!
