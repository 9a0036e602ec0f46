use vstd::prelude::*;

verus! {

/// The largest number of coordinates a point may have; it keeps every
/// squared distance inside `u64`.
pub const MAX_DIMENSION: usize = 65536;

/// The largest squared difference of two coordinates.
pub const MAX_SQUARED_DELTA: u64 = 4294836225;

/// The square of the difference of two coordinates.
pub open spec fn squared_delta(a: u16, b: u16) -> nat {
    ((a - b) * (a - b)) as nat
}

/// The sum of the squared coordinate differences over the first `n` axes.
pub open spec fn partial_squared_distance(p: Seq<u16>, q: Seq<u16>, n: int) -> nat
    decreases n,
{
    if n <= 0 {
        0
    } else {
        partial_squared_distance(p, q, n - 1) + squared_delta(p[n - 1], q[n - 1])
    }
}

/// The squared Euclidean distance of two points.
pub open spec fn squared_distance(p: Seq<u16>, q: Seq<u16>) -> nat {
    partial_squared_distance(p, q, p.len() as int)
}

/// The integer square root: the largest `s` with `s * s <= x`.
pub open spec fn floor_sqrt(x: nat) -> nat
    decreases x,
{
    if x == 0 {
        0
    } else {
        let s = floor_sqrt((x - 1) as nat);
        if (s + 1) * (s + 1) <= x {
            s + 1
        } else {
            s
        }
    }
}

/// The integer square root squares to at most `x`, and its successor to more.
pub proof fn lemma_floor_sqrt(x: nat)
    ensures
        floor_sqrt(x) * floor_sqrt(x) <= x,
        x < (floor_sqrt(x) + 1) * (floor_sqrt(x) + 1),
    decreases x,
{
    if x == 0 {
        assert(floor_sqrt(x) == 0);
        assert((0 + 1) * (0 + 1) == 1) by (nonlinear_arith);
    } else {
        let y = (x - 1) as nat;
        lemma_floor_sqrt(y);
        let s = floor_sqrt(y);
        let r = floor_sqrt(x);
        if (s + 1) * (s + 1) <= x {
            assert(r == s + 1);
            assert(x < (r + 1) * (r + 1)) by (nonlinear_arith)
                requires
                    y < (s + 1) * (s + 1),
                    x == y + 1,
                    r == s + 1,
            ;
            assert(r * r <= x);
        } else {
            assert(r == s);
            assert(r * r <= x);
            assert(x < (r + 1) * (r + 1));
        }
    }
}

/// Any `r` with `r * r <= x < (r + 1) * (r + 1)` is the integer square root.
pub proof fn lemma_floor_sqrt_unique(x: nat, r: nat)
    requires
        r * r <= x,
        x < (r + 1) * (r + 1),
    ensures
        r == floor_sqrt(x),
{
    lemma_floor_sqrt(x);
    let s = floor_sqrt(x);
    if r < s {
        assert((r + 1) * (r + 1) <= s * s) by (nonlinear_arith)
            requires
                r + 1 <= s,
        ;
    } else if s < r {
        assert((s + 1) * (s + 1) <= r * r) by (nonlinear_arith)
            requires
                s + 1 <= r,
        ;
    }
}

proof fn lemma_partial_bound(p: Seq<u16>, q: Seq<u16>, n: int)
    requires
        0 <= n,
    ensures
        partial_squared_distance(p, q, n) <= n * MAX_SQUARED_DELTA,
    decreases n,
{
    if n > 0 {
        lemma_partial_bound(p, q, n - 1);
        let a = p[n - 1];
        let b = q[n - 1];
        assert(squared_delta(a, b) <= MAX_SQUARED_DELTA) by (nonlinear_arith)
            requires
                0 <= a <= 65535,
                0 <= b <= 65535,
        ;
        assert((n - 1) * MAX_SQUARED_DELTA + MAX_SQUARED_DELTA == n * MAX_SQUARED_DELTA)
            by (nonlinear_arith);
    }
}

/// One axis never contributes more than the whole squared distance.
pub proof fn lemma_axis_below_distance(p: Seq<u16>, q: Seq<u16>, n: int, axis: int)
    requires
        0 <= axis < n,
    ensures
        squared_delta(p[axis], q[axis]) <= partial_squared_distance(p, q, n),
    decreases n,
{
    if axis < n - 1 {
        lemma_axis_below_distance(p, q, n - 1, axis);
    }
}

/// Computes the squared Euclidean distance of two points.
pub fn squared_euclidean<const N: usize>(p: &[u16; N], q: &[u16; N]) -> (d: u64)
    requires
        N <= MAX_DIMENSION,
    ensures
        d == squared_distance(p@, q@),
{
    let mut total: u64 = 0;
    let mut i: usize = 0;
    while i < N
        invariant
            i <= N,
            N <= MAX_DIMENSION,
            p@.len() == N,
            q@.len() == N,
            total == partial_squared_distance(p@, q@, i as int),
        decreases N - i,
    {
        proof {
            lemma_partial_bound(p@, q@, i as int);
            assert(i * MAX_SQUARED_DELTA <= MAX_DIMENSION * MAX_SQUARED_DELTA) by (nonlinear_arith)
                requires
                    i <= MAX_DIMENSION,
            ;
        }
        let a = p[i];
        let b = q[i];
        let delta: u64 = if a >= b {
            (a - b) as u64
        } else {
            (b - a) as u64
        };
        assert(delta * delta == squared_delta(a, b)) by (nonlinear_arith)
            requires
                delta == a - b || delta == b - a,
        ;
        assert(delta * delta <= MAX_SQUARED_DELTA) by (nonlinear_arith)
            requires
                0 <= delta <= 65535,
        ;
        total = total + delta * delta;
        i = i + 1;
    }
    total
}

/// Computes the integer square root of `x`.
pub fn integer_sqrt(x: u64) -> (r: u64)
    ensures
        r == floor_sqrt(x as nat),
{
    let mut lo: u64 = 0;
    let mut hi: u64 = 0x1_0000_0000;
    assert(x < hi * hi) by (nonlinear_arith)
        requires
            hi == 0x1_0000_0000,
            x <= u64::MAX,
    ;
    while lo + 1 < hi
        invariant
            lo < hi <= 0x1_0000_0000,
            lo * lo <= x,
            x < hi * hi,
        decreases hi - lo,
    {
        let mid = lo + (hi - lo) / 2;
        assert((mid as u128) * (mid as u128) <= 0x1_0000_0000_0000_0000) by (nonlinear_arith)
            requires
                mid <= 0x1_0000_0000,
        ;
        let sq: u128 = (mid as u128) * (mid as u128);
        if sq <= x as u128 {
            lo = mid;
        } else {
            hi = mid;
        }
    }
    proof {
        lemma_floor_sqrt_unique(x as nat, lo as nat);
    }
    lo
}

/// The distance functions that the neighbor searches and clusterings use.
#[derive(Debug, Clone, Copy, PartialEq, Eq, Structural)]
pub enum DistanceMetric {
    /// The integer part of the Euclidean distance.
    Euclidean,
    /// The squared Euclidean distance.
    SquaredEuclidean,
}

impl DistanceMetric {
    /// The distance of two points under this metric.
    pub open spec fn spec_measure(self, p: Seq<u16>, q: Seq<u16>) -> nat {
        match self {
            DistanceMetric::Euclidean => floor_sqrt(squared_distance(p, q)),
            DistanceMetric::SquaredEuclidean => squared_distance(p, q),
        }
    }

    /// The least distance that a point can have from another whose
    /// coordinate on one axis differs from its own by `delta`.
    pub open spec fn axis_bound(self, delta: int) -> nat {
        match self {
            DistanceMetric::Euclidean => if delta >= 0 {
                delta as nat
            } else {
                (-delta) as nat
            },
            DistanceMetric::SquaredEuclidean => (delta * delta) as nat,
        }
    }

    /// Measures the distance between two points.
    pub fn measure<const N: usize>(&self, p: &[u16; N], q: &[u16; N]) -> (d: u64)
        requires
            N <= MAX_DIMENSION,
        ensures
            d == self.spec_measure(p@, q@),
    {
        let d2 = squared_euclidean(p, q);
        match self {
            DistanceMetric::Euclidean => integer_sqrt(d2),
            DistanceMetric::SquaredEuclidean => d2,
        }
    }

    /// Computes `axis_bound(a - b)`.
    pub fn measure_axis(&self, a: u16, b: u16) -> (d: u64)
        ensures
            d == self.axis_bound(a - b),
    {
        let delta: u64 = if a >= b {
            (a - b) as u64
        } else {
            (b - a) as u64
        };
        match self {
            DistanceMetric::Euclidean => delta,
            DistanceMetric::SquaredEuclidean => {
                assert(delta * delta == (a - b) * (a - b)) by (nonlinear_arith)
                    requires
                        delta == a - b || delta == b - a,
                ;
                assert(delta * delta <= MAX_SQUARED_DELTA) by (nonlinear_arith)
                    requires
                        0 <= delta <= 65535,
                ;
                delta * delta
            },
        }
    }

    /// The axis bound grows with the size of the difference.
    pub proof fn lemma_axis_bound_monotone(self, a: int, b: int)
        requires
            0 <= a <= b || b <= a <= 0,
        ensures
            self.axis_bound(a) <= self.axis_bound(b),
    {
        let aa: int = if a >= 0 { a } else { -a };
        let ab: int = if b >= 0 { b } else { -b };
        assert(aa <= ab);
        assert(aa * aa <= ab * ab) by (nonlinear_arith)
            requires
                0 <= aa <= ab,
        ;
        assert(aa * aa == a * a) by (nonlinear_arith)
            requires
                aa == a || aa == -a,
        ;
        assert(ab * ab == b * b) by (nonlinear_arith)
            requires
                ab == b || ab == -b,
        ;
    }

    /// The axis bound never exceeds the distance.
    pub proof fn lemma_axis_bound(self, p: Seq<u16>, q: Seq<u16>, axis: int)
        requires
            0 <= axis < p.len(),
        ensures
            self.axis_bound(q[axis] - p[axis]) <= self.spec_measure(p, q),
    {
        lemma_axis_below_distance(p, q, p.len() as int, axis);
        let d2 = squared_distance(p, q);
        let delta: int = q[axis] - p[axis];
        assert(delta * delta == squared_delta(p[axis], q[axis])) by (nonlinear_arith)
            requires
                delta == q[axis] - p[axis],
        ;
        match self {
            DistanceMetric::Euclidean => {
                lemma_floor_sqrt(d2);
                let s = floor_sqrt(d2);
                let ad: int = if delta >= 0 { delta } else { -delta };
                assert(ad * ad == delta * delta) by (nonlinear_arith)
                    requires
                        ad == delta || ad == -delta,
                ;
                if ad > s {
                    assert((s + 1) * (s + 1) <= ad * ad) by (nonlinear_arith)
                        requires
                            s + 1 <= ad,
                    ;
                }
            },
            DistanceMetric::SquaredEuclidean => {},
        }
    }
}


proof fn lemma_partial_zero_equal(p: Seq<u16>, q: Seq<u16>, n: int)
    requires
        0 <= n <= p.len(),
        n <= q.len(),
        partial_squared_distance(p, q, n) == 0,
    ensures
        forall|i: int| 0 <= i < n ==> p[i] == q[i],
    decreases n,
{
    if n > 0 {
        lemma_partial_zero_equal(p, q, n - 1);
        let a = p[n - 1];
        let b = q[n - 1];
        assert(squared_delta(a, b) == 0);
        if a != b {
            assert((a - b) * (a - b) > 0) by (nonlinear_arith)
                requires
                    a != b,
            ;
        }
    }
}

/// Two points at distance zero are the same point.
pub proof fn lemma_measure_zero<const N: usize>(m: DistanceMetric, p: [u16; N], q: [u16; N])
    requires
        m.spec_measure(p@, q@) == 0,
    ensures
        p == q,
{
    let d2 = squared_distance(p@, q@);
    if m == DistanceMetric::Euclidean {
        lemma_floor_sqrt(d2);
        if d2 > 0 {
            assert(floor_sqrt(d2) >= 1) by {
                assert((0 + 1) * (0 + 1) == 1) by (nonlinear_arith);
            }
        }
    }
    assert(d2 == 0);
    lemma_partial_zero_equal(p@, q@, N as int);
    assert(p =~= q);
}

} // verus!
