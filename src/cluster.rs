use vstd::prelude::*;

verus! {

/// The largest number of points a cluster may hold; it keeps every
/// coordinate sum inside `u64`.
pub const MAX_MEMBERS: usize = 0xFFFF_FFFF;

/// The sum of coordinate `d` over a sequence of points.
pub open spec fn coord_total<const N: usize>(s: Seq<[u16; N]>, d: int) -> nat
    decreases s.len(),
{
    if s.len() == 0 {
        0
    } else {
        coord_total(s.drop_last(), d) + (s.last()[d] as nat)
    }
}

proof fn lemma_coord_total_bound<const N: usize>(s: Seq<[u16; N]>, d: int)
    ensures
        coord_total(s, d) <= s.len() * 65535,
    decreases s.len(),
{
    if s.len() > 0 {
        lemma_coord_total_bound(s.drop_last(), d);
    }
}

/// The mean of a non-empty sequence of points, rounded down on each axis.
pub open spec fn is_floor_mean<const N: usize>(c: [u16; N], s: Seq<[u16; N]>) -> bool {
    forall|d: int| 0 <= d < N ==> c[d] as nat == coord_total(s, d) / s.len()
}

/// `c` is the centroid of a cluster with these points and this seed: the
/// seed while there are no points, else their floor mean.
pub open spec fn is_centroid<const N: usize>(c: [u16; N], seed: [u16; N], s: Seq<[u16; N]>) -> bool {
    if s.len() == 0 {
        c == seed
    } else {
        is_floor_mean(c, s)
    }
}

/// The centroid of a cluster with these points and this seed.
pub open spec fn centroid_of<const N: usize>(seed: [u16; N], s: Seq<[u16; N]>) -> [u16; N] {
    choose|c: [u16; N]| is_centroid(c, seed, s)
}

/// Any array that is the centroid is `centroid_of`.
pub proof fn lemma_centroid_unique<const N: usize>(c: [u16; N], seed: [u16; N], s: Seq<[u16; N]>)
    requires
        is_centroid(c, seed, s),
    ensures
        c == centroid_of(seed, s),
{
    let d = centroid_of(seed, s);
    assert(is_centroid(d, seed, s));
    if s.len() > 0 {
        assert(c =~= d) by {
            assert forall|i: int| 0 <= i < N implies c[i] == d[i] by {
                assert(c[i] as nat == coord_total(s, i) / s.len());
                assert(d[i] as nat == coord_total(s, i) / s.len());
            }
        }
    }
}

/// A sequence of points has one floor mean.
pub proof fn lemma_floor_mean_unique<const N: usize>(c: [u16; N], d: [u16; N], s: Seq<[u16; N]>)
    requires
        is_floor_mean(c, s),
        is_floor_mean(d, s),
    ensures
        c == d,
{
    assert(c =~= d) by {
        assert forall|i: int| 0 <= i < N implies c[i] == d[i] by {
            assert(c[i] as nat == coord_total(s, i) / s.len());
            assert(d[i] as nat == coord_total(s, i) / s.len());
        }
    }
}

/// A group of point indices together with the sum of their points, from
/// which the centroid follows.
pub struct Cluster<const N: usize> {
    seed: [u16; N],
    sum: Vec<u64>,
    membership: Vec<usize>,
    inserted: Ghost<Seq<[u16; N]>>,
}

impl<const N: usize> Cluster<N> {
    /// The indices inserted so far, in order of insertion.
    pub closed spec fn members(&self) -> Seq<usize> {
        self.membership@
    }

    /// The points inserted so far, in order of insertion.
    pub closed spec fn points(&self) -> Seq<[u16; N]> {
        self.inserted@
    }

    /// The centroid that an empty cluster reports.
    pub closed spec fn seed(&self) -> [u16; N] {
        self.seed
    }

    /// The sums match the inserted points.
    pub closed spec fn wf(&self) -> bool {
        &&& self.sum@.len() == N
        &&& self.membership@.len() == self.inserted@.len()
        &&& self.inserted@.len() <= MAX_MEMBERS
        &&& forall|d: int| 0 <= d < N ==> self.sum@[d] == coord_total(self.inserted@, d)
    }

    /// A well-formed cluster holds one point per member and no more than
    /// the largest number of members.
    pub proof fn lemma_wf_size(&self)
        requires
            self.wf(),
        ensures
            self.members().len() == self.points().len(),
            self.members().len() <= MAX_MEMBERS,
    {
    }

    /// Creates an empty cluster whose centroid is `initial_centroid` until a
    /// point is inserted.
    pub fn new(initial_centroid: [u16; N]) -> (c: Self)
        ensures
            c.wf(),
            c.members().len() == 0,
            c.points().len() == 0,
            c.seed() == initial_centroid,
    {
        let mut sum: Vec<u64> = Vec::new();
        let mut d: usize = 0;
        while d < N
            invariant
                d <= N,
                sum@.len() == d,
                forall|k: int| 0 <= k < d ==> sum@[k] == 0,
            decreases N - d,
        {
            sum.push(0);
            d = d + 1;
        }
        Cluster { seed: initial_centroid, sum, membership: Vec::new(), inserted: Ghost(Seq::empty()) }
    }

    /// A cluster that holds nothing and allocates nothing, to stand in a
    /// slot while the real one is taken out.
    pub(crate) fn vacant(seed: [u16; N]) -> (c: Self)
        ensures
            c.members().len() == 0,
    {
        Cluster { seed, sum: Vec::new(), membership: Vec::new(), inserted: Ghost(Seq::empty()) }
    }

    /// The centroid: the mean of the inserted points, rounded down, or the
    /// initial centroid while the cluster is empty.
    pub fn centroid(&self) -> (c: [u16; N])
        requires
            self.wf(),
        ensures
            self.members().len() == 0 ==> c == self.seed(),
            self.members().len() > 0 ==> is_floor_mean(c, self.points()),
            c == centroid_of(self.seed(), self.points()),
    {
        let n = self.membership.len();
        if n == 0 {
            proof {
                lemma_centroid_unique(self.seed, self.seed, self.inserted@);
            }
            return self.seed;
        }
        let mut c = self.seed;
        let mut d: usize = 0;
        while d < N
            invariant
                d <= N,
                n == self.inserted@.len(),
                n > 0,
                self.wf(),
                forall|k: int| 0 <= k < d ==> c[k] as nat == coord_total(self.inserted@, k) / (n as nat),
            decreases N - d,
        {
            proof {
                lemma_coord_total_bound(self.inserted@, d as int);
                assert(coord_total(self.inserted@, d as int) / (n as nat) <= 65535) by (nonlinear_arith)
                    requires
                        coord_total(self.inserted@, d as int) <= n * 65535,
                        n > 0,
                ;
            }
            let v = (self.sum[d] / (n as u64)) as u16;
            c[d] = v;
            d = d + 1;
        }
        proof {
            lemma_centroid_unique(c, self.seed, self.inserted@);
        }
        c
    }

    /// Whether no point has been inserted.
    pub fn is_empty(&self) -> (b: bool)
        requires
            self.wf(),
        ensures
            b == (self.members().len() == 0),
    {
        self.membership.len() == 0
    }

    /// The number of inserted points.
    pub fn size(&self) -> (n: usize)
        requires
            self.wf(),
        ensures
            n == self.members().len(),
    {
        self.membership.len()
    }

    /// The indices inserted so far.
    pub fn membership(&self) -> (m: &Vec<usize>)
        ensures
            m@ == self.members(),
    {
        &self.membership
    }

    /// Inserts the point `point`, whose index is `index`.
    pub fn insert(&mut self, index: usize, point: &[u16; N])
        requires
            old(self).wf(),
            old(self).members().len() < MAX_MEMBERS,
        ensures
            final(self).wf(),
            final(self).members() == old(self).members().push(index),
            final(self).points() == old(self).points().push(*point),
            final(self).seed() == old(self).seed(),
    {
        let ghost old_points = self.inserted@;
        let ghost new_points = old_points.push(*point);
        proof {
            assert(new_points.drop_last() =~= old_points);
        }
        let mut d: usize = 0;
        while d < N
            invariant
                d <= N,
                self.sum@.len() == N,
                self.inserted@ == old_points,
                self.membership@ == old(self).members(),
                self.seed == old(self).seed(),
                old_points.len() == old(self).members().len(),
                old_points.len() < MAX_MEMBERS,
                new_points == old_points.push(*point),
                new_points.drop_last() == old_points,
                forall|k: int| 0 <= k < d ==> self.sum@[k] == coord_total(new_points, k),
                forall|k: int| d <= k < N ==> self.sum@[k] == coord_total(old_points, k),
            decreases N - d,
        {
            proof {
                lemma_coord_total_bound(old_points, d as int);
                assert(old_points.len() * 65535 + 65535 <= MAX_MEMBERS * 65535) by (nonlinear_arith)
                    requires
                        old_points.len() < MAX_MEMBERS,
                ;
            }
            let v = self.sum[d] + point[d] as u64;
            self.sum.set(d, v);
            d = d + 1;
        }
        self.membership.push(index);
        self.inserted = Ghost(new_points);
    }

    /// Removes every point and resets the centroid to the origin.
    pub fn clear(&mut self)
        ensures
            final(self).wf(),
            final(self).members().len() == 0,
            final(self).points().len() == 0,
            forall|d: int| 0 <= d < N ==> final(self).seed()[d] == 0,
    {
        let mut d: usize = 0;
        while d < self.sum.len()
            invariant
                d <= self.sum@.len(),
                forall|k: int| 0 <= k < d ==> self.sum@[k] == 0,
            decreases self.sum@.len() - d,
        {
            self.sum.set(d, 0);
            d = d + 1;
        }
        let mut d: usize = 0;
        while d < N
            invariant
                d <= N,
                forall|k: int| 0 <= k < d ==> self.seed[k] == 0,
            decreases N - d,
        {
            self.seed[d] = 0;
            d = d + 1;
        }
        let mut sum: Vec<u64> = Vec::new();
        let mut d: usize = 0;
        while d < N
            invariant
                d <= N,
                sum@.len() == d,
                forall|k: int| 0 <= k < d ==> sum@[k] == 0,
            decreases N - d,
        {
            sum.push(0);
            d = d + 1;
        }
        self.sum = sum;
        self.membership = Vec::new();
        self.inserted = Ghost(Seq::empty());
    }
}

} // verus!
