//! A cluster of an inverted-file index: a centroid vector and the ids of the
//! stored vectors assigned to it.
use crate::metric::{dist2, MAX_SQ_DIFF};
use crate::VectorAccessor;
use vstd::prelude::*;

verus! {

/// `x` capped at the largest value a `u128` can carry; saturating sums of
/// non-negative terms are exactly the capped mathematical sum.
pub open spec fn cap_u128(x: int) -> int {
    if x <= u128::MAX {
        x
    } else {
        u128::MAX as int
    }
}

/// Sum of coordinate `j` over the members `elems`, drawn from `vecs`.
pub open spec fn coord_sum(vecs: Seq<Seq<u32>>, elems: Seq<usize>, j: int) -> int
    decreases elems.len(),
{
    if elems.len() == 0 {
        0
    } else {
        coord_sum(vecs, elems.drop_last(), j) + vecs[elems.last() as int][j]
    }
}

/// The coordinate-wise floor mean of the members `elems`, drawn from `vecs`.
pub open spec fn centroid_of(vecs: Seq<Seq<u32>>, elems: Seq<usize>, dim: nat) -> Seq<u32> {
    Seq::new(dim, |j: int| (coord_sum(vecs, elems, j) / elems.len() as int) as u32)
}

/// Total squared distance from each member of `elems` to `c`: the
/// within-cluster sum of squares contributed by one cluster.
pub open spec fn members_dist2(vecs: Seq<Seq<u32>>, elems: Seq<usize>, c: Seq<u32>) -> int
    decreases elems.len(),
{
    if elems.len() == 0 {
        0
    } else {
        members_dist2(vecs, elems.drop_last(), c) + dist2(vecs[elems.last() as int], c)
    }
}

/// Every id in `elems` addresses one of `n` stored vectors.
pub open spec fn elems_in_range(elems: Seq<usize>, n: nat) -> bool {
    forall|k: int| 0 <= k < elems.len() ==> (#[trigger] elems[k]) < n
}

/// `coord_sum` is non-negative and at most `u32::MAX` per member.
pub proof fn lemma_coord_sum_bounds(vecs: Seq<Seq<u32>>, elems: Seq<usize>, j: int)
    ensures
        0 <= coord_sum(vecs, elems, j) <= elems.len() * u32::MAX,
    decreases elems.len(),
{
    if elems.len() == 0 {
    } else {
        lemma_coord_sum_bounds(vecs, elems.drop_last(), j);
        assert((elems.len() - 1) * u32::MAX + u32::MAX == elems.len() * u32::MAX)
            by (nonlinear_arith);
    }
}

/// `members_dist2` is non-negative and grows by a non-negative term per member.
pub proof fn lemma_members_dist2_nonneg(vecs: Seq<Seq<u32>>, elems: Seq<usize>, c: Seq<u32>)
    ensures
        0 <= members_dist2(vecs, elems, c),
    decreases elems.len(),
{
    if elems.len() == 0 {
    } else {
        lemma_members_dist2_nonneg(vecs, elems.drop_last(), c);
        crate::metric::lemma_dist2_bounds(vecs[elems.last() as int], c);
    }
}

/// One cluster: the centroid and the member ids assigned to it.
///
/// Between training passes the centroid is the floor mean of the members a
/// `calc_centroid` call saw; ids appended afterwards (the vectors outside the
/// training subset) do not move it.
#[derive(Debug)]
pub struct Cluster {
    /// The centroid's fixed-point coordinates.
    pub centroid: Vec<u32>,
    /// The ids of the member vectors, in insertion order.
    pub elements: Vec<usize>,
}

impl Cluster {
    /// An empty cluster with an all-zero centroid of dimension `dim`.
    pub fn new(dim: usize) -> (c: Cluster)
        ensures
            c.centroid@.len() == dim,
            forall|j: int| 0 <= j < dim ==> c.centroid@[j] == 0u32,
            c.elements@ == Seq::<usize>::empty(),
    {
        let mut centroid: Vec<u32> = Vec::new();
        let mut i: usize = 0;
        while i < dim
            invariant
                i <= dim,
                centroid@.len() == i,
                forall|j: int| 0 <= j < i ==> centroid@[j] == 0u32,
            decreases dim - i,
        {
            centroid.push(0);
            i = i + 1;
        }
        Cluster { centroid, elements: Vec::new() }
    }

    /// An empty cluster whose centroid is the given vector.
    pub fn with_centroid(centroid: Vec<u32>) -> (c: Cluster)
        ensures
            c.centroid == centroid,
            c.elements@ == Seq::<usize>::empty(),
    {
        Cluster { centroid, elements: Vec::new() }
    }

    /// How many members the cluster has.
    pub fn len(&self) -> (n: usize)
        ensures
            n == self.elements@.len(),
    {
        self.elements.len()
    }

    /// Appends a member id.
    pub fn add(&mut self, id: usize)
        ensures
            final(self).elements@ == old(self).elements@.push(id),
            final(self).centroid == old(self).centroid,
    {
        self.elements.push(id);
    }

    /// Moves the last half (rounded down) of the members, in insertion
    /// order, into a new sibling cluster with a zero centroid of the same
    /// dimension. The caller is expected to recompute both centroids.
    pub fn split(&mut self) -> (sibling: Cluster)
        ensures
            final(self).centroid == old(self).centroid,
            final(self).elements@ == old(self).elements@.subrange(
                0,
                old(self).elements@.len() - old(self).elements@.len() as int / 2,
            ),
            sibling.elements@ == old(self).elements@.subrange(
                old(self).elements@.len() - old(self).elements@.len() as int / 2,
                old(self).elements@.len() as int,
            ),
            sibling.centroid@.len() == old(self).centroid@.len(),
            forall|j: int|
                0 <= j < sibling.centroid@.len() ==> sibling.centroid@[j] == 0u32,
    {
        let len: usize = self.elements.len();
        let split_num: usize = len / 2;
        let mut sibling = Cluster::new(self.centroid.len());
        sibling.elements = self.elements.split_off(len - split_num);
        sibling
    }

    /// Recomputes the centroid as the floor mean of the current members and
    /// returns this cluster's within-cluster sum of squares, capped at
    /// `u128::MAX`. A cluster with no members has no mean, so emptiness is a
    /// programming error excluded outright.
    pub fn calc_centroid<A: VectorAccessor>(&mut self, accessor: &A) -> (wcss: u128)
        requires
            old(self).elements@.len() > 0,
            elems_in_range(old(self).elements@, accessor.vecs().len()),
        ensures
            final(self).elements@ == old(self).elements@,
            final(self).centroid@ == centroid_of(
                accessor.vecs(),
                old(self).elements@,
                accessor.spec_dim(),
            ),
            wcss == cap_u128(
                members_dist2(accessor.vecs(), old(self).elements@, final(self).centroid@),
            ),
    {
        let ghost vecs = accessor.vecs();
        let ghost elems = self.elements@;
        let dim: usize = accessor.dim();
        let count: usize = self.elements.len();
        proof {
            accessor.lemma_dims();
        }

        let mut centroid: Vec<u32> = Vec::new();
        let mut j: usize = 0;
        while j < dim
            invariant
                j <= dim,
                centroid@.len() == j,
                count == elems.len(),
                count > 0,
                elems == self.elements@,
                vecs == accessor.vecs(),
                elems_in_range(elems, vecs.len()),
                dim == accessor.spec_dim(),
                forall|e: int|
                    0 <= e < vecs.len() ==> (#[trigger] vecs[e]).len() == accessor.spec_dim(),
                forall|q: int|
                    0 <= q < j ==> centroid@[q] == (coord_sum(vecs, elems, q) / count as int) as u32,
            decreases dim - j,
        {
            let mut sum: u128 = 0;
            let mut i: usize = 0;
            proof {
                assert(elems.take(0) =~= Seq::<usize>::empty());
            }
            while i < count
                invariant
                    i <= count,
                    count == elems.len(),
                    elems == self.elements@,
                    vecs == accessor.vecs(),
                    elems_in_range(elems, vecs.len()),
                    j < dim,
                    dim == accessor.spec_dim(),
                    forall|e: int|
                        0 <= e < vecs.len() ==> (#[trigger] vecs[e]).len() == accessor.spec_dim(),
                    sum == coord_sum(vecs, elems.take(i as int), j as int),
                    sum <= i * u32::MAX,
                decreases count - i,
            {
                let id: usize = self.elements[i];
                let row = accessor.get(id);
                let x: u32 = row[j];
                proof {
                    assert(elems.take(i + 1).drop_last() =~= elems.take(i as int));
                    assert(i * u32::MAX + u32::MAX == (i + 1) * u32::MAX) by (nonlinear_arith);
                    assert((i + 1) * u32::MAX <= u128::MAX) by (nonlinear_arith)
                        requires
                            0 <= i + 1 <= usize::MAX,
                    ;
                }
                sum = sum + (x as u128);
                i = i + 1;
            }
            proof {
                assert(elems.take(count as int) =~= elems);
                lemma_coord_sum_bounds(vecs, elems, j as int);
                vstd::arithmetic::div_mod::lemma_div_multiples_vanish(
                    u32::MAX as int,
                    count as int,
                );
                vstd::arithmetic::div_mod::lemma_div_is_ordered(
                    sum as int,
                    count as int * u32::MAX,
                    count as int,
                );
            }
            let mean: u128 = sum / (count as u128);
            centroid.push(mean as u32);
            j = j + 1;
        }
        proof {
            assert(centroid@ =~= centroid_of(vecs, elems, accessor.spec_dim()));
        }
        self.centroid = centroid;

        let mut wcss: u128 = 0;
        let mut i: usize = 0;
        proof {
            assert(elems.take(0) =~= Seq::<usize>::empty());
        }
        while i < count
            invariant
                i <= count,
                count == elems.len(),
                elems == self.elements@,
                vecs == accessor.vecs(),
                elems_in_range(elems, vecs.len()),
                self.centroid@.len() == dim,
                dim == accessor.spec_dim(),
                forall|e: int|
                    0 <= e < vecs.len() ==> (#[trigger] vecs[e]).len() == accessor.spec_dim(),
                wcss == cap_u128(members_dist2(vecs, elems.take(i as int), self.centroid@)),
            decreases count - i,
        {
            let id: usize = self.elements[i];
            let row = accessor.get(id);
            let d: u128 = crate::metric::l2_distance(row, self.centroid.as_slice());
            proof {
                assert(elems.take(i + 1).drop_last() =~= elems.take(i as int));
                crate::metric::lemma_dist2_bounds(vecs[id as int], self.centroid@);
                lemma_members_dist2_nonneg(vecs, elems.take(i as int), self.centroid@);
            }
            wcss = if wcss > u128::MAX - d {
                u128::MAX
            } else {
                wcss + d
            };
            i = i + 1;
        }
        proof {
            assert(elems.take(count as int) =~= elems);
        }
        wcss
    }
}

} // verus!
