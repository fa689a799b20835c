//! Distance metrics over fixed-point vectors.
//!
//! Coordinates are `u32` fixed-point values, so the squared Euclidean
//! distance of two vectors of dimension `D` is an exact integer below
//! `D * (u32::MAX)^2`, which always fits in a `u128`.
use vstd::prelude::*;

verus! {

/// Largest possible squared difference of two `u32` coordinates.
pub const MAX_SQ_DIFF: u128 = 0xffff_fffe_0000_0001;

/// Squared difference of two coordinates, as a mathematical integer.
pub open spec fn sq_diff(a: int, b: int) -> int {
    (a - b) * (a - b)
}

/// Squared Euclidean distance between two equal-length coordinate
/// sequences: the sum over all positions of the squared difference.
pub open spec fn dist2(a: Seq<u32>, b: Seq<u32>) -> int
    decreases a.len(),
{
    if a.len() == 0 {
        0
    } else {
        dist2(a.drop_last(), b.drop_last()) + sq_diff(a.last() as int, b.last() as int)
    }
}

/// One term of `dist2` is non-negative and at most `MAX_SQ_DIFF`.
proof fn lemma_sq_diff_bounds(a: int, b: int)
    requires
        0 <= a <= u32::MAX,
        0 <= b <= u32::MAX,
    ensures
        0 <= sq_diff(a, b) <= MAX_SQ_DIFF,
{
    assert(0 <= (a - b) * (a - b) <= 0xffff_fffe_0000_0001) by (nonlinear_arith)
        requires
            0 <= a <= 0xffff_ffff,
            0 <= b <= 0xffff_ffff,
    ;
}

/// `dist2` is non-negative and grows at most `MAX_SQ_DIFF` per coordinate.
pub proof fn lemma_dist2_bounds(a: Seq<u32>, b: Seq<u32>)
    ensures
        0 <= dist2(a, b) <= a.len() * MAX_SQ_DIFF,
    decreases a.len(),
{
    if a.len() == 0 {
    } else {
        lemma_dist2_bounds(a.drop_last(), b.drop_last());
        lemma_sq_diff_bounds(a.last() as int, b.last() as int);
        assert((a.len() - 1) * MAX_SQ_DIFF + MAX_SQ_DIFF == a.len() * MAX_SQ_DIFF) by (nonlinear_arith);
    }
}

/// A vector is at squared distance zero from itself.
pub proof fn lemma_dist2_self_zero(a: Seq<u32>)
    ensures
        dist2(a, a) == 0,
    decreases a.len(),
{
    if a.len() == 0 {
    } else {
        lemma_dist2_self_zero(a.drop_last());
    }
}

/// Computes the exact squared Euclidean distance of two equal-length
/// fixed-point vectors.
pub fn l2_distance(a: &[u32], b: &[u32]) -> (d: u128)
    requires
        a@.len() == b@.len(),
    ensures
        d == dist2(a@, b@),
{
    let n: usize = a.len();
    let mut sum: u128 = 0;
    let mut i: usize = 0;
    proof {
        assert(a@.take(0) =~= Seq::<u32>::empty());
        assert(b@.take(0) =~= Seq::<u32>::empty());
    }
    while i < n
        invariant
            i <= n,
            n == a@.len() == b@.len(),
            sum == dist2(a@.take(i as int), b@.take(i as int)),
            sum <= i * MAX_SQ_DIFF,
        decreases n - i,
    {
        let ai = a[i];
        let bi = b[i];
        let diff: u64 = if ai >= bi {
            (ai - bi) as u64
        } else {
            (bi - ai) as u64
        };
        proof {
            assert((diff as u128) * (diff as u128) <= MAX_SQ_DIFF) by (nonlinear_arith)
                requires
                    diff <= 0xffff_ffffu64,
            ;
        }
        let term: u128 = (diff as u128) * (diff as u128);
        proof {
            assert(term == sq_diff(ai as int, bi as int)) by (nonlinear_arith)
                requires
                    (ai >= bi ==> diff == ai - bi) && (ai < bi ==> diff == bi - ai),
                    term == (diff as u128) * (diff as u128),
            ;
            lemma_sq_diff_bounds(ai as int, bi as int);
            assert(i * MAX_SQ_DIFF + MAX_SQ_DIFF == (i + 1) * MAX_SQ_DIFF) by (nonlinear_arith);
            assert((i + 1) * MAX_SQ_DIFF <= u128::MAX) by (nonlinear_arith)
                requires
                    0 <= i + 1 <= usize::MAX,
            ;
            assert(a@.take(i + 1).drop_last() =~= a@.take(i as int));
            assert(b@.take(i + 1).drop_last() =~= b@.take(i as int));
        }
        sum = sum + term;
        i = i + 1;
    }
    proof {
        assert(a@.take(n as int) =~= a@);
        assert(b@.take(n as int) =~= b@);
    }
    sum
}

/// The distance metric a trained index uses; `Untrained` is the sentinel of
/// an index that has not been trained yet.
#[derive(Clone, Copy, PartialEq, Eq, Structural, Debug)]
pub enum MetricType {
    Untrained,
    L2,
}

impl MetricType {
    /// Distance between two equal-length vectors under this metric.
    /// Asking an untrained index (`MetricType::Untrained`) for a distance is a
    /// programming error, so that case is excluded outright.
    pub fn distance(&self, a: &[u32], b: &[u32]) -> (d: u128)
        requires
            *self is L2,
            a@.len() == b@.len(),
        ensures
            d == dist2(a@, b@),
    {
        match self {
            MetricType::Untrained => vstd::pervasive::unreached(),
            MetricType::L2 => l2_distance(a, b),
        }
    }

    /// The wire code of this metric in the serialized format.
    pub fn code(&self) -> (c: u8)
        ensures
            c == self.spec_code(),
    {
        match self {
            MetricType::Untrained => 0,
            MetricType::L2 => 1,
        }
    }

    /// Wire code of a metric: 0 for the untrained sentinel, 1 for L2.
    pub open spec fn spec_code(self) -> u8 {
        match self {
            MetricType::Untrained => 0,
            MetricType::L2 => 1,
        }
    }

    /// The metric a wire code denotes; unknown codes fall back to the
    /// untrained sentinel.
    pub open spec fn from_spec(value: u8) -> MetricType {
        if value == 1 {
            MetricType::L2
        } else {
            MetricType::Untrained
        }
    }
}

impl From<u8> for MetricType {
    /// Decodes a wire code; unknown codes yield the untrained sentinel.
    fn from(value: u8) -> (m: MetricType)
        ensures
            m == MetricType::from_spec(value),
    {
        match value {
            1 => MetricType::L2,
            _ => MetricType::Untrained,
        }
    }
}

impl vstd::std_specs::convert::FromSpecImpl<u8> for MetricType {
    open spec fn obeys_from_spec() -> bool {
        true
    }

    open spec fn from_spec(value: u8) -> MetricType {
        MetricType::from_spec(value)
    }
}

} // verus!
