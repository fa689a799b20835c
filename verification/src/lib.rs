//! An approximate nearest-neighbor vector search library built around the
//! inverted-file (IVF) indexing technique: a dataset of fixed-dimension
//! vectors is partitioned into clusters by iterative centroid refinement,
//! and a query probes only the most promising clusters.
//!
//! Vector coordinates are fixed-point values carried as `u32`, so distances
//! and centroids are exact integers and every algorithm here is verified
//! end to end. Callers working in floating point quantize at the boundary.
use vstd::prelude::*;

verus! {

/// What went wrong in an index operation.
#[derive(Debug, Clone, Copy, PartialEq, Eq, Structural)]
pub enum AnnError {
    /// The index has not been trained, so it has no metric to search under.
    Untrained,
    /// A query vector's length differs from the index dimension.
    DimensionMismatch,
    /// A serialized index ended before its own layout said it would.
    DecodeTruncated,
    /// A serialized index contradicts the store it is loaded against:
    /// a foreign dimension, or member ids that are out of range or repeated.
    DecodeInvalid,
}

/// Options for one training run.
#[derive(Debug, Clone, Copy)]
pub struct TrainOption {
    /// Upper bound on refinement iterations; a built-in default when absent.
    pub iteration_num: Option<usize>,
    /// Desired number of clusters.
    pub nlist: usize,
    /// Distance metric the trained index will use.
    pub metric_type: crate::metric::MetricType,
}

/// Options for one search call.
#[derive(Debug, Clone, Copy)]
pub struct SearchOption {
    /// Number of nearest clusters to examine.
    pub nprobe: usize,
    /// Number of results wanted.
    pub topk: usize,
}

/// Read-only, random-access view over stored vectors of a fixed dimension.
///
/// An index holds its accessor for its whole lifetime and never mutates the
/// storage behind it; the storage must not change while the index is alive.
pub trait VectorAccessor: Sized {
    /// The stored vectors, each as its sequence of fixed-point coordinates.
    spec fn vecs(&self) -> Seq<Seq<u32>>;

    /// The common dimension of the stored vectors.
    spec fn spec_dim(&self) -> nat;

    /// Every stored vector has the common dimension.
    proof fn lemma_dims(&self)
        ensures
            forall|i: int|
                0 <= i < self.vecs().len() ==> (#[trigger] self.vecs()[i]).len()
                    == self.spec_dim(),
    ;

    /// The common dimension of the stored vectors.
    fn dim(&self) -> (d: usize)
        ensures
            d == self.spec_dim(),
    ;

    /// How many vectors are stored.
    fn len(&self) -> (n: usize)
        ensures
            n == self.vecs().len(),
    ;

    /// The vector stored at `index`.
    fn get(&self, index: usize) -> (v: &[u32])
        requires
            index < self.vecs().len(),
        ensures
            v@ == self.vecs()[index as int],
    ;
}

} // verus!

pub mod accessor;
pub mod deletion;
pub mod index;
pub mod metric;
