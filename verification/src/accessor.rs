//! In-memory vector storage.
//!
//! The vectors live in one flat, immutable coordinate buffer, row after row;
//! vector `i` occupies positions `i * dim .. (i + 1) * dim`.
use crate::VectorAccessor;
use vstd::prelude::*;

verus! {

/// A [`VectorAccessor`] over one flat in-memory coordinate buffer.
#[derive(Debug)]
pub struct MemoryVectorAccessor {
    dim: usize,
    vectors: Vec<u32>,
}

impl MemoryVectorAccessor {
    /// The dimension is positive, so row arithmetic is well defined.
    #[verifier::type_invariant]
    spec fn type_wf(self) -> bool {
        self.dim >= 1
    }

    /// Wraps a flat coordinate buffer holding vectors of dimension `dim`,
    /// row after row. A trailing fragment shorter than `dim` is not a
    /// stored vector and is ignored.
    pub fn new(dim: usize, vectors: Vec<u32>) -> (a: MemoryVectorAccessor)
        requires
            dim >= 1,
        ensures
            a.spec_dim() == dim,
            a.vecs().len() == vectors@.len() as int / dim as int,
            forall|i: int|
                0 <= i < a.vecs().len() ==> #[trigger] a.vecs()[i] == vectors@.subrange(
                    i * dim,
                    i * dim + dim,
                ),
    {
        MemoryVectorAccessor { dim, vectors }
    }

    /// The positions of row `index` lie inside the buffer.
    proof fn lemma_row_in_bounds(&self, index: int)
        requires
            self.dim >= 1,
            0 <= index < self.vecs().len(),
        ensures
            0 <= index * self.dim,
            index * self.dim + self.dim <= self.vectors@.len(),
    {
        let n = self.vectors@.len() as int;
        let d = self.dim as int;
        vstd::arithmetic::div_mod::lemma_fundamental_div_mod(n, d);
        vstd::arithmetic::div_mod::lemma_mod_bound(n, d);
        vstd::arithmetic::mul::lemma_mul_inequality(index + 1, n / d, d);
        assert((index + 1) * d == index * d + d) by (nonlinear_arith);
        vstd::arithmetic::mul::lemma_mul_nonnegative(index, d);
    }
}

impl VectorAccessor for MemoryVectorAccessor {
    closed spec fn vecs(&self) -> Seq<Seq<u32>> {
        Seq::new(
            (self.vectors@.len() as int / self.dim as int) as nat,
            |i: int| self.vectors@.subrange(i * self.dim, i * self.dim + self.dim),
        )
    }

    closed spec fn spec_dim(&self) -> nat {
        self.dim as nat
    }

    proof fn lemma_dims(&self) {
        assert forall|i: int| 0 <= i < self.vecs().len() implies (#[trigger] self.vecs()[i]).len()
            == self.spec_dim() by {
            if self.dim >= 1 {
                self.lemma_row_in_bounds(i);
            } else {
                assert(i * (self.dim as int) == 0) by (nonlinear_arith)
                    requires
                        self.dim == 0,
                ;
                assert(self.vecs()[i] == self.vectors@.subrange(0, 0));
            }
        }
    }

    fn dim(&self) -> (d: usize) {
        self.dim
    }

    fn len(&self) -> (n: usize) {
        proof {
            use_type_invariant(self);
        }
        self.vectors.len() / self.dim
    }

    fn get(&self, index: usize) -> (v: &[u32]) {
        let total: usize = self.vectors.len();
        proof {
            use_type_invariant(self);
            self.lemma_row_in_bounds(index as int);
        }
        let start: usize = index * self.dim;
        vstd::slice::slice_subrange(self.vectors.as_slice(), start, start + self.dim)
    }
}

} // verus!
