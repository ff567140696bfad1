//! The flat dense-vector index: a row-major buffer of vector components
//! and a parallel entry table.
//!
//! Components are stored as raw 32-bit patterns; the dot products over
//! them are floating point and belong to the embedding application, which
//! reads rows out and ranks by the scores it computes.  What is verified
//! here is the store's structure: the buffer length is always the row
//! count times the dimension, the dimension freezes on the first vector,
//! and a mismatched insert is rejected exactly and changes nothing.

use crate::errors::VectorError;
use vstd::prelude::*;

verus! {

/// The flat vector store.  `vectors` holds the bit patterns of the stored
/// components, row-major with stride `dimension`; `doc_mapping[i]` is the
/// document entry of row `i`.
#[derive(Debug)]
pub struct VectorIndex {
    pub vectors: Vec<u32>,
    pub doc_mapping: Vec<u32>,
    pub dimension: usize,
    pub enabled: bool,
}

impl VectorIndex {
    /// The buffer is exactly rows × dimension, and empty while disabled.
    pub open spec fn wf(&self) -> bool {
        &&& self.vectors@.len() == self.doc_mapping@.len() * self.dimension
        &&& !self.enabled ==> self.doc_mapping@.len() == 0
    }

    /// A disabled index; the dimension freezes when the first vector
    /// arrives.
    pub fn new() -> (r: VectorIndex)
        ensures
            r.wf(),
            !r.enabled,
            r.dimension == 1024,
            r.doc_mapping@.len() == 0,
    {
        let r = VectorIndex {
            vectors: Vec::new(),
            doc_mapping: Vec::new(),
            dimension: 1024,
            enabled: false,
        };
        proof {
            assert(r.doc_mapping@.len() * r.dimension == 0) by (nonlinear_arith)
                requires
                    r.doc_mapping@.len() == 0,
            ;
        }
        r
    }

    /// An enabled index with a fixed dimension.
    pub fn with_dimension(dimension: usize) -> (r: VectorIndex)
        ensures
            r.wf(),
            r.enabled,
            r.dimension == dimension,
            r.doc_mapping@.len() == 0,
    {
        let r = VectorIndex {
            vectors: Vec::new(),
            doc_mapping: Vec::new(),
            dimension,
            enabled: true,
        };
        proof {
            assert(r.doc_mapping@.len() * r.dimension == 0) by (nonlinear_arith)
                requires
                    r.doc_mapping@.len() == 0,
            ;
        }
        r
    }

    /// The number of stored rows.
    pub fn rows(&self) -> (r: usize)
        ensures
            r == self.doc_mapping@.len(),
    {
        self.doc_mapping.len()
    }

    /// Append a vector (as component bit patterns) for document `doc`.
    ///
    /// The first non-empty vector freezes the dimension and enables the
    /// index; a disabled index swallows empty vectors; a vector of the
    /// wrong length is rejected and nothing changes.
    pub fn add_vector(&mut self, doc: u32, vector: Vec<u32>) -> (r: Result<(), VectorError>)
        requires
            old(self).wf(),
        ensures
            final(self).wf(),
            // rejected exactly when enabled (or just now enabled) and the
            // length differs from the frozen dimension
            r is Err <==> (old(self).enabled || vector@.len() > 0) && vector@.len() != (if old(
                self,
            ).enabled {
                old(self).dimension as int
            } else {
                vector@.len() as int
            }),
            r is Err ==> r->Err_0 == VectorError::DimensionMismatch && *final(self) == *old(self),
            // a disabled index swallows an empty vector
            !old(self).enabled && vector@.len() == 0 ==> r is Ok && *final(self) == *old(self),
            // otherwise the row is appended
            r is Ok && (old(self).enabled || vector@.len() > 0) ==> {
                &&& final(self).enabled
                &&& final(self).dimension == if old(self).enabled {
                    old(self).dimension as int
                } else {
                    vector@.len() as int
                }
                &&& final(self).doc_mapping@ == old(self).doc_mapping@.push(doc)
                &&& final(self).vectors@ == old(self).vectors@ + vector@
            },
    {
        if !self.enabled && vector.len() > 0 {
            proof {
                assert(self.doc_mapping@.len() * self.dimension == 0) by (nonlinear_arith)
                    requires
                        self.doc_mapping@.len() == 0,
                ;
            }
            self.dimension = vector.len();
            self.enabled = true;
            proof {
                assert(self.doc_mapping@.len() * self.dimension == 0) by (nonlinear_arith)
                    requires
                        self.doc_mapping@.len() == 0,
                ;
            }
        }
        if !self.enabled {
            return Ok(());
        }
        if vector.len() != self.dimension {
            return Err(VectorError::DimensionMismatch);
        }
        let ghost rows0 = self.doc_mapping@.len();
        let mut i: usize = 0;
        while i < vector.len()
            invariant
                i <= vector@.len(),
                self.vectors@ =~= old(self).vectors@ + vector@.take(i as int),
                self.doc_mapping@ == old(self).doc_mapping@,
                self.dimension == vector@.len(),
                self.enabled,
            decreases vector@.len() - i,
        {
            self.vectors.push(vector[i]);
            proof {
                assert(old(self).vectors@ + vector@.take(i as int) + seq![vector@[i as int]]
                    =~= old(self).vectors@ + vector@.take(i + 1));
            }
            i = i + 1;
        }
        proof {
            assert(vector@.take(vector@.len() as int) =~= vector@);
        }
        self.doc_mapping.push(doc);
        proof {
            assert((rows0 + 1) * self.dimension == rows0 * self.dimension + self.dimension)
                by (nonlinear_arith);
        }
        Ok(())
    }

    /// The component bit patterns of row `i`.
    pub fn row_bits(&self, i: usize) -> (r: Vec<u32>)
        requires
            self.wf(),
            i < self.doc_mapping@.len(),
        ensures
            r@ == self.vectors@.subrange(
                i as int * self.dimension as int,
                (i + 1) as int * self.dimension as int,
            ),
            r@.len() == self.dimension,
    {
        let n = self.vectors.len();
        proof {
            lemma_row_in_bounds(self.doc_mapping@.len() as int, self.dimension as int, i as int);
            assert(i * self.dimension + self.dimension <= n);
        }
        let start = i * self.dimension;
        let mut r: Vec<u32> = Vec::new();
        let mut j: usize = 0;
        while j < self.dimension
            invariant
                j <= self.dimension,
                start == i * self.dimension,
                start + self.dimension <= n,
                n == self.vectors@.len(),
                r@ =~= self.vectors@.subrange(start as int, start as int + j as int),
            decreases self.dimension - j,
        {
            r.push(self.vectors[start + j]);
            proof {
                assert(r@ =~= self.vectors@.subrange(start as int, start as int + j + 1));
            }
            j = j + 1;
        }
        proof {
            assert((i + 1) as int * self.dimension as int == start as int + self.dimension as int)
                by (nonlinear_arith)
                requires
                    start == i * self.dimension,
            ;
        }
        r
    }

    /// The document entry of row `i`.
    pub fn entry_of_row(&self, i: usize) -> (r: u32)
        requires
            i < self.doc_mapping@.len(),
        ensures
            r == self.doc_mapping@[i as int],
    {
        self.doc_mapping[i]
    }
}

/// A row's slice lies inside the buffer.
proof fn lemma_row_in_bounds(rows: int, dim: int, i: int)
    requires
        0 <= i < rows,
        0 <= dim,
    ensures
        i * dim + dim <= rows * dim,
        0 <= i * dim,
{
    assert(i * dim + dim <= rows * dim && 0 <= i * dim) by (nonlinear_arith)
        requires
            0 <= i < rows && 0 <= dim,
    ;
}

/// The structural invariant of the vector store, stated on its own: the
/// buffer holds exactly rows × dimension components.
pub proof fn lemma_vector_buffer_shape(idx: &VectorIndex)
    requires
        idx.wf(),
    ensures
        idx.vectors@.len() == idx.doc_mapping@.len() * idx.dimension,
{
}

} // verus!
