//! Sparse vectors already remapped into the index's own dimension
//! numbering: parallel arrays of dimension ids (strictly ascending, so
//! unique) and weights.
use vstd::prelude::*;

use crate::element::{DimOffset, DimWeight};

verus! {

/// Why a candidate sparse vector was rejected.
#[derive(Debug, Clone, Copy, PartialEq, Eq, Structural)]
pub enum SparseVectorError {
    /// The index and value arrays differ in length.
    LengthMismatch,
    /// The dimension ids are not strictly ascending.
    UnsortedIndices,
}

/// A sparse vector in the index's internal dimension space.
#[derive(Debug, Clone, PartialEq)]
pub struct RemappedSparseVector {
    /// Dimension ids, strictly ascending.
    pub indices: Vec<DimOffset>,
    /// Weight per dimension id, same length as `indices`.
    pub values: Vec<DimWeight>,
}

impl RemappedSparseVector {
    /// One weight per dimension, dimensions strictly ascending.
    pub open spec fn wf(self) -> bool {
        &&& self.indices@.len() == self.values@.len()
        &&& forall|i: int, j: int|
            0 <= i < j < self.indices@.len() ==> (#[trigger] self.indices@[i])
                < (#[trigger] self.indices@[j])
    }

    /// The vector holds a weight for dimension `d`.
    pub open spec fn has_dim(self, d: DimOffset) -> bool {
        exists|i: int| 0 <= i < self.indices@.len() && (#[trigger] self.indices@[i]) == d
    }

    /// The weight the vector holds for dimension `d` (meaningful only
    /// when `has_dim(d)`; the witness is unique for well-formed vectors).
    pub open spec fn weight_of(self, d: DimOffset) -> DimWeight {
        self.values@[choose|i: int|
            0 <= i < self.indices@.len() && (#[trigger] self.indices@[i]) == d]
    }

    /// Build a vector from parallel arrays, rejecting mismatched
    /// lengths and unsorted or repeated dimensions.
    pub fn new(indices: Vec<DimOffset>, values: Vec<DimWeight>) -> (r: Result<
        Self,
        SparseVectorError,
    >)
        ensures
            match r {
                Ok(v) => v.wf() && v.indices@ == indices@ && v.values@ == values@,
                Err(SparseVectorError::LengthMismatch) => indices@.len() != values@.len(),
                Err(SparseVectorError::UnsortedIndices) => indices@.len() == values@.len()
                    && exists|i: int, j: int|
                    0 <= i < j < indices@.len() && (#[trigger] indices@[i]) >= (
                    #[trigger] indices@[j]),
            },
    {
        if indices.len() != values.len() {
            return Err(SparseVectorError::LengthMismatch);
        }
        let mut k: usize = 1;
        while k < indices.len()
            invariant
                indices@.len() == values@.len(),
                1 <= k || indices@.len() == 0,
                k <= indices@.len() || indices@.len() == 0,
                forall|i: int, j: int|
                    0 <= i < j < k ==> (#[trigger] indices@[i]) < (#[trigger] indices@[j]),
            decreases indices@.len() - k,
        {
            if indices[k - 1] >= indices[k] {
                proof {
                    assert(exists|i: int, j: int|
                        0 <= i < j < indices@.len() && (#[trigger] indices@[i]) >= (
                        #[trigger] indices@[j])) by {
                        assert(0 <= k - 1 < k < indices@.len());
                        assert(indices@[k - 1] >= indices@[k as int]);
                    }
                }
                return Err(SparseVectorError::UnsortedIndices);
            }
            assert forall|i: int, j: int|
                0 <= i < j < k + 1 implies (#[trigger] indices@[i]) < (#[trigger] indices@[j]) by {
                if j == k && i < k - 1 {
                    assert(indices@[i] < indices@[k - 1]);
                }
            }
            k = k + 1;
        }
        Ok(RemappedSparseVector { indices, values })
    }

    /// Number of stored dimensions.
    pub fn len(&self) -> (r: usize)
        requires
            self.wf(),
        ensures
            r == self.indices@.len(),
    {
        self.indices.len()
    }
}

/// Dimension `d` occurs among the first `k` entries of `v`.
pub open spec fn dim_in_prefix(v: RemappedSparseVector, d: DimOffset, k: int) -> bool {
    exists|i: int| 0 <= i < k && i < v.indices@.len() && (#[trigger] v.indices@[i]) == d
}

/// In a well-formed vector, the entry at a position is the weight of
/// its dimension.
pub proof fn lemma_weight_at(v: RemappedSparseVector, i: int)
    requires
        v.wf(),
        0 <= i < v.indices@.len(),
    ensures
        v.has_dim(v.indices@[i]),
        v.weight_of(v.indices@[i]) == v.values@[i],
{
    let d = v.indices@[i];
    assert(v.has_dim(d));
    let j = choose|j: int| 0 <= j < v.indices@.len() && (#[trigger] v.indices@[j]) == d;
    if i < j {
        assert(v.indices@[i] < v.indices@[j]);
    } else if j < i {
        assert(v.indices@[j] < v.indices@[i]);
    }
}

} // verus!
