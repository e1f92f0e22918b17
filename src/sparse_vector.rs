use vstd::prelude::*;

use crate::types::{DimId, DimWeight};

verus! {

/// A vector given by its entries at some dimensions; zero everywhere else.
#[derive(Clone, Debug)]
pub struct SparseVector {
    pub indices: Vec<DimId>,
    pub values: Vec<DimWeight>,
}

/// Why a pair of index and value lists does not make a sparse vector.
#[derive(Clone, Copy, Debug, PartialEq, Eq, Structural)]
pub enum SparseVectorError {
    /// The two lists have different lengths.
    LengthMismatch,
    /// The dimension ids are not strictly increasing.
    UnsortedIndices,
}

pub open spec fn strictly_increasing(s: Seq<DimId>) -> bool {
    forall|i: int, j: int| 0 <= i < j < s.len() ==> s[i] < s[j]
}

impl SparseVector {
    pub open spec fn wf(&self) -> bool {
        &&& self.indices@.len() == self.values@.len()
        &&& strictly_increasing(self.indices@)
    }

    pub open spec fn has_dim(&self, d: DimId) -> bool {
        exists|i: int| 0 <= i < self.indices@.len() && self.indices@[i] == d
    }

    /// The vector's weight at dimension `d`.
    pub open spec fn weight_at(&self, d: DimId) -> int {
        if self.has_dim(d) {
            self.values@[choose|i: int| 0 <= i < self.indices@.len() && self.indices@[i] == d] as int
        } else {
            0
        }
    }

    /// Builds a vector from its dimension ids and weights; the ids must be strictly
    /// increasing and the two lists of one length.
    pub fn new(indices: Vec<DimId>, values: Vec<DimWeight>) -> (r: Result<SparseVector, SparseVectorError>)
        ensures
            indices@.len() != values@.len() ==> r == Err::<SparseVector, _>(SparseVectorError::LengthMismatch),
            indices@.len() == values@.len() && !strictly_increasing(indices@) ==> r == Err::<SparseVector, _>(
                SparseVectorError::UnsortedIndices,
            ),
            r is Ok <==> indices@.len() == values@.len() && strictly_increasing(indices@),
            r matches Ok(v) ==> v.indices@ == indices@ && v.values@ == values@ && v.wf(),
    {
        if indices.len() != values.len() {
            return Err(SparseVectorError::LengthMismatch);
        }
        let mut i: usize = 1;
        while i < indices.len()
            invariant
                1 <= i,
                indices@.len() == values@.len(),
                forall|a: int, b: int| 0 <= a < b < i && b < indices@.len() ==> indices@[a] < indices@[b],
            decreases indices@.len() - i,
        {
            if indices[i - 1] >= indices[i] {
                return Err(SparseVectorError::UnsortedIndices);
            }
            i = i + 1;
        }
        Ok(SparseVector { indices, values })
    }
}

/// In a well-formed vector the value found at `i` is the one `weight_at` reads.
pub proof fn lemma_weight_at_index(v: SparseVector, i: int)
    requires
        v.wf(),
        0 <= i < v.indices@.len(),
    ensures
        v.has_dim(v.indices@[i]),
        v.weight_at(v.indices@[i]) == v.values@[i] as int,
{
    assert(0 <= i < v.indices@.len() && v.indices@[i] == v.indices@[i]);
}

} // verus!
