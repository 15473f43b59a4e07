//! Shared scalar types and the posting-element model.
//!
//! A posting element records the weight one row has in one dimension.
//! The extended element additionally carries `max_next_weight`, an upper
//! bound on the weights of all elements after it in the same posting
//! list, which lets a scorer stop early once the remaining contribution
//! cannot matter.
//!
//! Weights are signed 64-bit fixed-point values in an order-preserving
//! encoding chosen by the caller; `DEFAULT_MAX_NEXT_WEIGHT` (the least
//! representable weight) is the sentinel meaning "no element follows".
use vstd::prelude::*;

verus! {

/// Identifier of a vector dimension (the key of one posting list).
pub type DimOffset = u32;

/// Identifier of a stored vector (row), assigned by the caller.
pub type ElementOffsetType = u32;

/// Weight of a row in a dimension, in an order-preserving fixed-point
/// encoding.
pub type DimWeight = i64;

/// Sentinel bound recorded when no element follows in the posting list.
pub const DEFAULT_MAX_NEXT_WEIGHT: DimWeight = i64::MIN;

/// A posting element over an arbitrary weight representation.
#[derive(Debug, Clone, Copy, PartialEq, Eq, Structural)]
pub struct GenericPostingElement<W> {
    /// Row ID
    pub row_id: ElementOffsetType,
    /// Weight of the record in the dimension
    pub weight: W,
}

/// Minimal stored unit of a posting list.
#[derive(Debug, Clone, Copy, PartialEq, Eq, Structural)]
pub struct PostingElement {
    /// Row ID
    pub row_id: ElementOffsetType,
    /// Weight of the record in the dimension
    pub weight: DimWeight,
}

/// Query-optimized posting unit: the stored pair plus a precomputed
/// bound on the weights of all later elements of the same list.
#[derive(Debug, Clone, Copy, PartialEq, Eq, Structural)]
pub struct PostingElementEx {
    /// Row ID
    pub row_id: ElementOffsetType,
    /// Weight of the record in the dimension
    pub weight: DimWeight,
    /// Max weight of the next elements in the posting list.
    pub max_next_weight: DimWeight,
}

impl From<PostingElementEx> for PostingElement {
    fn from(value: PostingElementEx) -> (r: Self) {
        Self { row_id: value.row_id, weight: value.weight }
    }
}

impl vstd::std_specs::convert::FromSpecImpl<PostingElementEx> for PostingElement {
    open spec fn obeys_from_spec() -> bool {
        true
    }

    open spec fn from_spec(value: PostingElementEx) -> Self {
        PostingElement { row_id: value.row_id, weight: value.weight }
    }
}

impl PostingElementEx {
    /// A fresh element starts with the sentinel bound; a list builder
    /// back-fills the real bound once later elements are known.
    pub fn new(row_id: ElementOffsetType, weight: DimWeight) -> (r: Self)
        ensures
            r.row_id == row_id,
            r.weight == weight,
            r.max_next_weight == DEFAULT_MAX_NEXT_WEIGHT,
    {
        Self { row_id, weight, max_next_weight: DEFAULT_MAX_NEXT_WEIGHT }
    }
}

} // verus!
