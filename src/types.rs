use vstd::prelude::*;

verus! {

/// Identifier of one coordinate of the sparse space.
pub type DimId = u32;

/// Dense, index-local identifier of a stored point.
pub type PointOffsetType = u32;

/// Coefficient of a vector at one dimension, as a fixed-point integer.
pub type DimWeight = i32;

/// Dot product of two vectors over fixed-point weights; exact, never rounded.
pub type ScoreType = i128;

/// A point together with its score for one query.
#[derive(Clone, Copy, Debug, PartialEq, Eq, Structural)]
pub struct ScoredPointOffset {
    pub idx: PointOffsetType,
    pub score: ScoreType,
}

/// The result order: higher score first, ties broken by the smaller point offset.
pub open spec fn ranks_before(a: ScoredPointOffset, b: ScoredPointOffset) -> bool {
    a.score > b.score || (a.score == b.score && a.idx < b.idx)
}

} // verus!
