//! The error type returned by the slicers and the [`Mosaic`](crate::Mosaic) combiner.
//!
//! No operation panics on caller input: every operation that cannot proceed returns one of these
//! variants instead. All coordinate math is checked, so out-of-range inputs are reported rather than
//! overflowing or producing a wrong result.

use vstd::prelude::*;

use crate::tile::TileId;

verus! {

/// Something the slicer or combiner cannot process, returned in place of a panic or a
/// silently-wrong result.
#[derive(Debug, Clone, PartialEq, Eq)]
#[non_exhaustive]
pub enum TileError {
    /// The per-tile output resolution / tile side (`extent`) was zero, or larger than `i32::MAX`.
    InvalidExtent,
    /// The `buffer` was not **strictly less than half** the `extent`.
    BufferTooLarge,
    /// A line has more than `u16::MAX + 1` vertices.
    PolylineTooLarge,
    /// The geometry reaches too many tiles to slice: more than `i16::MAX` tiles from its first
    /// vertex on an axis, or more candidate tiles than the slicer's working-set bound.
    TooManyTiles,
    /// Coordinate arithmetic overflowed `i32`.
    Overflow,
    /// While combining tiles, the added tile disagreed with already-added tiles. Ids are sorted and
    /// unique; the mosaic is left unchanged.
    Conflict(Vec<TileId>),
}

} // verus!
