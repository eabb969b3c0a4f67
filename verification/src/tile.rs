//! Tile addressing on the integer grid.
//!
//! A tile of side `extent` covers the closed integer square `[x·extent, x·extent + extent − 1]` on
//! each axis, so every integer vertex belongs to exactly one tile.

use vstd::prelude::*;

use crate::vertex::Coord;

verus! {

/// A tile address on the integer grid. Coordinates may be negative.
#[derive(Debug, Clone, Copy, PartialEq, Eq, Hash, PartialOrd, Ord, Structural)]
pub struct TileId {
    pub x: i32,
    pub y: i32,
}

/// `v · e`, when it fits `i32`.
pub open spec fn scaled(v: i32, e: u32) -> Option<i32> {
    if i32::MIN <= v * e <= i32::MAX {
        Some((v * e) as i32)
    } else {
        None
    }
}

/// Tile order: by `x`, then by `y` (the order tiles are read back in).
pub open spec fn tile_lt(a: TileId, b: TileId) -> bool {
    a.x < b.x || (a.x == b.x && a.y < b.y)
}

/// The tile that owns integer `c` at tile side `extent` (floor division on each axis).
pub open spec fn tile_of_spec(c: Coord, extent: int) -> TileId {
    TileId { x: (c.x as int / extent) as i32, y: (c.y as int / extent) as i32 }
}

impl TileId {
    /// The tile `(x, y)`.
    pub fn new(x: i32, y: i32) -> (r: Self)
        ensures
            r.x == x,
            r.y == y,
    {
        TileId { x, y }
    }

    /// This tile's origin in global coordinates — `self · extent`, the global position its local
    /// `[0, 0]` corner maps to. `None` if `self · extent` overflows `i32`.
    pub fn origin(self, extent: u32) -> (r: Option<Coord>)
        ensures
            r == (match (scaled(self.x, extent), scaled(self.y, extent)) {
                (Some(x), Some(y)) => Some(Coord { x, y }),
                _ => None,
            }),
    {
        let e = extent as i64;
        assert(-0x8000_0000 * 0x1_0000_0000 <= self.x * e <= 0x7fff_ffff * 0x1_0000_0000)
            by (nonlinear_arith)
            requires
                -0x8000_0000 <= self.x <= 0x7fff_ffff,
                0 <= e <= 0xffff_ffff,
        ;
        assert(-0x8000_0000 * 0x1_0000_0000 <= self.y * e <= 0x7fff_ffff * 0x1_0000_0000)
            by (nonlinear_arith)
            requires
                -0x8000_0000 <= self.y <= 0x7fff_ffff,
                0 <= e <= 0xffff_ffff,
        ;
        let x = self.x as i64 * e;
        let y = self.y as i64 * e;
        if x < i32::MIN as i64 || x > i32::MAX as i64 || y < i32::MIN as i64 || y > i32::MAX as i64 {
            return None;
        }
        Some(Coord { x: x as i32, y: y as i32 })
    }

    /// Whether `self` and `other` are the same tile.
    pub fn same_as(&self, other: &TileId) -> (r: bool)
        ensures
            r == (*self == *other),
    {
        self.x == other.x && self.y == other.y
    }

    /// Whether `self` comes strictly before `other` in tile order (by `x`, then `y`).
    pub fn precedes(&self, other: &TileId) -> (r: bool)
        ensures
            r == tile_lt(*self, *other),
    {
        self.x < other.x || (self.x == other.x && self.y < other.y)
    }
}

impl From<(i32, i32)> for TileId {
    fn from(v: (i32, i32)) -> (r: TileId) {
        TileId { x: v.0, y: v.1 }
    }
}

impl vstd::std_specs::convert::FromSpecImpl<(i32, i32)> for TileId {
    open spec fn obeys_from_spec() -> bool {
        true
    }

    open spec fn from_spec(v: (i32, i32)) -> TileId {
        TileId { x: v.0, y: v.1 }
    }
}

proof fn lemma_floor_div_bounds(v: int, e: int)
    requires
        e > 0,
        i32::MIN <= v <= i32::MAX,
    ensures
        i32::MIN <= v / e <= i32::MAX,
{
    vstd::arithmetic::div_mod::lemma_fundamental_div_mod(v, e);
    vstd::arithmetic::div_mod::lemma_mod_bound(v, e);
    let q = v / e;
    let r = v % e;
    assert(i32::MIN <= q <= i32::MAX) by (nonlinear_arith)
        requires
            v == e * q + r,
            0 <= r < e,
            e > 0,
            i32::MIN <= v <= i32::MAX,
    ;
}

/// Floor division of `v` by a positive `e`.
fn floor_div(v: i32, e: i32) -> (r: i32)
    requires
        e > 0,
    ensures
        r == v as int / e as int,
{
    match v.checked_div_euclid(e) {
        Some(q) => q,
        None => {
            // Unreachable for a positive divisor; the Euclidean quotient always fits.
            proof {
                lemma_floor_div_bounds(v as int, e as int);
            }
            0
        },
    }
}

/// The tile that owns coordinate `c` for the given tile side `extent`.
pub fn tile_of(c: Coord, extent: i32) -> (r: TileId)
    requires
        extent > 0,
    ensures
        r == tile_of_spec(c, extent as int),
        r.x == c.x as int / extent as int,
        r.y == c.y as int / extent as int,
{
    TileId { x: floor_div(c.x, extent), y: floor_div(c.y, extent) }
}

} // verus!
