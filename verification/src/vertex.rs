//! Integer positions and the [`Vertex`] abstraction the slicers clip.
//!
//! The slicers keep **original** vertices: a vertex's payload rides through slicing and merging
//! unchanged, and only its integer position is ever read or moved.

use vstd::prelude::*;

verus! {

/// An integer `(x, y)` position.
#[derive(Debug, Clone, Copy, PartialEq, Eq, Hash, Structural)]
pub struct Coord {
    pub x: i32,
    pub y: i32,
}

impl Coord {
    /// The position `(x, y)`.
    pub fn new(x: i32, y: i32) -> (r: Self)
        ensures
            r.x == x,
            r.y == y,
    {
        Coord { x, y }
    }
}

/// A polyline vertex the slicer can clip: an integer position plus an opaque payload that is
/// preserved verbatim through slicing and merging.
pub trait Vertex: Copy + PartialEq + Sized {
    /// The integer position of this vertex.
    spec fn pos(&self) -> Coord;

    /// This vertex moved to `p`, payload unchanged.
    spec fn moved_to(self, p: Coord) -> Self;

    /// Whether [`same_vertex`](Self::same_vertex) decides spec equality for this type.
    spec fn obeys_vertex_eq() -> bool;

    /// Moving a vertex sets its position and touches nothing else.
    proof fn lemma_moved_to(v: Self, p: Coord, q: Coord)
        ensures
            v.moved_to(p).pos() == p,
            v.moved_to(p).moved_to(q) == v.moved_to(q),
            v.moved_to(v.pos()) == v,
    ;

    /// The integer `(x, y)` used for every clipping and tiling decision.
    fn position(&self) -> (p: Coord)
        ensures
            p == self.pos(),
    ;

    /// A copy of `self` moved to `position`, keeping the payload unchanged.
    fn with_position(self, position: Coord) -> (r: Self)
        ensures
            r == self.moved_to(position),
    ;

    /// Whether two vertices are identical (position and payload).
    fn same_vertex(&self, other: &Self) -> (r: bool)
        ensures
            Self::obeys_vertex_eq() ==> (r <==> *self == *other),
    ;
}

/// A [`Vertex`] that can also be created from a bare position, for the synthetic clip-boundary
/// corners the polygon clipper adds outside the tile.
pub trait PolyVertex: Vertex {
    /// A synthetic vertex at `position` (a default payload).
    fn synthetic_at(position: Coord) -> (r: Self)
        ensures
            r.pos() == position,
    ;
}

impl Vertex for Coord {
    open spec fn pos(&self) -> Coord {
        *self
    }

    open spec fn moved_to(self, p: Coord) -> Coord {
        p
    }

    open spec fn obeys_vertex_eq() -> bool {
        true
    }

    proof fn lemma_moved_to(v: Coord, p: Coord, q: Coord) {
    }

    fn position(&self) -> (p: Coord) {
        *self
    }

    fn with_position(self, position: Coord) -> (r: Coord) {
        position
    }

    fn same_vertex(&self, other: &Coord) -> (r: bool) {
        self.x == other.x && self.y == other.y
    }
}

impl PolyVertex for Coord {
    fn synthetic_at(position: Coord) -> (r: Coord) {
        position
    }
}

/// A [`Vertex`] carrying a measure/payload `m` (e.g. an M value) alongside its integer position.
/// The payload is never inspected by the slicer, just moved with the vertex.
#[derive(Debug, Clone, Copy, PartialEq, Hash)]
pub struct Measured<M: Copy + PartialEq> {
    /// The integer position used for clipping/tiling.
    pub position: Coord,
    /// The per-vertex payload, preserved through slicing.
    pub m: M,
}

impl<M: Copy + PartialEq> Measured<M> {
    /// A measured vertex at `(x, y)` carrying payload `m`.
    pub fn new(x: i32, y: i32, m: M) -> (r: Self)
        ensures
            r.position == (Coord { x, y }),
            r.m == m,
    {
        Measured { position: Coord { x, y }, m }
    }
}

impl<M: Copy + PartialEq> Vertex for Measured<M> {
    open spec fn pos(&self) -> Coord {
        self.position
    }

    open spec fn moved_to(self, p: Coord) -> Self {
        Measured { position: p, m: self.m }
    }

    open spec fn obeys_vertex_eq() -> bool {
        vstd::laws_eq::obeys_concrete_eq::<M>()
    }

    proof fn lemma_moved_to(v: Self, p: Coord, q: Coord) {
    }

    fn position(&self) -> (p: Coord) {
        self.position
    }

    fn with_position(self, position: Coord) -> (r: Self) {
        Measured { position, m: self.m }
    }

    fn same_vertex(&self, other: &Self) -> (r: bool) {
        let same_m = self.m == other.m;
        proof {
            if Self::obeys_vertex_eq() {
                reveal(vstd::laws_eq::obeys_concrete_eq);
            }
        }
        self.position.x == other.position.x && self.position.y == other.position.y && same_m
    }
}

impl<M: Copy + PartialEq + Default> PolyVertex for Measured<M> {
    fn synthetic_at(position: Coord) -> (r: Self) {
        Measured { position, m: M::default() }
    }
}

} // verus!
