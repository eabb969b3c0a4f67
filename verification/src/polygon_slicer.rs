//! The public **polygon** slicing API: [`PolygonSlicerOne`] (one fixed tile).
//!
//! A polygon is an exterior ring plus zero or more interior rings (holes). Each ring is clipped to
//! the tile's buffered box keeping original vertices, and closed with synthetic clip-boundary corners
//! that live strictly outside the box. One input polygon yields at most one output ring per input
//! ring per tile; a ring that misses the tile is dropped, and a tile fully inside the polygon is
//! filled.
//!
//! The two generic axes match the polyline slicers: a per-vertex [`PolyVertex`] payload `V` and a
//! per-feature attribute `A` (default `()`).

use vstd::prelude::*;

use crate::clip_polygon::{
    clip_ring, clip_ring_spec, entry_ok, law_clip_ring_adds_only_shell_corners, on_shell, realises,
};
use crate::clip_polyline::{in_box, local_of, to_local};
use crate::error::TileError;
use crate::grid::{loc, Grid};
use crate::tile::TileId;
use crate::vertex::{Coord, PolyVertex, Vertex};

verus! {

/// The marked ring `w` re-expressed in the frame with origin `o`, or `None` when some position
/// leaves `i32` there.
pub open spec fn local_ring<V: Vertex>(w: Seq<(Coord, Option<V>)>, o: Coord) -> Option<
    Seq<(Coord, Option<V>)>,
> {
    if forall|i: int| 0 <= i < w.len() ==> (#[trigger] local_of(w[i].0, o)) is Some {
        Some(
            w.map_values(
                |x: (Coord, Option<V>)|
                    (
                        local_of(x.0, o).unwrap(),
                        match x.1 {
                            Some(v) => Some(loc(v, o)),
                            None => None,
                        },
                    ),
            ),
        )
    } else {
        None
    }
}

/// The clipped, localized holes that appear in the tile, in order (the first failure wins).
pub open spec fn clip_holes<V: Vertex>(holes: Seq<Seq<V>>, min: Coord, max: Coord, o: Coord) -> Result<
    Seq<Seq<(Coord, Option<V>)>>,
    TileError,
>
    decreases holes.len(),
{
    if holes.len() == 0 {
        Ok(Seq::empty())
    } else {
        match clip_holes(holes.drop_last(), min, max, o) {
            Err(e) => Err(e),
            Ok(prior) => match clip_ring_spec(holes.last(), min, max) {
                Err(e) => Err(e),
                Ok(None) => Ok(prior),
                Ok(Some(w)) => match local_ring(w, o) {
                    None => Err(TileError::Overflow),
                    Some(lw) => Ok(prior.push(lw)),
                },
            },
        }
    }
}

/// The rings (each tagged as a hole or not) that the polygon `exterior` + `holes` leaves in
/// `tile`, in its local frame: `None` when the exterior misses the tile.
pub open spec fn polygon_in_tile<V: Vertex>(
    grid: Grid,
    tile: TileId,
    exterior: Seq<V>,
    holes: Seq<Seq<V>>,
) -> Result<Option<Seq<(Seq<(Coord, Option<V>)>, bool)>>, TileError> {
    match grid.box_of(tile) {
        None => Err(TileError::Overflow),
        Some((min, max)) => {
            let o = grid.origin_of(min);
            match clip_ring_spec(exterior, min, max) {
                Err(e) => Err(e),
                Ok(None) => Ok(None),
                Ok(Some(w)) => match local_ring(w, o) {
                    None => Err(TileError::Overflow),
                    Some(lw) => match clip_holes(holes, min, max, o) {
                        Err(e) => Err(e),
                        Ok(hs) => Ok(
                            Some(
                                seq![(lw, false)] + hs.map_values(
                                    |h: Seq<(Coord, Option<V>)>| (h, true),
                                ),
                            ),
                        ),
                    },
                },
            }
        },
    }
}

/// A recorded feature realises the marked rings `rings` and carries `attr`.
pub open spec fn feature_realises<V: Vertex, A>(
    f: (Seq<(Seq<V>, bool)>, A),
    rings: Seq<(Seq<(Coord, Option<V>)>, bool)>,
    attr: A,
) -> bool {
    &&& f.1 == attr
    &&& f.0.len() == rings.len()
    &&& forall|k: int|
        0 <= k < rings.len() ==> (#[trigger] f.0[k]).1 == rings[k].1 && realises(f.0[k].0, rings[k].0)
}

/// The feature `f` (its marked rings and attribute) is what clipping the polygon `input` (its
/// exterior and holes) to `tile` yields.
pub open spec fn clipped_from<V: Vertex, A>(
    grid: Grid,
    tile: TileId,
    input: (Seq<V>, Seq<Seq<V>>),
    f: (Seq<(Seq<V>, bool)>, A),
) -> bool {
    polygon_in_tile(grid, tile, input.0, input.1) matches Ok(Some(rings)) && feature_realises(
        f,
        rings,
        f.1,
    )
}

/// A ring of at least two vertices that ends where it starts.
pub open spec fn closed_ring<V>(r: Seq<V>) -> bool {
    r.len() >= 2 && r.last() == r[0]
}

/// A feature's rings come exterior first, then holes: at least one ring, the first not a hole and
/// every later one a hole; and every ring is closed.
pub open spec fn rings_marked<V>(rings: Seq<(Seq<V>, bool)>) -> bool {
    &&& rings.len() >= 1
    &&& !rings[0].1
    &&& forall|k: int| 1 <= k < rings.len() ==> #[trigger] rings[k].1
    &&& forall|k: int| 0 <= k < rings.len() ==> closed_ring(#[trigger] rings[k].0)
}

/// Vertex `v`, recorded in the frame with origin `o`, is a vertex of `ring` moved into that frame,
/// or sits, in the global frame, on a corner of the shell one unit outside the box `[min, max]`
/// (so strictly outside the box).
pub open spec fn from_ring_or_shell<V: Vertex>(v: V, ring: Seq<V>, o: Coord, min: Coord, max: Coord) -> bool {
    let g = Coord { x: (v.pos().x + o.x) as i32, y: (v.pos().y + o.y) as i32 };
    ||| exists|x: V| ring.contains(x) && v == loc(x, o)
    ||| on_shell(g, min, max) && !in_box(g, min, max)
}

/// A recorded ring realising the localized clip of `src` holds only vertices of `src` and shell
/// corners.
proof fn lemma_ring_entries<V: Vertex>(
    r: Seq<V>,
    src: Seq<V>,
    w: Seq<(Coord, Option<V>)>,
    o: Coord,
    min: Coord,
    max: Coord,
)
    requires
        clip_ring_spec(src, min, max) == Ok::<Option<Seq<(Coord, Option<V>)>>, TileError>(Some(w)),
        local_ring(w, o) is Some,
        realises(r, local_ring(w, o)->Some_0),
    ensures
        forall|i: int| 0 <= i < r.len() ==> from_ring_or_shell(#[trigger] r[i], src, o, min, max),
{
    law_clip_ring_adds_only_shell_corners(src, min, max);
    let lw = local_ring(w, o)->Some_0;
    assert forall|i: int| 0 <= i < r.len() implies from_ring_or_shell(#[trigger] r[i], src, o, min, max) by {
        assert(entry_ok(w[i], src, min, max));
        assert(local_of(w[i].0, o) is Some);
        assert(lw[i].0 == local_of(w[i].0, o).unwrap());
        assert(r[i].pos() == lw[i].0);
        match w[i].1 {
            Some(x) => {
                assert(lw[i].1 == Some(loc(x, o)));
                assert(src.contains(x) && r[i] == loc(x, o));
            },
            None => {
                assert(!in_box(w[i].0, min, max));
                assert(Coord { x: (r[i].pos().x + o.x) as i32, y: (r[i].pos().y + o.y) as i32 } == w[i].0);
            },
        }
    }
}

/// Each clipped, localized hole comes from one of the holes.
proof fn lemma_holes_from<V: Vertex>(holes: Seq<Seq<V>>, min: Coord, max: Coord, o: Coord)
    ensures
        clip_holes(holes, min, max, o) matches Ok(hs) ==> forall|k: int|
            0 <= k < hs.len() ==> exists|h: int|
                #![trigger holes[h]]
                0 <= h < holes.len() && (clip_ring_spec(holes[h], min, max) matches Ok(Some(w))
                    && local_ring(w, o) == Some(#[trigger] hs[k])),
    decreases holes.len(),
{
    if holes.len() > 0 {
        let rest = holes.drop_last();
        lemma_holes_from(rest, min, max, o);
        if let Ok(hs) = clip_holes(holes, min, max, o) {
            let prior = clip_holes(rest, min, max, o)->Ok_0;
            assert forall|k: int| 0 <= k < hs.len() implies exists|h: int|
                #![trigger holes[h]]
                0 <= h < holes.len() && (clip_ring_spec(holes[h], min, max) matches Ok(Some(w))
                    && local_ring(w, o) == Some(#[trigger] hs[k])) by {
                if k < prior.len() {
                    assert(hs[k] == prior[k]);
                    let h = choose|h: int|
                        #![trigger rest[h]]
                        0 <= h < rest.len() && (clip_ring_spec(rest[h], min, max) matches Ok(Some(w))
                            && local_ring(w, o) == Some(prior[k]));
                    assert(holes[h] == rest[h]);
                } else {
                    assert(holes[holes.len() - 1] == holes.last());
                }
            }
        }
    }
}

/// Every ring a polygon slicer may be handed is one a machine can hold.
pub open spec fn ring_len_ok(len: int) -> bool {
    len <= usize::MAX / 16 && len < 0x0800_0000_0000_0000
}

/// One clipped ring in a tile's local frame, tagged exterior vs. hole.
struct PolyRing<V> {
    verts: Vec<V>,
    is_hole: bool,
}

/// One polygon feature clipped into a tile: its surviving rings (exterior first, then holes) plus
/// the per-feature attribute.
struct PolyFeature<V, A> {
    rings: Vec<PolyRing<V>>,
    attr: A,
    /// The polygon (exterior and holes) the feature was clipped from.
    input: Ghost<(Seq<V>, Seq<Seq<V>>)>,
}

/// The rings' contents.
spec fn rings_view<V>(rs: Seq<PolyRing<V>>) -> Seq<(Seq<V>, bool)> {
    rs.map_values(|r: PolyRing<V>| (r.verts@, r.is_hole))
}

/// The features' contents.
spec fn poly_features_view<V, A>(fs: Seq<PolyFeature<V, A>>) -> Seq<(Seq<(Seq<V>, bool)>, A)> {
    fs.map_values(|f: PolyFeature<V, A>| (rings_view(f.rings@), f.attr))
}

/// Re-express a clipped ring (global frame) in the tile-local frame with origin `o`.
fn localize_ring<V: Vertex>(ring: &Vec<V>, o: Coord, Ghost(w): Ghost<Seq<(Coord, Option<V>)>>) -> (r:
    Result<Vec<V>, TileError>)
    requires
        realises(ring@, w),
    ensures
        match local_ring(w, o) {
            Some(lw) => r matches Ok(lv) && realises(lv@, lw),
            None => r == Err::<Vec<V>, TileError>(TileError::Overflow),
        },
        r matches Ok(lv) ==> (ring@.len() >= 2 && ring@.last() == ring@[0]) ==> closed_ring(lv@),
{
    let mut out: Vec<V> = Vec::new();
    let mut i: usize = 0;
    while i < ring.len()
        invariant
            realises(ring@, w),
            i <= ring@.len(),
            out@.len() == i,
            forall|j: int| 0 <= j < i ==> (#[trigger] local_of(w[j].0, o)) is Some,
            forall|j: int|
                0 <= j < i ==> (#[trigger] out@[j]).pos() == local_of(w[j].0, o).unwrap() && (w[j].1 matches Some(x) ==> out@[j] == loc(x, o)),
            forall|j: int| 0 <= j < i ==> #[trigger] out@[j] == loc(ring@[j], o),
        decreases ring@.len() - i,
    {
        let v = ring[i];
        assert(v.pos() == w[i as int].0);
        match to_local(v, o) {
            Ok(lv) => {
                proof {
                    V::lemma_moved_to(v, local_of(v.pos(), o).unwrap(), v.pos());
                }
                out.push(lv);
            },
            Err(e) => {
                assert(local_of(w[i as int].0, o) is None);
                return Err(e);
            },
        }
        i = i + 1;
    }
    proof {
        let lw = local_ring(w, o)->Some_0;
        assert forall|j: int| 0 <= j < lw.len() implies (#[trigger] out@[j]).pos() == lw[j].0 && (
        lw[j].1 matches Some(x) ==> out@[j] == x) by {}
    }
    Ok(out)
}

/// Slices integer **polygons** into pieces for **one fixed tile**, keeping original vertices.
///
/// The polygon counterpart to [`SlicerOne`](crate::SlicerOne): each polygon added is clipped only
/// to this slicer's [`tile`](Self::tile). Generic over the [`PolyVertex`] type `V` and the
/// per-feature attribute `A` (default `()`).
pub struct PolygonSlicerOne<V: PolyVertex = Coord, A = ()> {
    grid: Grid,
    tile: TileId,
    features: Vec<PolyFeature<V, A>>,
}

impl<V: PolyVertex, A> PolygonSlicerOne<V, A> {
    /// The slicer's invariant: a valid grid, every feature's rings closed, exterior first, then
    /// holes, and every feature the clip of the polygon it was recorded from.
    #[verifier::type_invariant]
    pub closed spec fn wf(&self) -> bool {
        &&& self.grid.wf()
        &&& forall|j: int|
            0 <= j < self.features@.len() ==> rings_marked(
                #[trigger] poly_features_view(self.features@)[j].0,
            )
        &&& forall|j: int|
            0 <= j < self.features@.len() ==> clipped_from(
                self.grid,
                self.tile,
                self.features@[j].input@,
                #[trigger] poly_features_view(self.features@)[j],
            )
    }

    /// The polygons the recorded features were clipped from, in order: each its exterior and its
    /// holes.
    pub closed spec fn inputs_view(&self) -> Seq<(Seq<V>, Seq<Seq<V>>)> {
        self.features@.map_values(|f: PolyFeature<V, A>| f.input@)
    }

    /// In every state of a well-formed slicer, each recorded feature comes from one recorded
    /// polygon, and every vertex of its rings is a vertex of the matching input ring (the exterior
    /// for the first ring, some hole for each later one) moved into the tile's frame, or a corner
    /// of the shell one unit outside the tile's buffered box.
    #[verifier::spinoff_prover]
    pub proof fn law_ring_vertices_from_input(&self)
        requires
            self.wf(),
        ensures
            self.features_view().len() == self.inputs_view().len(),
            ({
                let g = self.grid();
                let min = g.box_lo(self.tile_spec());
                let max = g.box_hi(self.tile_spec());
                let o = g.origin_of(min);
                forall|j: int, k: int, i: int|
                    0 <= j < self.features_view().len() && 0 <= k < self.features_view()[j].0.len()
                        && 0 <= i < self.features_view()[j].0[k].0.len() ==> {
                        let v = #[trigger] self.features_view()[j].0[k].0[i];
                        let input = self.inputs_view()[j];
                        &&& k == 0 ==> from_ring_or_shell(v, input.0, o, min, max)
                        &&& k >= 1 ==> exists|h: int|
                            0 <= h < input.1.len() && from_ring_or_shell(v, #[trigger] input.1[h], o, min, max)
                    }
            }),
    {
        let g = self.grid;
        let o = g.origin_of(g.box_lo(self.tile));
        assert forall|j: int, k: int, i: int|
            0 <= j < self.features_view().len() && 0 <= k < self.features_view()[j].0.len()
                && 0 <= i < self.features_view()[j].0[k].0.len() implies {
                let v = #[trigger] self.features_view()[j].0[k].0[i];
                let input = self.inputs_view()[j];
                &&& k == 0 ==> from_ring_or_shell(v, input.0, o, g.box_lo(self.tile), g.box_hi(self.tile))
                &&& k >= 1 ==> exists|h: int|
                    0 <= h < input.1.len() && from_ring_or_shell(
                        v,
                        #[trigger] input.1[h],
                        o,
                        g.box_lo(self.tile),
                        g.box_hi(self.tile),
                    )
            } by {
            let f = self.features_view()[j];
            let input = self.features@[j].input@;
            assert(clipped_from(g, self.tile, input, poly_features_view(self.features@)[j]));
            let (mn, mx) = g.box_of(self.tile).unwrap();
            let rings = polygon_in_tile(g, self.tile, input.0, input.1)->Ok_0->Some_0;
            assert(feature_realises(f, rings, f.1));
            let w = clip_ring_spec(input.0, mn, mx)->Ok_0->Some_0;
            let hs = clip_holes(input.1, mn, mx, o)->Ok_0;
            assert(realises(f.0[k].0, rings[k].0));
            assert(mn == g.box_lo(self.tile) && mx == g.box_hi(self.tile));
            assert(input == self.inputs_view()[j]);
            if k == 0 {
                lemma_ring_entries(f.0[0].0, input.0, w, o, mn, mx);
                assert(from_ring_or_shell(f.0[0].0[i], input.0, o, mn, mx));
            } else {
                assert(rings[k].0 == hs[k - 1]);
                lemma_holes_from(input.1, mn, mx, o);
                let h = choose|h: int|
                    #![trigger input.1[h]]
                    0 <= h < input.1.len() && (clip_ring_spec(input.1[h], mn, mx) matches Ok(Some(wh))
                        && local_ring(wh, o) == Some(hs[k - 1]));
                let wh = clip_ring_spec(input.1[h], mn, mx)->Ok_0->Some_0;
                lemma_ring_entries(f.0[k].0, input.1[h], wh, o, mn, mx);
                assert(from_ring_or_shell(f.0[k].0[i], input.1[h], o, mn, mx));
                assert(exists|h2: int|
                    0 <= h2 < input.1.len() && from_ring_or_shell(f.0[k].0[i], #[trigger] input.1[h2], o, mn, mx));
            }
        }
    }

    /// The tile geometry this slicer clips against.
    pub closed spec fn grid(&self) -> Grid {
        self.grid
    }

    /// The tile this slicer clips into.
    pub closed spec fn tile_spec(&self) -> TileId {
        self.tile
    }

    /// The recorded features in insertion order: each a list of rings (vertices in the tile-local
    /// frame, closed, tagged as a hole or not) and its attribute.
    pub closed spec fn features_view(&self) -> Seq<(Seq<(Seq<V>, bool)>, A)> {
        poly_features_view(self.features@)
    }

    /// In every state of a well-formed slicer, each recorded feature lists its exterior first and
    /// its holes after it, and every ring ends where it starts.
    pub proof fn lemma_view_marked(&self)
        requires
            self.wf(),
        ensures
            forall|j: int|
                0 <= j < self.features_view().len() ==> rings_marked(
                    #[trigger] self.features_view()[j].0,
                ),
    {
    }

    /// Create a slicer bound to `tile`, with the given tile side / per-tile output resolution
    /// `extent` and `buffer` (same coordinate model as [`SlicerOne`](crate::SlicerOne)).
    ///
    /// `InvalidExtent` if `extent` is `0` or greater than `i32::MAX`; `BufferTooLarge` if `buffer`
    /// is not strictly less than half the `extent`.
    pub fn new(extent: u32, buffer: u16, tile: TileId) -> (r: Result<Self, TileError>)
        ensures
            (extent == 0 || extent > i32::MAX) ==> r is Err && r->Err_0 == TileError::InvalidExtent,
            (1 <= extent <= i32::MAX && 2 * buffer >= extent) ==> r is Err && r->Err_0
                == TileError::BufferTooLarge,
            (1 <= extent <= i32::MAX && 2 * buffer < extent) ==> (r matches Ok(s) && s.wf()
                && s.grid().extent == extent && s.grid().buffer == buffer && s.tile_spec() == tile
                && s.features_view().len() == 0 && s.inputs_view().len() == 0),
    {
        let grid = Grid::new(extent, buffer)?;
        let s = PolygonSlicerOne { grid, tile, features: Vec::new() };
        assert(s.features_view() =~= Seq::<(Seq<(Seq<V>, bool)>, A)>::empty());
        Ok(s)
    }

    /// The tile side / per-tile output resolution.
    pub fn extent(&self) -> (r: u32)
        ensures
            r == self.grid().extent,
    {
        proof {
            use_type_invariant(self);
        }
        self.grid.extent()
    }

    /// The buffer kept around the tile, in tile-space units.
    pub fn buffer(&self) -> (r: u16)
        ensures
            r == self.grid().buffer,
    {
        proof {
            use_type_invariant(self);
        }
        self.grid.buffer()
    }

    /// The tile this slicer clips into.
    pub fn tile(&self) -> (r: TileId)
        ensures
            r == self.tile_spec(),
    {
        self.tile
    }

    /// Clip each of `holes` and localize it; the surviving holes in order.
    fn clip_hole_rings(
        &self,
        holes: &[&[V]],
        min: Coord,
        max: Coord,
        o: Coord,
    ) -> (r: Result<Vec<PolyRing<V>>, TileError>)
        requires
            min.x <= max.x,
            min.y <= max.y,
            forall|k: int| 0 <= k < holes@.len() ==> ring_len_ok(#[trigger] holes@[k]@.len() as int),
        ensures
            match clip_holes(holes@.map_values(|h: &[V]| h@), min, max, o) {
                Ok(hs) => r matches Ok(rs) && rs@.len() == hs.len() && forall|k: int|
                    0 <= k < hs.len() ==> (#[trigger] rs@[k]).is_hole && realises(rs@[k].verts@, hs[k])
                        && closed_ring(rs@[k].verts@),
                Err(e) => r == Err::<Vec<PolyRing<V>>, TileError>(e),
            },
    {
        let ghost hv = holes@.map_values(|h: &[V]| h@);
        let mut out: Vec<PolyRing<V>> = Vec::new();
        let mut i: usize = 0;
        proof {
            assert(hv.take(0) =~= Seq::<Seq<V>>::empty());
        }
        while i < holes.len()
            invariant
                min.x <= max.x,
                min.y <= max.y,
                hv == holes@.map_values(|h: &[V]| h@),
                forall|k: int| 0 <= k < holes@.len() ==> ring_len_ok(#[trigger] holes@[k]@.len() as int),
                i <= holes@.len(),
                clip_holes(hv.take(i as int), min, max, o) matches Ok(hs) && out@.len() == hs.len()
                    && forall|k: int|
                    0 <= k < hs.len() ==> (#[trigger] out@[k]).is_hole && realises(out@[k].verts@, hs[k])
                        && closed_ring(out@[k].verts@),
            decreases holes@.len() - i,
        {
            let hole = holes[i];
            let ghost prior = clip_holes(hv.take(i as int), min, max, o)->Ok_0;
            proof {
                assert(hv.take(i + 1).drop_last() =~= hv.take(i as int));
                assert(hv.take(i + 1).last() == hole@);
                assert(ring_len_ok(holes@[i as int]@.len() as int));
            }
            match clip_ring(hole, min, max) {
                Err(e) => {
                    proof {
                        assert(clip_holes(hv.take(i + 1), min, max, o) == Err::<Seq<Seq<(Coord, Option<V>)>>, TileError>(e));
                        lemma_holes_err(hv, min, max, o, i as int + 1, holes@.len() as int);
                        assert(hv.take(holes@.len() as int) =~= hv);
                    }
                    return Err(e);
                },
                Ok(None) => {},
                Ok(Some(ring)) => {
                    let ghost w = clip_ring_spec(hole@, min, max)->Ok_0->Some_0;
                    match localize_ring(&ring, o, Ghost(w)) {
                        Err(e) => {
                            proof {
                                assert(clip_holes(hv.take(i + 1), min, max, o) == Err::<Seq<Seq<(Coord, Option<V>)>>, TileError>(e));
                                lemma_holes_err(hv, min, max, o, i as int + 1, holes@.len() as int);
                                assert(hv.take(holes@.len() as int) =~= hv);
                            }
                            return Err(e);
                        },
                        Ok(lv) => {
                            let ghost out0 = out@;
                            out.push(PolyRing { verts: lv, is_hole: true });
                            proof {
                                let hs = prior.push(local_ring(w, o)->Some_0);
                                assert forall|k: int| 0 <= k < hs.len() implies (#[trigger] out@[k]).is_hole
                                    && realises(out@[k].verts@, hs[k]) && closed_ring(out@[k].verts@) by {
                                    if k < prior.len() {
                                        assert(out@[k] == out0[k]);
                                    }
                                }
                            }
                        },
                    }
                },
            }
            i = i + 1;
        }
        proof {
            assert(hv.take(holes@.len() as int) =~= hv);
        }
        Ok(out)
    }

    /// Add one polygon — `exterior` ring plus `holes` — as an independent feature carrying `attr`,
    /// clipped to this slicer's [`tile`](Self::tile). Recorded only if the exterior survives in the
    /// tile. Rings may be given open or closed (a repeated first/last vertex is fine).
    ///
    /// Atomic: on error nothing is recorded. `Overflow` if the tile's box, a synthetic corner, or a
    /// kept vertex overflows `i32`.
    #[verifier::spinoff_prover]
    #[verifier::rlimit(50)]
    pub fn add_feature_with(&mut self, exterior: &[V], holes: &[&[V]], attr: A) -> (r: Result<
        (),
        TileError,
    >)
        requires
            ring_len_ok(exterior@.len() as int),
            forall|k: int| 0 <= k < holes@.len() ==> ring_len_ok(#[trigger] holes@[k]@.len() as int),
        ensures
            final(self).wf(),
            final(self).grid() == old(self).grid(),
            final(self).tile_spec() == old(self).tile_spec(),
            match polygon_in_tile(
                old(self).grid(),
                old(self).tile_spec(),
                exterior@,
                holes@.map_values(|h: &[V]| h@),
            ) {
                Err(e) => r == Err::<(), TileError>(e) && final(self).features_view() == old(
                    self,
                ).features_view() && final(self).inputs_view() == old(self).inputs_view(),
                Ok(None) => r is Ok && final(self).features_view() == old(self).features_view()
                    && final(self).inputs_view() == old(self).inputs_view(),
                Ok(Some(rings)) => {
                    &&& r is Ok
                    &&& final(self).features_view().len() == old(self).features_view().len() + 1
                    &&& final(self).features_view().drop_last() == old(self).features_view()
                    &&& final(self).inputs_view() == old(self).inputs_view().push(
                        (exterior@, holes@.map_values(|h: &[V]| h@)),
                    )
                    &&& feature_realises(final(self).features_view().last(), rings, attr)
                },
            },
    {
        proof {
            use_type_invariant(&*self);
        }
        let (min, max) = match self.grid.tile_buffered_bounds(self.tile) {
            Ok(b) => b,
            Err(e) => return Err(e),
        };
        let o = Coord { x: min.x + self.grid.buffer, y: min.y + self.grid.buffer };
        let ext = match clip_ring(exterior, min, max) {
            Err(e) => return Err(e),
            Ok(None) => return Ok(()),
            Ok(Some(ext)) => ext,
        };
        let ghost w = clip_ring_spec(exterior@, min, max)->Ok_0->Some_0;
        let lext = match localize_ring(&ext, o, Ghost(w)) {
            Ok(lv) => lv,
            Err(e) => return Err(e),
        };
        let hole_rings = match self.clip_hole_rings(holes, min, max, o) {
            Ok(rs) => rs,
            Err(e) => return Err(e),
        };
        let ghost hs = clip_holes(holes@.map_values(|h: &[V]| h@), min, max, o)->Ok_0;
        let ghost hole_rings0 = hole_rings@;
        let mut rings: Vec<PolyRing<V>> = Vec::new();
        rings.push(PolyRing { verts: lext, is_hole: false });
        let mut hole_rings = hole_rings;
        rings.append(&mut hole_rings);
        let ghost fs0 = self.features@;
        let mut features: Vec<PolyFeature<V, A>> = Vec::new();
        std::mem::swap(&mut features, &mut self.features);
        features.push(PolyFeature { rings, attr, input: Ghost((exterior@, holes@.map_values(|h: &[V]| h@))) });
        proof {
            let rs = seq![(local_ring(w, o)->Some_0, false)] + hs.map_values(
                |h: Seq<(Coord, Option<V>)>| (h, true),
            );
            let f = poly_features_view(features@).last();
            assert(features@.drop_last() =~= fs0);
            assert(poly_features_view(features@).drop_last() =~= poly_features_view(fs0));
            assert forall|k: int| 0 <= k < rs.len() implies (#[trigger] f.0[k]).1 == rs[k].1 && realises(
                f.0[k].0,
                rs[k].0,
            ) by {
                if k >= 1 {
                    assert(f.0[k] == (features@.last().rings@[k].verts@, features@.last().rings@[k].is_hole));
                }
            }
            assert(rings_marked(f.0)) by {
                assert(f.0[0].1 == rs[0].1);
                assert forall|k: int| 1 <= k < f.0.len() implies #[trigger] f.0[k].1 by {
                    assert(f.0[k].1 == rs[k].1);
                }
                assert forall|k: int| 0 <= k < f.0.len() implies closed_ring(#[trigger] f.0[k].0) by {
                    assert(f.0[k] == (features@.last().rings@[k].verts@, features@.last().rings@[k].is_hole));
                    if k >= 1 {
                        assert(features@.last().rings@[k] == hole_rings0[k - 1]);
                    }
                }
            }
            assert forall|j: int| 0 <= j < features@.len() implies rings_marked(
                #[trigger] poly_features_view(features@)[j].0,
            ) by {
                if j < fs0.len() {
                    assert(poly_features_view(features@)[j] == poly_features_view(fs0)[j]);
                }
            }
            assert(polygon_in_tile(self.grid, self.tile, exterior@, holes@.map_values(|h: &[V]| h@))
                == Ok::<Option<Seq<(Seq<(Coord, Option<V>)>, bool)>>, TileError>(Some(rs)));
            assert forall|j: int| 0 <= j < features@.len() implies clipped_from(
                self.grid,
                self.tile,
                features@[j].input@,
                #[trigger] poly_features_view(features@)[j],
            ) by {
                if j < fs0.len() {
                    assert(poly_features_view(features@)[j] == poly_features_view(fs0)[j]);
                    assert(features@[j] == fs0[j]);
                } else {
                    assert(features@[j].input@ == (exterior@, holes@.map_values(|h: &[V]| h@)));
                    assert(poly_features_view(features@)[j] == f);
                    assert(feature_realises(f, rs, attr));
                    assert(f.1 == attr);
                }
            }
        }
        self.features = features;
        proof {
            assert(self.features_view().drop_last() =~= poly_features_view(fs0));
            assert(self.inputs_view() =~= old(self).inputs_view().push((exterior@, holes@.map_values(|h: &[V]| h@))));
        }
        Ok(())
    }

    /// The tile's polygon features, in the order added.
    pub fn iter_features(&self) -> (r: Vec<PolyFeatureView<'_, V, A>>)
        ensures
            r@.len() == self.features_view().len(),
            forall|i: int| 0 <= i < r@.len() ==> #[trigger] r@[i].view() == self.features_view()[i],
    {
        let mut out: Vec<PolyFeatureView<'_, V, A>> = Vec::new();
        let mut i: usize = 0;
        while i < self.features.len()
            invariant
                i <= self.features@.len(),
                out@.len() == i,
                forall|j: int| 0 <= j < i ==> #[trigger] out@[j].view() == self.features_view()[j],
            decreases self.features@.len() - i,
        {
            let f = &self.features[i];
            out.push(PolyFeatureView { rings: f.rings.as_slice(), attr: &f.attr });
            i = i + 1;
        }
        out
    }

    /// Number of polygon features accumulated for the tile.
    pub fn len(&self) -> (r: usize)
        ensures
            r == self.features_view().len(),
    {
        self.features.len()
    }

    /// Whether nothing has been accumulated yet.
    pub fn is_empty(&self) -> (r: bool)
        ensures
            r == (self.features_view().len() == 0),
    {
        self.features.len() == 0
    }

    /// Discard everything accumulated, keeping the extent/buffer/tile config.
    pub fn clear(&mut self)
        ensures
            final(self).wf(),
            final(self).grid() == old(self).grid(),
            final(self).tile_spec() == old(self).tile_spec(),
            final(self).features_view().len() == 0,
            final(self).inputs_view().len() == 0,
    {
        proof {
            use_type_invariant(&*self);
        }
        self.features = Vec::new();
    }
}

impl<V: PolyVertex> PolygonSlicerOne<V, ()> {
    /// Add one polygon (`exterior` + `holes`) with no attribute (see
    /// [`add_feature_with`](Self::add_feature_with)).
    pub fn add_feature(&mut self, exterior: &[V], holes: &[&[V]]) -> (r: Result<(), TileError>)
        requires
            ring_len_ok(exterior@.len() as int),
            forall|k: int| 0 <= k < holes@.len() ==> ring_len_ok(#[trigger] holes@[k]@.len() as int),
        ensures
            final(self).wf(),
            final(self).grid() == old(self).grid(),
            final(self).tile_spec() == old(self).tile_spec(),
            match polygon_in_tile(
                old(self).grid(),
                old(self).tile_spec(),
                exterior@,
                holes@.map_values(|h: &[V]| h@),
            ) {
                Err(e) => r == Err::<(), TileError>(e) && final(self).features_view() == old(
                    self,
                ).features_view() && final(self).inputs_view() == old(self).inputs_view(),
                Ok(None) => r is Ok && final(self).features_view() == old(self).features_view()
                    && final(self).inputs_view() == old(self).inputs_view(),
                Ok(Some(rings)) => {
                    &&& r is Ok
                    &&& final(self).features_view().len() == old(self).features_view().len() + 1
                    &&& final(self).features_view().drop_last() == old(self).features_view()
                    &&& final(self).inputs_view() == old(self).inputs_view().push(
                        (exterior@, holes@.map_values(|h: &[V]| h@)),
                    )
                    &&& feature_realises(final(self).features_view().last(), rings, ())
                },
            },
    {
        proof {
            use_type_invariant(&*self);
        }
        self.add_feature_with(exterior, holes, ())
    }
}

/// Once clipping the holes fails, clipping more holes fails the same way.
proof fn lemma_holes_err<V: Vertex>(hv: Seq<Seq<V>>, min: Coord, max: Coord, o: Coord, n: int, k: int)
    requires
        1 <= n <= k <= hv.len(),
        clip_holes(hv.take(n), min, max, o) is Err,
    ensures
        clip_holes(hv.take(k), min, max, o) == clip_holes(hv.take(n), min, max, o),
    decreases k - n,
{
    if k > n {
        lemma_holes_err(hv, min, max, o, n, k - 1);
        assert(hv.take(k).drop_last() =~= hv.take(k - 1));
    }
}

/// A borrowed view of one clipped polygon feature.
pub struct PolyFeatureView<'a, V, A = ()> {
    rings: &'a [PolyRing<V>],
    attr: &'a A,
}

impl<'a, V, A> PolyFeatureView<'a, V, A> {
    /// The feature's rings and attribute.
    pub closed spec fn view(&self) -> (Seq<(Seq<V>, bool)>, A) {
        (rings_view(self.rings@), *self.attr)
    }

    /// The feature's per-feature attribute.
    pub fn attr(&self) -> (r: &'a A)
        ensures
            *r == self.view().1,
    {
        self.attr
    }

    /// The feature's rings (exterior first, then holes), each in the tile-local frame.
    pub fn iter_rings(&self) -> (r: Vec<RingView<'a, V>>)
        ensures
            r@.len() == self.view().0.len(),
            forall|i: int| 0 <= i < r@.len() ==> #[trigger] r@[i].view() == self.view().0[i],
    {
        let mut out: Vec<RingView<'a, V>> = Vec::new();
        let mut i: usize = 0;
        while i < self.rings.len()
            invariant
                i <= self.rings@.len(),
                out@.len() == i,
                forall|j: int| 0 <= j < i ==> #[trigger] out@[j].view() == self.view().0[j],
            decreases self.rings@.len() - i,
        {
            let r = &self.rings[i];
            out.push(RingView { verts: r.verts.as_slice(), is_hole: r.is_hole });
            i = i + 1;
        }
        out
    }
}

/// A borrowed view of one clipped ring.
pub struct RingView<'a, V> {
    verts: &'a [V],
    is_hole: bool,
}

impl<'a, V> RingView<'a, V> {
    /// The ring's vertices and whether it is a hole.
    pub closed spec fn view(&self) -> (Seq<V>, bool) {
        (self.verts@, self.is_hole)
    }

    /// The ring's vertices in the tile-local frame, closed (first vertex repeated at the end).
    pub fn vertices(&self) -> (r: &'a [V])
        ensures
            r@ == self.view().0,
    {
        self.verts
    }

    /// Whether this ring is an interior ring (a hole).
    pub fn is_hole(&self) -> (r: bool)
        ensures
            r == self.view().1,
    {
        self.is_hole
    }
}

} // verus!
