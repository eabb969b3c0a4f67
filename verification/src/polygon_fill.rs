//! A polygon slicer keeps a polygon's fill inside the tile's box.
//!
//! Each ring keeps its fill inside the box when clipped, and moving every position of a ring and
//! a point by the same offset into the tile's local frame changes nothing about which side of the
//! ring the point lies; so a point of the box is in the polygon exactly when its local position is
//! in the tile's piece of it.

use vstd::prelude::*;

use crate::clip_polygon::clip_ring_spec;
use crate::clip_polyline::{in_box, local_of};
use crate::fill::{entry_pos, law_clip_ring_keeps_fill_in_box, ring_positions};
use crate::geom::{cross, crosses_ray, edge_tail, in_ring, on_segment, ray_count, ring_len};
use crate::grid::Grid;
use crate::polygon_slicer::{clip_holes, local_ring, polygon_in_tile};
use crate::tile::TileId;
use crate::vertex::{Coord, Vertex};

verus! {

/// `pt` is in the polygon `exterior` with `holes`: inside its exterior ring and inside none of its
/// holes (a point on a ring's edge counting as inside that ring).
pub open spec fn in_polygon<V: Vertex>(pt: Coord, exterior: Seq<V>, holes: Seq<Seq<V>>) -> bool {
    &&& in_ring(pt, ring_positions(exterior))
    &&& forall|k: int| 0 <= k < holes.len() ==> !in_ring(pt, ring_positions(#[trigger] holes[k]))
}

/// `pt` is in the clipped rings of a polygon: inside a ring not marked a hole, and inside none
/// marked a hole.
pub open spec fn in_rings<V>(pt: Coord, rings: Seq<(Seq<(Coord, Option<V>)>, bool)>) -> bool {
    &&& exists|k: int| 0 <= k < rings.len() && !rings[k].1 && in_ring(pt, entry_pos(#[trigger] rings[k].0))
    &&& forall|k: int| 0 <= k < rings.len() && rings[k].1 ==> !in_ring(pt, entry_pos(#[trigger] rings[k].0))
}

/// `b` is `a` moved by `-o`.
pub open spec fn shifted(a: Coord, b: Coord, o: Coord) -> bool {
    b.x == a.x - o.x && b.y == a.y - o.y
}

/// Moving all three points by one offset keeps their cross product.
proof fn lemma_cross_shift(a: Coord, b: Coord, c: Coord, a2: Coord, b2: Coord, c2: Coord, o: Coord)
    requires
        shifted(a, a2, o),
        shifted(b, b2, o),
        shifted(c, c2, o),
    ensures
        cross(a2, b2, c2) == cross(a, b, c),
        on_segment(c2, a2, b2) == on_segment(c, a, b),
        crosses_ray(c2, a2, b2) == crosses_ray(c, a, b),
{
    assert(b2.x - a2.x == b.x - a.x && c2.y - a2.y == c.y - a.y);
    assert(b2.y - a2.y == b.y - a.y && c2.x - a2.x == c.x - a.x);
}

/// Moving a ring and a point by one offset keeps the crossing count.
proof fn lemma_count_shift(p: Coord, r: Seq<Coord>, p2: Coord, r2: Seq<Coord>, o: Coord, m: int, k: int)
    requires
        r2.len() == r.len(),
        forall|i: int| 0 <= i < r.len() ==> shifted(#[trigger] r[i], r2[i], o),
        shifted(p, p2, o),
        0 <= k <= m <= r.len(),
    ensures
        ray_count(p2, r2, m, k) == ray_count(p, r, m, k),
    decreases k,
{
    if k > 0 {
        lemma_count_shift(p, r, p2, r2, o, m, k - 1);
        let t = edge_tail(r, m, k - 1);
        let t2 = edge_tail(r2, m, k - 1);
        assert(shifted(t, t2, o)) by {
            if k - 1 == 0 {
                assert(shifted(r[m - 1], r2[m - 1], o));
            } else {
                assert(shifted(r[k - 2], r2[k - 2], o));
            }
        }
        assert(shifted(r[k - 1], r2[k - 1], o));
        lemma_cross_shift(t, r[k - 1], p, t2, r2[k - 1], p2, o);
    }
}

/// Moving a ring and a point by one offset keeps the point inside, or outside, the ring.
proof fn lemma_in_ring_shift(p: Coord, r: Seq<Coord>, p2: Coord, r2: Seq<Coord>, o: Coord)
    requires
        r2.len() == r.len(),
        forall|i: int| 0 <= i < r.len() ==> shifted(#[trigger] r[i], r2[i], o),
        shifted(p, p2, o),
    ensures
        in_ring(p2, r2) == in_ring(p, r),
{
    let n = r.len() as int;
    if n >= 1 {
        assert(shifted(r[n - 1], r2[n - 1], o) && shifted(r[0], r2[0], o));
        assert((r2[n - 1] == r2[0]) == (r[n - 1] == r[0]));
    }
    let m = ring_len(r);
    assert(ring_len(r2) == m);
    if 0 <= m <= n {
        lemma_count_shift(p, r, p2, r2, o, m, m);
        let on = exists|i: int| 0 <= i < m && on_segment(p, edge_tail(r, m, i), r[i]);
        let on2 = exists|i: int| 0 <= i < m && on_segment(p2, edge_tail(r2, m, i), r2[i]);
        assert forall|i: int| 0 <= i < m implies on_segment(p2, edge_tail(r2, m, i), #[trigger] r2[i])
            == on_segment(p, edge_tail(r, m, i), r[i]) by {
            let t = edge_tail(r, m, i);
            let t2 = edge_tail(r2, m, i);
            assert(shifted(t, t2, o)) by {
                if i == 0 {
                    assert(shifted(r[m - 1], r2[m - 1], o));
                } else {
                    assert(shifted(r[i - 1], r2[i - 1], o));
                }
            }
            assert(shifted(r[i], r2[i], o));
            lemma_cross_shift(t, r[i], p, t2, r2[i], p2, o);
        }
        assert(on == on2) by {
            if on {
                let i = choose|i: int| 0 <= i < m && on_segment(p, edge_tail(r, m, i), r[i]);
                assert(on_segment(p2, edge_tail(r2, m, i), r2[i]));
            }
            if on2 {
                let i = choose|i: int| 0 <= i < m && on_segment(p2, edge_tail(r2, m, i), r2[i]);
                assert(on_segment(p, edge_tail(r, m, i), r[i]));
            }
        }
    }
}

/// A clipped ring moved into the local frame holds the moved point exactly when it held the point.
proof fn lemma_local_ring_fill<V: Vertex>(w: Seq<(Coord, Option<V>)>, o: Coord, pt: Coord, lp: Coord)
    requires
        local_ring(w, o) is Some,
        shifted(pt, lp, o),
    ensures
        in_ring(lp, entry_pos(local_ring(w, o)->Some_0)) == in_ring(pt, entry_pos(w)),
{
    let lw = local_ring(w, o)->Some_0;
    assert forall|i: int| 0 <= i < entry_pos(w).len() implies shifted(
        #[trigger] entry_pos(w)[i],
        entry_pos(lw)[i],
        o,
    ) by {
        assert(local_of(w[i].0, o) is Some);
    }
    lemma_in_ring_shift(pt, entry_pos(w), lp, entry_pos(lw), o);
}

/// The holes that survive the tile, moved into its frame, hold the moved point exactly when the
/// input holes hold the point.
proof fn lemma_holes_fill<V: Vertex>(
    holes: Seq<Seq<V>>,
    min: Coord,
    max: Coord,
    o: Coord,
    pt: Coord,
    lp: Coord,
)
    requires
        in_box(pt, min, max),
        shifted(pt, lp, o),
        clip_holes(holes, min, max, o) is Ok,
    ensures
        (forall|k: int| 0 <= k < holes.len() ==> !in_ring(pt, ring_positions(#[trigger] holes[k])))
            == (forall|j: int|
            0 <= j < clip_holes(holes, min, max, o)->Ok_0.len() ==> !in_ring(
                lp,
                entry_pos(#[trigger] clip_holes(holes, min, max, o)->Ok_0[j]),
            )),
    decreases holes.len(),
{
    if holes.len() > 0 {
        let init = holes.drop_last();
        let h = holes.last();
        lemma_holes_fill(init, min, max, o, pt, lp);
        let prior = clip_holes(init, min, max, o)->Ok_0;
        let hs = clip_holes(holes, min, max, o)->Ok_0;
        law_clip_ring_keeps_fill_in_box(h, min, max, pt);
        let out_all = forall|k: int| 0 <= k < holes.len() ==> !in_ring(pt, ring_positions(#[trigger] holes[k]));
        let out_init = forall|k: int| 0 <= k < init.len() ==> !in_ring(pt, ring_positions(#[trigger] init[k]));
        assert(out_all == (out_init && !in_ring(pt, ring_positions(h)))) by {
            if out_all {
                assert forall|k: int| 0 <= k < init.len() implies !in_ring(pt, ring_positions(#[trigger] init[k])) by {
                    assert(init[k] == holes[k]);
                }
                assert(h == holes[holes.len() - 1]);
            }
            if out_init && !in_ring(pt, ring_positions(h)) {
                assert forall|k: int| 0 <= k < holes.len() implies !in_ring(pt, ring_positions(#[trigger] holes[k])) by {
                    if k < init.len() {
                        assert(init[k] == holes[k]);
                    }
                }
            }
        }
        match clip_ring_spec(h, min, max) {
            Ok(None) => {
                assert(hs == prior);
            },
            Ok(Some(w)) => {
                let lw = local_ring(w, o)->Some_0;
                assert(hs == prior.push(lw));
                lemma_local_ring_fill(w, o, pt, lp);
                let in_all = forall|j: int| 0 <= j < hs.len() ==> !in_ring(lp, entry_pos(#[trigger] hs[j]));
                let in_prior = forall|j: int| 0 <= j < prior.len() ==> !in_ring(lp, entry_pos(#[trigger] prior[j]));
                assert(in_all == (in_prior && !in_ring(lp, entry_pos(lw)))) by {
                    if in_all {
                        assert forall|j: int| 0 <= j < prior.len() implies !in_ring(lp, entry_pos(#[trigger] prior[j])) by {
                            assert(hs[j] == prior[j]);
                        }
                        assert(hs[prior.len() as int] == lw);
                    }
                    if in_prior && !in_ring(lp, entry_pos(lw)) {
                        assert forall|j: int| 0 <= j < hs.len() implies !in_ring(lp, entry_pos(#[trigger] hs[j])) by {
                            if j < prior.len() {
                                assert(hs[j] == prior[j]);
                            }
                        }
                    }
                }
            },
            Err(_) => {},
        }
    }
}

/// The rings of a clipped polygon, its exterior first and then its holes, hold a point exactly
/// when the exterior does and no hole does.
proof fn lemma_in_rings_split<V>(pt: Coord, lw: Seq<(Coord, Option<V>)>, hs: Seq<Seq<(Coord, Option<V>)>>)
    ensures
        in_rings(pt, seq![(lw, false)] + hs.map_values(|h: Seq<(Coord, Option<V>)>| (h, true))) == (
        in_ring(pt, entry_pos(lw)) && forall|j: int|
            0 <= j < hs.len() ==> !in_ring(pt, entry_pos(#[trigger] hs[j]))),
{
    let rings = seq![(lw, false)] + hs.map_values(|h: Seq<(Coord, Option<V>)>| (h, true));
    assert(rings.len() == hs.len() + 1);
    assert(rings[0] == (lw, false));
    assert forall|j: int| 0 <= j < hs.len() implies #[trigger] rings[j + 1] == (hs[j], true) by {
        assert(rings[j + 1] == hs.map_values(|h: Seq<(Coord, Option<V>)>| (h, true))[j]);
    }
    let ext_in = exists|k: int|
        0 <= k < rings.len() && !rings[k].1 && in_ring(pt, entry_pos(#[trigger] rings[k].0));
    assert(ext_in == in_ring(pt, entry_pos(lw))) by {
        if ext_in {
            let k = choose|k: int|
                0 <= k < rings.len() && !rings[k].1 && in_ring(pt, entry_pos(#[trigger] rings[k].0));
            if k >= 1 {
                assert(rings[(k - 1) + 1] == (hs[k - 1], true));
            }
        } else {
            assert(!(0 <= 0 < rings.len() && !rings[0].1 && in_ring(pt, entry_pos(rings[0].0))));
        }
    }
    let holes_out = forall|k: int|
        0 <= k < rings.len() && rings[k].1 ==> !in_ring(pt, entry_pos(#[trigger] rings[k].0));
    let hs_out = forall|j: int| 0 <= j < hs.len() ==> !in_ring(pt, entry_pos(#[trigger] hs[j]));
    assert(holes_out == hs_out) by {
        if holes_out {
            assert forall|j: int| 0 <= j < hs.len() implies !in_ring(pt, entry_pos(#[trigger] hs[j])) by {
                assert(rings[j + 1] == (hs[j], true));
                assert(!in_ring(pt, entry_pos(rings[j + 1].0)));
            }
        }
        if hs_out {
            assert forall|k: int| 0 <= k < rings.len() && rings[k].1 implies !in_ring(
                pt,
                entry_pos(#[trigger] rings[k].0),
            ) by {
                assert(rings[(k - 1) + 1] == (hs[k - 1], true));
            }
        }
    }
}

/// What the polygon slicer records for a tile is built from the exterior's clip and the holes'.
proof fn lemma_polygon_shape<V: Vertex>(
    grid: Grid,
    tile: TileId,
    exterior: Seq<V>,
    holes: Seq<Seq<V>>,
    min: Coord,
    max: Coord,
)
    requires
        grid.box_of(tile) == Some((min, max)),
    ensures
        (polygon_in_tile(grid, tile, exterior, holes) is Ok && polygon_in_tile(
            grid,
            tile,
            exterior,
            holes,
        )->Ok_0 is None) ==> (clip_ring_spec(exterior, min, max) is Ok && clip_ring_spec(
            exterior,
            min,
            max,
        )->Ok_0 is None),
        (polygon_in_tile(grid, tile, exterior, holes) is Ok && polygon_in_tile(
            grid,
            tile,
            exterior,
            holes,
        )->Ok_0 is Some) ==> (clip_ring_spec(exterior, min, max) is Ok && clip_ring_spec(
            exterior,
            min,
            max,
        )->Ok_0 is Some && local_ring(
            clip_ring_spec(exterior, min, max)->Ok_0->Some_0,
            grid.origin_of(min),
        ) is Some && clip_holes(holes, min, max, grid.origin_of(min)) is Ok && polygon_in_tile(
            grid,
            tile,
            exterior,
            holes,
        )->Ok_0->Some_0 == seq![
            (
                local_ring(
                    clip_ring_spec(exterior, min, max)->Ok_0->Some_0,
                    grid.origin_of(min),
                )->Some_0,
                false,
            ),
        ] + clip_holes(holes, min, max, grid.origin_of(min))->Ok_0.map_values(
            |h: Seq<(Coord, Option<V>)>| (h, true),
        )),
{
}

/// A polygon slicer keeps the polygon's fill inside the tile's box: a point of the box is in the
/// polygon (inside its exterior and inside none of its holes) exactly when its position in the
/// tile's frame is in the rings the slicer records for the tile, and a polygon the slicer records
/// nothing of holds no point of the box.
pub proof fn law_polygon_keeps_fill_in_box<V: Vertex>(
    grid: Grid,
    tile: TileId,
    exterior: Seq<V>,
    holes: Seq<Seq<V>>,
    pt: Coord,
)
    requires
        grid.wf(),
        grid.box_of(tile) is Some,
        in_box(pt, grid.box_lo(tile), grid.box_hi(tile)),
    ensures
        local_of(pt, grid.origin_of(grid.box_lo(tile))) is Some,
        polygon_in_tile(grid, tile, exterior, holes) matches Ok(None) ==> !in_polygon(
            pt,
            exterior,
            holes,
        ),
        polygon_in_tile(grid, tile, exterior, holes) matches Ok(Some(rings)) ==> in_rings(
            local_of(pt, grid.origin_of(grid.box_lo(tile)))->Some_0,
            rings,
        ) == in_polygon(pt, exterior, holes),
{
    let (min, max) = grid.box_of(tile)->Some_0;
    let o = grid.origin_of(min);
    assert(local_of(pt, o) is Some);
    let lp = local_of(pt, o)->Some_0;
    assert(shifted(pt, lp, o));
    law_clip_ring_keeps_fill_in_box(exterior, min, max, pt);
    lemma_polygon_shape(grid, tile, exterior, holes, min, max);
    if let Ok(Some(rings)) = polygon_in_tile(grid, tile, exterior, holes) {
        let w = clip_ring_spec(exterior, min, max)->Ok_0->Some_0;
        let lw = local_ring(w, o)->Some_0;
        let hs = clip_holes(holes, min, max, o)->Ok_0;
        lemma_local_ring_fill(w, o, pt, lp);
        lemma_holes_fill(holes, min, max, o, pt, lp);
        lemma_in_rings_split(lp, lw, hs);
    }
}

} // verus!
