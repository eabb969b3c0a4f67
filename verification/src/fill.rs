//! Clipping a ring keeps its fill inside the tile's box.
//!
//! Inside the box the clipped ring has exactly the input ring's edges; outside, each excursion it
//! drops is bridged either by its own vertices or by a detour winding round the box as the
//! excursion does. Crossings of a ray from a point of the box split the same way, so every point
//! of the box is inside the clipped ring exactly when it is inside the input ring.

use vstd::prelude::*;

use crate::clip_polygon::{
    bridge, clip_ring_spec, detour_spec, edge_hit, fill_spec, first_arc_start, gap_len, half,
    kept, lemma_arc_start_kept, lemma_ring_pts_len, lemma_walk_next, original, piece, ray_step,
    ray_wind, ring_pts,
    shell_corner, shell_fits, synthetic, trim_closing, walk,
};
use crate::grid::dedup;
use crate::error::TileError;
use crate::clip_polyline::{bbox_meets, corners_one_side, in_box, touches};
use crate::geom::{cross, crosses_ray, edge_tail, in_ring, on_segment, ray_count, ring_len, ring_turn, Turn};
use crate::roundtrip::lemma_dedup_distinct;
use crate::shell::{
    law_clip_ring_keeps_touching_edges, law_clip_ring_touching_edges_are_input_edges,
    lemma_arc_start_after_gap, lemma_detour_apart, lemma_walk_prefix,
    lemma_gap_len, lemma_half_between, lemma_mod_next, lemma_mod_prev, lemma_piece_at,
    lemma_walk_sound, lemma_walk_zero, sound_pair, chain_sound,
};
use crate::vertex::{Coord, Vertex};

verus! {

/// The signed crossing of segment `a → b` with the `+x` ray from `p`, counted half-open in `y`:
/// `+1` upward, `-1` downward.
pub open spec fn sc(p: Coord, a: Coord, b: Coord) -> int {
    if crosses_ray(p, a, b) {
        if b.y > a.y {
            1
        } else {
            -1
        }
    } else {
        0
    }
}

/// The signed crossings of the open path `q` with the `+x` ray from `p`.
pub open spec fn pw(p: Coord, q: Seq<Coord>) -> int
    decreases q.len(),
{
    if q.len() < 2 {
        0
    } else {
        pw(p, q.drop_last()) + sc(p, q[q.len() - 2], q[q.len() - 1])
    }
}

/// The cross product against `a → b` is affine: positive at the four corners of a box means
/// positive everywhere in it, and likewise negative.
proof fn lemma_corners_bound(a: Coord, b: Coord, min: Coord, max: Coord, q: Coord)
    requires
        in_box(q, min, max),
    ensures
        corners_one_side(a, b, min, max) ==> cross(a, b, q) != 0,
        corners_one_side(a, b, min, max) && cross(a, b, min) > 0 ==> cross(a, b, q) > 0,
        corners_one_side(a, b, min, max) && cross(a, b, min) < 0 ==> cross(a, b, q) < 0,
{
    let ax = a.x as int;
    let ay = a.y as int;
    let dx = b.x - a.x;
    let dy = b.y - a.y;
    let c0 = cross(a, b, min);
    let c1 = cross(a, b, Coord { x: max.x, y: min.y });
    let c2 = cross(a, b, Coord { x: min.x, y: max.y });
    let c3 = cross(a, b, max);
    let u = q.x - min.x;
    let v = q.y - min.y;
    let w = max.x - min.x;
    let h = max.y - min.y;
    let cq = cross(a, b, q);
    assert(cq == c0 + dx * v - dy * u) by (nonlinear_arith)
        requires
            cq == dx * (q.y - ay) - dy * (q.x - ax),
            c0 == dx * (min.y - ay) - dy * (min.x - ax),
            u == q.x - min.x,
            v == q.y - min.y,
    ;
    assert(c1 == c0 - dy * w) by (nonlinear_arith)
        requires
            c1 == dx * (min.y - ay) - dy * (max.x - ax),
            c0 == dx * (min.y - ay) - dy * (min.x - ax),
            w == max.x - min.x,
    ;
    assert(c2 == c0 + dx * h) by (nonlinear_arith)
        requires
            c2 == dx * (max.y - ay) - dy * (min.x - ax),
            c0 == dx * (min.y - ay) - dy * (min.x - ax),
            h == max.y - min.y,
    ;
    assert(c3 == c0 + dx * h - dy * w) by (nonlinear_arith)
        requires
            c3 == dx * (max.y - ay) - dy * (max.x - ax),
            c0 == dx * (min.y - ay) - dy * (min.x - ax),
            w == max.x - min.x,
            h == max.y - min.y,
    ;
    // `dx * v` lies between `0` and `dx * h`, `dy * u` between `0` and `dy * w`.
    assert((dx * v >= 0 && dx * v <= dx * h) || (dx * v <= 0 && dx * v >= dx * h)) by (nonlinear_arith)
        requires
            0 <= v <= h,
    ;
    assert((dy * u >= 0 && dy * u <= dy * w) || (dy * u <= 0 && dy * u >= dy * w)) by (nonlinear_arith)
        requires
            0 <= u <= w,
    ;
}


/// Two points of the box on which the cross product against `a → b` does not share a strict
/// sign keep the box's corners off one side of the segment's line.
proof fn lemma_not_one_side(a: Coord, b: Coord, min: Coord, max: Coord, q1: Coord, q2: Coord)
    requires
        in_box(q1, min, max),
        in_box(q2, min, max),
        !(cross(a, b, q1) > 0 && cross(a, b, q2) > 0),
        !(cross(a, b, q1) < 0 && cross(a, b, q2) < 0),
    ensures
        !corners_one_side(a, b, min, max),
{
    lemma_corners_bound(a, b, min, max, q1);
    lemma_corners_bound(a, b, min, max, q2);
}

/// The numerator `ray_step` compares against is the cross product at the ray's start.
proof fn lemma_num_is_cross(a: Coord, b: Coord, y: int, x: int)
    requires
        fits_i32(x),
        fits_i32(y),
    ensures
        (a.x - x) * (b.y - a.y) + (b.x - a.x) * (y - a.y) == cross(a, b, Coord { x: x as i32, y: y as i32 }),
        (a.x - x) * (b.y - a.y) + (b.x - a.x) * (y - a.y) == (a.x - x) * (b.y - y) + (b.x - x) * (y - a.y),
{
    let ax = a.x as int;
    let ay = a.y as int;
    let bx = b.x as int;
    let by = b.y as int;
    assert((ax - x) * (by - ay) + (bx - ax) * (y - ay) == (bx - ax) * (y - ay) - (by - ay) * (x - ax))
        by (nonlinear_arith);
    assert((ax - x) * (by - ay) + (bx - ax) * (y - ay) == (ax - x) * (by - y) + (bx - x) * (y - ay))
        by (nonlinear_arith);
}

/// `v` fits `i32`.
pub open spec fn fits_i32(v: int) -> bool {
    i32::MIN <= v <= i32::MAX
}

/// Away from the segment, the half-open signed crossing with the ray from `p` is `ray_step`
/// against the ray's start.
proof fn lemma_sc_step(p: Coord, a: Coord, b: Coord)
    requires
        !on_segment(p, a, b),
    ensures
        sc(p, a, b) == ray_step(a, b, p.y as int, p.x as int),
{
    let ax = a.x as int;
    let ay = a.y as int;
    let bx = b.x as int;
    let by = b.y as int;
    let px = p.x as int;
    let py = p.y as int;
    lemma_num_is_cross(a, b, py, px);
    assert(Coord { x: px as i32, y: py as i32 } == p);
    let num = (ax - px) * (by - ay) + (bx - ax) * (py - ay);
    if (ay > py) != (by > py) && num == 0 {
        // `p` would lie on the segment.
        assert((ax - px) * (by - py) + (bx - px) * (py - ay) == 0);
        if ay <= py {
            assert(by - py > 0 && py - ay >= 0);
            if px < ax && px < bx {
                assert((ax - px) * (by - py) + (bx - px) * (py - ay) > 0) by (nonlinear_arith)
                    requires
                        ax - px > 0,
                        bx - px > 0,
                        by - py > 0,
                        py - ay >= 0,
                ;
            }
            if px > ax && px > bx {
                assert((ax - px) * (by - py) + (bx - px) * (py - ay) < 0) by (nonlinear_arith)
                    requires
                        ax - px < 0,
                        bx - px < 0,
                        by - py > 0,
                        py - ay >= 0,
                ;
            }
        } else {
            assert(by - py <= 0 && py - ay < 0);
            if px < ax && px < bx {
                assert((ax - px) * (by - py) + (bx - px) * (py - ay) < 0) by (nonlinear_arith)
                    requires
                        ax - px > 0,
                        bx - px > 0,
                        by - py <= 0,
                        py - ay < 0,
                ;
            }
            if px > ax && px > bx {
                assert((ax - px) * (by - py) + (bx - px) * (py - ay) > 0) by (nonlinear_arith)
                    requires
                        ax - px < 0,
                        bx - px < 0,
                        by - py <= 0,
                        py - ay < 0,
                ;
            }
        }
        assert(on_segment(p, a, b));
    }
}

/// Points with `x` beyond both ends of a segment that straddles height `y` see its crossing on
/// their side: the numerator takes the sign of `dy` when both ends lie right of `x`, the opposite
/// when both lie left.
proof fn lemma_num_sign(a: Coord, b: Coord, y: int, x: int)
    requires
        (a.y > y) != (b.y > y),
    ensures
        (a.x > x && b.x > x) ==> ((a.x - x) * (b.y - y) + (b.x - x) * (y - a.y)) * (b.y - a.y) > 0,
        (a.x <= x && b.x <= x) ==> ((a.x - x) * (b.y - y) + (b.x - x) * (y - a.y)) * (b.y - a.y) <= 0,
{
    let ax = a.x as int;
    let ay = a.y as int;
    let bx = b.x as int;
    let by = b.y as int;
    let n = (ax - x) * (by - y) + (bx - x) * (y - ay);
    if ay <= y {
        assert(by - y > 0 && y - ay >= 0 && by - ay > 0);
        if ax > x && bx > x {
            assert(n * (by - ay) > 0) by (nonlinear_arith)
                requires
                    n == (ax - x) * (by - y) + (bx - x) * (y - ay),
                    ax - x > 0,
                    bx - x > 0,
                    by - y > 0,
                    y - ay >= 0,
                    by - ay > 0,
            ;
        }
        if ax <= x && bx <= x {
            assert(n * (by - ay) <= 0) by (nonlinear_arith)
                requires
                    n == (ax - x) * (by - y) + (bx - x) * (y - ay),
                    ax - x <= 0,
                    bx - x <= 0,
                    by - y > 0,
                    y - ay >= 0,
                    by - ay > 0,
            ;
        }
    } else {
        assert(by - y <= 0 && y - ay < 0 && by - ay < 0);
        if ax > x && bx > x {
            assert(n * (by - ay) > 0) by (nonlinear_arith)
                requires
                    n == (ax - x) * (by - y) + (bx - x) * (y - ay),
                    ax - x > 0,
                    bx - x > 0,
                    by - y <= 0,
                    y - ay < 0,
                    by - ay < 0,
            ;
        }
        if ax <= x && bx <= x {
            assert(n * (by - ay) <= 0) by (nonlinear_arith)
                requires
                    n == (ax - x) * (by - y) + (bx - x) * (y - ay),
                    ax - x <= 0,
                    bx - x <= 0,
                    by - y <= 0,
                    y - ay < 0,
                    by - ay < 0,
            ;
        }
    }
}

/// For a segment that misses the box, the crossing with a ray at a height of the box is the same
/// from anywhere across the box: whether it lies right of `x` does not depend on which `x` of the
/// box.
proof fn lemma_step_across(a: Coord, b: Coord, min: Coord, max: Coord, y: int, x: int)
    requires
        !touches(a, b, min, max),
        min.y <= y <= max.y,
        min.x <= x <= max.x,
    ensures
        ray_step(a, b, y, x) == ray_step(a, b, y, max.x as int),
{
    let mx = max.x as int;
    if (a.y > y) != (b.y > y) {
        let dy = b.y - a.y;
        lemma_num_is_cross(a, b, y, x);
        lemma_num_is_cross(a, b, y, mx);
        let n1 = (a.x - x) * dy + (b.x - a.x) * (y - a.y);
        let n2 = (a.x - mx) * dy + (b.x - a.x) * (y - a.y);
        let q1 = Coord { x: x as i32, y: y as i32 };
        let q2 = Coord { x: mx as i32, y: y as i32 };
        let c1 = (n1 > 0 && dy > 0) || (n1 < 0 && dy < 0);
        let c2 = (n2 > 0 && dy > 0) || (n2 < 0 && dy < 0);
        if c1 != c2 {
            lemma_not_one_side(a, b, min, max, q1, q2);
            lemma_num_sign(a, b, y, x);
            lemma_num_sign(a, b, y, mx);
            lemma_sign_product(n1, dy);
            lemma_sign_product(n2, dy);
            assert(bbox_meets(a, b, min, max));
            assert(touches(a, b, min, max));
        }
    }
}


/// A product is positive exactly when both factors share a strict sign.
proof fn lemma_sign_product(n: int, d: int)
    ensures
        (n * d > 0) == ((n > 0 && d > 0) || (n < 0 && d < 0)),
        (n * d < 0) == ((n > 0 && d < 0) || (n < 0 && d > 0)),
{
    if n > 0 && d > 0 {
        assert(n * d > 0) by (nonlinear_arith)
            requires
                n > 0,
                d > 0,
        ;
    } else if n < 0 && d < 0 {
        assert(n * d > 0) by (nonlinear_arith)
            requires
                n < 0,
                d < 0,
        ;
    } else if n > 0 && d < 0 {
        assert(n * d < 0) by (nonlinear_arith)
            requires
                n > 0,
                d < 0,
        ;
    } else if n < 0 && d > 0 {
        assert(n * d < 0) by (nonlinear_arith)
            requires
                n < 0,
                d > 0,
        ;
    } else {
        assert(n * d == 0) by (nonlinear_arith)
            requires
                n == 0 || d == 0,
        ;
    }
}


/// `1` when `p` lies above height `y`.
pub open spec fn up(p: Coord, y: int) -> int {
    if p.y > y {
        1
    } else {
        0
    }
}

/// How `p`, when right of `x`, shifts the crossings right of `x` as the ray's height moves from
/// `y1` to `y2`.
pub open spec fn shift(p: Coord, x: int, y1: int, y2: int) -> int {
    if p.x > x {
        up(p, y2) - up(p, y1)
    } else {
        0
    }
}

/// `ray_step` in terms of the sign of its numerator.
proof fn lemma_step_by_sign(a: Coord, b: Coord, y: int, x: int)
    ensures
        ray_step(a, b, y, x) == (if ((a.x - x) * (b.y - a.y) + (b.x - a.x) * (y - a.y)) * (b.y
            - a.y) > 0 {
            up(b, y) - up(a, y)
        } else {
            0int
        }),
{
    let dy = b.y - a.y;
    let n = (a.x - x) * dy + (b.x - a.x) * (y - a.y);
    lemma_sign_product(n, dy);
    if (a.y > y) == (b.y > y) {
        if n * dy > 0 {
            assert(up(b, y) == up(a, y));
        }
    }
}

/// A linear function positive (negative) times `dy` at both ends of an interval is so inside it.
proof fn lemma_interp(g1: int, g2: int, gt: int, dx: int, dy: int, y1: int, y2: int, t: int)
    requires
        gt - g1 == dx * (t - y1),
        g2 - g1 == dx * (y2 - y1),
        (y1 <= t <= y2) || (y2 <= t <= y1),
    ensures
        (g1 * dy > 0 && g2 * dy > 0) ==> gt * dy > 0,
        (g1 * dy < 0 && g2 * dy < 0) ==> gt * dy < 0,
{
    assert(gt * dy == g1 * dy + dx * dy * (t - y1)) by (nonlinear_arith)
        requires
            gt - g1 == dx * (t - y1),
    ;
    assert(gt * dy == g2 * dy - dx * dy * (y2 - t)) by (nonlinear_arith)
        requires
            gt - g1 == dx * (t - y1),
            g2 - g1 == dx * (y2 - y1),
    ;
    if y1 <= t <= y2 {
        if dx * dy >= 0 {
            assert(dx * dy * (t - y1) >= 0 && dx * dy * (y2 - t) >= 0) by (nonlinear_arith)
                requires
                    dx * dy >= 0,
                    t - y1 >= 0,
                    y2 - t >= 0,
            ;
        } else {
            assert(dx * dy * (t - y1) <= 0 && dx * dy * (y2 - t) <= 0) by (nonlinear_arith)
                requires
                    dx * dy < 0,
                    t - y1 >= 0,
                    y2 - t >= 0,
            ;
        }
    } else {
        if dx * dy >= 0 {
            assert(dx * dy * (t - y1) <= 0 && dx * dy * (y2 - t) <= 0) by (nonlinear_arith)
                requires
                    dx * dy >= 0,
                    t - y1 <= 0,
                    y2 - t <= 0,
            ;
        } else {
            assert(dx * dy * (t - y1) >= 0 && dx * dy * (y2 - t) >= 0) by (nonlinear_arith)
                requires
                    dx * dy < 0,
                    t - y1 <= 0,
                    y2 - t <= 0,
            ;
        }
    }
}

/// Moving the ray's height within the box changes a missing segment's crossings right of the box
/// only by the shifts of its ends.
#[verifier::spinoff_prover]
proof fn lemma_step_sweep(a: Coord, b: Coord, min: Coord, max: Coord, y1: int, y2: int)
    requires
        !touches(a, b, min, max),
        min.y <= y1 <= max.y,
        min.y <= y2 <= max.y,
        min.x <= max.x,
    ensures
        ray_step(a, b, y2, max.x as int) - ray_step(a, b, y1, max.x as int) == shift(
            b,
            max.x as int,
            y1,
            y2,
        ) - shift(a, max.x as int, y1, y2),
{
    let mx = max.x as int;
    let ax = a.x as int;
    let ay = a.y as int;
    let bx = b.x as int;
    let by = b.y as int;
    let dx = bx - ax;
    let dy = by - ay;
    let g1 = (ax - mx) * dy + dx * (y1 - ay);
    let g2 = (ax - mx) * dy + dx * (y2 - ay);
    lemma_step_by_sign(a, b, y1, mx);
    lemma_step_by_sign(a, b, y2, mx);
    lemma_num_is_cross(a, b, y1, mx);
    lemma_num_is_cross(a, b, y2, mx);
    if (ay > y1) != (by > y1) {
        lemma_num_sign(a, b, y1, mx);
    }
    if (ay > y2) != (by > y2) {
        lemma_num_sign(a, b, y2, mx);
    }
    lemma_sign_product(g1, dy);
    lemma_sign_product(g2, dy);
    if ax > mx && bx > mx {
        assert(ray_step(a, b, y1, mx) == up(b, y1) - up(a, y1));
        assert(ray_step(a, b, y2, mx) == up(b, y2) - up(a, y2));
    } else if ax <= mx && bx <= mx {
        assert(ray_step(a, b, y1, mx) == 0);
        assert(ray_step(a, b, y2, mx) == 0);
    }
    if (ax > mx) != (bx > mx) {
        // The segment crosses the box's right side line away from the box: the numerator keeps
        // one strict sign over the box's heights.
        if !(g1 > 0 && g2 > 0) && !(g1 < 0 && g2 < 0) {
            let q1 = Coord { x: mx as i32, y: y1 as i32 };
            let q2 = Coord { x: mx as i32, y: y2 as i32 };
            lemma_not_one_side(a, b, min, max, q1, q2);
            let h1 = (ax - mx) * (by - y1) + (bx - mx) * (y1 - ay);
            let h2 = (ax - mx) * (by - y2) + (bx - mx) * (y2 - ay);
            if ay > max.y && by > max.y {
                if ax > mx {
                    assert(h1 > 0 && h2 > 0) by (nonlinear_arith)
                        requires
                            h1 == (ax - mx) * (by - y1) + (bx - mx) * (y1 - ay),
                            h2 == (ax - mx) * (by - y2) + (bx - mx) * (y2 - ay),
                            ax - mx > 0,
                            bx - mx <= 0,
                            by - y1 > 0,
                            by - y2 > 0,
                            y1 - ay < 0,
                            y2 - ay < 0,
                    ;
                } else {
                    assert(h1 < 0 && h2 < 0) by (nonlinear_arith)
                        requires
                            h1 == (ax - mx) * (by - y1) + (bx - mx) * (y1 - ay),
                            h2 == (ax - mx) * (by - y2) + (bx - mx) * (y2 - ay),
                            ax - mx <= 0,
                            bx - mx > 0,
                            by - y1 > 0,
                            by - y2 > 0,
                            y1 - ay < 0,
                            y2 - ay < 0,
                    ;
                }
            }
            if ay < min.y && by < min.y {
                if ax > mx {
                    assert(h1 < 0 && h2 < 0) by (nonlinear_arith)
                        requires
                            h1 == (ax - mx) * (by - y1) + (bx - mx) * (y1 - ay),
                            h2 == (ax - mx) * (by - y2) + (bx - mx) * (y2 - ay),
                            ax - mx > 0,
                            bx - mx <= 0,
                            by - y1 < 0,
                            by - y2 < 0,
                            y1 - ay > 0,
                            y2 - ay > 0,
                    ;
                } else {
                    assert(h1 > 0 && h2 > 0) by (nonlinear_arith)
                        requires
                            h1 == (ax - mx) * (by - y1) + (bx - mx) * (y1 - ay),
                            h2 == (ax - mx) * (by - y2) + (bx - mx) * (y2 - ay),
                            ax - mx <= 0,
                            bx - mx > 0,
                            by - y1 < 0,
                            by - y2 < 0,
                            y1 - ay > 0,
                            y2 - ay > 0,
                    ;
                }
            }
            assert(bbox_meets(a, b, min, max));
            assert(false);
        }
        // The numerator is linear in the height, slope `dx`; at the ends' heights it is a multiple
        // of `dy`.
        let ga = (ax - mx) * dy;
        let gb = (ax - mx) * dy + dx * dy;
        assert(gb == (bx - mx) * dy) by (nonlinear_arith)
            requires
                gb == (ax - mx) * dy + dx * dy,
                dx == bx - ax,
        ;
        assert(ga * dy == (ax - mx) * (dy * dy)) by (nonlinear_arith)
            requires
                ga == (ax - mx) * dy,
        ;
        assert(gb * dy == (bx - mx) * (dy * dy)) by (nonlinear_arith)
            requires
                gb == (bx - mx) * dy,
        ;
        assert(dy * dy >= 0) by (nonlinear_arith);
        assert(dy != 0 ==> dy * dy > 0) by (nonlinear_arith);
        assert(g2 - g1 == dx * (y2 - y1)) by (nonlinear_arith)
            requires
                g1 == (ax - mx) * dy + dx * (y1 - ay),
                g2 == (ax - mx) * dy + dx * (y2 - ay),
        ;
        assert(ga - g1 == dx * (ay - y1)) by (nonlinear_arith)
            requires
                g1 == (ax - mx) * dy + dx * (y1 - ay),
                ga == (ax - mx) * dy,
        ;
        assert(gb - g1 == dx * (by - y1)) by (nonlinear_arith)
            requires
                g1 == (ax - mx) * dy + dx * (y1 - ay),
                gb == (ax - mx) * dy + dx * dy,
                dy == by - ay,
        ;
        if up(a, y1) != up(a, y2) {
            lemma_interp(g1, g2, ga, dx, dy, y1, y2, ay);
        }
        if up(b, y1) != up(b, y2) {
            lemma_interp(g1, g2, gb, dx, dy, y1, y2, by);
        }
        if dy == 0 {
            assert(g1 == dx * (y1 - ay) && g2 == dx * (y2 - ay)) by (nonlinear_arith)
                requires
                    g1 == (ax - mx) * dy + dx * (y1 - ay),
                    g2 == (ax - mx) * dy + dx * (y2 - ay),
                    dy == 0,
            ;
            lemma_sign_product(dx, y1 - ay);
            lemma_sign_product(dx, y2 - ay);
            assert(dx * (y1 - ay) == 0 ==> dx == 0 || y1 - ay == 0) by (nonlinear_arith);
            assert(dx * (y2 - ay) == 0 ==> dx == 0 || y2 - ay == 0) by (nonlinear_arith);
        }
        lemma_sign_product(g1, dy);
        lemma_sign_product(g2, dy);
        lemma_sign_product(ax - mx, dy * dy);
        lemma_sign_product(bx - mx, dy * dy);
        lemma_sign_product(ga, dy);
        lemma_sign_product(gb, dy);
        assert(g1 * dy > 0 <==> g2 * dy > 0);
        if ax > mx {
            if g1 * dy > 0 {
                assert(up(b, y1) == up(b, y2));
            } else {
                assert(up(a, y1) == up(a, y2));
            }
        } else {
            if g1 * dy > 0 {
                assert(up(a, y1) == up(a, y2));
            } else {
                assert(up(b, y1) == up(b, y2));
            }
        }
    }
}


/// No segment of the path `q` touches the box.
pub open spec fn misses_all(q: Seq<Coord>, min: Coord, max: Coord) -> bool {
    forall|i: int| 0 <= i < q.len() - 1 ==> !touches(#[trigger] q[i], q[i + 1], min, max)
}

/// A point of the box on a segment makes the segment touch the box.
proof fn lemma_on_segment_touches(p: Coord, a: Coord, b: Coord, min: Coord, max: Coord)
    requires
        in_box(p, min, max),
        on_segment(p, a, b),
    ensures
        touches(a, b, min, max),
{
    lemma_corners_bound(a, b, min, max, p);
}

/// Signed crossings of a path missing the box, seen from a point of the box, are its crossings
/// right of the box at that point's height.
proof fn lemma_pw_wind(p: Coord, q: Seq<Coord>, min: Coord, max: Coord)
    requires
        in_box(p, min, max),
        misses_all(q, min, max),
    ensures
        pw(p, q) == ray_wind(q, p.y as int, max.x as int),
    decreases q.len(),
{
    if q.len() >= 2 {
        let n = q.len() as int;
        let q0 = q.drop_last();
        assert forall|i: int| 0 <= i < q0.len() - 1 implies !touches(#[trigger] q0[i], q0[i + 1], min, max) by {
            assert(q0[i] == q[i] && q0[i + 1] == q[i + 1]);
        }
        lemma_pw_wind(p, q0, min, max);
        let a = q[n - 2];
        let b = q[n - 1];
        assert(!touches(a, b, min, max));
        if on_segment(p, a, b) {
            lemma_on_segment_touches(p, a, b, min, max);
        }
        lemma_sc_step(p, a, b);
        lemma_step_across(a, b, min, max, p.y as int, p.x as int);
    }
}

/// Moving the ray's height within the box changes the crossings right of the box of a path
/// missing the box only by the shifts of the path's ends.
proof fn lemma_wind_sweep(q: Seq<Coord>, min: Coord, max: Coord, y1: int, y2: int)
    requires
        misses_all(q, min, max),
        q.len() >= 1,
        min.y <= y1 <= max.y,
        min.y <= y2 <= max.y,
        min.x <= max.x,
    ensures
        ray_wind(q, y2, max.x as int) - ray_wind(q, y1, max.x as int) == shift(
            q.last(),
            max.x as int,
            y1,
            y2,
        ) - shift(q[0], max.x as int, y1, y2),
    decreases q.len(),
{
    if q.len() >= 2 {
        let n = q.len() as int;
        let q0 = q.drop_last();
        assert forall|i: int| 0 <= i < q0.len() - 1 implies !touches(#[trigger] q0[i], q0[i + 1], min, max) by {
            assert(q0[i] == q[i] && q0[i + 1] == q[i + 1]);
        }
        lemma_wind_sweep(q0, min, max, y1, y2);
        assert(!touches(q[n - 2], q[n - 1], min, max));
        lemma_step_sweep(q[n - 2], q[n - 1], min, max, y1, y2);
        assert(q0.last() == q[n - 2] && q0[0] == q[0]);
    }
}

/// Signed crossings of two joined paths: those of each plus that of the joining segment.
proof fn lemma_pw_concat(p: Coord, a: Seq<Coord>, b: Seq<Coord>)
    requires
        a.len() >= 1,
        b.len() >= 1,
    ensures
        pw(p, a + b) == pw(p, a) + sc(p, a.last(), b[0]) + pw(p, b),
    decreases b.len(),
{
    if b.len() == 1 {
        assert((a + b).drop_last() =~= a);
    } else {
        let b0 = b.drop_last();
        lemma_pw_concat(p, a, b0);
        assert((a + b).drop_last() =~= a + b0);
        let n = (a + b).len();
        assert((a + b)[n - 2] == b[b.len() - 2] && (a + b)[n - 1] == b[b.len() - 1]);
        assert(b0[0] == b[0]);
    }
}


/// The positions of clipped-ring entries.
pub open spec fn entry_pos<V>(w: Seq<(Coord, Option<V>)>) -> Seq<Coord> {
    w.map_values(|x: (Coord, Option<V>)| x.0)
}

/// The bridge over the gap at walk step `q` crosses the ray from a point of the box as the
/// excursion it stands in for does, from the kept vertex before the gap to the one after it.
proof fn lemma_bridge_pw<V: Vertex>(
    p: Seq<V>,
    min: Coord,
    max: Coord,
    s: int,
    q: int,
    pt: Coord,
)
    requires
        p.len() >= 3,
        1 <= q < p.len(),
        !kept(p, min, max, (s + q) % (p.len() as int)),
        bridge(p, min, max, half(min.y + max.y), s, q) is Ok,
        min.x <= max.x,
        min.y <= max.y,
        in_box(pt, min, max),
    ensures
        ({
            let m = p.len() as int;
            let len = gap_len(p, min, max, s, q);
            let b = bridge(p, min, max, half(min.y + max.y), s, q)->Ok_0;
            let u = p[(s + q - 1) % m].pos();
            let v = p[(s + q + len) % m].pos();
            let exc = Seq::new((len + 2) as nat, |t: int| p[(s + q - 1 + t) % m].pos());
            pw(pt, seq![u] + entry_pos(b) + seq![v]) == pw(pt, exc)
        }),
{
    let m = p.len() as int;
    let cy = half(min.y + max.y);
    let len = gap_len(p, min, max, s, q);
    lemma_gap_len(p, min, max, s, q);
    lemma_gap_len(p, min, max, s, q + 1);
    assert(len == 1 + gap_len(p, min, max, s, q + 1));
    let iu = (s + q - 1) % m;
    let iv = (s + q + len) % m;
    let gap = Seq::new(len as nat, |t: int| p[(s + q + t) % m]);
    let u = p[iu].pos();
    let v = p[iv].pos();
    let gpos = gap.map_values(|x: V| x.pos());
    let e = seq![u] + gpos + seq![v];
    let exc = Seq::new((len + 2) as nat, |t: int| p[(s + q - 1 + t) % m].pos());
    assert(exc =~= e) by {
        assert forall|t: int| 0 <= t < len + 2 implies exc[t] == e[t] by {
            if t == 0 {
            } else if t <= len {
                assert(e[t] == gpos[t - 1]);
                assert(s + q - 1 + t == s + q + (t - 1));
            } else {
                assert(s + q - 1 + t == s + q + len);
            }
        }
    }
    // Every segment of the excursion leaves or enters a dropped vertex, so it misses the box.
    assert(misses_all(e, min, max)) by {
        assert forall|i: int| 0 <= i < e.len() - 1 implies !touches(#[trigger] e[i], e[i + 1], min, max) by {
            let j = (s + q - 1 + i) % m;
            lemma_mod_next(s + q - 1 + i, m);
            assert(e[i] == p[j].pos()) by {
                assert(e[i] == exc[i]);
            }
            assert(e[i + 1] == p[(j + 1) % m].pos()) by {
                assert(e[i + 1] == exc[i + 1]);
            }
            if i == 0 {
                lemma_mod_prev(s + q, m);
                assert(!kept(p, min, max, (s + q) % m));
                assert(!edge_hit(p, min, max, j));
            } else {
                assert(!kept(p, min, max, (s + (q + i - 1)) % m));
                assert(s + (q + i - 1) == s + q - 1 + i);
                assert(!edge_hit(p, min, max, j));
            }
        }
    }
    let b = bridge(p, min, max, cy, s, q)->Ok_0;
    let cs = detour_spec(u, v, e, min, max, cy)->Ok_0;
    if len <= cs.len() {
        assert(entry_pos(b) =~= gpos);
        assert(seq![u] + entry_pos(b) + seq![v] =~= e);
    } else {
        assert(entry_pos(b) =~= cs);
        let d = seq![u] + cs + seq![v];
        assert(seq![u] + entry_pos(b) + seq![v] =~= d);
        // The detour's ends lie outside the box.
        assert(!touches(e[0], e[1], min, max));
        assert(!in_box(u, min, max));
        assert(!touches(e[len], e[len + 1], min, max));
        assert(e[len + 1] == v);
        assert(!in_box(v, min, max));
        lemma_detour_apart(u, v, e, min, max, cy);
        assert(misses_all(d, min, max)) by {
            assert forall|i: int| 0 <= i < d.len() - 1 implies !touches(#[trigger] d[i], d[i + 1], min, max) by {
                if cs.len() == 0 {
                    assert(d[0] == u && d[1] == v);
                } else if i == 0 {
                    assert(d[0] == u && d[1] == cs[0]);
                } else if i < cs.len() {
                    assert(d[i] == cs[i - 1] && d[i + 1] == cs[i]);
                } else {
                    assert(d[i] == cs.last() && d[i + 1] == v);
                }
            }
        }
        lemma_half_between(min.y as int, max.y as int);
        lemma_pw_wind(pt, d, min, max);
        lemma_pw_wind(pt, e, min, max);
        lemma_wind_sweep(d, min, max, cy, pt.y as int);
        lemma_wind_sweep(e, min, max, cy, pt.y as int);
        crate::shell::law_detour_keeps_excursion_winding(u, v, e, min, max);
        assert(d.last() == v && d[0] == u && e.last() == v && e[0] == u);
    }
}


/// The positions of the input ring walked `n` steps from vertex `s`: `n + 1` vertices.
pub open spec fn in_path<V: Vertex>(p: Seq<V>, s: int, n: int) -> Seq<Coord> {
    Seq::new((n + 1) as nat, |t: int| p[(s + t) % (p.len() as int)].pos())
}

/// Signed crossings of a path that starts with `u`.
proof fn lemma_pw_front(pt: Coord, u: Coord, z: Seq<Coord>)
    requires
        z.len() >= 1,
    ensures
        pw(pt, seq![u] + z) == sc(pt, u, z[0]) + pw(pt, z),
{
    lemma_pw_concat(pt, seq![u], z);
}

/// Signed crossings of a path with one more vertex.
proof fn lemma_pw_push(pt: Coord, z: Seq<Coord>, c: Coord)
    requires
        z.len() >= 1,
    ensures
        pw(pt, z.push(c)) == pw(pt, z) + sc(pt, z.last(), c),
{
    assert(z.push(c).drop_last() =~= z);
}

/// The first `n` steps of the walk from an arc start cross the ray from a point of the box as
/// the input ring walked alongside them does: up to the vertex at the last step when that one is
/// kept, and otherwise, once the current gap is bridged to its end, up to the gap's end.
#[verifier::spinoff_prover]
#[verifier::rlimit(30)]
proof fn lemma_walk_pw<V: Vertex>(p: Seq<V>, min: Coord, max: Coord, s: int, n: int, pt: Coord)
    requires
        p.len() >= 3,
        0 <= s < p.len(),
        kept(p, min, max, s),
        1 <= n <= p.len(),
        walk(p, min, max, half(min.y + max.y), s, n) is Ok,
        min.x <= max.x,
        min.y <= max.y,
        in_box(pt, min, max),
    ensures
        ({
            let m = p.len() as int;
            let w = walk(p, min, max, half(min.y + max.y), s, n)->Ok_0;
            let i = (s + n - 1) % m;
            let g = n + gap_len(p, min, max, s, n);
            &&& kept(p, min, max, i) ==> pw(pt, entry_pos(w)) == pw(pt, in_path(p, s, n - 1))
            &&& !kept(p, min, max, i) ==> pw(pt, entry_pos(w).push(p[(s + g) % m].pos())) == pw(
                pt,
                in_path(p, s, g),
            )
        }),
    decreases n,
{
    let m = p.len() as int;
    let cy = half(min.y + max.y);
    let q = n - 1;
    lemma_piece_at(p, min, max, cy, s, q);
    lemma_walk_sound(p, min, max, cy, s, n);
    if n == 1 {
        lemma_walk_zero(p, min, max, cy, s);
        crate::clip_polygon::lemma_walk_next(p, min, max, cy, s, 0);
        vstd::arithmetic::div_mod::lemma_small_mod(s as nat, m as nat);
        assert((s + 0) % m == s);
        let w = walk(p, min, max, cy, s, 1)->Ok_0;
        assert(w =~= seq![original(p[s])]);
        assert(entry_pos(w) =~= seq![p[s].pos()]);
        assert(in_path(p, s, 0) =~= seq![p[s].pos()]);
    } else {
        if walk(p, min, max, cy, s, q) is Err {
            crate::clip_polygon::lemma_walk_err(p, min, max, cy, s, q, n);
        }
        lemma_walk_pw(p, min, max, s, q, pt);
        lemma_walk_sound(p, min, max, cy, s, q);
        crate::clip_polygon::lemma_walk_next(p, min, max, cy, s, q);
        let w0 = walk(p, min, max, cy, s, q)->Ok_0;
        let x = piece(p, min, max, cy, s, q)->Ok_0;
        let w = walk(p, min, max, cy, s, n)->Ok_0;
        assert(w == w0 + x);
        assert(entry_pos(w) =~= entry_pos(w0) + entry_pos(x));
        let iq = (s + q) % m;
        let ip = (s + q - 1) % m;
        lemma_gap_len(p, min, max, s, q);
        lemma_gap_len(p, min, max, s, n);
        let e0 = entry_pos(w0);
        assert(e0.len() >= 1);
        assert(e0.last() == w0.last().0);
        lemma_mod_next(s + q - 1, m);
        if kept(p, min, max, iq) {
            assert(gap_len(p, min, max, s, q) == 0);
            assert(entry_pos(x) =~= seq![p[iq].pos()]);
            assert(entry_pos(w) =~= e0.push(p[iq].pos()));
            assert(in_path(p, s, q) =~= in_path(p, s, q - 1).push(p[iq].pos()));
            lemma_pw_push(pt, e0, p[iq].pos());
            lemma_pw_push(pt, in_path(p, s, q - 1), p[iq].pos());
            assert(in_path(p, s, q - 1).last() == p[ip].pos());
            if kept(p, min, max, ip) {
                assert(e0.last() == p[ip].pos());
            } else {
                assert(q + gap_len(p, min, max, s, q) == q);
            }
        } else {
            let len = gap_len(p, min, max, s, q);
            assert(len == 1 + gap_len(p, min, max, s, n));
            let g = q + len;
            let v = p[(s + g) % m].pos();
            if kept(p, min, max, ip) {
                assert(x == bridge(p, min, max, cy, s, q)->Ok_0);
                lemma_bridge_pw(p, min, max, s, q, pt);
                let u = p[ip].pos();
                assert(e0.last() == u);
                let ex = entry_pos(x);
                let exc = Seq::new((len + 2) as nat, |t: int| p[(s + q - 1 + t) % m].pos());
                // The output: what came before, then the bridge on to `v`.
                assert(entry_pos(w).push(v) =~= e0 + ex.push(v));
                lemma_pw_concat(pt, e0, ex.push(v));
                assert(seq![u] + ex + seq![v] =~= seq![u] + ex.push(v));
                lemma_pw_front(pt, u, ex.push(v));
                // The input: the path so far, then the excursion on to `v`.
                let tail = exc.subrange(1, len + 2);
                assert(in_path(p, s, g) =~= in_path(p, s, q - 1) + tail);
                assert(exc =~= seq![u] + tail);
                lemma_pw_concat(pt, in_path(p, s, q - 1), tail);
                lemma_pw_front(pt, u, tail);
                assert(in_path(p, s, q - 1).last() == u);
            } else {
                assert(x =~= Seq::<(Coord, Option<V>)>::empty());
                assert(entry_pos(w) =~= e0);
            }
        }
    }
}


/// `1` for a crossing of the `+x` ray from `p`.
pub open spec fn crossing(p: Coord, a: Coord, b: Coord) -> int {
    if crosses_ray(p, a, b) {
        1
    } else {
        0
    }
}

/// Counting the crossings of a closed ring, and summing their signs, agree in parity.
proof fn lemma_count_parity(pt: Coord, r: Seq<Coord>, k: int, j: int) -> (t: int)
    requires
        k >= 1,
        r.len() == k + 1,
        r[k] == r[0],
        1 <= j <= k,
    ensures
        ray_count(pt, r, k, j) - crossing(pt, r[k - 1], r[0]) - pw(pt, r.take(j)) == 2 * t,
    decreases j,
{
    if j == 1 {
        assert(r.take(1).len() == 1);
        assert(pw(pt, r.take(1)) == 0);
        assert(edge_tail(r, k, 0) == r[k - 1]);
        assert(ray_count(pt, r, k, 0) == 0);
        assert(ray_count(pt, r, k, 1) == crossing(pt, r[k - 1], r[0]));
        0
    } else {
        let t0 = lemma_count_parity(pt, r, k, j - 1);
        assert(r.take(j).drop_last() =~= r.take(j - 1));
        assert(r.take(j)[j - 2] == r[j - 2] && r.take(j)[j - 1] == r[j - 1]);
        assert(edge_tail(r, k, j - 1) == r[j - 2]);
        assert(pw(pt, r.take(j)) == pw(pt, r.take(j - 1)) + sc(pt, r[j - 2], r[j - 1]));
        assert(ray_count(pt, r, k, j) == ray_count(pt, r, k, j - 1) + crossing(pt, r[j - 2], r[j - 1]));
        if crosses_ray(pt, r[j - 2], r[j - 1]) && !(r[j - 1].y > r[j - 2].y) {
            t0 + 1
        } else {
            t0
        }
    }
}

/// The parity of a closed ring's crossings is that of its signed crossings.
proof fn lemma_ring_parity(pt: Coord, r: Seq<Coord>, k: int)
    requires
        k >= 1,
        r.len() == k + 1,
        r[k] == r[0],
    ensures
        ray_count(pt, r, k, k) % 2 == pw(pt, r) % 2,
{
    let t = lemma_count_parity(pt, r, k, k);
    assert(r.drop_last() =~= r.take(k));
    let d = crossing(pt, r[k - 1], r[0]) - sc(pt, r[k - 1], r[k]);
    let t2 = if d == 2 {
        t + 1
    } else {
        t
    };
    assert(ray_count(pt, r, k, k) as int == pw(pt, r) + 2 * t2);
    vstd::arithmetic::div_mod::lemma_mod_multiples_vanish(t2, pw(pt, r), 2);
}

/// Closing an open ring with its first vertex leaves its crossings unchanged.
proof fn lemma_count_closed(pt: Coord, r: Seq<Coord>, m: int, j: int)
    requires
        r.len() == m,
        m >= 1,
        0 <= j <= m,
    ensures
        ray_count(pt, r, m, j) == ray_count(pt, r.push(r[0]), m, j),
    decreases j,
{
    if j > 0 {
        lemma_count_closed(pt, r, m, j - 1);
        let c = r.push(r[0]);
        assert(c[j - 1] == r[j - 1]);
        assert(edge_tail(c, m, j - 1) == edge_tail(r, m, j - 1));
    }
}

/// Signed crossings are opposite for a segment walked backwards, away from it.
proof fn lemma_sc_reverse(pt: Coord, a: Coord, b: Coord)
    requires
        !on_segment(pt, a, b),
    ensures
        sc(pt, a, b) + sc(pt, b, a) == 0,
{
    assert(cross(b, a, pt) == -cross(a, b, pt)) by (nonlinear_arith);
    assert(!on_segment(pt, b, a));
    lemma_sc_step(pt, a, b);
    lemma_sc_step(pt, b, a);
    lemma_num_is_cross(a, b, pt.y as int, pt.x as int);
    lemma_num_is_cross(b, a, pt.y as int, pt.x as int);
    assert(Coord { x: pt.x as i32, y: pt.y as i32 } == pt);
}

/// The signed crossings of the input ring's edges `lo..hi` (each from vertex `i` to the next).
spec fn edge_sum(pos: Seq<Coord>, pt: Coord, lo: int, hi: int) -> int
    decreases hi - lo,
{
    if hi <= lo {
        0
    } else {
        edge_sum(pos, pt, lo, hi - 1) + sc(pt, pos[hi - 1], pos[hi % (pos.len() as int)])
    }
}

/// Edge sums split at any point in between.
proof fn lemma_edge_sum_split(pos: Seq<Coord>, pt: Coord, lo: int, mid: int, hi: int)
    requires
        lo <= mid <= hi,
    ensures
        edge_sum(pos, pt, lo, hi) == edge_sum(pos, pt, lo, mid) + edge_sum(pos, pt, mid, hi),
    decreases hi - mid,
{
    if hi > mid {
        lemma_edge_sum_split(pos, pt, lo, mid, hi - 1);
    }
}

/// Walking the ring from `s` crosses as its edges from `s` on, wrapping past the last vertex.
proof fn lemma_in_path_sum<V: Vertex>(p: Seq<V>, pt: Coord, s: int, n: int)
    requires
        p.len() >= 2,
        0 <= s < p.len(),
        0 <= n <= p.len(),
    ensures
        ({
            let m = p.len() as int;
            let pos = p.map_values(|x: V| x.pos());
            pw(pt, in_path(p, s, n)) == (if s + n <= m {
                edge_sum(pos, pt, s, s + n)
            } else {
                edge_sum(pos, pt, s, m) + edge_sum(pos, pt, 0, s + n - m)
            })
        }),
    decreases n,
{
    let m = p.len() as int;
    let pos = p.map_values(|x: V| x.pos());
    if n > 0 {
        lemma_in_path_sum(p, pt, s, n - 1);
        let a = in_path(p, s, n - 1);
        assert(in_path(p, s, n) =~= a.push(p[(s + n) % m].pos()));
        lemma_pw_push(pt, a, p[(s + n) % m].pos());
        assert(a.last() == p[(s + n - 1) % m].pos());
        let j = s + n - 1;
        if j < m {
            vstd::arithmetic::div_mod::lemma_small_mod(j as nat, m as nat);
            assert(pos[j] == p[j].pos());
            if j + 1 < m {
                vstd::arithmetic::div_mod::lemma_small_mod((j + 1) as nat, m as nat);
                assert(pos[(j + 1) % m] == p[(s + n) % m].pos());
            } else {
                vstd::arithmetic::div_mod::lemma_mod_self_0(m);
                assert(pos[(j + 1) % m] == p[(s + n) % m].pos());
            }
        } else {
            let i = j - m;
            assert(0 <= i < m);
            vstd::arithmetic::div_mod::lemma_mod_add_multiples_vanish(i, m);
            vstd::arithmetic::div_mod::lemma_small_mod(i as nat, m as nat);
            assert(j % m == i);
            vstd::arithmetic::div_mod::lemma_mod_add_multiples_vanish(i + 1, m);
            assert((j + 1) % m == (i + 1) % m);
            assert(pos[i] == p[i].pos());
            assert(pos[(i + 1) % m] == p[(i + 1) % m].pos());
            if s + n - 1 == m {
                assert(edge_sum(pos, pt, 0, 0) == 0);
            }
        }
    }
}


/// A point strictly inside the shell is inside the fill box.
proof fn lemma_fill_box_inside(turn: Turn, min: Coord, max: Coord, pt: Coord)
    requires
        shell_fits(min, max),
        in_box(pt, min, max),
    ensures
        in_ring(pt, fill_spec(turn, min, max)),
{
    let f = fill_spec(turn, min, max);
    let sw = shell_corner(0, min, max);
    let se = shell_corner(2, min, max);
    let ne = shell_corner(4, min, max);
    let nw = shell_corner(6, min, max);
    let hgt = (max.y + 1) - (min.y - 1);
    let r = max.x + 1 - pt.x;
    let l = pt.x - (min.x - 1);
    assert(hgt * r > 0 && hgt * l > 0) by (nonlinear_arith)
        requires
            hgt > 0,
            r > 0,
            l > 0,
    ;
    assert(ring_len(f) == 4);
    if turn == Turn::Clockwise {
        assert(cross(sw, nw, pt) == -(hgt * l)) by (nonlinear_arith)
            requires
                sw.x == nw.x,
                nw.y - sw.y == hgt,
                l == pt.x - sw.x,
        ;
        assert(cross(ne, se, pt) == -(hgt * r)) by (nonlinear_arith)
            requires
                ne.x == se.x,
                se.y - ne.y == -hgt,
                r == ne.x - pt.x,
        ;
        assert(ray_count(pt, f, 4, 4) == 1) by {
            reveal_with_fuel(ray_count, 5);
            assert(edge_tail(f, 4, 0) == se && f[0] == sw);
            assert(edge_tail(f, 4, 1) == sw && f[1] == nw);
            assert(edge_tail(f, 4, 2) == nw && f[2] == ne);
            assert(edge_tail(f, 4, 3) == ne && f[3] == se);
            assert(!crosses_ray(pt, se, sw));
            assert(!crosses_ray(pt, sw, nw));
            assert(!crosses_ray(pt, nw, ne));
            assert(crosses_ray(pt, ne, se));
            assert(ray_count(pt, f, 4, 1) == 0);
            assert(ray_count(pt, f, 4, 2) == 0);
            assert(ray_count(pt, f, 4, 3) == 0);
        }
    } else {
        assert(cross(nw, sw, pt) == hgt * l) by (nonlinear_arith)
            requires
                sw.x == nw.x,
                sw.y - nw.y == -hgt,
                l == pt.x - nw.x,
        ;
        assert(cross(se, ne, pt) == hgt * r) by (nonlinear_arith)
            requires
                ne.x == se.x,
                ne.y - se.y == hgt,
                r == se.x - pt.x,
        ;
        assert(ray_count(pt, f, 4, 4) == 1) by {
            reveal_with_fuel(ray_count, 5);
            assert(edge_tail(f, 4, 0) == nw && f[0] == sw);
            assert(edge_tail(f, 4, 1) == sw && f[1] == se);
            assert(edge_tail(f, 4, 2) == se && f[2] == ne);
            assert(edge_tail(f, 4, 3) == ne && f[3] == nw);
            assert(!crosses_ray(pt, nw, sw));
            assert(!crosses_ray(pt, sw, se));
            assert(crosses_ray(pt, se, ne));
            assert(!crosses_ray(pt, ne, nw));
            assert(ray_count(pt, f, 4, 1) == 0);
            assert(ray_count(pt, f, 4, 2) == 0);
            assert(ray_count(pt, f, 4, 3) == 1);
        }
    }
}

/// The positions of the ring's distinct vertices in cyclic order.
pub open spec fn ring_positions<V: Vertex>(ring: Seq<V>) -> Seq<Coord> {
    ring_pts(ring).map_values(|x: V| x.pos())
}

/// `pt` lies on none of the edges of the cyclic ring `pos`.
pub open spec fn off_ring(pt: Coord, pos: Seq<Coord>) -> bool {
    forall|i: int|
        0 <= i < pos.len() ==> !on_segment(pt, #[trigger] pos[i], pos[(i + 1) % (pos.len() as int)])
}

/// Trimming the closing repeat leaves a first and a last vertex at different positions.
proof fn lemma_trim_ends<V: Vertex>(p: Seq<V>)
    ensures
        trim_closing(p).len() >= 2 ==> trim_closing(p)[0].pos() != trim_closing(p).last().pos(),
    decreases p.len(),
{
    if p.len() >= 2 && p[0].pos() == p.last().pos() {
        lemma_trim_ends(p.drop_last());
    }
}

/// Parity of the crossings of an open ring, closed with its first vertex.
proof fn lemma_open_parity(pt: Coord, pos: Seq<Coord>)
    requires
        pos.len() >= 1,
    ensures
        ray_count(pt, pos, pos.len() as int, pos.len() as int) % 2 == pw(pt, pos.push(pos[0])) % 2,
{
    let m = pos.len() as int;
    lemma_count_closed(pt, pos, m, m);
    lemma_ring_parity(pt, pos.push(pos[0]), m);
}

/// With `pt` on no edge, being inside is an odd number of crossings.
proof fn lemma_in_ring_odd(pt: Coord, r: Seq<Coord>, k: int)
    requires
        ring_len(r) == k,
        forall|i: int| 0 <= i < k ==> !on_segment(pt, edge_tail(r, k, i), #[trigger] r[i]),
    ensures
        in_ring(pt, r) == (r.len() >= 3 && k >= 3 && ray_count(pt, r, k, k) % 2 == 1),
{
}

/// A ring none of whose edges touches the box fills the box uniformly.
proof fn lemma_fill_uniform(pos: Seq<Coord>, min: Coord, max: Coord, a: Coord, b: Coord)
    requires
        pos.len() >= 1,
        min.x <= max.x,
        min.y <= max.y,
        in_box(a, min, max),
        in_box(b, min, max),
        forall|i: int|
            0 <= i < pos.len() ==> !touches(#[trigger] pos[i], pos[(i + 1) % (pos.len() as int)], min, max),
    ensures
        pw(a, pos.push(pos[0])) == pw(b, pos.push(pos[0])),
{
    let m = pos.len() as int;
    let c = pos.push(pos[0]);
    assert(misses_all(c, min, max)) by {
        assert forall|i: int| 0 <= i < c.len() - 1 implies !touches(#[trigger] c[i], c[i + 1], min, max) by {
            assert(!touches(pos[i], pos[(i + 1) % m], min, max));
            if i + 1 < m {
                vstd::arithmetic::div_mod::lemma_small_mod((i + 1) as nat, m as nat);
            } else {
                vstd::arithmetic::div_mod::lemma_mod_self_0(m);
            }
        }
    }
    lemma_pw_wind(a, c, min, max);
    lemma_pw_wind(b, c, min, max);
    lemma_wind_sweep(c, min, max, a.y as int, b.y as int);
}


/// An open ring with `pt` on none of its edges holds `pt` exactly when its signed crossings,
/// closed up, are odd.
#[verifier::spinoff_prover]
proof fn lemma_open_in_ring(pt: Coord, pos: Seq<Coord>)
    requires
        pos.len() >= 2,
        pos[pos.len() - 1] != pos[0],
        off_ring(pt, pos),
    ensures
        in_ring(pt, pos) == (pos.len() >= 3 && pw(pt, pos.push(pos[0])) % 2 == 1),
{
    let m = pos.len() as int;
    assert(ring_len(pos) == m);
    assert forall|i: int| 0 <= i < m implies !on_segment(pt, edge_tail(pos, m, i), #[trigger] pos[i]) by {
        if i == 0 {
            vstd::arithmetic::div_mod::lemma_mod_self_0(m);
            assert(!on_segment(pt, pos[m - 1], pos[((m - 1) + 1) % m]));
        } else {
            vstd::arithmetic::div_mod::lemma_small_mod(i as nat, m as nat);
            assert(!on_segment(pt, pos[i - 1], pos[((i - 1) + 1) % m]));
        }
    }
    lemma_in_ring_odd(pt, pos, m);
    lemma_open_parity(pt, pos);
}

/// A closed ring of one or two distinct vertices, with `pt` off its edge, has no net crossing.
proof fn lemma_short_pw(pt: Coord, r: Seq<Coord>)
    requires
        2 <= r.len() <= 3,
        r.last() == r[0],
        r.len() == 3 ==> !on_segment(pt, r[0], r[1]),
    ensures
        pw(pt, r) == 0,
{
    reveal_with_fuel(pw, 3);
    if r.len() == 3 {
        lemma_sc_reverse(pt, r[0], r[1]);
        assert(r.drop_last().drop_last() =~= seq![r[0]]);
    } else {
        assert(r.drop_last() =~= seq![r[0]]);
    }
}

/// A closed ring with `pt` on none of its edges holds `pt` exactly when it has three distinct
/// vertices and odd signed crossings.
#[verifier::spinoff_prover]
proof fn lemma_closed_in_ring(pt: Coord, r: Seq<Coord>)
    requires
        r.len() >= 2,
        r.last() == r[0],
        forall|j: int| 0 <= j < r.len() - 1 ==> !on_segment(pt, #[trigger] r[j], r[j + 1]),
    ensures
        in_ring(pt, r) == (r.len() >= 4 && pw(pt, r) % 2 == 1),
{
    let k = r.len() - 1;
    assert(r[k] == r[0]);
    assert(ring_len(r) == k);
    assert forall|i: int| 0 <= i < k implies !on_segment(pt, edge_tail(r, k, i), #[trigger] r[i]) by {
        if i == 0 {
            assert(!on_segment(pt, r[k - 1], r[(k - 1) + 1]));
        } else {
            assert(!on_segment(pt, r[i - 1], r[(i - 1) + 1]));
        }
    }
    lemma_in_ring_odd(pt, r, k);
    lemma_ring_parity(pt, r, k);
}

/// A closed ring with `pt` on none of its edges, and the same signed crossings as the open ring
/// `pos` closed up, holds `pt` exactly when `pos` does.
proof fn lemma_same_winding(pt: Coord, r: Seq<Coord>, pos: Seq<Coord>)
    requires
        r.len() >= 2,
        r.last() == r[0],
        forall|j: int| 0 <= j < r.len() - 1 ==> !on_segment(pt, #[trigger] r[j], r[j + 1]),
        pos.len() >= 3,
        pos[pos.len() - 1] != pos[0],
        off_ring(pt, pos),
        pw(pt, r) == pw(pt, pos.push(pos[0])),
    ensures
        in_ring(pt, r) == in_ring(pt, pos),
{
    lemma_closed_in_ring(pt, r);
    lemma_open_in_ring(pt, pos);
    if r.len() < 4 {
        if r.len() == 3 {
            assert(!on_segment(pt, r[0], r[1]));
        }
        lemma_short_pw(pt, r);
    }
}

/// No segment of a chain that is sound for the ring `p` passes through a point of the box that
/// lies on no edge of `p`.
proof fn lemma_chain_misses<V: Vertex>(
    p: Seq<V>,
    min: Coord,
    max: Coord,
    pt: Coord,
    w: Seq<(Coord, Option<V>)>,
)
    requires
        in_box(pt, min, max),
        off_ring(pt, p.map_values(|x: V| x.pos())),
        chain_sound(w, p, min, max),
    ensures
        forall|j: int|
            0 <= j < w.len() - 1 ==> !on_segment(pt, #[trigger] entry_pos(w)[j], entry_pos(w)[j + 1]),
{
    let m = p.len() as int;
    let pos = p.map_values(|x: V| x.pos());
    let e = entry_pos(w);
    assert forall|j: int| 0 <= j < w.len() - 1 implies !on_segment(pt, #[trigger] e[j], e[j + 1]) by {
        assert(sound_pair(w[j], w[j + 1], p, min, max));
        if on_segment(pt, e[j], e[j + 1]) {
            lemma_on_segment_touches(pt, e[j], e[j + 1], min, max);
            let a = w[j].1->Some_0;
            let b = w[j + 1].1->Some_0;
            let jj = choose|jj: int| 0 <= jj < p.len() && #[trigger] p[jj] == a && p[(jj + 1) % m] == b;
            vstd::arithmetic::div_mod::lemma_mod_bound(jj + 1, m);
            assert(pos[jj] == a.pos() && pos[(jj + 1) % m] == b.pos());
            assert(!on_segment(pt, pos[jj], pos[(jj + 1) % m]));
        }
    }
}

/// A ring none of whose edges touches the box holds a point of the box exactly when it holds the
/// box's low corner, and then its fill ring holds that point too.
#[verifier::spinoff_prover]
proof fn lemma_no_hit_fill<V: Vertex>(p: Seq<V>, min: Coord, max: Coord, pt: Coord)
    requires
        p.len() >= 3,
        p[0].pos() != p.last().pos(),
        in_box(pt, min, max),
        off_ring(pt, p.map_values(|x: V| x.pos())),
        forall|i: int| 0 <= i < p.len() ==> !#[trigger] edge_hit(p, min, max, i),
    ensures
        in_ring(min, p.map_values(|x: V| x.pos())) == in_ring(pt, p.map_values(|x: V| x.pos())),
        shell_fits(min, max) ==> in_ring(pt, fill_spec(ring_turn(p.map_values(|x: V| x.pos())), min, max)),
{
    let m = p.len() as int;
    let pos = p.map_values(|x: V| x.pos());
    assert forall|i: int| 0 <= i < m implies !touches(#[trigger] pos[i], pos[(i + 1) % m], min, max) by {
        assert(!edge_hit(p, min, max, i));
        vstd::arithmetic::div_mod::lemma_mod_bound(i + 1, m);
    }
    assert(off_ring(min, pos)) by {
        assert forall|i: int| 0 <= i < m implies !on_segment(min, #[trigger] pos[i], pos[(i + 1) % m]) by {
            assert(!touches(pos[i], pos[(i + 1) % m], min, max));
            if on_segment(min, pos[i], pos[(i + 1) % m]) {
                lemma_on_segment_touches(min, pos[i], pos[(i + 1) % m], min, max);
            }
        }
    }
    lemma_open_in_ring(min, pos);
    lemma_open_in_ring(pt, pos);
    lemma_fill_uniform(pos, min, max, pt, min);
    if shell_fits(min, max) {
        lemma_fill_box_inside(ring_turn(pos), min, max, pt);
    }
}

/// The walk round the whole ring from its first arc start, closed up, crosses the ray from a
/// point of the box as the ring does.
#[verifier::spinoff_prover]
proof fn lemma_walk_winding<V: Vertex>(p: Seq<V>, min: Coord, max: Coord, pt: Coord)
    requires
        p.len() >= 3,
        first_arc_start(p, min, max, 0) < p.len(),
        walk(p, min, max, half(min.y + max.y), first_arc_start(p, min, max, 0), p.len() as int) is Ok,
        in_box(pt, min, max),
    ensures
        ({
            let s = first_arc_start(p, min, max, 0);
            let ww = walk(p, min, max, half(min.y + max.y), s, p.len() as int)->Ok_0;
            let pos = p.map_values(|x: V| x.pos());
            &&& ww.len() >= 1
            &&& chain_sound(ww.push(ww[0]), p, min, max)
            &&& pw(pt, entry_pos(ww.push(ww[0]))) == pw(pt, pos.push(pos[0]))
        }),
{
    let m = p.len() as int;
    let pos = p.map_values(|x: V| x.pos());
    let cpos = pos.push(pos[0]);
    let cy = half(min.y + max.y);
    let s = first_arc_start(p, min, max, 0);
    let ww = walk(p, min, max, cy, s, m)->Ok_0;
    let e = entry_pos(ww.push(ww[0]));
    lemma_arc_start_kept(p, min, max, 0);
    lemma_arc_start_after_gap(p, min, max, 0);
    lemma_walk_sound(p, min, max, cy, s, m);
    lemma_walk_pw(p, min, max, s, m, pt);
    assert(gap_len(p, min, max, s, m) == 0);
    vstd::arithmetic::div_mod::lemma_mod_add_multiples_vanish(s, m);
    vstd::arithmetic::div_mod::lemma_small_mod(s as nat, m as nat);
    assert((s + m) % m == s);
    assert(e =~= entry_pos(ww).push(p[(s + m) % m].pos()));
    assert(in_path(p, 0, m) =~= cpos) by {
        assert forall|t: int| 0 <= t <= m implies #[trigger] in_path(p, 0, m)[t] == cpos[t] by {
            if t < m {
                vstd::arithmetic::div_mod::lemma_small_mod(t as nat, m as nat);
            } else {
                vstd::arithmetic::div_mod::lemma_mod_self_0(m);
            }
        }
    }
    lemma_in_path_sum(p, pt, 0, m);
    lemma_in_path_sum(p, pt, s, m);
    lemma_edge_sum_split(pos, pt, 0, s, m);
    assert(pw(pt, e) == pw(pt, cpos));
    assert(chain_sound(ww.push(ww[0]), p, min, max)) by {
        let (i, last) = ((s + m - 1) % m, ww.last());
        assert(sound_pair(last, original(p[(s + m + gap_len(p, min, max, s, m)) % m]), p, min, max));
        assert forall|j: int| 0 <= j < ww.len() implies sound_pair(#[trigger] ww.push(ww[0])[j], ww.push(ww[0])[j + 1], p, min, max) by {
            if j < ww.len() - 1 {
                assert(sound_pair(ww[j], ww[j + 1], p, min, max));
            }
        }
    }
}

/// Trimming the closing repeat keeps a prefix.
proof fn lemma_trim_prefix<V: Vertex>(p: Seq<V>)
    ensures
        trim_closing(p).len() <= p.len(),
        trim_closing(p) == p.take(trim_closing(p).len() as int),
    decreases p.len(),
{
    if p.len() >= 2 && p[0].pos() == p.last().pos() {
        lemma_trim_prefix(p.drop_last());
        assert(p.drop_last().take(trim_closing(p).len() as int) =~= p.take(trim_closing(p).len() as int));
    } else {
        assert(p.take(p.len() as int) =~= p);
    }
}

/// Around a ring's distinct vertices, each sits at a different position from the next.
proof fn lemma_ring_pts_apart<V: Vertex>(ring: Seq<V>)
    ensures
        ring_pts(ring).len() >= 2 ==> forall|i: int|
            0 <= i < ring_pts(ring).len() ==> (#[trigger] ring_pts(ring)[i]).pos() != ring_pts(
                ring,
            )[(i + 1) % (ring_pts(ring).len() as int)].pos(),
{
    let d = dedup(ring);
    let p = ring_pts(ring);
    let m = p.len() as int;
    if m >= 2 {
        lemma_dedup_distinct(ring);
        lemma_trim_prefix(d);
        lemma_trim_ends(d);
        assert forall|i: int| 0 <= i < m implies (#[trigger] p[i]).pos() != p[(i + 1) % m].pos() by {
            if i + 1 < m {
                vstd::arithmetic::div_mod::lemma_small_mod((i + 1) as nat, m as nat);
                assert(p[i] == d[i] && p[i + 1] == d[i + 1]);
            } else {
                vstd::arithmetic::div_mod::lemma_mod_self_0(m);
            }
        }
    }
}

/// Touching the box does not depend on the segment's direction.
proof fn lemma_touches_reversed(a: Coord, b: Coord, min: Coord, max: Coord)
    ensures
        touches(a, b, min, max) == touches(b, a, min, max),
{
    assert(forall|c: Coord| #[trigger] cross(b, a, c) == -cross(a, b, c)) by {
        assert forall|c: Coord| #[trigger] cross(b, a, c) == -cross(a, b, c) by {
            assert(cross(b, a, c) == -cross(a, b, c)) by (nonlinear_arith);
        }
    }
    assert(cross(b, a, min) == -cross(a, b, min));
    assert(cross(b, a, max) == -cross(a, b, max));
    assert(cross(b, a, Coord { x: max.x, y: min.y }) == -cross(a, b, Coord { x: max.x, y: min.y }));
    assert(cross(b, a, Coord { x: min.x, y: max.y }) == -cross(a, b, Coord { x: min.x, y: max.y }));
}

/// The walk step at which the walk from `s` reaches vertex `x`.
spec fn step_of(x: int, s: int, m: int) -> int {
    if x >= s {
        x - s
    } else {
        x - s + m
    }
}

/// At the step reaching a kept vertex, the walk grows by exactly that vertex.
proof fn lemma_walk_grows<V: Vertex>(p: Seq<V>, min: Coord, max: Coord, s: int, x: int)
    requires
        p.len() >= 3,
        0 <= s < p.len(),
        0 <= x < p.len(),
        kept(p, min, max, x),
        walk(p, min, max, half(min.y + max.y), s, p.len() as int) is Ok,
    ensures
        0 <= step_of(x, s, p.len() as int) < p.len(),
        walk(p, min, max, half(min.y + max.y), s, step_of(x, s, p.len() as int) + 1)->Ok_0.len()
            == walk(p, min, max, half(min.y + max.y), s, step_of(x, s, p.len() as int))->Ok_0.len()
            + 1,
        walk(p, min, max, half(min.y + max.y), s, step_of(x, s, p.len() as int) + 1)->Ok_0.len()
            <= walk(p, min, max, half(min.y + max.y), s, p.len() as int)->Ok_0.len(),
{
    let m = p.len() as int;
    let cy = half(min.y + max.y);
    let q = step_of(x, s, m);
    if x >= s {
        vstd::arithmetic::div_mod::lemma_small_mod(x as nat, m as nat);
    } else {
        vstd::arithmetic::div_mod::lemma_mod_add_multiples_vanish(x, m);
        vstd::arithmetic::div_mod::lemma_small_mod(x as nat, m as nat);
    }
    assert((s + q) % m == x);
    lemma_walk_prefix(p, min, max, cy, s, q + 1, m);
    lemma_walk_prefix(p, min, max, cy, s, q, q + 1);
    lemma_walk_next(p, min, max, cy, s, q);
    lemma_piece_at(p, min, max, cy, s, q);
}

/// Three different kept vertices give the walk round the ring at least three entries.
proof fn lemma_walk_three<V: Vertex>(p: Seq<V>, min: Coord, max: Coord, s: int, x1: int, x2: int, x3: int)
    requires
        p.len() >= 3,
        0 <= s < p.len(),
        0 <= x1 < p.len() && 0 <= x2 < p.len() && 0 <= x3 < p.len(),
        x1 != x2 && x2 != x3 && x1 != x3,
        kept(p, min, max, x1) && kept(p, min, max, x2) && kept(p, min, max, x3),
        walk(p, min, max, half(min.y + max.y), s, p.len() as int) is Ok,
    ensures
        walk(p, min, max, half(min.y + max.y), s, p.len() as int)->Ok_0.len() >= 3,
{
    let m = p.len() as int;
    let cy = half(min.y + max.y);
    lemma_walk_grows(p, min, max, s, x1);
    lemma_walk_grows(p, min, max, s, x2);
    lemma_walk_grows(p, min, max, s, x3);
    let q1 = step_of(x1, s, m);
    let q2 = step_of(x2, s, m);
    let q3 = step_of(x3, s, m);
    assert(q1 != q2 && q2 != q3 && q1 != q3);
    // Order the three steps.
    let lo = if q1 <= q2 && q1 <= q3 { q1 } else if q2 <= q3 { q2 } else { q3 };
    let hi = if q1 >= q2 && q1 >= q3 { q1 } else if q2 >= q3 { q2 } else { q3 };
    let mid = if q1 != lo && q1 != hi { q1 } else if q2 != lo && q2 != hi { q2 } else { q3 };
    assert(lo < mid < hi);
    lemma_walk_prefix(p, min, max, cy, s, mid, m);
    lemma_walk_prefix(p, min, max, cy, s, hi, m);
    lemma_walk_prefix(p, min, max, cy, s, lo + 1, mid);
    lemma_walk_prefix(p, min, max, cy, s, mid + 1, hi);
    assert(walk(p, min, max, cy, s, lo + 1)->Ok_0.len() >= 1);
    assert(walk(p, min, max, cy, s, mid + 1)->Ok_0.len() >= 2);
    assert(walk(p, min, max, cy, s, hi + 1)->Ok_0.len() >= 3);
}

/// A clipped ring that keeps an edge of the ring reaching into the box has at least three
/// entries before its closing repeat.
#[verifier::spinoff_prover]
#[verifier::rlimit(40)]
proof fn lemma_clipped_long<V: Vertex>(ring: Seq<V>, min: Coord, max: Coord, i: int, w: Seq<(Coord, Option<V>)>)
    requires
        ring.len() >= 3,
        ring_pts(ring).len() >= 3,
        0 <= i < ring_pts(ring).len(),
        edge_hit(ring_pts(ring), min, max, i),
        clip_ring_spec(ring, min, max) == Ok::<Option<Seq<(Coord, Option<V>)>>, TileError>(Some(w)),
    ensures
        w.len() >= 4,
{
    let p = ring_pts(ring);
    let m = p.len() as int;
    let i1 = (i + 1) % m;
    lemma_mod_next(i, m);
    vstd::arithmetic::div_mod::lemma_small_mod(i as nat, m as nat);
    lemma_ring_pts_apart(ring);
    let s = first_arc_start(p, min, max, 0);
    if !((forall|x: int| 0 <= x < m ==> #[trigger] kept(p, min, max, x)) || s >= m) {
        let cy = half(min.y + max.y);
        let ww = walk(p, min, max, cy, s, m)->Ok_0;
        assert(w == ww.push(ww[0]));
        lemma_arc_start_kept(p, min, max, 0);
        law_clip_ring_keeps_touching_edges(ring, min, max);
        let j = choose|j: int|
            0 <= j < w.len() - 1 && #[trigger] w[j] == original(p[i]) && w[j + 1] == original(p[i1]);
        if ww.len() < 3 {
            // Were the walk this short, the edge walked back would be an edge of the ring as
            // well, giving a third kept vertex.
            law_clip_ring_touching_edges_are_input_edges(ring, min, max);
            lemma_touches_reversed(p[i].pos(), p[i1].pos(), min, max);
            let jr = if j == 0 {
                1int
            } else {
                0int
            };
            assert(ww.len() == 2) by {
                if ww.len() == 1 {
                    assert(w[0] == w[1]);
                }
            }
            assert(w[jr].0 == p[i1].pos() && w[jr + 1].0 == p[i].pos());
            assert(sound_pair(w[jr], w[jr + 1], p, min, max));
            let b = w[jr].1->Some_0;
            let a = w[jr + 1].1->Some_0;
            let jj = choose|jj: int| 0 <= jj < p.len() && #[trigger] p[jj] == b && p[(jj + 1) % m] == a;
            lemma_mod_next(jj, m);
            vstd::arithmetic::div_mod::lemma_small_mod(jj as nat, m as nat);
            assert(edge_hit(p, min, max, jj));
            lemma_mod_prev(jj + 1, m);
            lemma_mod_prev(i + 1, m);
            assert(kept(p, min, max, i) && kept(p, min, max, i1));
            assert(kept(p, min, max, jj) && kept(p, min, max, (jj + 1) % m));
            if jj == i {
                assert(false);
            } else if jj == i1 {
                let i2 = (jj + 1) % m;
                lemma_mod_next(i + 1, m);
                if i + 2 < m {
                    vstd::arithmetic::div_mod::lemma_small_mod((i + 2) as nat, m as nat);
                } else {
                    vstd::arithmetic::div_mod::lemma_mod_add_multiples_vanish(i + 2 - m, m);
                    vstd::arithmetic::div_mod::lemma_small_mod((i + 2 - m) as nat, m as nat);
                }
                assert(i2 != i);
                lemma_walk_three(p, min, max, s, i, i1, i2);
            } else if (jj + 1) % m == i {
                lemma_walk_three(p, min, max, s, jj, i, i1);
            } else {
                lemma_walk_three(p, min, max, s, i, i1, jj);
            }
        }
    }
}

/// A point of the box on an edge of the ring is inside the ring and inside its clipped ring.
#[verifier::spinoff_prover]
proof fn lemma_fill_on_edge<V: Vertex>(ring: Seq<V>, min: Coord, max: Coord, pt: Coord, i: int)
    requires
        in_box(pt, min, max),
        ring.len() >= 3,
        ring_pts(ring).len() >= 3,
        0 <= i < ring_pts(ring).len(),
        on_segment(
            pt,
            ring_positions(ring)[i],
            ring_positions(ring)[(i + 1) % (ring_pts(ring).len() as int)],
        ),
    ensures
        in_ring(pt, ring_positions(ring)),
        edge_hit(ring_pts(ring), min, max, i),
        clip_ring_spec(ring, min, max) matches Ok(Some(w)) ==> in_ring(pt, entry_pos(w)),
{
    let p = ring_pts(ring);
    let m = p.len() as int;
    let pos = ring_positions(ring);
    let i1 = (i + 1) % m;
    lemma_mod_next(i, m);
    vstd::arithmetic::div_mod::lemma_small_mod(i as nat, m as nat);
    lemma_trim_ends(dedup(ring));
    assert(pos[m - 1] != pos[0]);
    assert(ring_len(pos) == m);
    // The ring holds `pt` on its edge ending at vertex `i + 1`.
    assert(edge_tail(pos, m, i1) == pos[i]) by {
        if i == m - 1 {
            vstd::arithmetic::div_mod::lemma_mod_self_0(m);
        } else {
            vstd::arithmetic::div_mod::lemma_small_mod((i + 1) as nat, m as nat);
        }
    }
    assert(on_segment(pt, edge_tail(pos, m, i1), pos[i1]));
    // That edge reaches the box.
    lemma_on_segment_touches(pt, pos[i], pos[i1], min, max);
    assert(edge_hit(p, min, max, i));
    if let Ok(Some(w)) = clip_ring_spec(ring, min, max) {
        let e = entry_pos(w);
        law_clip_ring_keeps_touching_edges(ring, min, max);
        let j = choose|j: int|
            0 <= j < w.len() - 1 && #[trigger] w[j] == original(p[i]) && w[j + 1] == original(p[i1]);
        assert(e[j] == pos[i] && e[j + 1] == pos[i1]);
        lemma_clipped_long(ring, min, max, i, w);
        let k = w.len() - 1;
        assert(w[k] == w[0]) by {
            let s = first_arc_start(p, min, max, 0);
            if !((forall|x: int| 0 <= x < m ==> #[trigger] kept(p, min, max, x)) || s >= m) {
                let ww = walk(p, min, max, half(min.y + max.y), s, m)->Ok_0;
                assert(w == ww.push(ww[0]));
            }
        }
        assert(e.len() == k + 1 && e[k] == e[0]);
        assert(ring_len(e) == k);
        if j + 1 < k {
            assert(edge_tail(e, k, j + 1) == e[j]);
            assert(on_segment(pt, edge_tail(e, k, j + 1), e[j + 1]));
        } else {
            assert(edge_tail(e, k, 0) == e[j]);
            assert(on_segment(pt, edge_tail(e, k, 0), e[0]));
        }
    }
}

/// Off the ring's edges, a point of the box is inside the clipped ring exactly when it is inside
/// the ring; where some edge reaches the box, the clipped ring winds round it as the ring does.
#[verifier::spinoff_prover]
#[verifier::rlimit(60)]
proof fn lemma_fill_off_edges<V: Vertex>(
    ring: Seq<V>,
    min: Coord,
    max: Coord,
    pt: Coord,
)
    requires
        in_box(pt, min, max),
        off_ring(pt, ring_positions(ring)),
    ensures
        clip_ring_spec(ring, min, max) matches Ok(Some(w)) ==> in_ring(pt, entry_pos(w)) == in_ring(
            pt,
            ring_positions(ring),
        ),
        clip_ring_spec(ring, min, max) matches Ok(None) ==> !in_ring(pt, ring_positions(ring)),
        (exists|i: int| 0 <= i < ring_pts(ring).len() && #[trigger] edge_hit(ring_pts(ring), min, max, i))
            ==> (clip_ring_spec(ring, min, max) matches Ok(Some(w)) ==> pw(pt, entry_pos(w)) == pw(
            pt,
            ring_positions(ring).push(ring_positions(ring)[0]),
        )),
{
    let p = ring_pts(ring);
    let m = p.len() as int;
    let pos = ring_positions(ring);
    lemma_ring_pts_len(ring);
    assert(pos =~= p.map_values(|x: V| x.pos()));
    if ring.len() >= 3 && m >= 3 {
        let cpos = pos.push(pos[0]);
        lemma_trim_ends(dedup(ring));
        assert(pos[m - 1] != pos[0]);
        if forall|i: int| 0 <= i < m ==> !#[trigger] edge_hit(p, min, max, i) {
            lemma_no_hit_fill(p, min, max, pt);
            if let Ok(Some(w)) = clip_ring_spec(ring, min, max) {
                assert(entry_pos(w) =~= fill_spec(ring_turn(pos), min, max));
            }
        } else if let Ok(Some(w)) = clip_ring_spec(ring, min, max) {
            let e = entry_pos(w);
            let s = first_arc_start(p, min, max, 0);
            if (forall|i: int| 0 <= i < m ==> #[trigger] kept(p, min, max, i)) || s >= m {
                law_clip_ring_touching_edges_are_input_edges(ring, min, max);
                assert(chain_sound(w, p, min, max));
                assert(e =~= cpos);
            } else {
                lemma_walk_winding(p, min, max, pt);
            }
            lemma_chain_misses(p, min, max, pt, w);
            lemma_same_winding(pt, e, pos);
        }
    }
}

/// Clipping a ring to a tile keeps its fill inside the tile's box: a point of the box is inside
/// the clipped ring exactly when it is inside the ring (a point on an edge counting as inside), and
/// a ring that does not appear in the tile holds no point of the box. Where some edge of the ring
/// reaches the box, the clipped ring even winds round each point of the box off the ring's edges
/// exactly as often, and in the same sense, as the ring does.
pub proof fn law_clip_ring_keeps_fill_in_box<V: Vertex>(
    ring: Seq<V>,
    min: Coord,
    max: Coord,
    pt: Coord,
)
    requires
        in_box(pt, min, max),
    ensures
        clip_ring_spec(ring, min, max) matches Ok(Some(w)) ==> in_ring(pt, entry_pos(w)) == in_ring(
            pt,
            ring_positions(ring),
        ),
        clip_ring_spec(ring, min, max) matches Ok(None) ==> !in_ring(pt, ring_positions(ring)),
        off_ring(pt, ring_positions(ring)) && (exists|i: int|
            0 <= i < ring_pts(ring).len() && #[trigger] edge_hit(ring_pts(ring), min, max, i)) ==> (
        clip_ring_spec(ring, min, max) matches Ok(Some(w)) ==> pw(pt, entry_pos(w)) == pw(
            pt,
            ring_positions(ring).push(ring_positions(ring)[0]),
        )),
{
    let p = ring_pts(ring);
    let m = p.len() as int;
    let pos = ring_positions(ring);
    if off_ring(pt, pos) {
        lemma_fill_off_edges(ring, min, max, pt);
    } else {
        let i = choose|i: int| 0 <= i < pos.len() && on_segment(pt, #[trigger] pos[i], pos[(i + 1) % (pos.len() as int)]);
        lemma_ring_pts_len(ring);
        if ring.len() >= 3 && m >= 3 {
            lemma_fill_on_edge(ring, min, max, pt, i);
            assert(!(forall|k: int| 0 <= k < m ==> !#[trigger] edge_hit(p, min, max, k)));
        }
    }
}

} // verus!
