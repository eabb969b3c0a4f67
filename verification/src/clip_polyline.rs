//! Low-level polyline clipping against a single tile box (the engine behind the [`Grid`] slicer
//! core).
//!
//! Clipping keeps the **original** vertices — never cutting new ones at the tile edge. Every segment
//! that touches the box contributes both of its endpoints, so a line shows up in every tile it
//! passes through, even ones it merely crosses with no vertex inside. A stretch that leaves the box
//! and re-enters splits into separate pieces only where a vertex is dropped: a single-segment
//! excursion out and back keeps both its (outside) endpoints, so it stays one connected piece.
//!
//! [`Grid`]: crate::grid::Grid

use vstd::prelude::*;

use crate::error::TileError;
use crate::geom::{cross, orient, Turn};
use crate::vertex::{Coord, Vertex};

verus! {

/// `c` lies in the closed rectangle `[min, max]`.
pub open spec fn in_box(c: Coord, min: Coord, max: Coord) -> bool {
    min.x <= c.x <= max.x && min.y <= c.y <= max.y
}

/// The bounding box of segment `a`–`b` meets the closed rectangle `[min, max]`.
pub open spec fn bbox_meets(a: Coord, b: Coord, min: Coord, max: Coord) -> bool {
    &&& (a.x <= max.x || b.x <= max.x)
    &&& (a.x >= min.x || b.x >= min.x)
    &&& (a.y <= max.y || b.y <= max.y)
    &&& (a.y >= min.y || b.y >= min.y)
}

/// The four corners of `[min, max]` all lie strictly on one side of the line through `a` and `b`.
pub open spec fn corners_one_side(a: Coord, b: Coord, min: Coord, max: Coord) -> bool {
    let c0 = cross(a, b, min);
    let c1 = cross(a, b, Coord { x: max.x, y: min.y });
    let c2 = cross(a, b, Coord { x: min.x, y: max.y });
    let c3 = cross(a, b, max);
    (c0 > 0 && c1 > 0 && c2 > 0 && c3 > 0) || (c0 < 0 && c1 < 0 && c2 < 0 && c3 < 0)
}

/// Segment `a`–`b` touches the closed integer rectangle `[min, max]`: its bounding box meets the
/// rectangle, and either an endpoint lies inside or the rectangle straddles the segment's line.
pub open spec fn touches(a: Coord, b: Coord, min: Coord, max: Coord) -> bool {
    &&& bbox_meets(a, b, min, max)
    &&& (in_box(a, min, max) || in_box(b, min, max) || !corners_one_side(a, b, min, max))
}

/// Is coordinate `c` inside the closed rectangle `[min, max]`?
fn inside(c: Coord, min: Coord, max: Coord) -> (r: bool)
    ensures
        r == in_box(c, min, max),
{
    c.x >= min.x && c.x <= max.x && c.y >= min.y && c.y <= max.y
}

/// Does segment `a`–`b` touch the closed integer rectangle `[min, max]`?
///
/// Integer-only: reject when the segment's bounding box is disjoint from the box, accept when an
/// endpoint is inside, otherwise test whether the box straddles the segment's supporting line via
/// exact cross products.
pub fn segment_intersects(a: Coord, b: Coord, min: Coord, max: Coord) -> (r: bool)
    ensures
        r == touches(a, b, min, max),
{
    let lo_x = if a.x <= b.x {
        a.x
    } else {
        b.x
    };
    let hi_x = if a.x <= b.x {
        b.x
    } else {
        a.x
    };
    let lo_y = if a.y <= b.y {
        a.y
    } else {
        b.y
    };
    let hi_y = if a.y <= b.y {
        b.y
    } else {
        a.y
    };
    // Quick reject: the segment's bounding box is disjoint from the tile box.
    if lo_x > max.x || hi_x < min.x || lo_y > max.y || hi_y < min.y {
        return false;
    }
    // Quick accept: an endpoint lies inside the (closed) box.
    if inside(a, min, max) || inside(b, min, max) {
        return true;
    }
    // Both endpoints outside and the bounding boxes overlap: the segment meets the box iff its four
    // corners are not all strictly on one side of the segment's supporting line.
    let s0 = orient(a, b, min);
    let s1 = orient(a, b, Coord { x: max.x, y: min.y });
    let s2 = orient(a, b, Coord { x: min.x, y: max.y });
    let s3 = orient(a, b, max);
    let all_left = s0 == Turn::CounterClockwise && s1 == Turn::CounterClockwise && s2
        == Turn::CounterClockwise && s3 == Turn::CounterClockwise;
    let all_right = s0 == Turn::Clockwise && s1 == Turn::Clockwise && s2 == Turn::Clockwise && s3
        == Turn::Clockwise;
    !(all_left || all_right)
}

/// `p − origin` on both axes, when it fits `i32`.
pub open spec fn local_of(p: Coord, origin: Coord) -> Option<Coord> {
    if i32::MIN <= p.x - origin.x <= i32::MAX && i32::MIN <= p.y - origin.y <= i32::MAX {
        Some(Coord { x: (p.x - origin.x) as i32, y: (p.y - origin.y) as i32 })
    } else {
        None
    }
}

/// Vertex `v` re-expressed in the frame whose `[0, 0]` corner is `origin`, or `Overflow`.
pub open spec fn localized<V: Vertex>(v: V, origin: Coord) -> Result<V, TileError> {
    match local_of(v.pos(), origin) {
        Some(q) => Ok(v.moved_to(q)),
        None => Err(TileError::Overflow),
    }
}

/// Re-express vertex `v` in the tile-local frame whose `[0, 0]` corner is `origin`: its position
/// becomes `position − origin`, its payload unchanged. [`TileError::Overflow`] if the offset leaves
/// the `i32` range.
pub fn to_local<V: Vertex>(v: V, origin: Coord) -> (r: Result<V, TileError>)
    ensures
        r == localized(v, origin),
{
    let p = v.position();
    let x = match p.x.checked_sub(origin.x) {
        Some(x) => x,
        None => return Err(TileError::Overflow),
    };
    let y = match p.y.checked_sub(origin.y) {
        Some(y) => y,
        None => return Err(TileError::Overflow),
    };
    Ok(v.with_position(Coord { x, y }))
}

/// An affine function `dx·(y − ay) − dy·(x − ax)` positive at the four corners of a rectangle is
/// positive everywhere in it.
proof fn lemma_affine_positive(
    dx: int,
    dy: int,
    ax: int,
    ay: int,
    x0: int,
    x1: int,
    y0: int,
    y1: int,
    x: int,
    y: int,
)
    requires
        x0 <= x <= x1,
        y0 <= y <= y1,
        dx * (y0 - ay) - dy * (x0 - ax) > 0,
        dx * (y0 - ay) - dy * (x1 - ax) > 0,
        dx * (y1 - ay) - dy * (x0 - ax) > 0,
        dx * (y1 - ay) - dy * (x1 - ax) > 0,
    ensures
        dx * (y - ay) - dy * (x - ax) > 0,
{
    // Each term is smallest at one end of its range, so the whole is at least its value at a corner.
    let xe = if dy >= 0 { x1 } else { x0 };
    let ye = if dx >= 0 { y0 } else { y1 };
    assert(dy * (x - ax) <= dy * (xe - ax)) by (nonlinear_arith)
        requires
            x0 <= x <= x1,
            xe == (if dy >= 0 { x1 } else { x0 }),
    ;
    assert(dx * (y - ay) >= dx * (ye - ay)) by (nonlinear_arith)
        requires
            y0 <= y <= y1,
            ye == (if dx >= 0 { y0 } else { y1 }),
    ;
}

/// The cross product with the segment's line is antisymmetric in the segment's direction.
proof fn lemma_cross_swap(a: Coord, b: Coord, p: Coord)
    ensures
        cross(b, a, p) == -cross(a, b, p),
{
    assert(cross(b, a, p) == -cross(a, b, p)) by (nonlinear_arith);
}

/// The four corners of `[min, max]` all lie strictly on the left of the line through `a` and `b`.
pub open spec fn corners_left(a: Coord, b: Coord, min: Coord, max: Coord) -> bool {
    &&& cross(a, b, min) > 0
    &&& cross(a, b, Coord { x: max.x, y: min.y }) > 0
    &&& cross(a, b, Coord { x: min.x, y: max.y }) > 0
    &&& cross(a, b, max) > 0
}

/// A point `a + (n/d)(b − a)` of the segment, `0 ≤ n ≤ d`, scaled by `d`, lies in `[min, max]`.
pub open spec fn segment_point_in_box(a: Coord, b: Coord, n: int, d: int, min: Coord, max: Coord) -> bool {
    &&& 0 < d
    &&& 0 <= n <= d
    &&& d * min.x <= d * a.x + n * (b.x - a.x) <= d * max.x
    &&& d * min.y <= d * a.y + n * (b.y - a.y) <= d * max.y
}

/// Scaling a point and the line's anchor by `d > 0` keeps the point's side of the line.
proof fn lemma_scaled_side(dx: int, dy: int, ax: int, ay: int, cx: int, cy: int, d: int)
    requires
        d > 0,
    ensures
        dx * (cy - ay) - dy * (cx - ax) > 0 ==> dx * (d * cy - d * ay) - dy * (d * cx - d * ax) > 0,
{
    assert(dx * (d * cy - d * ay) - dy * (d * cx - d * ax) == d * (dx * (cy - ay) - dy * (cx - ax)))
        by (nonlinear_arith);
    if dx * (cy - ay) - dy * (cx - ax) > 0 {
        assert(d * (dx * (cy - ay) - dy * (cx - ax)) > 0) by (nonlinear_arith)
            requires
                d > 0,
                dx * (cy - ay) - dy * (cx - ax) > 0,
        ;
    }
}

/// No point of the box lies on the line when all the corners are strictly on its left.
proof fn lemma_left_box_misses_line(a: Coord, b: Coord, n: int, d: int, min: Coord, max: Coord)
    requires
        corners_left(a, b, min, max),
    ensures
        !segment_point_in_box(a, b, n, d, min, max),
{
    if segment_point_in_box(a, b, n, d, min, max) {
    let dx = b.x - a.x;
    let dy = b.y - a.y;
    let x = d * a.x + n * dx;
    let y = d * a.y + n * dy;
    // Scaled by `d`, the corners keep their side and the point lies on the line.
        lemma_scaled_side(dx, dy, a.x as int, a.y as int, min.x as int, min.y as int, d);
        lemma_scaled_side(dx, dy, a.x as int, a.y as int, max.x as int, min.y as int, d);
        lemma_scaled_side(dx, dy, a.x as int, a.y as int, min.x as int, max.y as int, d);
        lemma_scaled_side(dx, dy, a.x as int, a.y as int, max.x as int, max.y as int, d);
    assert(dx * (min.y - a.y) - dy * (min.x - a.x) > 0);
    assert(dx * (min.y - a.y) - dy * (max.x - a.x) > 0);
    assert(dx * (max.y - a.y) - dy * (min.x - a.x) > 0);
    assert(dx * (max.y - a.y) - dy * (max.x - a.x) > 0);
    lemma_affine_positive(dx, dy, d * a.x, d * a.y, d * min.x, d * max.x, d * min.y, d * max.y, x, y);
    assert(dx * (y - d * a.y) - dy * (x - d * a.x) == 0) by (nonlinear_arith)
        requires
            x == d * a.x + n * dx,
            y == d * a.y + n * dy,
    ;
    }
}

/// A segment touches a box exactly as geometry says, on both sides of the test:
/// - when some point of the closed segment lies in the box, the segment touches it;
/// - when the box lies strictly on one side of the segment's line (its four corners all strictly
///   left, or all strictly right), the segment does not touch it, however its bounding box overlaps
///   the box;
/// - when the segment's bounding box misses the box, the segment does not touch it.
pub proof fn law_touches_is_contact(a: Coord, b: Coord, min: Coord, max: Coord, n: int, d: int)
    ensures
        segment_point_in_box(a, b, n, d, min, max) ==> touches(a, b, min, max),
        corners_left(a, b, min, max) || corners_left(b, a, min, max) ==> !touches(a, b, min, max),
        (a.x > max.x && b.x > max.x) || (a.x < min.x && b.x < min.x) || (a.y > max.y && b.y > max.y)
            || (a.y < min.y && b.y < min.y) ==> !touches(a, b, min, max),
{
    // A point of the segment in the box puts it in the segment's bounding box too.
    if segment_point_in_box(a, b, n, d, min, max) {
        assert(d * a.x + n * (b.x - a.x) == (d - n) * a.x + n * b.x) by (nonlinear_arith);
        assert(d * a.y + n * (b.y - a.y) == (d - n) * a.y + n * b.y) by (nonlinear_arith);
        assert((a.x <= max.x || b.x <= max.x)) by (nonlinear_arith)
            requires
                0 <= n <= d,
                0 < d,
                (d - n) * a.x + n * b.x <= d * max.x,
        ;
        assert((a.x >= min.x || b.x >= min.x)) by (nonlinear_arith)
            requires
                0 <= n <= d,
                0 < d,
                (d - n) * a.x + n * b.x >= d * min.x,
        ;
        assert((a.y <= max.y || b.y <= max.y)) by (nonlinear_arith)
            requires
                0 <= n <= d,
                0 < d,
                (d - n) * a.y + n * b.y <= d * max.y,
        ;
        assert((a.y >= min.y || b.y >= min.y)) by (nonlinear_arith)
            requires
                0 <= n <= d,
                0 < d,
                (d - n) * a.y + n * b.y >= d * min.y,
        ;
        if corners_one_side(a, b, min, max) {
            if corners_left(a, b, min, max) {
                lemma_left_box_misses_line(a, b, n, d, min, max);
            } else {
                lemma_cross_swap(a, b, min);
                lemma_cross_swap(a, b, Coord { x: max.x, y: min.y });
                lemma_cross_swap(a, b, Coord { x: min.x, y: max.y });
                lemma_cross_swap(a, b, max);
                // The same point, seen from `b`: `b + ((d − n)/d)(a − b)`.
                assert(d * b.x + (d - n) * (a.x - b.x) == d * a.x + n * (b.x - a.x)) by (nonlinear_arith);
                assert(d * b.y + (d - n) * (a.y - b.y) == d * a.y + n * (b.y - a.y)) by (nonlinear_arith);
                lemma_left_box_misses_line(b, a, d - n, d, min, max);
            }
        }
    }
    // A box strictly on one side holds neither endpoint, since both lie on the line.
    if corners_left(a, b, min, max) {
        if in_box(a, min, max) {
            assert(segment_point_in_box(a, b, 0, 1, min, max));
            lemma_left_box_misses_line(a, b, 0, 1, min, max);
        }
        if in_box(b, min, max) {
            assert(segment_point_in_box(a, b, 1, 1, min, max));
            lemma_left_box_misses_line(a, b, 1, 1, min, max);
        }
    }
    if corners_left(b, a, min, max) {
        lemma_cross_swap(a, b, min);
        lemma_cross_swap(a, b, Coord { x: max.x, y: min.y });
        lemma_cross_swap(a, b, Coord { x: min.x, y: max.y });
        lemma_cross_swap(a, b, max);
        if in_box(a, min, max) {
            assert(segment_point_in_box(b, a, 1, 1, min, max));
            lemma_left_box_misses_line(b, a, 1, 1, min, max);
        }
        if in_box(b, min, max) {
            assert(segment_point_in_box(b, a, 0, 1, min, max));
            lemma_left_box_misses_line(b, a, 0, 1, min, max);
        }
    }
}

} // verus!
