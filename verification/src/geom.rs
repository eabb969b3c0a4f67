//! Exact integer geometry predicates shared by clipping, ring orientation, and point-in-ring tests.
//!
//! Every predicate is exact across the full `i32` coordinate range (no floats, no division). A 2-D
//! cross product of full-`i32` points can reach `2^65`, so [`orient`] evaluates it in `i64` on the
//! edge difference vectors and only widens to `i128` when a difference does not fit `i32`.

use vstd::prelude::*;

use crate::vertex::Coord;

verus! {

/// The sense of a turn, or of a ring's winding.
#[derive(Debug, Clone, Copy, PartialEq, Eq, Structural)]
pub enum Turn {
    /// A right turn / clockwise winding (negative cross product or area).
    Clockwise,
    /// Collinear points / a degenerate ring (zero).
    Collinear,
    /// A left turn / counter-clockwise winding (positive cross product or area).
    CounterClockwise,
}

/// The cross product `(b − a) × (c − a)`.
pub open spec fn cross(a: Coord, b: Coord, c: Coord) -> int {
    (b.x - a.x) * (c.y - a.y) - (b.y - a.y) * (c.x - a.x)
}

/// The turn whose sign is that of `v`.
pub open spec fn turn_of(v: int) -> Turn {
    if v > 0 {
        Turn::CounterClockwise
    } else if v < 0 {
        Turn::Clockwise
    } else {
        Turn::Collinear
    }
}

/// Orientation of the turn `a → b → c`: the sign of the cross product `(b − a) × (c − a)`.
pub fn orient(a: Coord, b: Coord, c: Coord) -> (r: Turn)
    ensures
        r == turn_of(cross(a, b, c)),
{
    // Edge vectors as `i64` — an `i32 − i32` difference always fits `i64`.
    let ex1 = b.x as i64 - a.x as i64;
    let ey1 = b.y as i64 - a.y as i64;
    let ex2 = c.x as i64 - a.x as i64;
    let ey2 = c.y as i64 - a.y as i64;
    if fits_i32(ex1) && fits_i32(ey1) && fits_i32(ex2) && fits_i32(ey2) {
        // Each product is at most `2^62` in magnitude, so both fit `i64` exactly.
        proof {
            lemma_product_fits(ex1 as int, ey2 as int, 0x8000_0000);
            lemma_product_fits(ey1 as int, ex2 as int, 0x8000_0000);
        }
        let p1 = ex1 * ey2;
        let p2 = ey1 * ex2;
        if p1 > p2 {
            Turn::CounterClockwise
        } else if p1 < p2 {
            Turn::Clockwise
        } else {
            Turn::Collinear
        }
    } else {
        proof {
            lemma_product_fits(ex1 as int, ey2 as int, 0x1_0000_0000);
            lemma_product_fits(ey1 as int, ex2 as int, 0x1_0000_0000);
        }
        let p1 = ex1 as i128 * ey2 as i128;
        let p2 = ey1 as i128 * ex2 as i128;
        if p1 > p2 {
            Turn::CounterClockwise
        } else if p1 < p2 {
            Turn::Clockwise
        } else {
            Turn::Collinear
        }
    }
}

/// `|a·b| ≤ bound²` when both factors are within `bound` in magnitude.
proof fn lemma_product_fits(a: int, b: int, bound: int)
    requires
        -bound <= a <= bound,
        -bound <= b <= bound,
    ensures
        -bound * bound <= a * b <= bound * bound,
{
    assert(-bound * bound <= a * b <= bound * bound) by (nonlinear_arith)
        requires
            -bound <= a <= bound,
            -bound <= b <= bound,
    ;
}

/// Whether an `i64` value fits back into an `i32`.
fn fits_i32(v: i64) -> (r: bool)
    ensures
        r == (i32::MIN <= v <= i32::MAX),
{
    i32::MIN as i64 <= v && v <= i32::MAX as i64
}

/// Doubled signed area of the fan from `ring[0]` over the first `n` vertices: the shoelace sum
/// `Σ (ring[i] − ring[0]) × (ring[i+1] − ring[0])` for `i + 1 < n`.
pub open spec fn fan_area2(ring: Seq<Coord>, n: int) -> int
    decreases n,
{
    if n <= 1 {
        0
    } else {
        fan_area2(ring, n - 1) + cross(ring[0], ring[n - 2], ring[n - 1])
    }
}

/// The winding of a closed ring: the sign of its doubled signed area, `Collinear` for fewer than
/// three vertices.
pub open spec fn ring_turn(ring: Seq<Coord>) -> Turn {
    if ring.len() < 3 {
        Turn::Collinear
    } else {
        turn_of(fan_area2(ring, ring.len() as int))
    }
}

/// The winding of a closed `ring` from the sign of its signed area: counter-clockwise, clockwise,
/// or collinear for a degenerate ring (zero area). Works whether or not the ring repeats its first
/// vertex (the closing edge contributes nothing to the fan about `ring[0]`).
pub fn ring_orientation(ring: &[Coord]) -> (r: Turn)
    requires
        ring.len() < 0x1000_0000_0000_0000,
    ensures
        r == ring_turn(ring@),
{
    if ring.len() < 3 {
        return Turn::Collinear;
    }
    let v0 = ring[0];
    let mut area2: i128 = 0;
    let mut i: usize = 1;
    while i < ring.len()
        invariant
            1 <= i <= ring.len(),
            ring.len() < 0x1000_0000_0000_0000,
            v0 == ring@[0],
            area2 == fan_area2(ring@, i as int),
            -(i as int) * 0x8_0000_0000_0000_0000 <= area2 <= (i as int) * 0x8_0000_0000_0000_0000,
        decreases ring.len() - i,
    {
        let p = ring[i - 1];
        let q = ring[i];
        let px = p.x as i128 - v0.x as i128;
        let py = p.y as i128 - v0.y as i128;
        let qx = q.x as i128 - v0.x as i128;
        let qy = q.y as i128 - v0.y as i128;
        proof {
            lemma_product_fits(px as int, qy as int, 0x1_0000_0000);
            lemma_product_fits(py as int, qx as int, 0x1_0000_0000);
        }
        let term = px * qy - py * qx;
        area2 = area2 + term;
        i = i + 1;
    }
    if area2 > 0 {
        Turn::CounterClockwise
    } else if area2 < 0 {
        Turn::Clockwise
    } else {
        Turn::Collinear
    }
}

/// The determinant `p × q` of two positions taken as vectors from the origin.
pub open spec fn det(p: Coord, q: Coord) -> int {
    p.x * q.y - q.x * p.y
}

/// The shoelace sum `Σ ring[i] × ring[i + 1]` over the first `k` edges of `ring`.
pub open spec fn edge_sum(ring: Seq<Coord>, k: int) -> int
    decreases k,
{
    if k <= 0 {
        0
    } else {
        edge_sum(ring, k - 1) + det(ring[k - 1], ring[k])
    }
}

/// The doubled signed area of the closed polygon through `ring`'s vertices in order: the shoelace
/// sum over every edge, the closing edge from the last vertex back to the first included.
pub open spec fn shoelace(ring: Seq<Coord>) -> int {
    if ring.len() == 0 {
        0
    } else {
        edge_sum(ring, ring.len() - 1) + det(ring[ring.len() - 1], ring[0])
    }
}

/// The fan from `ring[0]` over the first `k` vertices is the shoelace sum of the polygon through
/// them.
proof fn lemma_fan_is_shoelace(ring: Seq<Coord>, k: int)
    requires
        2 <= k <= ring.len(),
    ensures
        fan_area2(ring, k) == edge_sum(ring, k - 1) + det(ring[k - 1], ring[0]),
    decreases k,
{
    let a = ring[0];
    if k == 2 {
        let b = ring[1];
        assert(fan_area2(ring, 1) == 0);
        assert(cross(a, a, b) == 0) by (nonlinear_arith);
        assert(edge_sum(ring, 0) == 0);
        assert(det(a, b) + det(b, a) == 0) by (nonlinear_arith);
    } else {
        lemma_fan_is_shoelace(ring, k - 1);
        let b = ring[k - 2];
        let c = ring[k - 1];
        assert(cross(a, b, c) == det(b, c) + det(a, b) + det(c, a)) by (nonlinear_arith);
        assert(det(b, a) + det(a, b) == 0) by (nonlinear_arith);
    }
}

/// A ring's winding is the sign of its doubled signed area, the shoelace sum over all its edges:
/// every vertex counts, not just the first turn.
pub proof fn law_ring_turn_is_area_sign(ring: Seq<Coord>)
    requires
        ring.len() >= 3,
    ensures
        ring_turn(ring) == turn_of(shoelace(ring)),
{
    lemma_fan_is_shoelace(ring, ring.len() as int);
}

/// The edges after the first are those of the ring without its first vertex.
proof fn lemma_edge_sum_drop_first(ring: Seq<Coord>, k: int)
    requires
        1 <= k <= ring.len() - 1,
    ensures
        edge_sum(ring, k) == det(ring[0], ring[1]) + edge_sum(ring.drop_first(), k - 1),
    decreases k,
{
    if k > 1 {
        lemma_edge_sum_drop_first(ring, k - 1);
        assert(ring.drop_first()[k - 2] == ring[k - 1]);
        assert(ring.drop_first()[k - 1] == ring[k]);
    } else {
        assert(edge_sum(ring, 0) == 0);
        assert(edge_sum(ring.drop_first(), 0) == 0);
    }
}

/// The edges of a prefix do not see what follows it.
proof fn lemma_edge_sum_prefix(r1: Seq<Coord>, r2: Seq<Coord>, k: int)
    requires
        0 <= k,
        k + 1 <= r1.len(),
        k + 1 <= r2.len(),
        forall|i: int| 0 <= i <= k ==> r1[i] == r2[i],
    ensures
        edge_sum(r1, k) == edge_sum(r2, k),
    decreases k,
{
    if k > 0 {
        lemma_edge_sum_prefix(r1, r2, k - 1);
    }
}

/// A ring winds the same way whichever vertex it starts at, and whether or not it repeats its
/// first vertex at the end.
pub proof fn law_ring_turn_ignores_start(ring: Seq<Coord>)
    requires
        ring.len() >= 3,
    ensures
        ring_turn(ring.drop_first().push(ring[0])) == ring_turn(ring),
        ring_turn(ring.push(ring[0])) == ring_turn(ring),
{
    let n = ring.len() as int;
    let rot = ring.drop_first().push(ring[0]);
    law_ring_turn_is_area_sign(ring);
    law_ring_turn_is_area_sign(rot);
    law_ring_turn_is_area_sign(ring.push(ring[0]));
    // Rotating by one moves the closing edge to the end: the same edges, summed in another order.
    lemma_edge_sum_drop_first(ring, n - 1);
    lemma_edge_sum_prefix(ring.drop_first(), rot, n - 2);
    assert(rot[n - 2] == ring[n - 1]);
    assert(rot[n - 1] == ring[0]);
    assert(edge_sum(rot, n - 1) == edge_sum(rot, n - 2) + det(ring[n - 1], ring[0]));
    assert(shoelace(rot) == shoelace(ring));
    // Repeating the first vertex adds an edge of zero length.
    let cl = ring.push(ring[0]);
    lemma_edge_sum_prefix(ring, cl, n - 1);
    assert(det(ring[0], ring[0]) == 0) by (nonlinear_arith);
    assert(shoelace(cl) == shoelace(ring));
}

/// `p` lies on the closed segment `t`–`h`.
pub open spec fn on_segment(p: Coord, t: Coord, h: Coord) -> bool {
    &&& cross(t, h, p) == 0
    &&& (if t.x <= h.x { t.x <= p.x <= h.x } else { h.x <= p.x <= t.x })
    &&& (if t.y <= h.y { t.y <= p.y <= h.y } else { h.y <= p.y <= t.y })
}

/// The directed edge `t → h` crosses the horizontal ray from `p` towards `+x`, counted half-open in
/// `y` (exactly one endpoint strictly above `p.y`), so a shared vertex is counted once.
pub open spec fn crosses_ray(p: Coord, t: Coord, h: Coord) -> bool {
    &&& (t.y > p.y) != (h.y > p.y)
    &&& (cross(t, h, p) > 0) == (h.y > t.y)
}

/// The number of distinct vertices of a ring: a repeated closing vertex is not counted.
pub open spec fn ring_len(ring: Seq<Coord>) -> int {
    if ring.len() >= 1 && ring[ring.len() - 1] == ring[0] {
        ring.len() - 1
    } else {
        ring.len() as int
    }
}

/// Edge `i` of the cyclic ring with `m` distinct vertices ends at `ring[i]` and starts at the
/// previous vertex (cyclically).
pub open spec fn edge_tail(ring: Seq<Coord>, m: int, i: int) -> Coord {
    if i == 0 {
        ring[m - 1]
    } else {
        ring[i - 1]
    }
}

/// How many of the first `k` cyclic edges cross the `+x` ray from `p`.
pub open spec fn ray_count(p: Coord, ring: Seq<Coord>, m: int, k: int) -> nat
    decreases k,
{
    if k <= 0 {
        0
    } else {
        ray_count(p, ring, m, k - 1) + if crosses_ray(p, edge_tail(ring, m, k - 1), ring[k - 1]) {
            1nat
        } else {
            0nat
        }
    }
}

/// `p` lies inside the closed `ring` or on its boundary: on some edge, or crossed by an odd number
/// of edges along its `+x` ray (even-odd rule).
pub open spec fn in_ring(p: Coord, ring: Seq<Coord>) -> bool {
    let m = ring_len(ring);
    &&& ring.len() >= 3
    &&& m >= 3
    &&& ((exists|i: int| 0 <= i < m && on_segment(p, edge_tail(ring, m, i), ring[i]))
        || ray_count(p, ring, m, m) % 2 == 1)
}

/// Where `p` sits relative to the edge `tail → head`: on the closed segment, and whether the edge
/// crosses the `+x` ray from `p`.
fn classify_edge(p: Coord, tail: Coord, head: Coord) -> (r: (bool, bool))
    ensures
        r.0 == on_segment(p, tail, head),
        r.1 == crosses_ray(p, tail, head),
{
    let turn = orient(tail, head, p);
    let on_x = if tail.x <= head.x {
        tail.x <= p.x && p.x <= head.x
    } else {
        head.x <= p.x && p.x <= tail.x
    };
    let on_y = if tail.y <= head.y {
        tail.y <= p.y && p.y <= head.y
    } else {
        head.y <= p.y && p.y <= tail.y
    };
    let on = turn == Turn::Collinear && on_x && on_y;
    // The crossing is to the right of `p` iff `p` is on the correct side of the directed edge: for
    // an upward edge a left turn puts `p` left of it; a downward edge flips the sense.
    let crosses = (tail.y > p.y) != (head.y > p.y) && (turn == Turn::CounterClockwise) == (head.y
        > tail.y);
    (on, crosses)
}

/// Whether point `p` lies inside `ring` (a closed polygon ring), counting the boundary as
/// **inside** (even-odd crossing number along `+x`, exact for all `i32` inputs).
#[verifier::spinoff_prover]
#[verifier::rlimit(40)]
pub fn point_in_ring(p: Coord, ring: &[Coord]) -> (r: bool)
    ensures
        r == in_ring(p, ring@),
{
    let n = ring.len();
    if n < 3 {
        return false;
    }
    let m = if ring[n - 1] == ring[0] {
        n - 1
    } else {
        n
    };
    if m < 3 {
        return false;
    }
    let ghost mm = m as int;
    let mut inside = false;
    let mut prev = m - 1;
    let mut i: usize = 0;
    while i < m
        invariant
            m == ring_len(ring@),
            mm == m,
            3 <= m <= ring.len(),
            i <= m,
            prev == (if i == 0 { m - 1 } else { i - 1 }),
            inside == (ray_count(p, ring@, mm, i as int) % 2 == 1),
            forall|j: int| 0 <= j < i ==> !on_segment(p, edge_tail(ring@, mm, j), #[trigger] ring@[j]),
        decreases m - i,
    {
        let tail = ring[prev];
        let head = ring[i];
        assert(tail == edge_tail(ring@, mm, i as int));
        assert(head == ring@[i as int]);
        let (on, crosses) = classify_edge(p, tail, head);
        if on {
            return true;
        }
        assert(!on_segment(p, edge_tail(ring@, mm, i as int), ring@[i as int]));
        if crosses {
            inside = !inside;
        }
        assert(ray_count(p, ring@, mm, i + 1) == ray_count(p, ring@, mm, i as int) + if crosses_ray(
            p,
            edge_tail(ring@, mm, i as int),
            ring@[i as int],
        ) {
            1nat
        } else {
            0nat
        });
        prev = i;
        i = i + 1;
    }
    inside
}

} // verus!
