//! Clipping one polygon **ring** to a single tile's buffered box, keeping the **original** vertices
//! and closing the result with synthetic clip-boundary corners so the ring stays a closed, correctly
//! wound loop. The engine behind [`PolygonSlicerOne`](crate::PolygonSlicerOne).
//!
//! A vertex is kept by the same rule as the polyline clip (an incident edge touches the box `B`);
//! the dropped outside excursions between kept arcs are bridged either by their own original
//! vertices or, when that is shorter, by a detour that hugs the box exterior `B⁺` (one unit outside
//! `B`) via its corners. A detour is built to reproduce the excursion's winding around the box
//! centre. All synthetic geometry lies strictly outside `B`.

use vstd::prelude::*;

use crate::clip_polyline::{in_box, segment_intersects, touches};
use crate::error::TileError;
use crate::geom::{
    edge_sum, in_ring, law_ring_turn_is_area_sign, point_in_ring, ring_orientation, ring_turn, shoelace,
    turn_of, Turn,
};
use crate::grid::dedup;
use crate::vertex::{Coord, PolyVertex, Vertex};

verus! {

/// Cohen–Sutherland outcode of `p` relative to the closed box `[min, max]`: `1` left, `2` right,
/// plus `4` below, `8` above (`0` iff `p` is inside).
pub open spec fn outcode_spec(p: Coord, min: Coord, max: Coord) -> u8 {
    ((if p.x < min.x {
        1int
    } else if p.x > max.x {
        2int
    } else {
        0int
    }) + (if p.y < min.y {
        4int
    } else if p.y > max.y {
        8int
    } else {
        0int
    })) as u8
}

/// Boundary slot `0..8` of an outcode, counter-clockwise with y up: `0=SW, 1=S, 2=SE, 3=E, 4=NE,
/// 5=N, 6=NW, 7=W` (an inside point maps to `0`).
pub open spec fn slot_spec(oc: u8) -> int {
    if oc == 5 {
        0
    } else if oc == 4 {
        1
    } else if oc == 6 {
        2
    } else if oc == 2 {
        3
    } else if oc == 10 {
        4
    } else if oc == 8 {
        5
    } else if oc == 9 {
        6
    } else if oc == 1 {
        7
    } else {
        0
    }
}

/// The `B⁺` corner at an even slot, one unit outside the box on both axes.
pub open spec fn shell_corner(slot: int, min: Coord, max: Coord) -> Coord {
    if slot == 0 {
        Coord { x: (min.x - 1) as i32, y: (min.y - 1) as i32 }
    } else if slot == 2 {
        Coord { x: (max.x + 1) as i32, y: (min.y - 1) as i32 }
    } else if slot == 4 {
        Coord { x: (max.x + 1) as i32, y: (max.y + 1) as i32 }
    } else {
        Coord { x: (min.x - 1) as i32, y: (max.y + 1) as i32 }
    }
}

/// The `B⁺` corners can be placed: the box keeps one unit clear of the `i32` limits.
pub open spec fn shell_fits(min: Coord, max: Coord) -> bool {
    min.x > i32::MIN && min.y > i32::MIN && max.x < i32::MAX && max.y < i32::MAX
}

/// `p` is one of the four `B⁺` corners.
pub open spec fn on_shell(p: Coord, min: Coord, max: Coord) -> bool {
    (p.x == min.x - 1 || p.x == max.x + 1) && (p.y == min.y - 1 || p.y == max.y + 1)
}

/// The slot reached `k` steps from `start`, counter-clockwise for a positive `advance`, clockwise
/// otherwise.
pub open spec fn walk_slot(start: int, advance: int, k: int) -> int {
    if advance > 0 {
        (start + k) % 8
    } else {
        (start - k) % 8
    }
}

/// `|a|`.
pub open spec fn abs(a: int) -> int {
    if a < 0 {
        -a
    } else {
        a
    }
}

/// The corners passed in the first `k` steps of walking `advance` slots from `start`: the `B⁺`
/// corner at every even slot reached, except at the final step.
pub open spec fn advance_corners(start: int, advance: int, min: Coord, max: Coord, k: int) -> Seq<
    Coord,
>
    decreases k,
{
    if k <= 0 {
        Seq::empty()
    } else {
        let prior = advance_corners(start, advance, min, max, k - 1);
        let s = walk_slot(start, advance, k);
        if k != abs(advance) && s % 2 == 0 {
            prior.push(shell_corner(s, min, max))
        } else {
            prior
        }
    }
}

/// The corners of walking `advance` slots from `start`, or `Overflow` when some are needed and
/// the shell cannot be placed.
pub open spec fn corners_spec(start: int, advance: int, min: Coord, max: Coord) -> Result<
    Seq<Coord>,
    TileError,
> {
    let cs = advance_corners(start, advance, min, max, abs(advance));
    if cs.len() > 0 && !shell_fits(min, max) {
        Err(TileError::Overflow)
    } else {
        Ok(cs)
    }
}

/// The signed crossing of segment `a → b` with the ray `{y = cy, x > max_x}`: `+1` upward, `-1`
/// downward, `0` when it does not cross (half-open in `y`).
pub open spec fn ray_step(a: Coord, b: Coord, cy: int, max_x: int) -> int {
    if (a.y > cy) != (b.y > cy) {
        let dy = b.y - a.y;
        let num = (a.x - max_x) * dy + (b.x - a.x) * (cy - a.y);
        if (num > 0 && dy > 0) || (num < 0 && dy < 0) {
            if b.y > a.y {
                1
            } else {
                -1
            }
        } else {
            0
        }
    } else {
        0
    }
}

/// The winding of the open path `p` around the box centre: its signed crossings of the ray
/// `{y = cy, x > max_x}`.
pub open spec fn ray_wind(p: Seq<Coord>, cy: int, max_x: int) -> int
    decreases p.len(),
{
    if p.len() < 2 {
        0
    } else {
        ray_wind(p.drop_last(), cy, max_x) + ray_step(p[p.len() - 2], p[p.len() - 1], cy, max_x)
    }
}

/// The detour corners bridging exit `u` to entry `v` around the box: the counter-clockwise walk
/// from `u`'s slot to `v`'s, plus whole loops so its winding equals that of `excursion`.
pub open spec fn detour_spec(
    u: Coord,
    v: Coord,
    excursion: Seq<Coord>,
    min: Coord,
    max: Coord,
    cy: int,
) -> Result<Seq<Coord>, TileError> {
    let su = slot_spec(outcode_spec(u, min, max));
    let sv = slot_spec(outcode_spec(v, min, max));
    let base = (sv + 8 - su) % 8;
    match corners_spec(su, base, min, max) {
        Err(e) => Err(e),
        Ok(rc) => {
            let w_ref = ray_wind(seq![u] + rc + seq![v], cy, max.x as int);
            let w_exc = ray_wind(excursion, cy, max.x as int);
            corners_spec(su, base + (w_exc - w_ref) * 8, min, max)
        },
    }
}

/// Outcode of `p` relative to the closed box `[min, max]` (0 iff `p` is inside).
pub fn outcode(p: Coord, min: Coord, max: Coord) -> (r: u8)
    ensures
        r == outcode_spec(p, min, max),
{
    let mut oc: u8 = 0;
    if p.x < min.x {
        oc = 1;
    } else if p.x > max.x {
        oc = 2;
    }
    if p.y < min.y {
        oc = oc + 4;
    } else if p.y > max.y {
        oc = oc + 8;
    }
    oc
}

/// Boundary slot `0..8` of an **outside** point's outcode (an inside point maps to `0`).
fn slot(oc: u8) -> (r: u8)
    ensures
        r == slot_spec(oc),
        r < 8,
{
    if oc == 5 {
        0
    } else if oc == 4 {
        1
    } else if oc == 6 {
        2
    } else if oc == 2 {
        3
    } else if oc == 10 {
        4
    } else if oc == 8 {
        5
    } else if oc == 9 {
        6
    } else if oc == 1 {
        7
    } else {
        0
    }
}

/// The `B⁺` corner at an even `slot`. `Overflow` if the box sits so close to the `i32` edge that a
/// corner can't be placed strictly outside it.
fn corner(slot: u8, min: Coord, max: Coord) -> (r: Result<Coord, TileError>)
    ensures
        r == (if shell_fits(min, max) {
            Ok::<Coord, TileError>(shell_corner(slot as int, min, max))
        } else {
            Err(TileError::Overflow)
        }),
{
    let lo_x = match min.x.checked_sub(1) {
        Some(v) => v,
        None => return Err(TileError::Overflow),
    };
    let lo_y = match min.y.checked_sub(1) {
        Some(v) => v,
        None => return Err(TileError::Overflow),
    };
    let hi_x = match max.x.checked_add(1) {
        Some(v) => v,
        None => return Err(TileError::Overflow),
    };
    let hi_y = match max.y.checked_add(1) {
        Some(v) => v,
        None => return Err(TileError::Overflow),
    };
    Ok(
        if slot == 0 {
            Coord { x: lo_x, y: lo_y }
        } else if slot == 2 {
            Coord { x: hi_x, y: lo_y }
        } else if slot == 4 {
            Coord { x: hi_x, y: hi_y }
        } else {
            Coord { x: lo_x, y: hi_y }
        },
    )
}

/// Signed crossings of the open path `poly` with the ray `{y = cy, x > max_x}` — the part of the
/// `+x` ray from the box centre that lies outside the box.
fn ray_crossings(poly: &[Coord], cy: i32, max_x: i32) -> (r: i64)
    requires
        poly@.len() < 0x1000_0000_0000_0000,
    ensures
        r == ray_wind(poly@, cy as int, max_x as int),
        -(poly@.len() as int) <= r <= poly@.len(),
{
    let mut w: i64 = 0;
    if poly.len() < 2 {
        return 0;
    }
    let mut i: usize = 1;
    proof {
        assert(poly@.take(1).len() < 2);
    }
    while i < poly.len()
        invariant
            1 <= i <= poly@.len(),
            poly@.len() < 0x1000_0000_0000_0000,
            w == ray_wind(poly@.take(i as int), cy as int, max_x as int),
            -(i as int) <= w <= i as int,
        decreases poly@.len() - i,
    {
        let a = poly[i - 1];
        let b = poly[i];
        proof {
            assert(poly@.take(i + 1).drop_last() =~= poly@.take(i as int));
            assert(poly@.take(i + 1)[i - 1] == a);
            assert(poly@.take(i + 1)[i as int] == b);
        }
        if (a.y > cy) != (b.y > cy) {
            let dy = b.y as i128 - a.y as i128;
            let d1 = a.x as i128 - max_x as i128;
            let d2 = b.x as i128 - a.x as i128;
            let d3 = cy as i128 - a.y as i128;
            assert(-0x1_0000_0000_0000_0000 <= d1 * dy <= 0x1_0000_0000_0000_0000) by (nonlinear_arith)
                requires
                    -0x1_0000_0000 <= d1 <= 0x1_0000_0000,
                    -0x1_0000_0000 <= dy <= 0x1_0000_0000,
            ;
            assert(-0x1_0000_0000_0000_0000 <= d2 * d3 <= 0x1_0000_0000_0000_0000) by (nonlinear_arith)
                requires
                    -0x1_0000_0000 <= d2 <= 0x1_0000_0000,
                    -0x1_0000_0000 <= d3 <= 0x1_0000_0000,
            ;
            let num = d1 * dy + d2 * d3;
            if (num > 0 && dy > 0) || (num < 0 && dy < 0) {
                if b.y > a.y {
                    w = w + 1;
                } else {
                    w = w - 1;
                }
            }
        }
        i = i + 1;
    }
    proof {
        assert(poly@.take(poly@.len() as int) =~= poly@);
    }
    w
}

/// The corners passed walking `advance` slots (counter-clockwise if positive, clockwise if
/// negative) from `start`: the `B⁺` corner at every even slot passed except the final one. No
/// corners for `advance == 0`.
fn corners_by_advance(start: u8, advance: i128, min: Coord, max: Coord) -> (r: Result<
    Vec<Coord>,
    TileError,
>)
    requires
        start < 8,
        -0x1_0000_0000_0000_0000 <= advance <= 0x1_0000_0000_0000_0000,
    ensures
        match r {
            Ok(cs) => corners_spec(start as int, advance as int, min, max) == Ok::<
                Seq<Coord>,
                TileError,
            >(cs@),
            Err(e) => corners_spec(start as int, advance as int, min, max) == Err::<
                Seq<Coord>,
                TileError,
            >(e),
        },
{
    let mut out: Vec<Coord> = Vec::new();
    if advance == 0 {
        assert(advance_corners(start as int, 0, min, max, 0) =~= Seq::<Coord>::empty());
        return Ok(out);
    }
    let forward = advance > 0;
    let steps: u128 = if forward {
        advance as u128
    } else {
        (-advance) as u128
    };
    let mut s: u8 = start;
    let mut step: u128 = 0;
    while step < steps
        invariant
            start < 8,
            s < 8,
            forward == (advance > 0),
            steps == abs(advance as int),
            step <= steps,
            s == walk_slot(start as int, advance as int, step as int),
            out@ == advance_corners(start as int, advance as int, min, max, step as int),
            out@.len() > 0 ==> shell_fits(min, max),
        decreases steps - step,
    {
        proof {
            lemma_walk_step(start as int, advance as int, step as int);
        }
        step = step + 1;
        s = if forward {
            (s + 1) % 8
        } else {
            (s + 7) % 8
        };
        assert(s == walk_slot(start as int, advance as int, step as int));
        if step != steps && s % 2 == 0 {
            let c = match corner(s, min, max) {
                Ok(c) => c,
                Err(e) => {
                    proof {
                        lemma_corners_grow(start as int, advance as int, min, max, step as int);
                    }
                    return Err(e);
                },
            };
            out.push(c);
        }
    }
    Ok(out)
}

/// One more step moves the slot by one around the 8-slot loop.
pub(crate) proof fn lemma_walk_step(start: int, advance: int, k: int)
    ensures
        walk_slot(start, advance, k + 1) == (if advance > 0 {
            (walk_slot(start, advance, k) + 1) % 8
        } else {
            (walk_slot(start, advance, k) + 7) % 8
        }),
{
    let x = if advance > 0 { start + k } else { start - k };
    let r = x % 8;
    let q = x / 8;
    vstd::arithmetic::div_mod::lemma_fundamental_div_mod(x, 8);
    if advance > 0 {
        let y = x + 1;
        if r + 1 < 8 {
            vstd::arithmetic::div_mod::lemma_fundamental_div_mod_converse(y, 8, q, r + 1);
        } else {
            vstd::arithmetic::div_mod::lemma_fundamental_div_mod_converse(y, 8, q + 1, 0);
        }
    } else {
        let y = x - 1;
        if r >= 1 {
            vstd::arithmetic::div_mod::lemma_fundamental_div_mod_converse(y, 8, q, r - 1);
        } else {
            vstd::arithmetic::div_mod::lemma_fundamental_div_mod_converse(y, 8, q - 1, 7);
        }
    }
}

/// The corner list only grows: once it has a corner, every longer walk has one too.
proof fn lemma_corners_grow(start: int, advance: int, min: Coord, max: Coord, k: int)
    requires
        1 <= k <= abs(advance),
        k != abs(advance),
        walk_slot(start, advance, k) % 2 == 0,
    ensures
        advance_corners(start, advance, min, max, abs(advance)).len() > 0,
    decreases abs(advance) - k,
{
    if k + 1 < abs(advance) || k + 1 == abs(advance) {
        lemma_corners_monotone(start, advance, min, max, k, abs(advance));
    }
}

/// A longer walk's corner list is at least as long.
proof fn lemma_corners_monotone(start: int, advance: int, min: Coord, max: Coord, k: int, n: int)
    requires
        1 <= k <= n,
        k != abs(advance),
        walk_slot(start, advance, k) % 2 == 0,
    ensures
        advance_corners(start, advance, min, max, n).len() > 0,
    decreases n - k,
{
    if n > k {
        lemma_corners_monotone(start, advance, min, max, k, n - 1);
    }
}

/// The box's centre `y`, rounded towards zero.
fn center_y(min: Coord, max: Coord) -> (r: i32)
    requires
        min.y <= max.y,
    ensures
        min.y <= r <= max.y,
        r == half(min.y + max.y),
{
    let s = min.y as i64 + max.y as i64;
    let h = if s >= 0 {
        s / 2
    } else {
        -((-s) / 2)
    };
    h as i32
}

/// `s / 2` rounded towards zero.
pub open spec fn half(s: int) -> int {
    if s >= 0 {
        s / 2
    } else {
        -((-s) / 2)
    }
}

/// The corner list of a `k`-step walk has at most `k` corners.
proof fn lemma_corners_len(start: int, advance: int, min: Coord, max: Coord, k: int)
    requires
        k >= 0,
    ensures
        advance_corners(start, advance, min, max, k).len() <= k,
    decreases k,
{
    if k > 0 {
        lemma_corners_len(start, advance, min, max, k - 1);
    }
}

/// Synthetic vertices at the positions `cs`.
fn synthesize<V: PolyVertex>(cs: &Vec<Coord>) -> (r: Vec<V>)
    ensures
        r@.len() == cs@.len(),
        forall|i: int| 0 <= i < cs@.len() ==> (#[trigger] r@[i]).pos() == cs@[i],
{
    let mut out: Vec<V> = Vec::new();
    let mut i: usize = 0;
    while i < cs.len()
        invariant
            i <= cs@.len(),
            out@.len() == i,
            forall|j: int| 0 <= j < i ==> (#[trigger] out@[j]).pos() == cs@[j],
        decreases cs@.len() - i,
    {
        out.push(V::synthetic_at(cs[i]));
        i = i + 1;
    }
    out
}

/// The synthetic detour corners bridging the dropped gap from exit vertex `u` to entry vertex `v`
/// (both outside the box). `excursion` is `[u, dropped…, v]`; the detour is built to reproduce its
/// winding around the box centre.
fn detour<V: PolyVertex>(
    u: Coord,
    v: Coord,
    excursion: &[Coord],
    min: Coord,
    max: Coord,
    cy: i32,
) -> (r: Result<Vec<V>, TileError>)
    requires
        excursion@.len() < 0x1000_0000_0000_0000,
    ensures
        match detour_spec(u, v, excursion@, min, max, cy as int) {
            Ok(cs) => r matches Ok(vs) && vs@.len() == cs.len() && forall|i: int|
                0 <= i < cs.len() ==> (#[trigger] vs@[i]).pos() == cs[i],
            Err(e) => r == Err::<Vec<V>, TileError>(e),
        },
{
    let su = slot(outcode(u, min, max));
    let sv = slot(outcode(v, min, max));
    let base = (sv + 8 - su) % 8;
    let ref_corners = match corners_by_advance(su, base as i128, min, max) {
        Ok(cs) => cs,
        Err(e) => return Err(e),
    };
    proof {
        lemma_corners_len(su as int, base as int, min, max, base as int);
    }
    let mut ref_poly: Vec<Coord> = Vec::new();
    ref_poly.push(u);
    let mut i: usize = 0;
    while i < ref_corners.len()
        invariant
            i <= ref_corners@.len(),
            ref_poly@ == seq![u] + ref_corners@.take(i as int),
        decreases ref_corners@.len() - i,
    {
        ref_poly.push(ref_corners[i]);
        proof {
            assert(ref_corners@.take(i + 1) =~= ref_corners@.take(i as int).push(ref_corners@[i as int]));
        }
        i = i + 1;
    }
    ref_poly.push(v);
    proof {
        assert(ref_corners@.take(ref_corners@.len() as int) =~= ref_corners@);
        assert(ref_poly@ =~= seq![u] + ref_corners@ + seq![v]);
    }
    let w_ref = ray_crossings(ref_poly.as_slice(), cy, max.x);
    let w_exc = ray_crossings(excursion, cy, max.x);
    let advance = base as i128 + (w_exc as i128 - w_ref as i128) * 8;
    let corners = match corners_by_advance(su, advance, min, max) {
        Ok(cs) => cs,
        Err(e) => return Err(e),
    };
    Ok(synthesize(&corners))
}

/// The `B⁺` fill box as a closed ring: clockwise for a clockwise ring, counter-clockwise
/// otherwise.
pub open spec fn fill_spec(turn: Turn, min: Coord, max: Coord) -> Seq<Coord> {
    let sw = shell_corner(0, min, max);
    let se = shell_corner(2, min, max);
    let ne = shell_corner(4, min, max);
    let nw = shell_corner(6, min, max);
    if turn == Turn::Clockwise {
        seq![sw, nw, ne, se, sw]
    } else {
        seq![sw, se, ne, nw, sw]
    }
}

/// The `B⁺` fill box as a closed ring oriented like `turn` (a solid tile fill), all synthetic.
fn fill_box<V: PolyVertex>(turn: Turn, min: Coord, max: Coord) -> (r: Result<Vec<V>, TileError>)
    ensures
        match r {
            Ok(vs) => shell_fits(min, max) && vs@.len() == 5 && vs@[4] == vs@[0] && forall|i: int|
                0 <= i < 5 ==> (#[trigger] vs@[i]).pos() == fill_spec(turn, min, max)[i],
            Err(e) => !shell_fits(min, max) && e == TileError::Overflow,
        },
{
    let sw = match corner(0, min, max) {
        Ok(c) => c,
        Err(e) => return Err(e),
    };
    let se = match corner(2, min, max) {
        Ok(c) => c,
        Err(e) => return Err(e),
    };
    let ne = match corner(4, min, max) {
        Ok(c) => c,
        Err(e) => return Err(e),
    };
    let nw = match corner(6, min, max) {
        Ok(c) => c,
        Err(e) => return Err(e),
    };
    let cs = if turn == Turn::Clockwise {
        vec![sw, nw, ne, se]
    } else {
        vec![sw, se, ne, nw]
    };
    let mut vs: Vec<V> = synthesize(&cs);
    // Close the ring with the very vertex it starts with.
    let first = vs[0];
    let ghost open_ring = vs@;
    vs.push(first);
    proof {
        let f = fill_spec(turn, min, max);
        assert forall|i: int| 0 <= i < 5 implies (#[trigger] vs@[i]).pos() == f[i] by {
            if i < 4 {
                assert(vs@[i] == open_ring[i]);
                assert(open_ring[i].pos() == cs@[i]);
            } else {
                assert(open_ring[0].pos() == cs@[0]);
            }
        }
    }
    Ok(vs)
}

/// `p` with trailing vertices at the first vertex's position dropped (the ring's repeated closing
/// vertex), keeping at least one vertex.
pub open spec fn trim_closing<V: Vertex>(p: Seq<V>) -> Seq<V>
    decreases p.len(),
{
    if p.len() >= 2 && p[0].pos() == p.last().pos() {
        trim_closing(p.drop_last())
    } else {
        p
    }
}

/// The ring's distinct-position vertices in cyclic order: consecutive duplicates and the repeated
/// closing vertex dropped.
pub open spec fn ring_pts<V: Vertex>(ring: Seq<V>) -> Seq<V> {
    trim_closing(dedup(ring))
}

/// Edge `i` of the cyclic ring `p` (from `p[i]` to `p[i + 1]`) touches the box.
pub open spec fn edge_hit<V: Vertex>(p: Seq<V>, min: Coord, max: Coord, i: int) -> bool {
    touches(p[i].pos(), p[(i + 1) % (p.len() as int)].pos(), min, max)
}

/// Vertex `i` of the cyclic ring `p` is kept: one of its two edges touches the box.
pub open spec fn kept<V: Vertex>(p: Seq<V>, min: Coord, max: Coord, i: int) -> bool {
    edge_hit(p, min, max, (i + p.len() - 1) % (p.len() as int)) || edge_hit(p, min, max, i)
}

/// The first kept vertex at or after `i` whose predecessor is dropped (`p.len()` if none).
pub open spec fn first_arc_start<V: Vertex>(p: Seq<V>, min: Coord, max: Coord, i: int) -> int
    decreases p.len() - i,
{
    if i >= p.len() {
        p.len() as int
    } else if kept(p, min, max, i) && !kept(p, min, max, (i + p.len() - 1) % (p.len() as int)) {
        i
    } else {
        first_arc_start(p, min, max, i + 1)
    }
}

/// How many dropped vertices follow in the cyclic walk from `s`, starting at step `q` (stopping at
/// the walk's end).
pub open spec fn gap_len<V: Vertex>(p: Seq<V>, min: Coord, max: Coord, s: int, q: int) -> int
    decreases p.len() - q,
{
    if q >= p.len() || kept(p, min, max, (s + q) % (p.len() as int)) {
        0
    } else {
        1 + gap_len(p, min, max, s, q + 1)
    }
}

/// An original vertex of a clipped ring, with its position.
pub open spec fn original<V: Vertex>(x: V) -> (Coord, Option<V>) {
    (x.pos(), Some(x))
}

/// A synthetic vertex of a clipped ring at position `c`.
pub open spec fn synthetic<V>(c: Coord) -> (Coord, Option<V>) {
    (c, None)
}

/// The bridge over the dropped gap starting at walk step `q`: the gap's own vertices when they are
/// no more than the detour's corners, else the detour.
pub open spec fn bridge<V: Vertex>(p: Seq<V>, min: Coord, max: Coord, cy: int, s: int, q: int) -> Result<
    Seq<(Coord, Option<V>)>,
    TileError,
> {
    let m = p.len() as int;
    let len = gap_len(p, min, max, s, q);
    let gap = Seq::new(len as nat, |t: int| p[(s + q + t) % m]);
    let u = p[(s + q - 1) % m].pos();
    let v = p[(s + q + len) % m].pos();
    let exc = seq![u] + gap.map_values(|x: V| x.pos()) + seq![v];
    match detour_spec(u, v, exc, min, max, cy) {
        Err(e) => Err(e),
        Ok(cs) => if len <= cs.len() {
            Ok(gap.map_values(|x: V| original(x)))
        } else {
            Ok(cs.map_values(|c: Coord| synthetic::<V>(c)))
        },
    }
}

#[verifier::opaque]
/// What walk step `q` (at vertex `(s + q) % m`) contributes: a kept vertex itself; at the first
/// vertex of a dropped gap, the gap's bridge; otherwise nothing.
pub open spec fn piece<V: Vertex>(p: Seq<V>, min: Coord, max: Coord, cy: int, s: int, q: int) -> Result<
    Seq<(Coord, Option<V>)>,
    TileError,
> {
    let m = p.len() as int;
    let i = (s + q) % m;
    if kept(p, min, max, i) {
        Ok(seq![original(p[i])])
    } else if q >= 1 && kept(p, min, max, (s + q - 1) % m) {
        bridge(p, min, max, cy, s, q)
    } else {
        Ok(Seq::empty())
    }
}

/// The first `n` walk steps' contributions, concatenated (the first error wins).
#[verifier::opaque]
pub open spec fn walk<V: Vertex>(p: Seq<V>, min: Coord, max: Coord, cy: int, s: int, n: int) -> Result<
    Seq<(Coord, Option<V>)>,
    TileError,
>
    decreases n,
{
    if n <= 0 {
        Ok(Seq::empty())
    } else {
        match walk(p, min, max, cy, s, n - 1) {
            Err(e) => Err(e),
            Ok(prior) => match piece(p, min, max, cy, s, n - 1) {
                Err(e) => Err(e),
                Ok(x) => Ok(prior + x),
            },
        }
    }
}

/// The clipped ring of `ring` in the box `[min, max]`, closed, as positions each marked original
/// (with the vertex) or synthetic; `None` when the ring does not appear in the tile.
pub open spec fn clip_ring_spec<V: Vertex>(ring: Seq<V>, min: Coord, max: Coord) -> Result<
    Option<Seq<(Coord, Option<V>)>>,
    TileError,
> {
    let p = ring_pts(ring);
    let m = p.len() as int;
    let closed = (p + seq![p[0]]).map_values(|x: V| original(x));
    if ring.len() < 3 || m < 3 {
        Ok(None)
    } else if forall|i: int| 0 <= i < m ==> !#[trigger] edge_hit(p, min, max, i) {
        let pos = p.map_values(|x: V| x.pos());
        if in_ring(min, pos) {
            if shell_fits(min, max) {
                Ok(Some(fill_spec(ring_turn(pos), min, max).map_values(|c: Coord| synthetic::<V>(c))))
            } else {
                Err(TileError::Overflow)
            }
        } else {
            Ok(None)
        }
    } else if forall|i: int| 0 <= i < m ==> #[trigger] kept(p, min, max, i) {
        Ok(Some(closed))
    } else {
        let s = first_arc_start(p, min, max, 0);
        if s >= m {
            Ok(Some(closed))
        } else {
            match walk(p, min, max, half(min.y + max.y), s, m) {
                Err(e) => Err(e),
                Ok(w) => Ok(Some(w.push(w[0]))),
            }
        }
    }
}

/// `out` realises the marked ring `w`: the same positions, and the very original vertex wherever
/// `w` marks one.
pub open spec fn realises<V: Vertex>(out: Seq<V>, w: Seq<(Coord, Option<V>)>) -> bool {
    &&& out.len() == w.len()
    &&& forall|i: int|
        0 <= i < w.len() ==> (#[trigger] out[i]).pos() == w[i].0 && (w[i].1 matches Some(x)
            ==> out[i] == x)
}

/// Realisations concatenate.
proof fn lemma_realises_concat<V: Vertex>(
    a: Seq<V>,
    x: Seq<(Coord, Option<V>)>,
    b: Seq<V>,
    y: Seq<(Coord, Option<V>)>,
)
    requires
        realises(a, x),
        realises(b, y),
    ensures
        realises(a + b, x + y),
{
    assert forall|i: int| 0 <= i < (x + y).len() implies (#[trigger] (a + b)[i]).pos() == (x
        + y)[i].0 && ((x + y)[i].1 matches Some(z) ==> (a + b)[i] == z) by {
        if i < x.len() {
            assert((a + b)[i] == a[i] && (x + y)[i] == x[i]);
        } else {
            assert((a + b)[i] == b[i - a.len()] && (x + y)[i] == y[i - x.len()]);
        }
    }
}

/// `p` with consecutive duplicates dropped and the closing vertex trimmed.
fn distinct_ring<V: Vertex>(ring: &[V]) -> (r: Vec<V>)
    ensures
        r@ == ring_pts(ring@),
{
    let ghost p = ring@;
    let mut pts: Vec<V> = Vec::new();
    let mut i: usize = 0;
    while i < ring.len()
        invariant
            p == ring@,
            i <= p.len(),
            pts@ == dedup(p.take(i as int)),
        decreases p.len() - i,
    {
        let v = ring[i];
        proof {
            crate::grid::lemma_dedup_step(p, i as int);
        }
        let n = pts.len();
        if n == 0 {
            pts.push(v);
            proof {
                assert(dedup(p.take(i as int)).len() == 0);
            }
        } else {
            let lp = pts[n - 1].position();
            let vp = v.position();
            if !(lp.x == vp.x && lp.y == vp.y) {
                pts.push(v);
            } else {
                assert(lp == vp);
            }
        }
        i = i + 1;
    }
    proof {
        assert(p.take(p.len() as int) =~= p);
    }
    while pts.len() >= 2 && pts[0].position().x == pts[pts.len() - 1].position().x && pts[0].position().y
        == pts[pts.len() - 1].position().y
        invariant
            trim_closing(pts@) == ring_pts(p),
        decreases pts@.len(),
    {
        let ghost before = pts@;
        pts.pop();
        proof {
            assert(pts@ =~= before.drop_last());
        }
    }
    pts
}

/// Dropping duplicates and the closing vertex never lengthens a ring.
pub(crate) proof fn lemma_ring_pts_len<V: Vertex>(ring: Seq<V>)
    ensures
        ring_pts(ring).len() <= ring.len(),
{
    lemma_dedup_len(ring);
    lemma_trim_len(dedup(ring));
}

proof fn lemma_dedup_len<V: Vertex>(p: Seq<V>)
    ensures
        dedup(p).len() <= p.len(),
    decreases p.len(),
{
    if p.len() > 0 {
        lemma_dedup_len(p.drop_last());
    }
}

proof fn lemma_trim_len<V: Vertex>(p: Seq<V>)
    ensures
        trim_closing(p).len() <= p.len(),
    decreases p.len(),
{
    if p.len() >= 2 && p[0].pos() == p.last().pos() {
        lemma_trim_len(p.drop_last());
    }
}

/// `pts` with its first vertex repeated at the end.
fn close_ring<V: Vertex>(pts: &Vec<V>) -> (r: Vec<V>)
    requires
        pts@.len() >= 1,
    ensures
        realises(r@, (pts@ + seq![pts@[0]]).map_values(|x: V| original(x))),
        r@.len() >= 2 && r@.last() == r@[0],
{
    let mut out: Vec<V> = Vec::new();
    let mut i: usize = 0;
    while i < pts.len()
        invariant
            i <= pts@.len(),
            out@ == pts@.take(i as int),
        decreases pts@.len() - i,
    {
        out.push(pts[i]);
        proof {
            assert(pts@.take(i + 1) =~= pts@.take(i as int).push(pts@[i as int]));
        }
        i = i + 1;
    }
    out.push(pts[0]);
    proof {
        assert(pts@.take(pts@.len() as int) =~= pts@);
        assert(out@ =~= pts@ + seq![pts@[0]]);
    }
    out
}

/// The bridge over the dropped gap starting at walk step `q` of the walk from `start`: its own
/// vertices when no more than the detour's corners, else the synthetic detour.
fn gap_bridge<V: PolyVertex>(
    pts: &Vec<V>,
    keep: &Vec<bool>,
    start: usize,
    q: usize,
    min: Coord,
    max: Coord,
    cy: i32,
) -> (r: Result<Vec<V>, TileError>)
    requires
        3 <= pts@.len() <= usize::MAX / 16,
        pts@.len() < 0x0800_0000_0000_0000,
        keep@.len() == pts@.len(),
        forall|j: int| 0 <= j < pts@.len() ==> keep@[j] == kept(pts@, min, max, j),
        start < pts@.len(),
        1 <= q < pts@.len(),
        kept(pts@, min, max, start as int),
    ensures
        match bridge(pts@, min, max, cy as int, start as int, q as int) {
            Ok(b) => r matches Ok(vs) && realises(vs@, b),
            Err(e) => r == Err::<Vec<V>, TileError>(e),
        },
{
    let m = pts.len();
    let ghost p = pts@;
    let ghost s = start as int;
    let mut len: usize = 0;
    while q + len < m && !keep[(start + q + len) % m]
        invariant
            m == p.len(),
            m <= usize::MAX / 16,
            s == start,
            start < m,
            1 <= q < m,
            p == pts@,
            keep@.len() == m,
            forall|j: int| 0 <= j < m ==> keep@[j] == kept(p, min, max, j),
            q + len <= m,
            gap_len(p, min, max, s, q as int) == len + gap_len(p, min, max, s, (q + len) as int),
        decreases m - q - len,
    {
        assert(gap_len(p, min, max, s, (q + len) as int) == 1 + gap_len(p, min, max, s, (q + len + 1) as int));
        len = len + 1;
    }
    assert(gap_len(p, min, max, s, (q + len) as int) == 0);
    let u = pts[(start + q - 1) % m].position();
    let v = pts[(start + q + len) % m].position();
    let ghost gap_s = Seq::new(len as nat, |t: int| p[(s + q + t) % (m as int)]);
    let mut gap: Vec<V> = Vec::new();
    let mut exc: Vec<Coord> = Vec::new();
    exc.push(u);
    let mut t: usize = 0;
    while t < len
        invariant
            m == p.len(),
            m <= usize::MAX / 16,
            s == start,
            p == pts@,
            q + len <= m,
            start < m,
            t <= len,
            gap@ == gap_s.take(t as int),
            exc@ == seq![u] + gap_s.take(t as int).map_values(|x: V| x.pos()),
            gap_s == Seq::new(len as nat, |t: int| p[(s + q + t) % (m as int)]),
        decreases len - t,
    {
        let x = pts[(start + q + t) % m];
        assert(x == gap_s[t as int]);
        gap.push(x);
        exc.push(x.position());
        proof {
            assert(gap_s.take(t + 1) =~= gap_s.take(t as int).push(x));
            assert(gap_s.take(t + 1).map_values(|y: V| y.pos()) =~= gap_s.take(t as int).map_values(|y: V| y.pos()).push(x.pos()));
        }
        t = t + 1;
    }
    exc.push(v);
    proof {
        assert(gap_s.take(len as int) =~= gap_s);
        assert(exc@.len() == len + 2);
        assert(exc@ =~= seq![u] + gap_s.map_values(|x: V| x.pos()) + seq![v]);
    }
    let synth = match detour::<V>(u, v, exc.as_slice(), min, max, cy) {
        Ok(vs) => vs,
        Err(e) => return Err(e),
    };
    if len <= synth.len() {
        proof {
            let b = gap_s.map_values(|x: V| original(x));
            assert(realises(gap@, b));
        }
        Ok(gap)
    } else {
        Ok(synth)
    }
}

/// Once the walk fails, every longer walk fails the same way.
pub(crate) proof fn lemma_walk_err<V: Vertex>(p: Seq<V>, min: Coord, max: Coord, cy: int, s: int, n: int, k: int)
    requires
        1 <= n <= k,
        walk(p, min, max, cy, s, n) is Err,
    ensures
        walk(p, min, max, cy, s, k) == walk(p, min, max, cy, s, n),
    decreases k - n,
{
    reveal(walk);
    if k > n {
        lemma_walk_err(p, min, max, cy, s, n, k - 1);
    }
}

/// One more walk step appends that step's contribution, or fails with its error.
pub(crate) proof fn lemma_walk_next<V: Vertex>(p: Seq<V>, min: Coord, max: Coord, cy: int, s: int, q: int)
    requires
        q >= 0,
        walk(p, min, max, cy, s, q) is Ok,
    ensures
        walk(p, min, max, cy, s, q + 1) == (match piece(p, min, max, cy, s, q) {
            Err(e) => Err(e),
            Ok(x) => Ok(walk(p, min, max, cy, s, q)->Ok_0 + x),
        }),
{
    reveal(walk);
}

/// The first arc start, when there is one, is a kept vertex.
pub(crate) proof fn lemma_arc_start_kept<V: Vertex>(p: Seq<V>, min: Coord, max: Coord, i: int)
    requires
        0 <= i <= p.len(),
    ensures
        first_arc_start(p, min, max, i) < p.len() ==> kept(p, min, max, first_arc_start(p, min, max, i)),
        first_arc_start(p, min, max, i) >= i,
    decreases p.len() - i,
{
    if i < p.len() && !(kept(p, min, max, i) && !kept(p, min, max, (i + p.len() - 1) % (p.len() as int))) {
        lemma_arc_start_kept(p, min, max, i + 1);
    }
}

/// Which edges of the cyclic ring `pts` touch the box.
fn edge_hits<V: Vertex>(pts: &Vec<V>, min: Coord, max: Coord) -> (r: (Vec<bool>, bool))
    requires
        3 <= pts@.len() <= usize::MAX / 16,
    ensures
        r.0@.len() == pts@.len(),
        forall|j: int| 0 <= j < pts@.len() ==> r.0@[j] == edge_hit(pts@, min, max, j),
        r.1 == (exists|j: int| 0 <= j < pts@.len() && edge_hit(pts@, min, max, j)),
{
    let m = pts.len();
    let ghost p = pts@;
    let mut hits: Vec<bool> = Vec::new();
    let mut any = false;
    let mut i: usize = 0;
    while i < m
        invariant
            p == pts@,
            m == p.len(),
            3 <= m <= usize::MAX / 16,
            i <= m,
            hits@.len() == i,
            forall|j: int| 0 <= j < i ==> hits@[j] == edge_hit(p, min, max, j),
            any == (exists|j: int| 0 <= j < i && edge_hit(p, min, max, j)),
        decreases m - i,
    {
        let h = segment_intersects(pts[i].position(), pts[(i + 1) % m].position(), min, max);
        assert(h == edge_hit(p, min, max, i as int));
        hits.push(h);
        proof {
            if !h {
                assert((exists|j: int| 0 <= j < i + 1 && edge_hit(p, min, max, j)) == (exists|j: int|
                    0 <= j < i && edge_hit(p, min, max, j))) by {
                    if exists|j: int| 0 <= j < i + 1 && edge_hit(p, min, max, j) {
                        let j = choose|j: int| 0 <= j < i + 1 && edge_hit(p, min, max, j);
                        assert(j < i);
                    }
                }
            }
        }
        if h {
            any = true;
        }
        i = i + 1;
    }
    (hits, any)
}

/// Which vertices of the cyclic ring are kept, given its edge hits; and whether all are.
fn kept_flags<V: Vertex>(pts: &Vec<V>, hits: &Vec<bool>, min: Coord, max: Coord) -> (r: (
    Vec<bool>,
    bool,
))
    requires
        3 <= pts@.len() <= usize::MAX / 16,
        hits@.len() == pts@.len(),
        forall|j: int| 0 <= j < pts@.len() ==> hits@[j] == edge_hit(pts@, min, max, j),
    ensures
        r.0@.len() == pts@.len(),
        forall|j: int| 0 <= j < pts@.len() ==> r.0@[j] == kept(pts@, min, max, j),
        r.1 == (forall|j: int| 0 <= j < pts@.len() ==> kept(pts@, min, max, j)),
{
    let m = pts.len();
    let ghost p = pts@;
    let mut keep: Vec<bool> = Vec::new();
    let mut all = true;
    let mut i: usize = 0;
    while i < m
        invariant
            p == pts@,
            m == p.len(),
            3 <= m <= usize::MAX / 16,
            i <= m,
            hits@.len() == m,
            forall|j: int| 0 <= j < m ==> hits@[j] == edge_hit(p, min, max, j),
            keep@.len() == i,
            forall|j: int| 0 <= j < i ==> keep@[j] == kept(p, min, max, j),
            all == (forall|j: int| 0 <= j < i ==> kept(p, min, max, j)),
        decreases m - i,
    {
        let k = hits[(i + m - 1) % m] || hits[i];
        assert(k == kept(p, min, max, i as int));
        keep.push(k);
        proof {
            if k {
                assert((forall|j: int| 0 <= j < i + 1 ==> kept(p, min, max, j)) == (forall|j: int|
                    0 <= j < i ==> kept(p, min, max, j)));
            }
        }
        if !k {
            all = false;
        }
        i = i + 1;
    }
    (keep, all)
}

/// The first arc start of the cyclic ring (`m` if none).
fn arc_start<V: Vertex>(pts: &Vec<V>, keep: &Vec<bool>, min: Coord, max: Coord) -> (r: usize)
    requires
        3 <= pts@.len() <= usize::MAX / 16,
        keep@.len() == pts@.len(),
        forall|j: int| 0 <= j < pts@.len() ==> keep@[j] == kept(pts@, min, max, j),
    ensures
        r == first_arc_start(pts@, min, max, 0),
        r <= pts@.len(),
{
    let m = pts.len();
    let ghost p = pts@;
    let mut start: usize = 0;
    while start < m && !(keep[start] && !keep[(start + m - 1) % m])
        invariant
            p == pts@,
            m == p.len(),
            3 <= m <= usize::MAX / 16,
            start <= m,
            keep@.len() == m,
            forall|j: int| 0 <= j < m ==> keep@[j] == kept(p, min, max, j),
            first_arc_start(p, min, max, 0) == first_arc_start(p, min, max, start as int),
        decreases m - start,
    {
        start = start + 1;
    }
    start
}

/// What walk step `q` of the walk from `start` contributes (see [`piece`]).
fn step_piece<V: PolyVertex>(
    pts: &Vec<V>,
    keep: &Vec<bool>,
    start: usize,
    q: usize,
    min: Coord,
    max: Coord,
    cy: i32,
) -> (r: Result<Vec<V>, TileError>)
    requires
        3 <= pts@.len() <= usize::MAX / 16,
        pts@.len() < 0x0800_0000_0000_0000,
        keep@.len() == pts@.len(),
        forall|j: int| 0 <= j < pts@.len() ==> keep@[j] == kept(pts@, min, max, j),
        start < pts@.len(),
        q < pts@.len(),
        kept(pts@, min, max, start as int),
    ensures
        match piece(pts@, min, max, cy as int, start as int, q as int) {
            Ok(b) => r matches Ok(vs) && realises(vs@, b),
            Err(e) => r == Err::<Vec<V>, TileError>(e),
        },
{
    reveal(piece);
    let m = pts.len();
    let i = (start + q) % m;
    if keep[i] {
        let v = pts[i];
        let out = vec![v];
        assert(realises(out@, seq![original(pts@[i as int])]));
        Ok(out)
    } else if q >= 1 && keep[(start + q - 1) % m] {
        gap_bridge(pts, keep, start, q, min, max, cy)
    } else {
        let out: Vec<V> = Vec::new();
        assert(realises(out@, Seq::<(Coord, Option<V>)>::empty()));
        Ok(out)
    }
}

/// Clip one closed `ring` to the inclusive box `[min, max]`, keeping original vertices and closing
/// the result with synthetic `B⁺` corners. Returns the single closed output ring (first vertex
/// repeated at the end) in the input's frame, or `None` if the ring does not appear in this tile.
/// `Overflow` if a synthetic corner is needed but the box sits against the `i32` limits.
pub fn clip_ring<V: PolyVertex>(ring: &[V], min: Coord, max: Coord) -> (r: Result<
    Option<Vec<V>>,
    TileError,
>)
    requires
        min.x <= max.x,
        min.y <= max.y,
        ring@.len() <= usize::MAX / 16,
        ring@.len() < 0x0800_0000_0000_0000,
    ensures
        match clip_ring_spec(ring@, min, max) {
            Ok(None) => r matches Ok(None),
            Ok(Some(w)) => r matches Ok(Some(out)) && realises(out@, w),
            Err(e) => r == Err::<Option<Vec<V>>, TileError>(e),
        },
        r matches Ok(Some(out)) ==> out@.len() >= 2 && out@.last() == out@[0],
{
    if ring.len() < 3 {
        return Ok(None);
    }
    let pts = distinct_ring(ring);
    let m = pts.len();
    proof {
        lemma_ring_pts_len(ring@);
    }
    if m < 3 {
        return Ok(None);
    }
    let ghost p = pts@;
    let (hits, any) = edge_hits(&pts, min, max);
    if !any {
        return fill_if_inside(&pts, min, max);
    }
    let (keep, all) = kept_flags(&pts, &hits, min, max);
    if all {
        return Ok(Some(close_ring(&pts)));
    }
    let start = arc_start(&pts, &keep, min, max);
    if start >= m {
        return Ok(Some(close_ring(&pts)));
    }
    let cy = center_y(min, max);
    let ghost s = start as int;
    proof {
        lemma_arc_start_kept(p, min, max, 0);
    }
    let mut out: Vec<V> = Vec::new();
    let ghost mut wv: Seq<(Coord, Option<V>)> = Seq::empty();
    let mut q: usize = 0;
    proof {
        reveal(walk);
        assert(realises(out@, wv));
    }
    while q < m
        invariant
            p == pts@,
            m == p.len(),
            3 <= m <= usize::MAX / 16,
            m < 0x0800_0000_0000_0000,
            p == ring_pts(ring@),
            ring@.len() >= 3,
            exists|j: int| 0 <= j < m && edge_hit(p, min, max, j),
            !(forall|j: int| 0 <= j < m ==> kept(p, min, max, j)),
            s == first_arc_start(p, min, max, 0),
            cy == half(min.y + max.y),
            start < m,
            s == start,
            q <= m,
            keep@.len() == m,
            forall|j: int| 0 <= j < m ==> keep@[j] == kept(p, min, max, j),
            kept(p, min, max, s),
            q > 0 ==> out@.len() >= 1,
            walk(p, min, max, cy as int, s, q as int) == Ok::<Seq<(Coord, Option<V>)>, TileError>(wv),
            realises(out@, wv),
        decreases m - q,
    {
        let ghost out0 = out@;
        proof {
            lemma_walk_next(p, min, max, cy as int, s, q as int);
        }
        let mut piece_out = match step_piece(&pts, &keep, start, q, min, max, cy) {
            Ok(b) => b,
            Err(e) => {
                proof {
                    lemma_walk_err(p, min, max, cy as int, s, q as int + 1, m as int);
                }
                return Err(e);
            },
        };
        proof {
            let bx = piece(p, min, max, cy as int, s, q as int)->Ok_0;
            if q == 0 {
                vstd::arithmetic::div_mod::lemma_small_mod(s as nat, m as nat);
                assert(kept(p, min, max, (s + 0) % (m as int)));
                reveal(piece);
                assert(bx.len() == 1);
            }
            lemma_realises_concat(out0, wv, piece_out@, bx);
            wv = wv + bx;
        }
        out.append(&mut piece_out);
        q = q + 1;
    }
    let first = out[0];
    let ghost out0 = out@;
    out.push(first);
    proof {
        assert(realises(seq![first], seq![wv[0]]));
        lemma_realises_concat(out0, wv, seq![first], seq![wv[0]]);
        assert(out@ =~= out0 + seq![first]);
        assert(wv.push(wv[0]) =~= wv + seq![wv[0]]);
    }
    Ok(Some(out))
}

/// A ring with no edge touching the box: the filled box when the box's low corner is inside the
/// ring, else nothing.
fn fill_if_inside<V: PolyVertex>(pts: &Vec<V>, min: Coord, max: Coord) -> (r: Result<
    Option<Vec<V>>,
    TileError,
>)
    requires
        3 <= pts@.len() <= usize::MAX / 16,
    ensures
        ({
            let pos = pts@.map_values(|x: V| x.pos());
            if in_ring(min, pos) {
                if shell_fits(min, max) {
                    r matches Ok(Some(out)) && realises(
                        out@,
                        fill_spec(ring_turn(pos), min, max).map_values(|c: Coord| synthetic::<V>(c)),
                    ) && out@.len() >= 2 && out@.last() == out@[0]
                } else {
                    r == Err::<Option<Vec<V>>, TileError>(TileError::Overflow)
                }
            } else {
                r matches Ok(None)
            }
        }),
{
    let m = pts.len();
    let ghost p = pts@;
    let mut pos: Vec<Coord> = Vec::new();
    let mut i: usize = 0;
    while i < m
        invariant
            p == pts@,
            m == p.len(),
            i <= m,
            pos@ == p.take(i as int).map_values(|x: V| x.pos()),
        decreases m - i,
    {
        pos.push(pts[i].position());
        proof {
            assert(p.take(i + 1).map_values(|x: V| x.pos()) =~= p.take(i as int).map_values(
                |x: V| x.pos(),
            ).push(p[i as int].pos()));
        }
        i = i + 1;
    }
    proof {
        assert(p.take(m as int) =~= p);
    }
    if point_in_ring(min, pos.as_slice()) {
        match fill_box::<V>(ring_orientation(pos.as_slice()), min, max) {
            Ok(vs) => {
                proof {
                    let w = fill_spec(ring_turn(pos@), min, max).map_values(|c: Coord| synthetic::<V>(c));
                    assert(realises(vs@, w));
                }
                Ok(Some(vs))
            },
            Err(e) => Err(e),
        }
    } else {
        Ok(None)
    }
}

/// Every corner a walk passes lies on the `B⁺` shell when the shell can be placed.
proof fn lemma_corners_on_shell(start: int, advance: int, min: Coord, max: Coord, k: int)
    requires
        shell_fits(min, max),
    ensures
        forall|i: int|
            0 <= i < advance_corners(start, advance, min, max, k).len() ==> on_shell(
                #[trigger] advance_corners(start, advance, min, max, k)[i],
                min,
                max,
            ),
    decreases k,
{
    if k > 0 {
        lemma_corners_on_shell(start, advance, min, max, k - 1);
        let prior = advance_corners(start, advance, min, max, k - 1);
        let cur = advance_corners(start, advance, min, max, k);
        assert forall|i: int| 0 <= i < cur.len() implies on_shell(#[trigger] cur[i], min, max) by {
            if i < prior.len() {
                assert(cur[i] == prior[i]);
            }
        }
    }
}

/// A computed corner list lies on the shell.
proof fn lemma_corners_spec_on_shell(start: int, advance: int, min: Coord, max: Coord)
    ensures
        corners_spec(start, advance, min, max) matches Ok(cs) ==> forall|i: int|
            0 <= i < cs.len() ==> on_shell(#[trigger] cs[i], min, max),
{
    if shell_fits(min, max) {
        lemma_corners_on_shell(start, advance, min, max, abs(advance));
    }
}

/// A clipped-ring entry is either an original vertex of `p` or a synthetic vertex on the shell.
pub open spec fn entry_ok<V: Vertex>(x: (Coord, Option<V>), p: Seq<V>, min: Coord, max: Coord) -> bool {
    match x.1 {
        Some(v) => p.contains(v) && x.0 == v.pos(),
        None => on_shell(x.0, min, max),
    }
}

/// Every entry of a bridge is an original vertex or on the shell.
proof fn lemma_bridge_entries<V: Vertex>(p: Seq<V>, min: Coord, max: Coord, cy: int, s: int, q: int)
    requires
        p.len() >= 1,
    ensures
        bridge(p, min, max, cy, s, q) matches Ok(b) ==> forall|i: int|
            0 <= i < b.len() ==> entry_ok(#[trigger] b[i], p, min, max),
{
    let m = p.len() as int;
    let len = gap_len(p, min, max, s, q);
    let gap = Seq::new(len as nat, |t: int| p[(s + q + t) % m]);
    let u = p[(s + q - 1) % m].pos();
    let v = p[(s + q + len) % m].pos();
    let exc = seq![u] + gap.map_values(|x: V| x.pos()) + seq![v];
    let su = slot_spec(outcode_spec(u, min, max));
    let sv = slot_spec(outcode_spec(v, min, max));
    let base = (sv + 8 - su) % 8;
    lemma_corners_spec_on_shell(su, base, min, max);
    if let Ok(rc) = corners_spec(su, base, min, max) {
        let w_ref = ray_wind(seq![u] + rc + seq![v], cy, max.x as int);
        let w_exc = ray_wind(exc, cy, max.x as int);
        lemma_corners_spec_on_shell(su, base + (w_exc - w_ref) * 8, min, max);
    }
    if let Ok(b) = bridge(p, min, max, cy, s, q) {
        assert forall|i: int| 0 <= i < b.len() implies entry_ok(#[trigger] b[i], p, min, max) by {
            if b[i].1 is Some {
                let t = i;
                vstd::arithmetic::div_mod::lemma_mod_bound(s + q + t, m);
                assert(p[(s + q + t) % m] == gap[t]);
            }
        }
    }
}

/// Every entry of every walk step is an original vertex or on the shell.
proof fn lemma_walk_entries<V: Vertex>(p: Seq<V>, min: Coord, max: Coord, cy: int, s: int, n: int)
    requires
        p.len() >= 1,
    ensures
        walk(p, min, max, cy, s, n) matches Ok(w) ==> forall|i: int|
            0 <= i < w.len() ==> entry_ok(#[trigger] w[i], p, min, max),
    decreases n,
{
    reveal(walk);
    if n > 0 {
        lemma_walk_entries(p, min, max, cy, s, n - 1);
        reveal(piece);
        lemma_bridge_entries(p, min, max, cy, s, n - 1);
        if let Ok(prior) = walk(p, min, max, cy, s, n - 1) {
            if let Ok(x) = piece(p, min, max, cy, s, n - 1) {
                let m = p.len() as int;
                let i0 = (s + n - 1) % m;
                vstd::arithmetic::div_mod::lemma_mod_bound(s + n - 1, m);
                assert forall|i: int| 0 <= i < x.len() implies entry_ok(#[trigger] x[i], p, min, max) by {
                    if kept(p, min, max, i0) {
                        assert(x[i] == original(p[i0]));
                        assert(p.contains(p[i0]));
                    }
                }
                let w = prior + x;
                assert forall|i: int| 0 <= i < w.len() implies entry_ok(#[trigger] w[i], p, min, max) by {
                    if i < prior.len() {
                        assert(w[i] == prior[i]);
                    } else {
                        assert(w[i] == x[i - prior.len()]);
                    }
                }
            }
        }
    }
}

/// A walk from a kept vertex starts with that vertex, so it is never empty.
proof fn lemma_walk_nonempty<V: Vertex>(p: Seq<V>, min: Coord, max: Coord, cy: int, s: int, n: int)
    requires
        0 <= s < p.len(),
        kept(p, min, max, s),
        n >= 1,
    ensures
        walk(p, min, max, cy, s, n) matches Ok(w) ==> w.len() >= 1,
    decreases n,
{
    reveal(walk);
    if n > 1 {
        lemma_walk_nonempty(p, min, max, cy, s, n - 1);
    } else {
        reveal(piece);
        vstd::arithmetic::div_mod::lemma_small_mod(s as nat, p.len());
        assert((s + 0) % (p.len() as int) == s);
        reveal(walk);
        assert(walk(p, min, max, cy, s, 0) == Ok::<Seq<(Coord, Option<V>)>, TileError>(Seq::empty()));
    }
}

/// Dropping duplicates and the closing vertex keeps only vertices of the ring.
proof fn lemma_ring_pts_members<V: Vertex>(ring: Seq<V>)
    ensures
        forall|v: V| #[trigger] ring_pts(ring).contains(v) ==> ring.contains(v),
{
    lemma_dedup_members(ring);
    lemma_trim_members(dedup(ring));
}

proof fn lemma_dedup_members<V: Vertex>(p: Seq<V>)
    ensures
        forall|v: V| #[trigger] dedup(p).contains(v) ==> p.contains(v),
    decreases p.len(),
{
    if p.len() > 0 {
        lemma_dedup_members(p.drop_last());
        assert forall|v: V| dedup(p).contains(v) implies p.contains(v) by {
            let d = dedup(p.drop_last());
            let i = choose|i: int| 0 <= i < dedup(p).len() && dedup(p)[i] == v;
            if i < d.len() {
                assert(dedup(p)[i] == d[i]);
                assert(d.contains(v));
                let j = choose|j: int| 0 <= j < p.drop_last().len() && p.drop_last()[j] == v;
                assert(p[j] == v);
            } else {
                assert(v == p.last());
                assert(p[p.len() - 1] == v);
            }
        }
    }
}

proof fn lemma_trim_members<V: Vertex>(p: Seq<V>)
    ensures
        forall|v: V| #[trigger] trim_closing(p).contains(v) ==> p.contains(v),
    decreases p.len(),
{
    if p.len() >= 2 && p[0].pos() == p.last().pos() {
        lemma_trim_members(p.drop_last());
        assert forall|v: V| trim_closing(p).contains(v) implies p.contains(v) by {
            assert(trim_closing(p) == trim_closing(p.drop_last()));
            assert(trim_closing(p.drop_last()).contains(v));
            assert(p.drop_last().contains(v));
            let i = choose|i: int| 0 <= i < p.drop_last().len() && p.drop_last()[i] == v;
            assert(p[i] == v);
        }
    }
}

/// Clipping a ring adds no vertex inside the box: every vertex of the clipped ring is either an
/// original vertex of the ring, unchanged, or a synthetic corner of the shell one unit outside the
/// box (so strictly outside it).
pub proof fn law_clip_ring_adds_only_shell_corners<V: Vertex>(ring: Seq<V>, min: Coord, max: Coord)
    ensures
        clip_ring_spec(ring, min, max) matches Ok(Some(w)) ==> forall|i: int|
            0 <= i < w.len() ==> entry_ok(#[trigger] w[i], ring, min, max) && (w[i].1 is None
                ==> !in_box(w[i].0, min, max)),
{
    let p = ring_pts(ring);
    lemma_ring_pts_members(ring);
    if let Ok(Some(w)) = clip_ring_spec(ring, min, max) {
        let m = p.len() as int;
        let closed = (p + seq![p[0]]).map_values(|x: V| original(x));
        let pos = p.map_values(|x: V| x.pos());
        if forall|i: int| 0 <= i < m ==> !#[trigger] edge_hit(p, min, max, i) {
            let fs = fill_spec(ring_turn(pos), min, max);
            assert forall|i: int| 0 <= i < w.len() implies entry_ok(#[trigger] w[i], ring, min, max) && (w[i].1 is None
                ==> !in_box(w[i].0, min, max)) by {
                assert(w[i] == synthetic::<V>(fs[i]));
            }
        } else if forall|i: int| 0 <= i < m ==> #[trigger] kept(p, min, max, i) {
            assert forall|i: int| 0 <= i < w.len() implies entry_ok(#[trigger] w[i], ring, min, max) && (w[i].1 is None
                ==> !in_box(w[i].0, min, max)) by {
                let x = (p + seq![p[0]])[i];
                assert(w[i] == original(x));
                if i < m {
                    assert(x == p[i]);
                    assert(p.contains(p[i]));
                } else {
                    assert(x == p[0]);
                    assert(p.contains(p[0]));
                }
            }
        } else {
            let s = first_arc_start(p, min, max, 0);
            if s >= m {
                assert forall|i: int| 0 <= i < w.len() implies entry_ok(#[trigger] w[i], ring, min, max) && (w[i].1 is None
                    ==> !in_box(w[i].0, min, max)) by {
                    let x = (p + seq![p[0]])[i];
                    assert(w[i] == original(x));
                    if i < m {
                        assert(x == p[i]);
                        assert(p.contains(p[i]));
                    } else {
                        assert(x == p[0]);
                        assert(p.contains(p[0]));
                    }
                }
            } else {
                let cy = half(min.y + max.y);
                lemma_walk_entries(p, min, max, cy, s, m);
                lemma_arc_start_kept(p, min, max, 0);
                lemma_walk_nonempty(p, min, max, cy, s, m);
                let wk = walk(p, min, max, cy, s, m)->Ok_0;
                assert forall|i: int| 0 <= i < w.len() implies entry_ok(#[trigger] w[i], ring, min, max) && (w[i].1 is None
                    ==> !in_box(w[i].0, min, max)) by {
                    let j = if i < wk.len() { i } else { 0 };
                    assert(w[i] == wk[j]);
                    assert(entry_ok(wk[j], p, min, max));
                    if let Some(v) = wk[j].1 {
                        assert(p.contains(v));
                    }
                }
            }
        }
    }
}

/// The fill box winds like the turn it is asked for: its doubled area is positive for a
/// counter-clockwise turn and negative for a clockwise one.
proof fn lemma_fill_area(turn: Turn, min: Coord, max: Coord)
    requires
        min.x <= max.x,
        min.y <= max.y,
        shell_fits(min, max),
        turn != Turn::Collinear,
    ensures
        turn_of(shoelace(fill_spec(turn, min, max))) == turn,
{
    let f = fill_spec(turn, min, max);
    let x0 = min.x - 1;
    let x1 = max.x + 1;
    let y0 = min.y - 1;
    let y1 = max.y + 1;
    reveal_with_fuel(edge_sum, 5);
    if turn == Turn::Clockwise {
        assert(shoelace(f) == x0 * y1 - x0 * y0 + x0 * y1 - x1 * y1 + x1 * y0 - x1 * y1 + x1 * y0 - x0 * y0
            + x0 * y0 - x0 * y0);
        assert(x0 * y1 - x0 * y0 + x0 * y1 - x1 * y1 + x1 * y0 - x1 * y1 + x1 * y0 - x0 * y0 + x0 * y0
            - x0 * y0 < 0) by (nonlinear_arith)
            requires
                x0 < x1,
                y0 < y1,
        ;
    } else {
        assert(shoelace(f) == x0 * y0 - x1 * y0 + x1 * y1 - x1 * y0 + x1 * y1 - x0 * y1 + x0 * y0 - x0 * y1
            + x0 * y0 - x0 * y0);
        assert(x0 * y0 - x1 * y0 + x1 * y1 - x1 * y0 + x1 * y1 - x0 * y1 + x0 * y0 - x0 * y1 + x0 * y0
            - x0 * y0 > 0) by (nonlinear_arith)
            requires
                x0 < x1,
                y0 < y1,
        ;
    }
}

/// When no edge of a ring touches the box and clipping fills the tile, the fill box winds like the
/// ring: its doubled signed area has the sign of the ring's (taken over the ring's distinct
/// vertices), so a hole's fill stays a hole and an exterior's stays an exterior.
pub proof fn law_fill_box_winds_like_ring<V: Vertex>(ring: Seq<V>, min: Coord, max: Coord)
    requires
        min.x <= max.x,
        min.y <= max.y,
    ensures
        ({
            let p = ring_pts(ring);
            let pos = p.map_values(|x: V| x.pos());
            ((forall|i: int| 0 <= i < p.len() ==> !#[trigger] edge_hit(p, min, max, i)) && shoelace(pos)
                != 0) ==> (clip_ring_spec(ring, min, max) matches Ok(Some(w)) ==> turn_of(
                shoelace(w.map_values(|e: (Coord, Option<V>)| e.0)),
            ) == turn_of(shoelace(pos)))
        }),
{
    let p = ring_pts(ring);
    let pos = p.map_values(|x: V| x.pos());
    if (clip_ring_spec(ring, min, max) is Ok && clip_ring_spec(ring, min, max)->Ok_0 is Some) && (forall|i: int|
        0 <= i < p.len() ==> !#[trigger] edge_hit(p, min, max, i)) && shoelace(pos) != 0 {
        let w = clip_ring_spec(ring, min, max)->Ok_0->Some_0;
        assert(p.len() >= 3);
        law_ring_turn_is_area_sign(pos);
        let t = ring_turn(pos);
        assert(t != Turn::Collinear);
        assert(shell_fits(min, max));
        let f = fill_spec(t, min, max);
        assert(w == f.map_values(|c: Coord| synthetic::<V>(c)));
        assert(w.map_values(|e: (Coord, Option<V>)| e.0) =~= f);
        lemma_fill_area(t, min, max);
    }
}

} // verus!
