//! Which edges of a clipped ring can reach into the tile's box.
//!
//! Every synthetic piece of a clipped ring — a detour's corners, a chord that bridges a dropped
//! gap, a containment fill — runs through the outside regions of the box, from one boundary slot
//! to a neighbouring one, so it never meets the box. An edge of a clipped ring that touches the
//! box is therefore always an edge of the input ring; and every edge of the input ring that
//! touches the box joins two kept vertices that the walk round the ring emits one after the other,
//! so it is an edge of the clipped ring.

use vstd::prelude::*;

use crate::clip_polygon::{
    abs, advance_corners, bridge, clip_ring_spec, corners_spec, detour_spec, edge_hit, fill_spec,
    first_arc_start, gap_len, half, kept, lemma_arc_start_kept, lemma_walk_err, lemma_walk_next,
    original, outcode_spec, piece, ray_step, ray_wind, ring_pts, shell_corner, shell_fits, slot_spec,
    synthetic, walk, walk_slot,
};
use crate::clip_polyline::{bbox_meets, in_box, touches};
use crate::error::TileError;
use crate::geom::ring_turn;
use crate::vertex::{Coord, Vertex};

verus! {

/// `p` lies in the outside region of boundary slot `sl` (`0=SW, 1=S, 2=SE, 3=E, 4=NE, 5=N, 6=NW,
/// 7=W`), as far as the half-planes bounding that region go.
pub open spec fn in_slot(p: Coord, sl: int, min: Coord, max: Coord) -> bool {
    ||| sl == 0 && p.x < min.x && p.y < min.y
    ||| sl == 1 && p.y < min.y
    ||| sl == 2 && p.x > max.x && p.y < min.y
    ||| sl == 3 && p.x > max.x
    ||| sl == 4 && p.x > max.x && p.y > max.y
    ||| sl == 5 && p.y > max.y
    ||| sl == 6 && p.x < min.x && p.y > max.y
    ||| sl == 7 && p.x < min.x
}

/// Slots `a` and `b` (each `0..8`) are neighbours: the same, one step apart, or two corner slots
/// one side apart.
pub open spec fn near(a: int, b: int) -> bool {
    let d = if b >= a {
        b - a
    } else {
        b - a + 8
    };
    d == 0 || d == 1 || d == 7 || ((d == 2 || d == 6) && a % 2 == 0)
}

/// Points in neighbouring slots share an outside half-plane, so the segment between them misses
/// the box.
proof fn lemma_near_apart(p: Coord, a: int, q: Coord, b: int, min: Coord, max: Coord)
    requires
        0 <= a < 8,
        0 <= b < 8,
        near(a, b),
        in_slot(p, a, min, max),
        in_slot(q, b, min, max),
    ensures
        !touches(p, q, min, max),
{
    assert(!bbox_meets(p, q, min, max));
}

/// A point outside the box lies in the region of its slot.
pub(crate) proof fn lemma_outside_slot(p: Coord, min: Coord, max: Coord)
    requires
        !in_box(p, min, max),
    ensures
        0 <= slot_spec(outcode_spec(p, min, max)) < 8,
        in_slot(p, slot_spec(outcode_spec(p, min, max)), min, max),
{
}

/// A shell corner lies in the region of its slot.
proof fn lemma_corner_slot(s: int, min: Coord, max: Coord)
    requires
        shell_fits(min, max),
        s == 0 || s == 2 || s == 4 || s == 6,
    ensures
        in_slot(shell_corner(s, min, max), s, min, max),
{
}

/// `y % 8` for `y` within one turn either side of `0..8`.
proof fn lemma_mod8(y: int)
    requires
        -8 <= y < 16,
    ensures
        y % 8 == (if y < 0 {
            y + 8
        } else if y >= 8 {
            y - 8
        } else {
            y
        }),
{
    if y < 0 {
        vstd::arithmetic::div_mod::lemma_fundamental_div_mod_converse(y, 8, -1, y + 8);
    } else if y >= 8 {
        vstd::arithmetic::div_mod::lemma_fundamental_div_mod_converse(y, 8, 1, y - 8);
    } else {
        vstd::arithmetic::div_mod::lemma_fundamental_div_mod_converse(y, 8, 0, y);
    }
}

/// Walking up to two slots from `x` (two only from a corner slot) ends at a neighbour of `x`;
/// each step flips the slot's parity.
proof fn lemma_near_walk(x: int, advance: int, g: int)
    requires
        0 <= x < 8,
        0 <= g <= 2,
        g == 2 ==> x % 2 == 0,
    ensures
        0 <= walk_slot(x, advance, g) < 8,
        near(x, walk_slot(x, advance, g)),
        walk_slot(x, advance, g) % 2 == (x + g) % 2,
{
    if advance > 0 {
        lemma_mod8(x + g);
    } else {
        lemma_mod8(x - g);
    }
}

/// The slots of the corners passed in the first `k` steps of walking `advance` slots from
/// `start`.
spec fn advance_slots(start: int, advance: int, k: int) -> Seq<int>
    decreases k,
{
    if k <= 0 {
        Seq::empty()
    } else {
        let prior = advance_slots(start, advance, k - 1);
        let s = walk_slot(start, advance, k);
        if k != abs(advance) && s % 2 == 0 {
            prior.push(s)
        } else {
            prior
        }
    }
}

/// The corners of a walk are the shell corners at its slots.
proof fn lemma_corners_at_slots(start: int, advance: int, min: Coord, max: Coord, k: int)
    ensures
        advance_corners(start, advance, min, max, k).len() == advance_slots(start, advance, k).len(),
        forall|i: int|
            0 <= i < advance_slots(start, advance, k).len() ==> advance_corners(
                start,
                advance,
                min,
                max,
                k,
            )[i] == shell_corner(#[trigger] advance_slots(start, advance, k)[i], min, max),
    decreases k,
{
    if k > 0 {
        lemma_corners_at_slots(start, advance, min, max, k - 1);
        let ps = advance_slots(start, advance, k - 1);
        let cs = advance_slots(start, advance, k);
        assert forall|i: int| 0 <= i < cs.len() implies advance_corners(start, advance, min, max, k)[i]
            == shell_corner(#[trigger] cs[i], min, max) by {
            if i < ps.len() {
                assert(cs[i] == ps[i]);
            }
        }
    }
}

/// The slot a walk of `k` steps last placed a corner at, or `start` before the first.
spec fn placed(start: int, advance: int, k: int) -> int {
    let sl = advance_slots(start, advance, k);
    if sl.len() > 0 {
        sl.last()
    } else {
        start
    }
}

/// The corner slots of a walk are corner slots, each a neighbour of the one before (the first of
/// `start`), and the walk's current slot is `g` steps past the last one placed: at most two, two
/// only at the final step from a corner slot, and none at a corner slot before the final step.
#[verifier::spinoff_prover]
#[verifier::rlimit(40)]
proof fn lemma_slots_chain(start: int, advance: int, k: int) -> (g: int)
    requires
        0 <= start < 8,
        0 <= k <= abs(advance),
    ensures
        forall|i: int|
            0 <= i < advance_slots(start, advance, k).len() ==> 0 <= #[trigger] advance_slots(
                start,
                advance,
                k,
            )[i] < 8 && advance_slots(start, advance, k)[i] % 2 == 0,
        forall|i: int|
            0 <= i < advance_slots(start, advance, k).len() - 1 ==> near(
                #[trigger] advance_slots(start, advance, k)[i],
                advance_slots(start, advance, k)[i + 1],
            ),
        advance_slots(start, advance, k).len() > 0 ==> near(start, advance_slots(start, advance, k)[0]),
        0 <= placed(start, advance, k) < 8,
        0 <= g <= 2,
        walk_slot(placed(start, advance, k), advance, g) == walk_slot(start, advance, k),
        g == 2 ==> placed(start, advance, k) % 2 == 0 && k == abs(advance),
        (1 <= k < abs(advance) && walk_slot(start, advance, k) % 2 == 0) ==> g == 0,
    decreases k,
{
    if k == 0 {
        lemma_mod8(start);
        0
    } else {
        let g0 = lemma_slots_chain(start, advance, k - 1);
        let pl = placed(start, advance, k - 1);
        let ps = advance_slots(start, advance, k - 1);
        let cur = walk_slot(start, advance, k - 1);
        let nxt = walk_slot(start, advance, k);
        crate::clip_polygon::lemma_walk_step(start, advance, k - 1);
        crate::clip_polygon::lemma_walk_step(pl, advance, g0);
        lemma_near_walk(pl, advance, 1);
        if g0 <= 1 {
            lemma_near_walk(pl, advance, g0);
        }
        if advance > 0 {
            lemma_mod8(cur + 1);
            lemma_mod8(walk_slot(pl, advance, g0) + 1);
        } else {
            lemma_mod8(cur + 7);
            lemma_mod8(walk_slot(pl, advance, g0) + 7);
        }
        assert(walk_slot(pl, advance, g0 + 1) == nxt);
        let cs = advance_slots(start, advance, k);
        if k != abs(advance) && nxt % 2 == 0 {
            assert(g0 + 1 <= 2);
            if g0 + 1 == 2 {
                lemma_near_walk(pl, advance, 1);
                assert(pl % 2 == 0);
            }
            lemma_near_walk(pl, advance, g0 + 1);
            assert(cs == ps.push(nxt));
            assert forall|i: int| 0 <= i < cs.len() - 1 implies near(
                #[trigger] cs[i],
                cs[i + 1],
            ) by {
                if i < ps.len() - 1 {
                    assert(cs[i] == ps[i] && cs[i + 1] == ps[i + 1]);
                } else {
                    assert(cs[i] == pl && cs[i + 1] == nxt);
                }
            }
            if ps.len() == 0 {
                assert(cs[0] == nxt);
            } else {
                assert(cs[0] == ps[0]);
            }
            assert forall|i: int| 0 <= i < cs.len() implies 0 <= #[trigger] cs[i] < 8 && cs[i] % 2
                == 0 by {
                if i < ps.len() {
                    assert(cs[i] == ps[i]);
                }
            }
            lemma_mod8(nxt);
            0
        } else {
            assert(cs == ps);
            if g0 == 1 {
                lemma_near_walk(pl, advance, 1);
            }
            g0 + 1
        }
    }
}


/// Walking the counter-clockwise distance from `su` to `sv`, plus any whole turns, ends at `sv`.
proof fn lemma_walk_lands(su: int, sv: int, t: int)
    requires
        0 <= su < 8,
        0 <= sv < 8,
    ensures
        walk_slot(su, (sv + 8 - su) % 8 + t * 8, abs((sv + 8 - su) % 8 + t * 8)) == sv,
{
    lemma_mod8(sv + 8 - su);
    let base = (sv + 8 - su) % 8;
    let adv = base + t * 8;
    let e: int = if sv + 8 - su >= 8 { 0 } else { 1 };
    assert(su + base == sv + 8 * e);
    if adv != 0 {
        vstd::arithmetic::div_mod::lemma_fundamental_div_mod_converse(su + adv, 8, e + t, sv);
    } else {
        assert(t == 0 && base == 0);
        lemma_mod8(su);
    }
}

/// A detour between two points outside the box never meets it: from `u` to its first corner,
/// corner to corner, and from its last corner to `v` (or straight from `u` to `v` when it has
/// no corner), each segment runs between neighbouring slots.
pub(crate) proof fn lemma_detour_apart(
    u: Coord,
    v: Coord,
    exc: Seq<Coord>,
    min: Coord,
    max: Coord,
    cy: int,
)
    requires
        !in_box(u, min, max),
        !in_box(v, min, max),
        detour_spec(u, v, exc, min, max, cy) is Ok,
    ensures
        ({
            let cs = detour_spec(u, v, exc, min, max, cy)->Ok_0;
            &&& cs.len() == 0 ==> !touches(u, v, min, max)
            &&& cs.len() > 0 ==> !touches(u, cs[0], min, max) && !touches(cs.last(), v, min, max)
            &&& forall|i: int| 0 <= i < cs.len() - 1 ==> !touches(#[trigger] cs[i], cs[i + 1], min, max)
        }),
{
    let su = slot_spec(outcode_spec(u, min, max));
    let sv = slot_spec(outcode_spec(v, min, max));
    let base = (sv + 8 - su) % 8;
    lemma_outside_slot(u, min, max);
    lemma_outside_slot(v, min, max);
    let rc = corners_spec(su, base, min, max)->Ok_0;
    let w_ref = ray_wind(seq![u] + rc + seq![v], cy, max.x as int);
    let w_exc = ray_wind(exc, cy, max.x as int);
    let adv = base + (w_exc - w_ref) * 8;
    let cs = detour_spec(u, v, exc, min, max, cy)->Ok_0;
    assert(cs == advance_corners(su, adv, min, max, abs(adv)));
    lemma_walk_lands(su, sv, w_exc - w_ref);
    let g = lemma_slots_chain(su, adv, abs(adv));
    lemma_corners_at_slots(su, adv, min, max, abs(adv));
    let sl = advance_slots(su, adv, abs(adv));
    let pl = placed(su, adv, abs(adv));
    lemma_near_walk(pl, adv, g);
    if cs.len() == 0 {
        lemma_near_apart(u, su, v, sv, min, max);
    } else {
        assert(shell_fits(min, max));
        lemma_corner_slot(sl[0], min, max);
        lemma_near_apart(u, su, cs[0], sl[0], min, max);
        let n = sl.len() - 1;
        lemma_corner_slot(sl[n], min, max);
        assert(cs.last() == cs[n]);
        lemma_near_apart(cs[n], pl, v, sv, min, max);
        assert forall|i: int| 0 <= i < cs.len() - 1 implies !touches(#[trigger] cs[i], cs[i + 1], min, max) by {
            lemma_corner_slot(sl[i], min, max);
            lemma_corner_slot(sl[i + 1], min, max);
            lemma_near_apart(cs[i], sl[i], cs[i + 1], sl[i + 1], min, max);
        }
    }
}


/// `a` then `b` is an edge of the cyclic ring `p`: two consecutive vertices.
pub open spec fn ring_edge<V>(p: Seq<V>, a: V, b: V) -> bool {
    exists|j: int| 0 <= j < p.len() && #[trigger] p[j] == a && p[(j + 1) % (p.len() as int)] == b
}

/// The segment from clipped-ring entry `x` to entry `y` touches the box only when both are
/// original vertices, at their own positions, forming an edge of the ring `p`.
pub open spec fn sound_pair<V: Vertex>(
    x: (Coord, Option<V>),
    y: (Coord, Option<V>),
    p: Seq<V>,
    min: Coord,
    max: Coord,
) -> bool {
    touches(x.0, y.0, min, max) ==> (x.1 matches Some(a) && (y.1 matches Some(b) && x.0 == a.pos()
        && y.0 == b.pos() && ring_edge(p, a, b)))
}

/// The successor of an index taken modulo `m`.
pub(crate) proof fn lemma_mod_next(x: int, m: int)
    requires
        m > 1,
    ensures
        (x % m + 1) % m == (x + 1) % m,
        0 <= x % m < m,
{
    vstd::arithmetic::div_mod::lemma_add_mod_noop(x, 1, m);
    vstd::arithmetic::div_mod::lemma_small_mod(1, m as nat);
    vstd::arithmetic::div_mod::lemma_mod_bound(x, m);
}

/// The predecessor of an index taken modulo `m`.
pub(crate) proof fn lemma_mod_prev(x: int, m: int)
    requires
        m > 1,
    ensures
        (x % m + m - 1) % m == (x - 1) % m,
{
    vstd::arithmetic::div_mod::lemma_add_mod_noop(x, m - 1, m);
    vstd::arithmetic::div_mod::lemma_small_mod((m - 1) as nat, m as nat);
    vstd::arithmetic::div_mod::lemma_mod_add_multiples_vanish(x - 1, m);
}

/// The vertices of `p` at indices `j` and `j + 1` (taken modulo its length) form an edge.
proof fn lemma_ring_edge_at<V>(p: Seq<V>, x: int)
    requires
        p.len() > 1,
    ensures
        ring_edge(p, p[x % (p.len() as int)], p[(x + 1) % (p.len() as int)]),
{
    let m = p.len() as int;
    lemma_mod_next(x, m);
    let j = x % m;
    assert(p[j] == p[x % m] && p[(j + 1) % m] == p[(x + 1) % m]);
}

/// A gap of dropped vertices from walk step `q` runs until the next kept step or the walk's end.
pub(crate) proof fn lemma_gap_len<V: Vertex>(p: Seq<V>, min: Coord, max: Coord, s: int, q: int)
    requires
        0 <= q <= p.len(),
    ensures
        0 <= gap_len(p, min, max, s, q) <= p.len() - q,
        forall|t: int|
            q <= t < q + gap_len(p, min, max, s, q) ==> !#[trigger] kept(
                p,
                min,
                max,
                (s + t) % (p.len() as int),
            ),
    decreases p.len() - q,
{
    if q < p.len() && !kept(p, min, max, (s + q) % (p.len() as int)) {
        lemma_gap_len(p, min, max, s, q + 1);
    }
}

/// The bridge over the gap at walk step `q` chains soundly from the kept vertex before the gap,
/// through its entries, to the kept vertex after it.
proof fn lemma_bridge_sound<V: Vertex>(p: Seq<V>, min: Coord, max: Coord, cy: int, s: int, q: int)
    requires
        p.len() >= 3,
        1 <= q < p.len(),
        !kept(p, min, max, (s + q) % (p.len() as int)),
        bridge(p, min, max, cy, s, q) is Ok,
    ensures
        ({
            let m = p.len() as int;
            let b = bridge(p, min, max, cy, s, q)->Ok_0;
            let u = original(p[(s + q - 1) % m]);
            let v = original(p[(s + q + gap_len(p, min, max, s, q)) % m]);
            &&& b.len() == 0 ==> sound_pair(u, v, p, min, max)
            &&& b.len() > 0 ==> sound_pair(u, b[0], p, min, max) && sound_pair(b.last(), v, p, min, max)
            &&& forall|i: int| 0 <= i < b.len() - 1 ==> sound_pair(#[trigger] b[i], b[i + 1], p, min, max)
        }),
{
    let m = p.len() as int;
    let len = gap_len(p, min, max, s, q);
    lemma_gap_len(p, min, max, s, q);
    lemma_gap_len(p, min, max, s, q + 1);
    assert(len == 1 + gap_len(p, min, max, s, q + 1));
    let iu = (s + q - 1) % m;
    let i0 = (s + q) % m;
    let il = (s + q + len - 1) % m;
    let iv = (s + q + len) % m;
    lemma_mod_prev(s + q, m);
    lemma_mod_next(s + q - 1, m);
    lemma_mod_next(s + q + len - 1, m);
    assert(!kept(p, min, max, i0));
    assert(!edge_hit(p, min, max, iu));
    assert(!in_box(p[iu].pos(), min, max));
    assert(!kept(p, min, max, (s + (q + len - 1)) % m));
    assert(!edge_hit(p, min, max, il));
    assert(!in_box(p[iv].pos(), min, max));
    let gap = Seq::new(len as nat, |t: int| p[(s + q + t) % m]);
    let u = p[iu].pos();
    let v = p[iv].pos();
    let exc = seq![u] + gap.map_values(|x: V| x.pos()) + seq![v];
    let cs = detour_spec(u, v, exc, min, max, cy)->Ok_0;
    let b = bridge(p, min, max, cy, s, q)->Ok_0;
    if len <= cs.len() {
        assert(b == gap.map_values(|x: V| original(x)));
        lemma_ring_edge_at(p, s + q - 1);
        assert(b[0] == original(p[i0]));
        lemma_ring_edge_at(p, s + q + len - 1);
        assert(b.last() == original(p[il]));
        assert forall|i: int| 0 <= i < b.len() - 1 implies sound_pair(#[trigger] b[i], b[i + 1], p, min, max) by {
            lemma_ring_edge_at(p, s + q + i);
            assert(b[i] == original(p[(s + q + i) % m]));
            assert(b[i + 1] == original(p[(s + q + i + 1) % m]));
        }
    } else {
        assert(b == cs.map_values(|c: Coord| synthetic::<V>(c)));
        lemma_detour_apart(u, v, exc, min, max, cy);
        assert forall|i: int| 0 <= i < b.len() - 1 implies sound_pair(#[trigger] b[i], b[i + 1], p, min, max) by {
            assert(b[i].0 == cs[i] && b[i + 1].0 == cs[i + 1]);
        }
        if b.len() > 0 {
            assert(b[0].0 == cs[0]);
            assert(b.last().0 == cs.last());
        }
    }
}


/// Every two consecutive entries of `w` chain soundly.
pub open spec fn chain_sound<V: Vertex>(w: Seq<(Coord, Option<V>)>, p: Seq<V>, min: Coord, max: Coord) -> bool {
    forall|j: int| 0 <= j < w.len() - 1 ==> sound_pair(#[trigger] w[j], w[j + 1], p, min, max)
}

/// Sound chains joined by a sound step make a sound chain.
proof fn lemma_chain_concat<V: Vertex>(
    a: Seq<(Coord, Option<V>)>,
    b: Seq<(Coord, Option<V>)>,
    p: Seq<V>,
    min: Coord,
    max: Coord,
)
    requires
        chain_sound(a, p, min, max),
        chain_sound(b, p, min, max),
        a.len() > 0 && b.len() > 0 ==> sound_pair(a.last(), b[0], p, min, max),
    ensures
        chain_sound(a + b, p, min, max),
{
    let w = a + b;
    assert forall|j: int| 0 <= j < w.len() - 1 implies sound_pair(#[trigger] w[j], w[j + 1], p, min, max) by {
        if j < a.len() - 1 {
            assert(w[j] == a[j] && w[j + 1] == a[j + 1]);
        } else if j == a.len() - 1 {
            assert(w[j] == a.last() && w[j + 1] == b[0]);
        } else {
            assert(w[j] == b[j - a.len()] && w[j + 1] == b[j - a.len() + 1]);
        }
    }
}

/// What walk step `q` contributes, case by case.
pub(crate) proof fn lemma_piece_at<V: Vertex>(p: Seq<V>, min: Coord, max: Coord, cy: int, s: int, q: int)
    ensures
        ({
            let m = p.len() as int;
            let i = (s + q) % m;
            let back = q >= 1 && kept(p, min, max, (s + q - 1) % m);
            &&& kept(p, min, max, i) ==> piece(p, min, max, cy, s, q) == Ok::<
                Seq<(Coord, Option<V>)>,
                TileError,
            >(seq![original(p[i])])
            &&& (!kept(p, min, max, i) && back) ==> piece(p, min, max, cy, s, q) == bridge(
                p,
                min,
                max,
                cy,
                s,
                q,
            )
            &&& (!kept(p, min, max, i) && !back) ==> piece(p, min, max, cy, s, q) == Ok::<
                Seq<(Coord, Option<V>)>,
                TileError,
            >(Seq::empty())
        }),
{
    reveal(piece);
}

/// The walk of no steps is empty.
pub(crate) proof fn lemma_walk_zero<V: Vertex>(p: Seq<V>, min: Coord, max: Coord, cy: int, s: int)
    ensures
        walk(p, min, max, cy, s, 0) == Ok::<Seq<(Coord, Option<V>)>, TileError>(Seq::empty()),
{
    reveal(walk);
}

/// The first `n` steps of the walk from an arc start chain soundly, starting with that vertex;
/// the last entry is the vertex at the last step when that one is kept, and otherwise chains
/// soundly to the kept vertex that ends the current gap.
#[verifier::spinoff_prover]
#[verifier::rlimit(30)]
pub(crate) proof fn lemma_walk_sound<V: Vertex>(p: Seq<V>, min: Coord, max: Coord, cy: int, s: int, n: int)
    requires
        p.len() >= 3,
        0 <= s < p.len(),
        kept(p, min, max, s),
        1 <= n <= p.len(),
        walk(p, min, max, cy, s, n) is Ok,
    ensures
        ({
            let m = p.len() as int;
            let w = walk(p, min, max, cy, s, n)->Ok_0;
            let i = (s + n - 1) % m;
            &&& w.len() >= 1
            &&& w[0] == original(p[s])
            &&& chain_sound(w, p, min, max)
            &&& kept(p, min, max, i) ==> w.last() == original(p[i])
            &&& !kept(p, min, max, i) ==> sound_pair(
                w.last(),
                original(p[(s + n + gap_len(p, min, max, s, n)) % m]),
                p,
                min,
                max,
            )
        }),
    decreases n,
{
    let m = p.len() as int;
    let q = n - 1;
    lemma_piece_at(p, min, max, cy, s, q);
    if n == 1 {
        lemma_walk_zero(p, min, max, cy, s);
        crate::clip_polygon::lemma_walk_next(p, min, max, cy, s, 0);
        vstd::arithmetic::div_mod::lemma_small_mod(s as nat, m as nat);
        assert((s + 0) % m == s);
        let w = walk(p, min, max, cy, s, 1)->Ok_0;
        assert(w =~= seq![original(p[s])]);
    } else {
        if walk(p, min, max, cy, s, q) is Err {
            crate::clip_polygon::lemma_walk_err(p, min, max, cy, s, q, n);
        }
        lemma_walk_sound(p, min, max, cy, s, q);
        crate::clip_polygon::lemma_walk_next(p, min, max, cy, s, q);
        let w0 = walk(p, min, max, cy, s, q)->Ok_0;
        let x = piece(p, min, max, cy, s, q)->Ok_0;
        let w = walk(p, min, max, cy, s, n)->Ok_0;
        assert(w == w0 + x);
        let iq = (s + q) % m;
        let ip = (s + q - 1) % m;
        lemma_gap_len(p, min, max, s, q);
        lemma_gap_len(p, min, max, s, n);
        lemma_ring_edge_at(p, s + q - 1);
        if kept(p, min, max, iq) {
            assert(gap_len(p, min, max, s, q) == 0);
            assert(chain_sound(x, p, min, max));
            lemma_chain_concat(w0, x, p, min, max);
            assert(w.last() == x.last());
        } else {
            assert(gap_len(p, min, max, s, q) == 1 + gap_len(p, min, max, s, n));
            if kept(p, min, max, ip) {
                lemma_bridge_sound(p, min, max, cy, s, q);
                assert(chain_sound(x, p, min, max));
                lemma_chain_concat(w0, x, p, min, max);
                if x.len() > 0 {
                    assert(w.last() == x.last());
                } else {
                    assert(w == w0);
                }
            } else {
                assert(w =~= w0);
            }
        }
        assert(w[0] == w0[0]);
    }
}

/// The first arc start, when there is one, follows a dropped vertex.
pub(crate) proof fn lemma_arc_start_after_gap<V: Vertex>(p: Seq<V>, min: Coord, max: Coord, i: int)
    requires
        0 <= i <= p.len(),
    ensures
        first_arc_start(p, min, max, i) < p.len() ==> !kept(
            p,
            min,
            max,
            (first_arc_start(p, min, max, i) + p.len() - 1) % (p.len() as int),
        ),
    decreases p.len() - i,
{
    if i < p.len() && !(kept(p, min, max, i) && !kept(p, min, max, (i + p.len() - 1) % (p.len() as int))) {
        lemma_arc_start_after_gap(p, min, max, i + 1);
    }
}

/// Clipping a ring adds no edge that reaches into the box: wherever the segment between two
/// consecutive entries of the clipped ring touches the box, both entries are original vertices,
/// one right after the other around the input ring (consecutive duplicates and the closing repeat
/// dropped). Corners, bridging chords and fills all stay outside the box, so the edges of a tile's
/// ring that touch its box are exactly edges of the input.
pub proof fn law_clip_ring_touching_edges_are_input_edges<V: Vertex>(
    ring: Seq<V>,
    min: Coord,
    max: Coord,
)
    ensures
        clip_ring_spec(ring, min, max) matches Ok(Some(w)) ==> forall|i: int|
            0 <= i < w.len() - 1 ==> sound_pair(#[trigger] w[i], w[i + 1], ring_pts(ring), min, max),
{
    let p = ring_pts(ring);
    let m = p.len() as int;
    if let Ok(Some(w)) = clip_ring_spec(ring, min, max) {
        let closed = (p + seq![p[0]]).map_values(|x: V| original(x));
        if forall|i: int| 0 <= i < m ==> !#[trigger] edge_hit(p, min, max, i) {
            let pos = p.map_values(|x: V| x.pos());
            let fs = fill_spec(ring_turn(pos), min, max);
            assert(shell_fits(min, max));
            lemma_corner_slot(0, min, max);
            lemma_corner_slot(2, min, max);
            lemma_corner_slot(4, min, max);
            lemma_corner_slot(6, min, max);
            let sw = shell_corner(0, min, max);
            let se = shell_corner(2, min, max);
            let ne = shell_corner(4, min, max);
            let nw = shell_corner(6, min, max);
            lemma_near_apart(sw, 0, se, 2, min, max);
            lemma_near_apart(se, 2, ne, 4, min, max);
            lemma_near_apart(ne, 4, nw, 6, min, max);
            lemma_near_apart(nw, 6, sw, 0, min, max);
            lemma_near_apart(sw, 0, nw, 6, min, max);
            lemma_near_apart(nw, 6, ne, 4, min, max);
            lemma_near_apart(ne, 4, se, 2, min, max);
            lemma_near_apart(se, 2, sw, 0, min, max);
            assert forall|i: int| 0 <= i < w.len() - 1 implies sound_pair(#[trigger] w[i], w[i + 1], p, min, max) by {
                assert(w[i].0 == fs[i] && w[i + 1].0 == fs[i + 1]);
            }
        } else if forall|i: int| 0 <= i < m ==> #[trigger] kept(p, min, max, i) {
            assert forall|i: int| 0 <= i < w.len() - 1 implies sound_pair(#[trigger] w[i], w[i + 1], p, min, max) by {
                lemma_ring_edge_at(p, i);
                vstd::arithmetic::div_mod::lemma_small_mod(i as nat, m as nat);
                assert(w[i] == original(p[i % m]));
                if i + 1 < m {
                    vstd::arithmetic::div_mod::lemma_small_mod((i + 1) as nat, m as nat);
                    assert(w[i + 1] == original(p[(i + 1) % m]));
                } else {
                    vstd::arithmetic::div_mod::lemma_mod_self_0(m);
                    assert(w[i + 1] == original(p[(i + 1) % m]));
                }
            }
        } else {
            let s = first_arc_start(p, min, max, 0);
            crate::clip_polygon::lemma_arc_start_kept(p, min, max, 0);
            if s >= m {
                assert forall|i: int| 0 <= i < w.len() - 1 implies sound_pair(#[trigger] w[i], w[i + 1], p, min, max) by {
                    lemma_ring_edge_at(p, i);
                    vstd::arithmetic::div_mod::lemma_small_mod(i as nat, m as nat);
                    assert(w[i] == original(p[i % m]));
                    if i + 1 < m {
                        vstd::arithmetic::div_mod::lemma_small_mod((i + 1) as nat, m as nat);
                        assert(w[i + 1] == original(p[(i + 1) % m]));
                    } else {
                        vstd::arithmetic::div_mod::lemma_mod_self_0(m);
                        assert(w[i + 1] == original(p[(i + 1) % m]));
                    }
                }
            } else {
                let cy = half(min.y + max.y);
                lemma_walk_sound(p, min, max, cy, s, m);
                let wk = walk(p, min, max, cy, s, m)->Ok_0;
                assert(w == wk.push(wk[0]));
                lemma_arc_start_after_gap(p, min, max, 0);
                assert(!kept(p, min, max, (s + m - 1) % m));
                assert(gap_len(p, min, max, s, m) == 0);
                vstd::arithmetic::div_mod::lemma_mod_add_multiples_vanish(s, m);
                vstd::arithmetic::div_mod::lemma_small_mod(s as nat, m as nat);
                assert(m + s == s + m + gap_len(p, min, max, s, m));
                assert((s + m + gap_len(p, min, max, s, m)) % m == s);
                assert forall|i: int| 0 <= i < w.len() - 1 implies sound_pair(#[trigger] w[i], w[i + 1], p, min, max) by {
                    assert(w[i] == wk[i]);
                    if i < wk.len() - 1 {
                        assert(w[i + 1] == wk[i + 1]);
                    } else {
                        assert(w[i + 1] == wk[0]);
                    }
                }
            }
        }
    }
}


/// Where the ray `{y = cy, x > max.x}` sits among the slots: `0` in the slots before it
/// (counter-clockwise from `SW`), `1` in those after it; in the `E` slot it depends on the side
/// of the ray.
pub open spec fn ray_side(p: Coord, sl: int, cy: int) -> int {
    if sl <= 2 {
        0
    } else if sl == 3 {
        if p.y > cy {
            1
        } else {
            0
        }
    } else {
        1
    }
}

/// Moving from slot `a` to the neighbouring slot `b` passes the `W`/`SW` seam: `+1`
/// counter-clockwise, `-1` clockwise.
pub open spec fn seam(a: int, b: int) -> int {
    if (a == 6 || a == 7) && b == 0 {
        1
    } else if a == 0 && (b == 6 || b == 7) {
        -1
    } else {
        0
    }
}

/// The seam passes along a path of slots.
pub open spec fn seams(sls: Seq<int>) -> int
    decreases sls.len(),
{
    if sls.len() < 2 {
        0
    } else {
        seams(sls.drop_last()) + seam(sls[sls.len() - 2], sls[sls.len() - 1])
    }
}

/// A segment between points in neighbouring slots crosses the ray exactly as the change of side
/// plus the seam it passes says.
proof fn lemma_ray_step_near(a: Coord, sa: int, b: Coord, sb: int, min: Coord, max: Coord, cy: int)
    requires
        0 <= sa < 8,
        0 <= sb < 8,
        near(sa, sb),
        in_slot(a, sa, min, max),
        in_slot(b, sb, min, max),
        min.x <= max.x,
        min.y <= cy <= max.y,
    ensures
        ray_step(a, b, cy, max.x as int) == ray_side(b, sb, cy) - ray_side(a, sa, cy) + seam(sa, sb),
{
    let mx = max.x as int;
    let ax = a.x as int;
    let ay = a.y as int;
    let bx = b.x as int;
    let by = b.y as int;
    let num = (ax - mx) * (by - ay) + (bx - ax) * (cy - ay);
    assert(num == (ax - mx) * (by - cy) + (bx - mx) * (cy - ay)) by (nonlinear_arith)
        requires
            num == (ax - mx) * (by - ay) + (bx - ax) * (cy - ay),
    ;
    if ax < mx && bx < mx {
        if ay <= cy && by > cy {
            assert((ax - mx) * (by - cy) + (bx - mx) * (cy - ay) < 0) by (nonlinear_arith)
                requires
                    ax < mx,
                    bx < mx,
                    ay <= cy,
                    by > cy,
            ;
        }
        if ay > cy && by <= cy {
            assert((ax - mx) * (by - cy) + (bx - mx) * (cy - ay) > 0) by (nonlinear_arith)
                requires
                    ax < mx,
                    bx < mx,
                    ay > cy,
                    by <= cy,
            ;
        }
    }
    if ax > mx && bx > mx {
        if ay <= cy && by > cy {
            assert((ax - mx) * (by - cy) + (bx - mx) * (cy - ay) > 0) by (nonlinear_arith)
                requires
                    ax > mx,
                    bx > mx,
                    ay <= cy,
                    by > cy,
            ;
        }
        if ay > cy && by <= cy {
            assert((ax - mx) * (by - cy) + (bx - mx) * (cy - ay) < 0) by (nonlinear_arith)
                requires
                    ax > mx,
                    bx > mx,
                    ay > cy,
                    by <= cy,
            ;
        }
    }
}


/// Points each in the region of its slot, consecutive slots neighbours.
pub open spec fn slot_path(pts: Seq<Coord>, sls: Seq<int>, min: Coord, max: Coord) -> bool {
    &&& pts.len() == sls.len()
    &&& forall|i: int|
        0 <= i < sls.len() ==> 0 <= #[trigger] sls[i] < 8 && in_slot(pts[i], sls[i], min, max)
    &&& forall|i: int| 0 <= i < sls.len() - 1 ==> near(#[trigger] sls[i], sls[i + 1])
}

/// The winding of a path through neighbouring slots is its change of side plus its seam passes.
proof fn lemma_path_wind(pts: Seq<Coord>, sls: Seq<int>, min: Coord, max: Coord, cy: int)
    requires
        slot_path(pts, sls, min, max),
        pts.len() >= 1,
        min.x <= max.x,
        min.y <= cy <= max.y,
    ensures
        ray_wind(pts, cy, max.x as int) == ray_side(pts.last(), sls.last(), cy) - ray_side(
            pts[0],
            sls[0],
            cy,
        ) + seams(sls),
    decreases pts.len(),
{
    let n = pts.len() as int;
    if n >= 2 {
        let p0 = pts.drop_last();
        let s0 = sls.drop_last();
        assert forall|i: int| 0 <= i < s0.len() implies 0 <= #[trigger] s0[i] < 8 && in_slot(
            p0[i],
            s0[i],
            min,
            max,
        ) by {
            assert(s0[i] == sls[i] && p0[i] == pts[i]);
        }
        assert forall|i: int| 0 <= i < s0.len() - 1 implies near(#[trigger] s0[i], s0[i + 1]) by {
            assert(s0[i] == sls[i] && s0[i + 1] == sls[i + 1]);
        }
        lemma_path_wind(p0, s0, min, max, cy);
        assert(sls[n - 2] < 8 && sls[n - 1] < 8);
        lemma_ray_step_near(pts[n - 2], sls[n - 2], pts[n - 1], sls[n - 1], min, max, cy);
        assert(p0.last() == pts[n - 2] && s0.last() == sls[n - 2]);
    }
}

/// `y / 8` for `y` within one turn either side of `0..8`.
proof fn lemma_div8(y: int)
    requires
        -8 <= y < 16,
    ensures
        y / 8 == (if y < 0 {
            -1int
        } else if y >= 8 {
            1int
        } else {
            0int
        }),
{
    if y < 0 {
        vstd::arithmetic::div_mod::lemma_fundamental_div_mod_converse(y, 8, -1, y + 8);
    } else if y >= 8 {
        vstd::arithmetic::div_mod::lemma_fundamental_div_mod_converse(y, 8, 1, y - 8);
    } else {
        vstd::arithmetic::div_mod::lemma_fundamental_div_mod_converse(y, 8, 0, y);
    }
}

/// Whole turns of `x + d` split into those of `x` and those of its remainder plus `d`.
proof fn lemma_div8_split(x: int, d: int)
    requires
        -8 <= d <= 8,
    ensures
        (x + d) / 8 == x / 8 + (x % 8 + d) / 8,
{
    vstd::arithmetic::div_mod::lemma_fundamental_div_mod(x, 8);
    vstd::arithmetic::div_mod::lemma_mod_bound(x, 8);
    let y = x % 8 + d;
    lemma_div8(y);
    lemma_mod8(y);
    vstd::arithmetic::div_mod::lemma_fundamental_div_mod(y, 8);
    vstd::arithmetic::div_mod::lemma_fundamental_div_mod_converse(x + d, 8, x / 8 + y / 8, y % 8);
}

/// Whole turns of `x + 8t` are those of `x` plus `t`.
proof fn lemma_div8_turns(x: int, t: int)
    ensures
        (x + t * 8) / 8 == x / 8 + t,
{
    vstd::arithmetic::div_mod::lemma_fundamental_div_mod(x, 8);
    vstd::arithmetic::div_mod::lemma_mod_bound(x, 8);
    vstd::arithmetic::div_mod::lemma_fundamental_div_mod_converse(x + t * 8, 8, x / 8 + t, x % 8);
}

/// Walking up to two slots from `x` passes the seam as often as the unwrapped walk passes a
/// whole turn.
proof fn lemma_seam_walk(x: int, advance: int, g: int)
    requires
        0 <= x < 8,
        0 <= g <= 2,
        g == 2 ==> x % 2 == 0,
    ensures
        seam(x, walk_slot(x, advance, g)) == (if advance > 0 {
            x + g
        } else {
            x - g
        }) / 8,
{
    if advance > 0 {
        lemma_mod8(x + g);
        lemma_div8(x + g);
    } else {
        lemma_mod8(x - g);
        lemma_div8(x - g);
    }
}

/// Up to three steps from a slot land on different slots.
proof fn lemma_lag_unique(x: int, advance: int, g1: int, g2: int)
    requires
        0 <= x < 8,
        0 <= g1 <= 3,
        0 <= g2 <= 3,
        walk_slot(x, advance, g1) == walk_slot(x, advance, g2),
    ensures
        g1 == g2,
{
    if advance > 0 {
        lemma_mod8(x + g1);
        lemma_mod8(x + g2);
    } else {
        lemma_mod8(x - g1);
        lemma_mod8(x - g2);
    }
}

/// The position of the walk after `k` steps, less the lag `g`, without wrapping round.
spec fn unwrapped(start: int, advance: int, k: int, g: int) -> int {
    if advance > 0 {
        start + k - g
    } else {
        start - k + g
    }
}

/// The seam passes of the corner slots placed so far (from `start`) are the whole turns of the
/// unwrapped position of the last one placed.
#[verifier::spinoff_prover]
#[verifier::rlimit(40)]
proof fn lemma_slots_seams(start: int, advance: int, k: int, g: int)
    requires
        0 <= start < 8,
        0 <= k <= abs(advance),
        0 <= g <= 2,
        0 <= placed(start, advance, k) < 8,
        walk_slot(placed(start, advance, k), advance, g) == walk_slot(start, advance, k),
    ensures
        seams(seq![start] + advance_slots(start, advance, k)) == unwrapped(start, advance, k, g) / 8,
        placed(start, advance, k) == unwrapped(start, advance, k, g) % 8,
    decreases k,
{
    if k == 0 {
        lemma_lag_unique(start, advance, g, 0);
        lemma_mod8(start);
        lemma_div8(start);
        assert(seq![start] + advance_slots(start, advance, 0) =~= seq![start]);
    } else {
        let g0 = lemma_slots_chain(start, advance, k - 1);
        lemma_slots_seams(start, advance, k - 1, g0);
        let pl = placed(start, advance, k - 1);
        let ps = advance_slots(start, advance, k - 1);
        let cur = walk_slot(start, advance, k - 1);
        let nxt = walk_slot(start, advance, k);
        crate::clip_polygon::lemma_walk_step(start, advance, k - 1);
        crate::clip_polygon::lemma_walk_step(pl, advance, g0);
        lemma_near_walk(pl, advance, 1);
        if g0 <= 1 {
            lemma_near_walk(pl, advance, g0);
        }
        if advance > 0 {
            lemma_mod8(cur + 1);
            lemma_mod8(walk_slot(pl, advance, g0) + 1);
        } else {
            lemma_mod8(cur + 7);
            lemma_mod8(walk_slot(pl, advance, g0) + 7);
        }
        assert(walk_slot(pl, advance, g0 + 1) == nxt);
        let c0 = seq![start] + ps;
        let c1 = seq![start] + advance_slots(start, advance, k);
        let p0 = unwrapped(start, advance, k - 1, g0);
        assert(c0.last() == pl);
        if k != abs(advance) && nxt % 2 == 0 {
            lemma_mod8(nxt);
            lemma_lag_unique(nxt, advance, g, 0);
            assert(c1 =~= c0.push(nxt));
            assert(c1.drop_last() =~= c0);
            lemma_near_walk(pl, advance, g0 + 1);
            lemma_seam_walk(pl, advance, g0 + 1);
            if advance > 0 {
                lemma_div8_split(p0, g0 + 1);
            } else {
                lemma_div8_split(p0, -(g0 + 1));
            }
        } else {
            assert(c1 == c0);
            lemma_lag_unique(pl, advance, g, g0 + 1);
        }
    }
}

/// The winding of the path from `u` round the corners of a walk of `advance` slots from `u`'s
/// slot `su` to `v` in slot `sv`: the change of side plus the whole turns of `su + advance`.
#[verifier::spinoff_prover]
#[verifier::rlimit(40)]
proof fn lemma_corner_path_wind(
    u: Coord,
    v: Coord,
    su: int,
    sv: int,
    advance: int,
    min: Coord,
    max: Coord,
    cy: int,
)
    requires
        0 <= su < 8,
        0 <= sv < 8,
        in_slot(u, su, min, max),
        in_slot(v, sv, min, max),
        walk_slot(su, advance, abs(advance)) == sv,
        corners_spec(su, advance, min, max) is Ok,
        min.x <= max.x,
        min.y <= cy <= max.y,
    ensures
        ray_wind(seq![u] + corners_spec(su, advance, min, max)->Ok_0 + seq![v], cy, max.x as int)
            == ray_side(v, sv, cy) - ray_side(u, su, cy) + (su + advance) / 8,
{
    let n = abs(advance);
    let cs = advance_corners(su, advance, min, max, n);
    assert(corners_spec(su, advance, min, max)->Ok_0 == cs);
    let g = lemma_slots_chain(su, advance, n);
    lemma_corners_at_slots(su, advance, min, max, n);
    lemma_slots_seams(su, advance, n, g);
    let sl = advance_slots(su, advance, n);
    let pl = placed(su, advance, n);
    lemma_near_walk(pl, advance, g);
    let pts = seq![u] + cs + seq![v];
    let sls = seq![su] + sl + seq![sv];
    assert forall|i: int| 0 <= i < sls.len() implies 0 <= #[trigger] sls[i] < 8 && in_slot(
        pts[i],
        sls[i],
        min,
        max,
    ) by {
        if 1 <= i <= sl.len() {
            assert(shell_fits(min, max));
            assert(sls[i] == sl[i - 1] && pts[i] == cs[i - 1]);
            lemma_corner_slot(sl[i - 1], min, max);
        }
    }
    assert forall|i: int| 0 <= i < sls.len() - 1 implies near(#[trigger] sls[i], sls[i + 1]) by {
        if i == 0 {
            if sl.len() > 0 {
                assert(sls[1] == sl[0]);
            } else {
                assert(sls[1] == sv && pl == su);
            }
        } else if i < sl.len() {
            assert(sls[i] == sl[i - 1] && sls[i + 1] == sl[i]);
        } else {
            assert(sls[i] == sl[i - 1] && sls[i + 1] == sv && pl == sl.last());
        }
    }
    lemma_path_wind(pts, sls, min, max, cy);
    assert(sls.drop_last() =~= seq![su] + sl);
    assert(sls[sls.len() - 2] == pl);
    lemma_seam_walk(pl, advance, g);
    let p0 = unwrapped(su, advance, n, g);
    if advance > 0 {
        lemma_div8_split(p0, g);
    } else {
        lemma_div8_split(p0, -g);
    }
}

/// The box's centre line lies within the box.
pub(crate) proof fn lemma_half_between(a: int, b: int)
    requires
        a <= b,
    ensures
        a <= half(a + b) <= b,
{
    let s = a + b;
    if s >= 0 {
        vstd::arithmetic::div_mod::lemma_fundamental_div_mod(s, 2);
        vstd::arithmetic::div_mod::lemma_mod_bound(s, 2);
    } else {
        vstd::arithmetic::div_mod::lemma_fundamental_div_mod(-s, 2);
        vstd::arithmetic::div_mod::lemma_mod_bound(-s, 2);
    }
}

/// A detour reproduces the winding of the excursion it stands in for: the path from the exit
/// vertex `u` round the detour's corners to the entry vertex `v` crosses the ray from the box's
/// centre line past its right side as often, with the same signs, as the excursion does.
pub proof fn law_detour_keeps_excursion_winding(
    u: Coord,
    v: Coord,
    excursion: Seq<Coord>,
    min: Coord,
    max: Coord,
)
    requires
        min.x <= max.x,
        min.y <= max.y,
        !in_box(u, min, max),
        !in_box(v, min, max),
    ensures
        detour_spec(u, v, excursion, min, max, half(min.y + max.y)) matches Ok(cs) ==> ray_wind(
            seq![u] + cs + seq![v],
            half(min.y + max.y),
            max.x as int,
        ) == ray_wind(excursion, half(min.y + max.y), max.x as int),
{
    let cy = half(min.y + max.y);
    lemma_half_between(min.y as int, max.y as int);
    if detour_spec(u, v, excursion, min, max, cy) is Ok {
        let su = slot_spec(outcode_spec(u, min, max));
        let sv = slot_spec(outcode_spec(v, min, max));
        let base = (sv + 8 - su) % 8;
        lemma_outside_slot(u, min, max);
        lemma_outside_slot(v, min, max);
        let rc = corners_spec(su, base, min, max)->Ok_0;
        let w_ref = ray_wind(seq![u] + rc + seq![v], cy, max.x as int);
        let w_exc = ray_wind(excursion, cy, max.x as int);
        let t = w_exc - w_ref;
        let adv = base + t * 8;
        lemma_walk_lands(su, sv, 0);
        assert(base + 0 * 8 == base);
        lemma_walk_lands(su, sv, t);
        lemma_corner_path_wind(u, v, su, sv, base, min, max, cy);
        lemma_corner_path_wind(u, v, su, sv, adv, min, max, cy);
        lemma_div8_turns(su + base, t);
        assert(su + adv == su + base + t * 8);
    }
}


/// The walk of `k` steps starts with the walk of any `n ≤ k` steps.
pub(crate) proof fn lemma_walk_prefix<V: Vertex>(p: Seq<V>, min: Coord, max: Coord, cy: int, s: int, n: int, k: int)
    requires
        0 <= n <= k,
        walk(p, min, max, cy, s, k) is Ok,
    ensures
        walk(p, min, max, cy, s, n) is Ok,
        walk(p, min, max, cy, s, n)->Ok_0.len() <= walk(p, min, max, cy, s, k)->Ok_0.len(),
        walk(p, min, max, cy, s, k)->Ok_0.take(walk(p, min, max, cy, s, n)->Ok_0.len() as int)
            == walk(p, min, max, cy, s, n)->Ok_0,
    decreases k - n,
{
    if n < k {
        if walk(p, min, max, cy, s, k - 1) is Err {
            if k - 1 >= 1 {
                lemma_walk_err(p, min, max, cy, s, k - 1, k);
            } else {
                lemma_walk_zero(p, min, max, cy, s);
            }
        }
        lemma_walk_prefix(p, min, max, cy, s, n, k - 1);
        lemma_walk_next(p, min, max, cy, s, k - 1);
        let a = walk(p, min, max, cy, s, k - 1)->Ok_0;
        let b = walk(p, min, max, cy, s, k)->Ok_0;
        let c = walk(p, min, max, cy, s, n)->Ok_0;
        let x = piece(p, min, max, cy, s, k - 1)->Ok_0;
        assert(b == a + x);
        assert(b.take(c.len() as int) =~= a.take(c.len() as int));
    } else {
        let c = walk(p, min, max, cy, s, n)->Ok_0;
        assert(c.take(c.len() as int) =~= c);
    }
}

/// In the walk round the whole ring from its first arc start, the two vertices of every edge
/// touching the box follow one another.
#[verifier::spinoff_prover]
proof fn lemma_walk_keeps_edge<V: Vertex>(p: Seq<V>, min: Coord, max: Coord, i: int)
    requires
        p.len() >= 3,
        first_arc_start(p, min, max, 0) < p.len(),
        walk(p, min, max, half(min.y + max.y), first_arc_start(p, min, max, 0), p.len() as int) is Ok,
        0 <= i < p.len(),
        edge_hit(p, min, max, i),
    ensures
        ({
            let ww = walk(
                p,
                min,
                max,
                half(min.y + max.y),
                first_arc_start(p, min, max, 0),
                p.len() as int,
            )->Ok_0;
            exists|j: int|
                0 <= j < ww.len() - 1 && #[trigger] ww[j] == original(p[i]) && ww[j + 1] == original(
                    p[(i + 1) % (p.len() as int)],
                )
        }),
{
    let m = p.len() as int;
    let cy = half(min.y + max.y);
    let s = first_arc_start(p, min, max, 0);
    let ww = walk(p, min, max, cy, s, m)->Ok_0;
    lemma_arc_start_kept(p, min, max, 0);
    lemma_arc_start_after_gap(p, min, max, 0);
    let q = if i >= s {
        i - s
    } else {
        i - s + m
    };
    if i >= s {
        vstd::arithmetic::div_mod::lemma_small_mod(i as nat, m as nat);
    } else {
        vstd::arithmetic::div_mod::lemma_mod_add_multiples_vanish(i, m);
        vstd::arithmetic::div_mod::lemma_small_mod(i as nat, m as nat);
    }
    assert((s + q) % m == i);
    // Both ends of the edge are kept.
    lemma_mod_next(i, m);
    lemma_mod_prev(i + 1, m);
    vstd::arithmetic::div_mod::lemma_small_mod(i as nat, m as nat);
    assert(kept(p, min, max, i));
    assert(kept(p, min, max, (i + 1) % m));
    // The edge does not close the walk: the vertex before the arc start is dropped.
    lemma_mod_prev(s, m);
    vstd::arithmetic::div_mod::lemma_small_mod(s as nat, m as nat);
    if q == m - 1 {
        assert((s + m - 1) % m == i) by {
            vstd::arithmetic::div_mod::lemma_mod_add_multiples_vanish(s - 1, m);
        }
        assert(false);
    }
    assert((s + q + 1) % m == (i + 1) % m) by {
        lemma_mod_next(s + q, m);
    }
    lemma_walk_prefix(p, min, max, cy, s, q + 2, m);
    lemma_walk_prefix(p, min, max, cy, s, q + 1, q + 2);
    lemma_walk_sound(p, min, max, cy, s, q + 1);
    lemma_walk_next(p, min, max, cy, s, q + 1);
    lemma_piece_at(p, min, max, cy, s, q + 1);
    let w1 = walk(p, min, max, cy, s, q + 1)->Ok_0;
    let w2 = walk(p, min, max, cy, s, q + 2)->Ok_0;
    assert(w2 == w1.push(original(p[(i + 1) % m]))) by {
        assert(w1 + seq![original(p[(s + q + 1) % m])] =~= w1.push(original(p[(i + 1) % m])));
    }
    let j = w1.len() - 1;
    assert(ww.take(w2.len() as int)[j] == ww[j]);
    assert(ww.take(w2.len() as int)[j + 1] == ww[j + 1]);
    assert(ww[j] == original(p[i]) && ww[j + 1] == original(p[(i + 1) % m]));
}

/// Clipping a ring keeps every edge of it that reaches into the box: wherever an edge of the
/// input ring (consecutive duplicates and the closing repeat dropped) touches the box, its two
/// vertices follow one another in the clipped ring. With
/// [`law_clip_ring_touching_edges_are_input_edges`], the edges of a tile's ring that touch its box
/// are exactly the input's edges that do.
pub proof fn law_clip_ring_keeps_touching_edges<V: Vertex>(ring: Seq<V>, min: Coord, max: Coord)
    ensures
        clip_ring_spec(ring, min, max) matches Ok(Some(w)) ==> forall|i: int|
            0 <= i < ring_pts(ring).len() && #[trigger] edge_hit(ring_pts(ring), min, max, i)
                ==> exists|j: int|
                0 <= j < w.len() - 1 && #[trigger] w[j] == original(ring_pts(ring)[i]) && w[j + 1]
                    == original(ring_pts(ring)[(i + 1) % (ring_pts(ring).len() as int)]),
{
    let p = ring_pts(ring);
    let m = p.len() as int;
    if let Ok(Some(w)) = clip_ring_spec(ring, min, max) {
        assert forall|i: int| 0 <= i < m && #[trigger] edge_hit(p, min, max, i) implies exists|j: int|
            0 <= j < w.len() - 1 && #[trigger] w[j] == original(p[i]) && w[j + 1] == original(
                p[(i + 1) % m],
            ) by {
            let s = first_arc_start(p, min, max, 0);
            if (forall|k: int| 0 <= k < m ==> #[trigger] kept(p, min, max, k)) || s >= m {
                lemma_mod_next(i, m);
                vstd::arithmetic::div_mod::lemma_small_mod(i as nat, m as nat);
                if i + 1 < m {
                    vstd::arithmetic::div_mod::lemma_small_mod((i + 1) as nat, m as nat);
                } else {
                    vstd::arithmetic::div_mod::lemma_mod_self_0(m);
                }
                assert(w[i] == original(p[i]) && w[i + 1] == original(p[(i + 1) % m]));
            } else {
                let ww = walk(p, min, max, half(min.y + max.y), s, m)->Ok_0;
                lemma_walk_keeps_edge(p, min, max, i);
                let j = choose|j: int|
                    0 <= j < ww.len() - 1 && #[trigger] ww[j] == original(p[i]) && ww[j + 1] == original(
                        p[(i + 1) % m],
                    );
                assert(w[j] == ww[j] && w[j + 1] == ww[j + 1]);
            }
        }
    }
}

} // verus!
