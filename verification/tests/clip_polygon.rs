//! Clipping one polygon ring to a tile box, keeping original vertices.

use std::collections::BTreeSet;

use map_tile_toolkit::{clip_ring, outcode, point_in_ring, Coord, Measured, Vertex};

fn c(x: i32, y: i32) -> Coord {
    Coord::new(x, y)
}

// Tile (0,0), extent 10, buffer 0 → inclusive box [0,0]..[9,9].
const MIN: Coord = Coord { x: 0, y: 0 };
const MAX: Coord = Coord { x: 9, y: 9 };

fn fill_at(ring: &[Coord], p: Coord) -> bool {
    point_in_ring(p, ring)
}

fn positions<V: Vertex>(ring: &[V]) -> Vec<Coord> {
    ring.iter().map(Vertex::position).collect()
}

#[test]
fn fully_inside_is_kept_verbatim() {
    let ring = [c(2, 2), c(7, 2), c(7, 7), c(2, 7), c(2, 2)];
    let out = clip_ring(&ring, MIN, MAX).unwrap().unwrap();
    assert_eq!(out, ring.to_vec(), "an inside ring is returned unchanged");
}

#[test]
fn single_vertex_gap_is_kept_not_synthesized() {
    let ring = [c(5, 5), c(5, 50), c(50, 50), c(50, 5), c(5, 5)];
    let out = clip_ring(&ring, MIN, MAX).unwrap().unwrap();
    let pts = positions(&out);
    let original: BTreeSet<(i32, i32)> = [(5, 5), (5, 50), (50, 50), (50, 5)].into_iter().collect();
    assert!(pts.iter().all(|q| original.contains(&(q.x, q.y))), "no synthetic corners: {pts:?}");
    assert!(pts.iter().any(|q| (q.x, q.y) == (50, 50)), "the single dropped vertex is kept");
    assert!(!fill_at(&pts, c(1, 1)));
    assert!(fill_at(&pts, c(8, 8)));
}

#[test]
fn fully_outside_disjoint_is_none() {
    let ring = [c(100, 100), c(110, 100), c(110, 110), c(100, 110), c(100, 100)];
    assert_eq!(clip_ring(&ring, MIN, MAX).unwrap(), None);
}

#[test]
fn containment_fills_the_box() {
    let ring = [c(-50, -50), c(50, -50), c(50, 50), c(-50, 50), c(-50, -50)];
    let out = clip_ring(&ring, MIN, MAX).unwrap().unwrap();
    let pts = positions(&out);
    assert!(pts.iter().all(|q| outcode(*q, MIN, MAX) != 0));
    assert!(fill_at(&pts, c(5, 5)));
    assert!(fill_at(&pts, c(0, 0)));
    assert!(fill_at(&pts, c(9, 9)));
}

#[test]
fn edge_through_tile_all_vertices_outside() {
    let ring = [c(-100, -100), c(109, -100), c(-100, 109), c(-100, -100)];
    let out = clip_ring(&ring, MIN, MAX).unwrap().unwrap();
    let pts = positions(&out);
    assert!(fill_at(&pts, c(1, 1)), "lower-left of the cut is filled");
    assert!(!fill_at(&pts, c(8, 8)), "upper-right of the cut is not filled");
}

#[test]
fn crossing_ring_keeps_original_crossing_vertices() {
    let ring = [c(4, 3), c(15, 3), c(15, 6), c(4, 6), c(4, 3)];
    let out = clip_ring(&ring, MIN, MAX).unwrap().unwrap();
    let pts = positions(&out);
    assert!(pts.contains(&c(4, 3)) && pts.contains(&c(4, 6)));
    assert!(fill_at(&pts, c(6, 4)), "inside the ring, inside the tile");
    assert!(!fill_at(&pts, c(1, 8)), "outside the ring");
}

#[test]
fn encircling_notch_wrap_case() {
    let ring = [
        c(3, -50),
        c(3, 6),
        c(6, 6),
        c(6, -50),
        c(60, -50),
        c(60, 60),
        c(-60, 60),
        c(-60, -50),
        c(3, -50),
    ];
    let out = clip_ring(&ring, MIN, MAX).unwrap().unwrap();
    let pts = positions(&out);
    assert!(!fill_at(&pts, c(4, 2)), "the notch is a hole in the fill");
    assert!(fill_at(&pts, c(1, 5)), "left of the notch is filled");
    assert!(fill_at(&pts, c(8, 5)), "right of the notch is filled");
    assert!(fill_at(&pts, c(4, 8)), "above the notch is filled");
}

#[test]
fn containment_fill_follows_ring_orientation() {
    // A clockwise enclosing ring gets a clockwise fill box, exactly one unit outside the box.
    let cw = [c(-50, -50), c(-50, 50), c(50, 50), c(50, -50), c(-50, -50)];
    let out = clip_ring(&cw, MIN, MAX).unwrap().unwrap();
    assert_eq!(out, vec![c(-1, -1), c(-1, 10), c(10, 10), c(10, -1), c(-1, -1)]);
    let ccw = [c(-50, -50), c(50, -50), c(50, 50), c(-50, 50), c(-50, -50)];
    let out = clip_ring(&ccw, MIN, MAX).unwrap().unwrap();
    assert_eq!(out, vec![c(-1, -1), c(10, -1), c(10, 10), c(-1, 10), c(-1, -1)]);
}

#[test]
fn long_excursion_is_replaced_by_a_detour() {
    // The part of the ring beyond the right edge wanders over many vertices; it is bridged by a
    // detour (here with no corners: both ends sit beyond the same edge and the winding agrees),
    // so the result is the kept arc, starting at the arc's first vertex, plus its closure.
    let ring = [
        c(2, 2),
        c(20, 2),
        c(30, 3),
        c(40, 4),
        c(50, 5),
        c(40, 6),
        c(30, 7),
        c(20, 7),
        c(2, 7),
        c(2, 2),
    ];
    let out = clip_ring(&ring, MIN, MAX).unwrap().unwrap();
    assert_eq!(out, vec![c(20, 7), c(2, 7), c(2, 2), c(20, 2), c(20, 7)]);
}

#[test]
fn degenerate_and_duplicate_rings() {
    assert_eq!(clip_ring(&[c(1, 1), c(2, 2)], MIN, MAX).unwrap(), None);
    assert_eq!(clip_ring(&[c(1, 1), c(1, 1), c(2, 2), c(1, 1)], MIN, MAX).unwrap(), None);
    let ring = [c(2, 2), c(2, 2), c(7, 2), c(7, 7), c(7, 7), c(2, 7), c(2, 2)];
    let out = clip_ring(&ring, MIN, MAX).unwrap().unwrap();
    assert_eq!(out, vec![c(2, 2), c(7, 2), c(7, 7), c(2, 7), c(2, 2)]);
}

#[test]
fn box_at_the_i32_limit_overflows_only_when_corners_are_needed() {
    let min = c(i32::MIN, 0);
    let max = c(i32::MIN + 9, 9);
    // A ring around the box needs a fill box one unit past i32::MIN.
    let around = [
        c(i32::MIN, -50),
        c(i32::MIN + 50, -50),
        c(i32::MIN + 50, 50),
        c(i32::MIN, 50),
    ];
    assert!(clip_ring(&around, min, max).is_err());
    // A ring inside needs none.
    let inside = [c(i32::MIN + 2, 2), c(i32::MIN + 7, 2), c(i32::MIN + 7, 7)];
    assert!(clip_ring(&inside, min, max).unwrap().is_some());
}

#[test]
fn payloads_survive_ring_clipping() {
    let ring = [
        Measured::new(2, 2, 1u8),
        Measured::new(7, 2, 2),
        Measured::new(7, 7, 3),
        Measured::new(2, 7, 4),
    ];
    let out = clip_ring(&ring, MIN, MAX).unwrap().unwrap();
    assert_eq!(out, vec![ring[0], ring[1], ring[2], ring[3], ring[0]]);
}

/// Rings whose clips exercise detours with corners, wrap-around excursions and fills.
fn sample_rings() -> Vec<Vec<Coord>> {
    vec![
        // The encircling notch: the excursion wraps the whole box.
        vec![
            c(3, -50),
            c(3, 6),
            c(6, 6),
            c(6, -50),
            c(60, -50),
            c(60, 60),
            c(-60, 60),
            c(-60, -50),
            c(3, -50),
        ],
        // Enters from the left, leaves through the bottom, and wanders round the far side.
        vec![
            c(-5, 5),
            c(5, 5),
            c(5, -5),
            c(20, -20),
            c(30, 0),
            c(30, 20),
            c(20, 30),
            c(0, 40),
            c(-20, 30),
            c(-30, 10),
            c(-5, 5),
        ],
        // Crosses the box twice, with long excursions on both sides.
        vec![
            c(-20, 2),
            c(30, 2),
            c(40, 10),
            c(41, 20),
            c(30, 30),
            c(30, 7),
            c(-20, 7),
            c(-30, 10),
            c(-31, 0),
            c(-25, -10),
            c(-20, 2),
        ],
        // Encloses the box with no edge near it.
        vec![c(-50, -50), c(50, -50), c(50, 50), c(-50, 50), c(-50, -50)],
    ]
}

#[test]
fn edges_reaching_the_box_are_input_edges() {
    let mut synthetic = 0;
    for ring in sample_rings() {
        let out = clip_ring(&ring, MIN, MAX).unwrap().unwrap();
        let input: BTreeSet<((i32, i32), (i32, i32))> =
            ring.windows(2).map(|w| ((w[0].x, w[0].y), (w[1].x, w[1].y))).collect();
        for w in out.windows(2) {
            let (a, b) = (w[0], w[1]);
            if input.contains(&((a.x, a.y), (b.x, b.y))) {
                continue;
            }
            // Any other edge lies wholly beyond one side of the box.
            let beyond = (a.x < MIN.x && b.x < MIN.x)
                || (a.x > MAX.x && b.x > MAX.x)
                || (a.y < MIN.y && b.y < MIN.y)
                || (a.y > MAX.y && b.y > MAX.y);
            assert!(beyond, "edge {a:?} -> {b:?} of {out:?} reaches the box");
        }
        synthetic += out.iter().filter(|q| !ring.contains(q)).count();
    }
    assert!(synthetic >= 4, "the samples exercise synthetic corners");
}

#[test]
fn clipped_fill_matches_the_ring_inside_the_box() {
    for ring in sample_rings() {
        let out = clip_ring(&ring, MIN, MAX).unwrap().unwrap();
        for x in 0..=9 {
            for y in 0..=9 {
                let p = c(x, y);
                assert_eq!(fill_at(&out, p), fill_at(&ring, p), "fill differs at {p:?}: {out:?}");
            }
        }
    }
}

/// Whether segment `a`–`b` touches the box `[MIN, MAX]`: its bounding box meets the box and an
/// endpoint is inside or the box's corners are not all strictly on one side of its line.
fn touches_box(a: Coord, b: Coord) -> bool {
    let inside = |p: Coord| MIN.x <= p.x && p.x <= MAX.x && MIN.y <= p.y && p.y <= MAX.y;
    let meets = a.x.min(b.x) <= MAX.x
        && a.x.max(b.x) >= MIN.x
        && a.y.min(b.y) <= MAX.y
        && a.y.max(b.y) >= MIN.y;
    let side = |p: Coord| {
        let v = i64::from(b.x - a.x) * i64::from(p.y - a.y) - i64::from(b.y - a.y) * i64::from(p.x - a.x);
        v.signum()
    };
    let corners = [MIN, c(MAX.x, MIN.y), c(MIN.x, MAX.y), MAX].map(side);
    let one_side = corners.iter().all(|&s| s > 0) || corners.iter().all(|&s| s < 0);
    meets && (inside(a) || inside(b) || !one_side)
}

#[test]
fn edges_of_the_ring_reaching_the_box_are_kept() {
    for ring in sample_rings() {
        let out = clip_ring(&ring, MIN, MAX).unwrap().unwrap();
        let kept: BTreeSet<((i32, i32), (i32, i32))> =
            out.windows(2).map(|w| ((w[0].x, w[0].y), (w[1].x, w[1].y))).collect();
        for w in ring.windows(2) {
            if touches_box(w[0], w[1]) {
                assert!(
                    kept.contains(&((w[0].x, w[0].y), (w[1].x, w[1].y))),
                    "edge {:?} -> {:?} was dropped from {out:?}",
                    w[0],
                    w[1]
                );
            }
        }
    }
}
