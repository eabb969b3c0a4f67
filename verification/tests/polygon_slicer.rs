//! The single-tile polygon slicer.

use map_tile_toolkit::{Coord, PolygonSlicerOne, TileError, TileId};

fn ring(pts: &[(i32, i32)]) -> Vec<Coord> {
    pts.iter().map(|&(x, y)| Coord::new(x, y)).collect()
}

#[test]
fn inside_polygon_is_kept_local() {
    let mut s = PolygonSlicerOne::<Coord>::new(25, 0, TileId::new(0, 0)).unwrap();
    let ext = ring(&[(5, 5), (20, 5), (20, 20), (5, 20), (5, 5)]);
    s.add_feature(&ext, &[]).unwrap();
    assert_eq!(s.len(), 1);
    let feats = s.iter_features();
    let rings = feats[0].iter_rings();
    assert_eq!(rings.len(), 1);
    assert!(!rings[0].is_hole());
    assert_eq!(rings[0].vertices(), ext.as_slice());
}

#[test]
fn polygon_missing_the_tile_is_dropped() {
    let mut s = PolygonSlicerOne::<Coord>::new(25, 0, TileId::new(0, 0)).unwrap();
    let ext = ring(&[(105, 105), (120, 105), (120, 120), (105, 120), (105, 105)]);
    s.add_feature(&ext, &[]).unwrap();
    assert!(s.is_empty(), "a polygon that misses the tile records nothing");
}

#[test]
fn tile_fully_inside_polygon_is_filled() {
    let mut s = PolygonSlicerOne::<Coord>::new(25, 0, TileId::new(1, 1)).unwrap();
    let ext = ring(&[(-10, -10), (80, -10), (80, 80), (-10, 80), (-10, -10)]);
    s.add_feature(&ext, &[]).unwrap();
    let feats = s.iter_features();
    let rings = feats[0].iter_rings();
    assert_eq!(rings.len(), 1);
    let xs: Vec<i32> = rings[0].vertices().iter().map(|c| c.x).collect();
    assert!(xs.iter().all(|&x| !(0..25).contains(&x)), "fill box is outside the core cell");
}

#[test]
fn hole_inside_the_tile_is_kept() {
    let mut s = PolygonSlicerOne::<Coord>::new(25, 0, TileId::new(0, 0)).unwrap();
    let ext = ring(&[(2, 2), (22, 2), (22, 22), (2, 22), (2, 2)]);
    let hole = ring(&[(8, 8), (16, 8), (16, 16), (8, 16), (8, 8)]);
    s.add_feature(&ext, &[&hole]).unwrap();
    let feats = s.iter_features();
    let rings = feats[0].iter_rings();
    assert_eq!(rings.len(), 2);
    assert!(!rings[0].is_hole());
    assert!(rings[1].is_hole());
    assert_eq!(rings[1].vertices(), hole.as_slice());
}

#[test]
fn attribute_rides_through() {
    let mut s = PolygonSlicerOne::<Coord, &str>::new(25, 0, TileId::new(0, 0)).unwrap();
    let ext = ring(&[(5, 5), (20, 5), (20, 20), (5, 20), (5, 5)]);
    s.add_feature_with(&ext, &[], "lake").unwrap();
    assert_eq!(*s.iter_features()[0].attr(), "lake");
}

#[test]
fn polygon_rings_are_localized_to_the_tile() {
    let mut s = PolygonSlicerOne::<Coord>::new(25, 0, TileId::new(1, 0)).unwrap();
    let ext = ring(&[(30, 5), (45, 5), (45, 20), (30, 20), (30, 5)]);
    s.add_feature(&ext, &[]).unwrap();
    let feats = s.iter_features();
    assert_eq!(
        feats[0].iter_rings()[0].vertices(),
        ring(&[(5, 5), (20, 5), (20, 20), (5, 20), (5, 5)]).as_slice()
    );
}

#[test]
fn hole_missing_the_tile_is_dropped_but_exterior_kept() {
    let mut s = PolygonSlicerOne::<Coord>::new(25, 0, TileId::new(0, 0)).unwrap();
    let ext = ring(&[(2, 2), (80, 2), (80, 22), (2, 22), (2, 2)]);
    let far_hole = ring(&[(60, 8), (70, 8), (70, 16), (60, 16), (60, 8)]);
    s.add_feature(&ext, &[&far_hole]).unwrap();
    let feats = s.iter_features();
    let rings = feats[0].iter_rings();
    assert_eq!(rings.len(), 1);
    assert!(!rings[0].is_hole());
}

#[test]
fn polygon_config_errors_and_clear() {
    assert_eq!(
        PolygonSlicerOne::<Coord>::new(0, 0, TileId::new(0, 0)).err(),
        Some(TileError::InvalidExtent)
    );
    assert_eq!(
        PolygonSlicerOne::<Coord>::new(10, 5, TileId::new(0, 0)).err(),
        Some(TileError::BufferTooLarge)
    );
    let mut s = PolygonSlicerOne::<Coord>::new(25, 3, TileId::new(2, 2)).unwrap();
    assert_eq!((s.extent(), s.buffer(), s.tile()), (25, 3, TileId::new(2, 2)));
    s.add_feature(&ring(&[(55, 55), (60, 55), (60, 60)]), &[]).unwrap();
    assert_eq!(s.len(), 1);
    s.clear();
    assert!(s.is_empty());
    let mut far = PolygonSlicerOne::<Coord>::new(4096, 0, TileId::new(i32::MAX, 0)).unwrap();
    assert_eq!(far.add_feature(&ring(&[(0, 0), (5, 0), (5, 5)]), &[]), Err(TileError::Overflow));
}

#[test]
fn polygon_fill_is_kept_in_every_tile_box() {
    // A frame-shaped polygon with a hole crossing tile borders; every point of each tile's box is
    // in the polygon exactly when its local position is in the tile's rings.
    let ext = ring(&[(-7, -3), (61, -9), (66, 58), (-4, 63), (-7, -3)]);
    let hole = ring(&[(12, 14), (40, 10), (44, 41), (9, 35), (12, 14)]);
    let in_poly = |p: Coord| {
        map_tile_toolkit::point_in_ring(p, &ext) && !map_tile_toolkit::point_in_ring(p, &hole)
    };
    for buffer in [0u16, 3] {
        for ty in -1..=3 {
            for tx in -1..=3 {
                let tile = TileId::new(tx, ty);
                let mut s = PolygonSlicerOne::<Coord>::new(25, buffer, tile).unwrap();
                s.add_feature(&ext, &[&hole]).unwrap();
                let feats = s.iter_features();
                let b = i32::from(buffer);
                for x in tx * 25 - b..=tx * 25 + 24 + b {
                    for y in ty * 25 - b..=ty * 25 + 24 + b {
                        let p = Coord::new(x, y);
                        let lp = Coord::new(x - tx * 25, y - ty * 25);
                        let in_tile = feats.iter().any(|f| {
                            let rings = f.iter_rings();
                            rings.iter().any(|r| {
                                !r.is_hole() && map_tile_toolkit::point_in_ring(lp, r.vertices())
                            }) && rings.iter().all(|r| {
                                !r.is_hole() || !map_tile_toolkit::point_in_ring(lp, r.vertices())
                            })
                        });
                        assert_eq!(in_tile, in_poly(p), "tile {tile:?} buffer {buffer} at {p:?}");
                    }
                }
            }
        }
    }
}

#[test]
fn ring_vertices_are_input_vertices_or_shell_corners() {
    let mut s = PolygonSlicerOne::<Coord>::new(25, 0, TileId::new(0, 0)).unwrap();
    let ext = ring(&[(-10, 5), (40, 5), (40, 60), (10, 60), (10, 20), (-10, 20), (-10, 5)]);
    let hole = ring(&[(15, 8), (30, 8), (30, 12), (15, 12), (15, 8)]);
    s.add_feature(&ext, &[&hole]).unwrap();
    let feats = s.iter_features();
    assert_eq!(feats.len(), 1);
    let rings = feats[0].iter_rings();
    assert_eq!(rings.len(), 2);
    let corner = |c: &Coord| (c.x == -1 || c.x == 25) && (c.y == -1 || c.y == 25);
    for (k, r) in rings.iter().enumerate() {
        let v = r.vertices();
        assert!(v.len() >= 2);
        assert_eq!(v[0], v[v.len() - 1], "ring is closed");
        let source = if k == 0 { &ext } else { &hole };
        for c in v {
            assert!(source.contains(c) || corner(c), "vertex {c:?} of ring {k}");
        }
    }
}
