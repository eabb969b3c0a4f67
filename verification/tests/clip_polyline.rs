//! Slicing polylines: the all-tiles slicer agrees with per-tile slicing at scale, and exact runs for
//! small cases.

use std::collections::BTreeMap;

use map_tile_toolkit::{Coord, SlicerAll, SlicerOne, TileId};

const EXTENT: u32 = 25;

/// A large serpentine polyline touching many tiles.
fn big_polyline() -> Vec<Coord> {
    const ROWS: i32 = 60;
    const COLS: i32 = 60;
    const STEP: i32 = 7;
    const ROW_H: i32 = 9;
    let mut coords = Vec::new();
    for r in 0..ROWS {
        let y0 = r * ROW_H;
        for k in 0..=COLS {
            let x = if r % 2 == 0 { k * STEP } else { (COLS - k) * STEP };
            let y = y0 + (k * 3) % 5;
            coords.push(Coord::new(x, y));
        }
    }
    coords
}

fn slice_all_runs(extent: u32, buffer: u16, polylines: &[Vec<Coord>]) -> Vec<(TileId, Vec<Vec<Coord>>)> {
    let mut acc = SlicerAll::<Coord>::new(extent, buffer).expect("valid config");
    for line in polylines {
        acc.add_feature(line).expect("slice");
    }
    acc.iter_tiles()
        .iter()
        .map(|t| {
            let runs: Vec<Vec<Coord>> = t
                .iter_features()
                .iter()
                .flat_map(|f| f.iter_polylines().into_iter().map(<[_]>::to_vec))
                .collect();
            (t.tile_id(), runs)
        })
        .filter(|(_, runs)| !runs.is_empty())
        .collect()
}

fn slice_tile_runs(extent: u32, buffer: u16, polylines: &[Vec<Coord>], tile: TileId) -> Vec<Vec<Coord>> {
    let mut acc = SlicerOne::<Coord>::new(extent, buffer, tile).expect("valid config");
    for line in polylines {
        acc.add_feature(line).expect("slice");
    }
    acc.iter_features()
        .iter()
        .flat_map(|f| f.iter_polylines().into_iter().map(<[_]>::to_vec))
        .collect()
}

fn padded_tile_span(polylines: &[Vec<Coord>], extent: u32) -> (TileId, TileId) {
    let e = extent as i32;
    let mut lo = TileId::new(i32::MAX, i32::MAX);
    let mut hi = TileId::new(i32::MIN, i32::MIN);
    for line in polylines {
        for c in line {
            let (tx, ty) = (c.x.div_euclid(e), c.y.div_euclid(e));
            lo = TileId::new(lo.x.min(tx), lo.y.min(ty));
            hi = TileId::new(hi.x.max(tx), hi.y.max(ty));
        }
    }
    (TileId::new(lo.x - 1, lo.y - 1), TileId::new(hi.x + 1, hi.y + 1))
}

#[test]
fn big_geometry_batch_matches_per_tile() {
    let geom = vec![big_polyline()];
    for buffer in [0u16, 5] {
        let all: BTreeMap<TileId, Vec<Vec<Coord>>> =
            slice_all_runs(EXTENT, buffer, &geom).into_iter().collect();
        let (lo, hi) = padded_tile_span(&geom, EXTENT);
        let mut one = BTreeMap::new();
        for y in lo.y..=hi.y {
            for x in lo.x..=hi.x {
                let tile = TileId::new(x, y);
                let piece = slice_tile_runs(EXTENT, buffer, &geom, tile);
                if !piece.is_empty() {
                    one.insert(tile, piece);
                }
            }
        }
        assert_eq!(all, one, "batch and per-tile slicing disagree (buffer {buffer})");
        assert!(all.len() > 100, "expected the big geometry to touch many tiles");
    }
}

#[test]
fn big_config_tile_counts() {
    let geom = vec![big_polyline()];
    for (name, extent) in [("multi", EXTENT), ("few", 300), ("single", 1024)] {
        let n = slice_all_runs(extent, 0, &geom).len();
        match name {
            "single" => assert_eq!(n, 1),
            "few" => assert_eq!(n, 4),
            _ => assert!(n > 100, "`multi` should produce many tiles, got {n}"),
        }
    }
}

#[test]
fn crossing_keeps_first_outside_vertex() {
    // A line from tile (0,0) into tile (1,0): each tile keeps the whole segment, localized.
    let line = vec![Coord::new(5, 5), Coord::new(30, 10), Coord::new(45, 10)];
    let tiles = slice_all_runs(25, 0, &[line]);
    assert_eq!(
        tiles,
        vec![
            (TileId::new(0, 0), vec![vec![Coord::new(5, 5), Coord::new(30, 10)]]),
            (
                TileId::new(1, 0),
                vec![vec![Coord::new(-20, 5), Coord::new(5, 10), Coord::new(20, 10)]]
            ),
        ]
    );
}

#[test]
fn segment_merely_crossing_a_tile_is_kept_there() {
    // A diagonal from (20, 0) to (30, 40) passes through tile (0,1) without a vertex in it.
    let line = vec![Coord::new(20, 0), Coord::new(30, 40)];
    let tiles = slice_all_runs(25, 0, &[line]);
    let ids: Vec<TileId> = tiles.iter().map(|(t, _)| *t).collect();
    assert!(ids.contains(&TileId::new(0, 1)) || ids.contains(&TileId::new(1, 0)));
    for (t, runs) in &tiles {
        assert_eq!(runs.len(), 1, "tile {t:?}");
        assert_eq!(runs[0].len(), 2, "tile {t:?}");
    }
}

#[test]
fn duplicate_vertices_do_not_change_slicing() {
    let line = big_polyline();
    let duped: Vec<Coord> = line.iter().flat_map(|&c| [c, c]).collect();
    for buffer in [0u16, 5] {
        assert_eq!(
            slice_all_runs(EXTENT, buffer, &[line.clone()]),
            slice_all_runs(EXTENT, buffer, &[duped.clone()])
        );
    }
}

#[test]
fn buffer_duplicates_near_edge_vertices() {
    // With a 3-unit buffer, a vertex 2 units past tile (0,0)'s right edge is inside its box.
    let line = vec![Coord::new(26, 5), Coord::new(27, 20)];
    let tiles = slice_all_runs(25, 3, &[line.clone()]);
    let ids: Vec<TileId> = tiles.iter().map(|(t, _)| *t).collect();
    assert_eq!(ids, vec![TileId::new(0, 0), TileId::new(1, 0)]);
    assert_eq!(tiles[0].1, vec![vec![Coord::new(26, 5), Coord::new(27, 20)]]);
    assert_eq!(slice_all_runs(25, 0, &[line]).len(), 1);
}

#[test]
fn reentering_line_yields_two_runs_one_feature() {
    let mut s = SlicerOne::<Coord>::new(25, 0, TileId::new(0, 0)).expect("cfg");
    s.add_feature(&[
        Coord::new(8, 15),
        Coord::new(8, 40),
        Coord::new(13, 40),
        Coord::new(18, 40),
        Coord::new(18, 15),
    ])
    .expect("slice");
    assert_eq!(s.len(), 1);
    let feats = s.iter_features();
    let runs: Vec<Vec<Coord>> = feats[0].iter_polylines().into_iter().map(<[_]>::to_vec).collect();
    assert_eq!(
        runs,
        vec![
            vec![Coord::new(8, 15), Coord::new(8, 40)],
            vec![Coord::new(18, 40), Coord::new(18, 15)],
        ]
    );
}

#[test]
fn every_run_is_a_block_of_input_vertices() {
    // Each run, moved back to the global frame, is a stretch of consecutive input vertices, and
    // every input segment is kept by the tile owning its first vertex.
    let line = big_polyline();
    for buffer in [0u16, 5] {
        let tiles = slice_all_runs(EXTENT, buffer, &[line.clone()]);
        let mut kept_segments = std::collections::BTreeSet::new();
        for (t, runs) in &tiles {
            let o = t.origin(EXTENT).expect("origin fits");
            for run in runs {
                assert!(run.len() >= 2);
                let global: Vec<Coord> =
                    run.iter().map(|c| Coord::new(c.x + o.x, c.y + o.y)).collect();
                let start = (0..line.len())
                    .find(|&i| line[i..].starts_with(&global))
                    .expect("run is a block of the input");
                for j in start..start + global.len() - 1 {
                    kept_segments.insert(j);
                }
            }
        }
        assert_eq!(kept_segments.len(), line.len() - 1, "buffer {buffer}");
    }
}

#[test]
fn vertex_lands_in_its_own_cell() {
    // `-30` belongs to tile `-30.div_euclid(25) = -2` and sits at `-30 + 50 = 20` in its frame.
    let line = vec![Coord::new(-30, 60), Coord::new(-29, 61)];
    let tiles = slice_all_runs(25, 0, &[line]);
    assert_eq!(
        tiles,
        vec![(TileId::new(-2, 2), vec![vec![Coord::new(20, 10), Coord::new(21, 11)]])]
    );
}

#[test]
fn single_segment_excursion_stays_one_run() {
    // The line leaves tile (0,0) for one segment and comes straight back: both outside vertices are
    // kept, so it is one run there, and the all-tiles and single-tile slicers agree.
    let line = vec![Coord::new(5, 5), Coord::new(5, 15), Coord::new(6, 15), Coord::new(6, 5)];
    let tiles = slice_all_runs(10, 0, &[line.clone()]);
    assert_eq!(
        tiles,
        vec![
            (TileId::new(0, 0), vec![line.clone()]),
            (
                TileId::new(0, 1),
                vec![vec![Coord::new(5, -5), Coord::new(5, 5), Coord::new(6, 5), Coord::new(6, -5)]]
            ),
        ]
    );
    assert_eq!(slice_tile_runs(10, 0, &[line.clone()], TileId::new(0, 0)), vec![line]);
}
