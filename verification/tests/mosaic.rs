//! [`Mosaic`] reassembles sliced tiles back into whole features.

use std::collections::HashSet;

use map_tile_toolkit::{Coord, Measured, Mosaic, SlicerAll, TileError, TileId};

/// A polyline of plain `Coord`s.
fn line(coords: &[(i32, i32)]) -> Vec<Coord> {
    coords.iter().map(|&(x, y)| Coord::new(x, y)).collect()
}

/// Directed-edge set of a run list, skipping zero-length edges.
fn edge_set(runs: &[Vec<Coord>]) -> HashSet<(Coord, Coord)> {
    let mut set = HashSet::new();
    for run in runs {
        for w in run.windows(2) {
            if w[0] != w[1] {
                set.insert((w[0], w[1]));
            }
        }
    }
    set
}

/// Slice `polylines` (each its own feature) into per-tile runs, local frame.
fn slice_all_runs(extent: u32, buffer: u16, polylines: &[Vec<Coord>]) -> Vec<(TileId, Vec<Vec<Coord>>)> {
    let mut acc = SlicerAll::<Coord>::new(extent, buffer).expect("valid config");
    for l in polylines {
        acc.add_feature(l).expect("slice");
    }
    acc.iter_tiles()
        .iter()
        .map(|t| {
            let runs: Vec<Vec<Coord>> = t
                .iter_features()
                .iter()
                .flat_map(|f| f.iter_polylines().into_iter().map(<[_]>::to_vec))
                .collect();
            (t.tile_id(), runs)
        })
        .collect()
}

/// A serpentine polyline over many tiles.
fn serpentine() -> Vec<Coord> {
    let mut coords = Vec::new();
    for r in 0..8 {
        for k in 0..=12 {
            let x = if r % 2 == 0 { k * 7 } else { (12 - k) * 7 };
            coords.push(Coord::new(x, r * 9 + (k * 3) % 5));
        }
    }
    coords
}

#[test]
fn invalid_extent_is_rejected() {
    assert_eq!(Mosaic::<Coord>::new(0).err(), Some(TileError::InvalidExtent));
    assert_eq!(Mosaic::<Coord>::new(u32::MAX).err(), Some(TileError::InvalidExtent));
}

#[test]
fn far_tile_overflows_instead_of_panicking() {
    let mut mosaic = Mosaic::new(4096).expect("valid config");
    let run = vec![Coord::new(0, 0), Coord::new(1, 0)];
    let bad = mosaic.add(TileId::new(i32::MAX, 0), &[run]);
    assert_eq!(bad, Err(TileError::Overflow));
    assert!(mosaic.is_empty(), "an overflowing add changes nothing");
}

#[test]
fn mosaic_purge_and_clear_manage_tiles() {
    let mut mosaic = Mosaic::new(25).expect("valid config");
    assert!(mosaic.is_empty());
    mosaic.add(TileId::new(0, 0), &[line(&[(1, 1), (10, 10)])]).expect("tile 0");
    mosaic.add(TileId::new(5, 5), &[line(&[(3, 3), (12, 12)])]).expect("tile 5");
    assert_eq!(mosaic.len(), 2);
    assert!(mosaic.contains(TileId::new(0, 0)));
    assert!(!mosaic.contains(TileId::new(9, 9)));

    assert!(mosaic.purge(TileId::new(0, 0)));
    assert!(!mosaic.contains(TileId::new(0, 0)));
    assert!(mosaic.contains(TileId::new(5, 5)));
    assert_eq!(mosaic.len(), 1);
    assert!(!mosaic.purge(TileId::new(0, 0)), "purging an absent tile is a no-op");

    mosaic.clear();
    assert!(mosaic.is_empty());
    assert_eq!(mosaic.len(), 0);
}

#[test]
fn purge_keeps_edges_other_tiles_still_hold() {
    let mut mosaic = Mosaic::new(25).expect("valid config");
    mosaic.add(TileId::new(0, 0), &[line(&[(20, 5), (30, 5)])]).expect("tile 0");
    mosaic.add(TileId::new(1, 0), &[line(&[(-5, 5), (5, 5)])]).expect("tile 1");

    assert!(mosaic.purge(TileId::new(1, 0)));
    let feats: Vec<Vec<Coord>> = mosaic.iter_features();
    assert_eq!(feats, vec![line(&[(20, 5), (30, 5)])], "the shared edge survives");

    assert!(mosaic.purge(TileId::new(0, 0)));
    assert!(mosaic.is_empty());
}

#[test]
fn sliced_tiles_reassemble_in_any_order() {
    let polylines = vec![serpentine(), line(&[(3, 70), (40, 3), (80, 60)])];
    for buffer in [0u16, 5] {
        let tiles = slice_all_runs(25, buffer, &polylines);
        assert!(tiles.len() > 4);
        let mut canonical: Option<Vec<Vec<Coord>>> = None;
        let orders: Vec<Vec<usize>> = vec![
            (0..tiles.len()).collect(),
            (0..tiles.len()).rev().collect(),
            (0..tiles.len()).map(|i| (i + tiles.len() / 2) % tiles.len()).collect(),
        ];
        for order in orders {
            let mut mosaic = Mosaic::new(25).expect("valid config");
            for &i in &order {
                let (tile, runs) = &tiles[i];
                mosaic.add(*tile, runs).expect("a slicer's own tiles never conflict");
            }
            let features = mosaic.iter_features();
            match &canonical {
                None => canonical = Some(features),
                Some(first) => {
                    let a: HashSet<_> = edge_set(&features);
                    let b: HashSet<_> = edge_set(first);
                    assert_eq!(a, b);
                },
            }
        }
        let features = canonical.expect("one order");
        assert_eq!(edge_set(&features), edge_set(&polylines), "buffer {buffer}");
    }
}

#[test]
fn spanning_line_not_corroborated_conflicts() {
    // Tile (0,0) claims a segment ending in tile (1,0)'s cell; tile (1,0) carries other geometry
    // and lacks that segment, so the second add is rejected and the mosaic is unchanged.
    let mut mosaic = Mosaic::new(25).expect("valid config");
    mosaic.add(TileId::new(0, 0), &[line(&[(10, 10), (30, 10)])]).expect("tile 0");
    let before = mosaic.iter_features();
    let r = mosaic.add(TileId::new(1, 0), &[line(&[(2, 20), (8, 20)])]);
    assert_eq!(r, Err(TileError::Conflict(vec![TileId::new(0, 0)])));
    assert_eq!(mosaic.len(), 1);
    assert_eq!(mosaic.iter_features(), before);
}

#[test]
fn payload_disagreement_conflicts() {
    let mut mosaic = Mosaic::new(10).expect("valid config");
    mosaic
        .add(TileId::new(0, 0), &[vec![Measured::new(5, 5, 1u32), Measured::new(15, 5, 2)]])
        .expect("tile 0");
    // The same border segment seen from tile (1,0) with a different payload on one end.
    let r = mosaic.add(TileId::new(1, 0), &[vec![Measured::new(-5, 5, 1u32), Measured::new(5, 5, 3)]]);
    assert_eq!(r, Err(TileError::Conflict(vec![TileId::new(0, 0)])));
    // With the matching payload it is accepted.
    mosaic
        .add(TileId::new(1, 0), &[vec![Measured::new(-5, 5, 1u32), Measured::new(5, 5, 2)]])
        .expect("consistent");
    assert_eq!(mosaic.len(), 2);
    assert_eq!(
        mosaic.iter_features(),
        vec![vec![Measured::new(5, 5, 1u32), Measured::new(15, 5, 2)]]
    );
}

#[test]
fn readding_a_tile_replaces_it() {
    let mut mosaic = Mosaic::new(25).expect("valid config");
    mosaic.add(TileId::new(0, 0), &[line(&[(1, 1), (5, 5)])]).expect("first");
    mosaic.add(TileId::new(0, 0), &[line(&[(2, 2), (6, 2)])]).expect("replace");
    assert_eq!(mosaic.iter_features(), vec![line(&[(2, 2), (6, 2)])]);
    // A tile with no edge drops out.
    mosaic.add(TileId::new(0, 0), &[line(&[(3, 3)])]).expect("empty");
    assert!(mosaic.is_empty());
}

#[test]
fn stitch_rejoins_chains_and_loops() {
    let mut mosaic = Mosaic::new(100).expect("valid config");
    // A path split in two runs, plus a closed triangle, all in one tile.
    mosaic
        .add(
            TileId::new(0, 0),
            &[
                line(&[(1, 1), (2, 1), (3, 1)]),
                line(&[(3, 1), (4, 1)]),
                line(&[(10, 10), (20, 10), (15, 20), (10, 10)]),
            ],
        )
        .expect("one tile");
    assert_eq!(
        mosaic.iter_features(),
        vec![
            line(&[(1, 1), (2, 1), (3, 1), (4, 1)]),
            line(&[(10, 10), (20, 10), (15, 20), (10, 10)]),
        ]
    );
}

#[test]
fn disagreement_is_found_in_either_order() {
    let a = (TileId::new(0, 0), vec![line(&[(10, 10), (30, 10)])]);
    let b = (TileId::new(1, 0), vec![line(&[(2, 20), (8, 20)])]);
    for (first, second) in [(&a, &b), (&b, &a)] {
        let mut mosaic = Mosaic::new(25).expect("valid config");
        mosaic.add(first.0, &first.1).expect("first tile");
        assert_eq!(mosaic.add(second.0, &second.1), Err(TileError::Conflict(vec![first.0])));
        assert!(mosaic.contains(first.0) && !mosaic.contains(second.0));
    }
}

#[test]
fn simple_polyline_reassembles_whole() {
    let input = line(&[(3, 70), (40, 3), (80, 60), (120, 61)]);
    for buffer in [0u16, 5] {
        let tiles = slice_all_runs(25, buffer, &[input.clone()]);
        assert!(tiles.len() > 3);
        for order in [(0..tiles.len()).collect::<Vec<_>>(), (0..tiles.len()).rev().collect()] {
            let mut mosaic = Mosaic::new(25).expect("valid config");
            for &i in &order {
                mosaic.add(tiles[i].0, &tiles[i].1).expect("consistent");
            }
            assert_eq!(mosaic.iter_features(), vec![input.clone()], "buffer {buffer}");
        }
    }
}

#[test]
fn insertion_order_and_buffer_do_not_change_features() {
    let polylines = vec![serpentine(), line(&[(3, 70), (40, 3), (80, 60)])];
    let mut seen: Option<Vec<Vec<Coord>>> = None;
    for buffer in [0u16, 5] {
        let tiles = slice_all_runs(25, buffer, &polylines);
        let orders: Vec<Vec<usize>> = vec![
            (0..tiles.len()).collect(),
            (0..tiles.len()).rev().collect(),
            (0..tiles.len()).map(|i| (i + tiles.len() / 3) % tiles.len()).collect(),
        ];
        for order in orders {
            let mut mosaic = Mosaic::new(25).expect("valid config");
            for &i in &order {
                let (tile, runs) = &tiles[i];
                mosaic.add(*tile, runs).expect("a slicer's own tiles never conflict");
            }
            let features = mosaic.iter_features();
            match &seen {
                None => seen = Some(features),
                Some(first) => assert_eq!(&features, first, "buffer {buffer}"),
            }
        }
    }
}

#[test]
fn position_disagreement_conflicts_for_float_payloads() {
    // Tile (0,0) claims a segment ending in tile (1,0)'s cell; tile (1,0) lacks it. Positions alone
    // decide this, whatever the payload type.
    let mut mosaic: Mosaic<Measured<f64>> = Mosaic::new(25).expect("valid config");
    mosaic
        .add(TileId::new(0, 0), &[vec![Measured::new(10, 10, 0.5), Measured::new(30, 10, 0.5)]])
        .expect("tile 0");
    let r = mosaic.add(TileId::new(1, 0), &[vec![Measured::new(2, 20, 1.0), Measured::new(8, 20, 1.0)]]);
    assert_eq!(r, Err(TileError::Conflict(vec![TileId::new(0, 0)])));
    assert_eq!(mosaic.len(), 1);
}
