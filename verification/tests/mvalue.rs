//! Slicing over a vertex that carries an M value: the payload rides through untouched and the
//! positions match the plain `Coord` path.

use std::collections::BTreeMap;

use map_tile_toolkit::{Coord, Measured, SlicerAll, TileId, Vertex};

/// Slice one polyline into every tile it touches (as a single feature), each tile's runs flattened.
fn slice_all_runs<V: Vertex + std::fmt::Debug>(poly: &[V]) -> BTreeMap<TileId, Vec<Vec<V>>> {
    let mut acc = SlicerAll::<V>::new(10, 0).expect("valid config");
    acc.add_feature(poly).expect("slice");
    acc.iter_tiles()
        .iter()
        .map(|t| {
            let runs = t
                .iter_features()
                .iter()
                .flat_map(|f| f.iter_polylines().into_iter().map(<[_]>::to_vec))
                .collect();
            (t.id(), runs)
        })
        .collect()
}

/// A vertical polyline crossing two tile borders, each vertex tagged with a distinct M value.
fn measured_line() -> Vec<Measured<u32>> {
    vec![Measured::new(5, 5, 10), Measured::new(5, 15, 20), Measured::new(5, 25, 30)]
}

#[test]
fn slice_all_preserves_m_and_localizes_position() {
    let tiles = slice_all_runs(&measured_line());
    assert_eq!(
        tiles[&TileId::new(0, 1)],
        vec![vec![Measured::new(5, -5, 10), Measured::new(5, 5, 20), Measured::new(5, 15, 30)]]
    );
}

#[test]
fn positions_match_the_coord_path() {
    let plain = vec![Coord::new(5, 5), Coord::new(5, 15), Coord::new(5, 25)];
    let m_positions: BTreeMap<TileId, Vec<Vec<Coord>>> = slice_all_runs(&measured_line())
        .into_iter()
        .map(|(t, runs)| {
            let runs = runs.iter().map(|r| r.iter().map(|v| v.position).collect()).collect();
            (t, runs)
        })
        .collect();
    let coord_tiles = slice_all_runs(&plain);
    assert_eq!(m_positions, coord_tiles, "M-vertex positions must match the Coord path");
}
