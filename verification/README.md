# map-tile-toolkit

Clip integer polylines and polygon rings into per-tile pieces on an integer tile grid, keeping the
geometry's original vertices, and reassemble sliced tiles back into whole features. The library is
written in Verus: every function in `src/` carries a contract that Verus proves, and the library's
laws (what slicing, clipping and reassembling promise together) are stated and proved as proof
functions.

## Layout

- `src/vertex.rs`, `src/tile.rs`, `src/error.rs` — positions, vertices with payloads, tile ids,
  errors.
- `src/geom.rs` — exact integer orientation, ring orientation and point-in-ring.
- `src/clip_polyline.rs`, `src/grid.rs`, `src/blocks.rs` — the segment/box test, the per-tile
  clip and the one-pass router behind the slicers, with the exact error routing reports; a vertex
  is kept when a segment next to it touches the tile's box, and the runs kept there are exactly the
  maximal stretches of kept vertices.
- `src/slicer.rs` — `SlicerAll` (every tile a polyline reaches) and `SlicerOne` (one fixed tile);
  what a tile holds after a sequence of additions, and why a failed addition leaves no trace.
- `src/clip_polygon.rs`, `src/shell.rs`, `src/fill.rs`, `src/polygon_slicer.rs`,
  `src/polygon_fill.rs` — clipping polygon rings to a tile, closing them outside the tile's box;
  why the edges of a clipped ring that reach the box are exactly the input's edges that do, why a
  detour winds like the excursion it replaces, why every point of the box is inside the clipped
  ring exactly when it is inside the input ring, and so why the polygon slicer keeps a polygon's
  fill in the tile's box, and why every vertex the polygon slicer holds is an input vertex or a
  corner of the shell outside the tile's box.
- `src/stitch.rs`, `src/mosaic.rs`, `src/simple_path.rs`, `src/roundtrip.rs` — reassembling tiles
  into features (which depend only on the edges the tiles carry, so not on the order tiles are
  added in nor on how they were cut), and the laws tying slicing and reassembly together: the
  tiles a slicer holds never conflict in a mosaic (when no directed edge repeats with different
  vertices) and give back exactly the recorded polylines' directed edges.
- `tests/` — tests on concrete values, run against the compiled library.
- `app/` — conversions to and from `geo-types` and an error type with `thiserror`.

The slicers and the mosaic keep their well-formedness as a type invariant, so their public
methods ask nothing of the caller.
