//! Clip integer polylines and polygon rings into per-tile pieces on an integer tile grid, keeping
//! the geometry's original vertices, and reassemble tiles back into whole features.

mod vertex;
pub use vertex::{Coord, Measured, PolyVertex, Vertex};

mod error;
pub use error::TileError;

mod tile;
pub use tile::TileId;

// Exact integer geometry predicates (orientation, point-in-ring) shared across clipping and polygons.
mod geom;
pub use geom::{orient, point_in_ring, ring_orientation, Turn};

// Low-level per-tile polyline clipping used by the slicer.
mod clip_polyline;

// Low-level per-tile polygon-ring clipping (keep-original with synthetic clip-boundary corners).
mod clip_polygon;
pub use clip_polygon::{clip_ring, outcode};

// Which edges of a clipped ring can reach into the tile's box.
mod shell;

// Clipping a ring keeps its fill inside the tile's box.
mod fill;

// The stateless slicing engine shared by both slicers.
mod grid;

// Clipped runs are the polyline's maximal stretches of kept vertices.
mod blocks;

mod slicer;
pub use slicer::{FeatureView, SlicerAll, SlicerOne, TileView};

mod polygon_slicer;
pub use polygon_slicer::{PolyFeatureView, PolygonSlicerOne, RingView};

// A polygon slicer keeps a polygon's fill inside the tile's box.
mod polygon_fill;

// Re-chaining distinct directed edges into polylines.
mod stitch;

mod mosaic;
pub use mosaic::Mosaic;

// A mosaic over one simple path gives back that path whole.
mod simple_path;

// Slicing then reassembling gives back the input's edges.
mod roundtrip;
