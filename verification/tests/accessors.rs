//! Config/size getters and `TileId` conversions.

use map_tile_toolkit::{Coord, Mosaic, SlicerAll, SlicerOne, TileId};

#[test]
fn slicer_all_reports_its_config() {
    let s = SlicerAll::<Coord>::new(25, 4).expect("valid config");
    assert_eq!(s.extent(), 25);
    assert_eq!(s.buffer(), 4);
}

#[test]
fn slicer_one_reports_its_config() {
    let s = SlicerOne::<Coord>::new(25, 4, TileId::new(2, 3)).expect("valid config");
    assert_eq!(s.extent(), 25);
    assert_eq!(s.buffer(), 4);
    assert_eq!(s.tile(), TileId::new(2, 3));
    assert_eq!(s.len(), 0);
    assert!(s.is_empty());
}

#[test]
fn mosaic_reports_its_extent() {
    let m = Mosaic::<Coord>::new(4096).expect("valid config");
    assert_eq!(m.extent(), 4096);
}

#[test]
fn tile_id_from_tuple() {
    assert_eq!(TileId::from((3, -7)), TileId::new(3, -7));
}

#[test]
fn tile_origin_is_tile_times_extent() {
    assert_eq!(TileId::new(2, -3).origin(25), Some(Coord::new(50, -75)));
    assert_eq!(TileId::new(i32::MAX, 0).origin(2), None);
    assert_eq!(TileId::new(0, i32::MIN).origin(1), Some(Coord::new(0, i32::MIN)));
}
