//! Exact integer geometry predicates.

use map_tile_toolkit::{orient, point_in_ring, ring_orientation, Coord, Turn};

fn c(x: i32, y: i32) -> Coord {
    Coord::new(x, y)
}

#[test]
fn orient_basic_and_extremes() {
    assert_eq!(orient(c(0, 0), c(1, 0), c(0, 1)), Turn::CounterClockwise);
    assert_eq!(orient(c(0, 0), c(1, 0), c(0, -1)), Turn::Clockwise);
    assert_eq!(orient(c(0, 0), c(2, 2), c(1, 1)), Turn::Collinear);
    assert_eq!(
        orient(c(i32::MIN, i32::MIN), c(i32::MAX, i32::MIN), c(i32::MIN, i32::MAX)),
        Turn::CounterClockwise
    );
    assert_eq!(
        orient(c(i32::MIN, i32::MIN), c(i32::MAX, i32::MAX), c(i32::MIN + 1, i32::MIN + 1)),
        Turn::Collinear
    );
}

#[test]
fn ring_orientation_ccw_cw() {
    let ccw = [c(0, 0), c(4, 0), c(4, 4), c(0, 4), c(0, 0)];
    let cw = [c(0, 0), c(0, 4), c(4, 4), c(4, 0), c(0, 0)];
    assert_eq!(ring_orientation(&ccw), Turn::CounterClockwise);
    assert_eq!(ring_orientation(&cw), Turn::Clockwise);
    assert_eq!(ring_orientation(&ccw[..2]), Turn::Collinear);
}

#[test]
fn point_in_ring_square() {
    let sq = [c(0, 0), c(10, 0), c(10, 10), c(0, 10), c(0, 0)];
    assert!(point_in_ring(c(5, 5), &sq));
    assert!(!point_in_ring(c(15, 5), &sq));
    assert!(point_in_ring(c(0, 5), &sq));
    assert!(point_in_ring(c(10, 10), &sq));
    assert!(!point_in_ring(c(-1, 5), &sq));
}

#[test]
fn point_in_ring_concave() {
    let c_shape = [
        c(0, 0),
        c(10, 0),
        c(10, 3),
        c(3, 3),
        c(3, 7),
        c(10, 7),
        c(10, 10),
        c(0, 10),
        c(0, 0),
    ];
    assert!(point_in_ring(c(1, 5), &c_shape));
    assert!(!point_in_ring(c(6, 5), &c_shape));
    assert!(point_in_ring(c(6, 1), &c_shape));
}

#[test]
fn point_in_open_ring_matches_closed() {
    let open = [c(0, 0), c(10, 0), c(10, 10), c(0, 10)];
    assert!(point_in_ring(c(5, 5), &open));
    assert!(!point_in_ring(c(11, 5), &open));
    assert!(!point_in_ring(c(5, 5), &open[..2]), "fewer than three vertices is no ring");
}
