//! Tests for the pattern registry and the area-fill engine.

use tiling::fixed::UNIT;
use tiling::{Color, Error, Model, Shape};

fn scale(px_per_unit: i64) -> i64 {
    px_per_unit * UNIT
}

fn units(v: i64) -> f64 {
    v as f64 / UNIT as f64
}

fn stroke() -> Color {
    Color::new(242, 60, 60).unwrap()
}

fn fill_hexagon() -> Color {
    Color::new(242, 194, 106).unwrap()
}

fn fill_square() -> Color {
    Color::new(23, 216, 146).unwrap()
}

#[test]
fn add_records_shape_and_lookup_entry() {
    let mut model = Model::new(1024, 1024, scale(128));
    assert_eq!(model.tiles().len(), 0);
    let hex = Shape::new(6, fill_hexagon(), stroke()).unwrap();
    model.add(hex);
    let tiles = model.tiles();
    assert_eq!(tiles.len(), 1);
    assert_eq!(tiles[0].sides(), 6);
}

#[test]
fn add_overwrites_same_lattice_point() {
    let mut model = Model::new(1024, 1024, scale(128));
    model.add(Shape::new(6, fill_hexagon(), stroke()).unwrap());
    model.add(Shape::new(4, fill_square(), stroke()).unwrap());
    // Both shapes sit at the origin: one lookup entry, the later shape wins.
    let tiles = model.tiles();
    assert_eq!(tiles.len(), 1);
    assert_eq!(tiles[0].sides(), 4);
}

#[test]
fn add_multi_attaches_six_squares_to_hexagon() {
    // addMulti(0..1, 0..6, square) on a registry holding one hexagon
    // yields exactly 6 new shapes and a handle range of length 6.
    let mut model = Model::new(1024, 1024, scale(128));
    model.add(Shape::new(6, fill_hexagon(), stroke()).unwrap());
    let rg = model.add_multi(0..1, 0..6, Shape::new(4, fill_square(), stroke()).unwrap()).unwrap();
    assert_eq!(rg, 1..7);
    assert_eq!(rg.len(), 6);
    // One hexagon plus six squares materialized at distinct points.
    assert_eq!(model.tiles().len(), 7);
}

#[test]
fn add_multi_reports_bad_index() {
    let mut model = Model::new(1024, 1024, scale(128));
    model.add(Shape::new(6, fill_hexagon(), stroke()).unwrap());
    match model.add_multi(3..4, 0..6, Shape::new(4, fill_square(), stroke()).unwrap()) {
        Err(Error::OutOfBounds { index, length, name }) => {
            assert_eq!(index, 3);
            assert_eq!(length, 1);
            assert_eq!(name, "model shapes");
        },
        other => panic!("expected bounds error, got {:?}", other),
    }
}

#[test]
fn add_multi_reports_bad_edge() {
    let mut model = Model::new(1024, 1024, scale(128));
    model.add(Shape::new(4, fill_square(), stroke()).unwrap());
    match model.add_multi(0..1, 0..6, Shape::new(3, fill_square(), stroke()).unwrap()) {
        Err(Error::OutOfBounds { index, length, name }) => {
            // The square has four edges; edge 4 is the first to fail.
            assert_eq!(index, 4);
            assert_eq!(length, 4);
            assert_eq!(name, "shape edges");
        },
        other => panic!("expected bounds error, got {:?}", other),
    }
}

#[test]
fn add_multi_empty_ranges_add_nothing() {
    let mut model = Model::new(1024, 1024, scale(128));
    model.add(Shape::new(6, fill_hexagon(), stroke()).unwrap());
    let rg = model.add_multi(0..0, 0..6, Shape::new(4, fill_square(), stroke()).unwrap()).unwrap();
    assert_eq!(rg, 1..1);
    let rg2 = model.add_multi(0..1, 3..3, Shape::new(4, fill_square(), stroke()).unwrap()).unwrap();
    assert_eq!(rg2, 1..1);
}

#[test]
fn square_lands_on_hexagon_edge_midpoint_offset() {
    // End to end: viewing area 1024x1024 at scale 128; one hexagon at the
    // origin; a square attached to edge 0.  The square's center equals the
    // hexagon's edge-0 midpoint offset by 0.5/tan(pi/4) along the outward
    // perpendicular, within 1e-6.
    let mut model = Model::new(1024, 1024, scale(128));
    model.add(Shape::new(6, fill_hexagon(), stroke()).unwrap());
    let rg = model.add_multi(0..1, 0..1, Shape::new(4, fill_square(), stroke()).unwrap()).unwrap();
    assert_eq!(rg, 1..2);
    let tiles = model.tiles();
    assert_eq!(tiles.len(), 2);
    let sq = tiles[1];
    assert_eq!(sq.sides(), 4);

    // Hexagon edge 0 endpoints in real units.
    let p0 = (0.0f64, -1.0f64);
    let p1 = (0.866025403784f64, -0.5f64);
    let mid = ((p0.0 + p1.0) / 2.0, (p0.1 + p1.1) / 2.0);
    let a = (p1.1 - p0.1).atan2(p1.0 - p0.0);
    let b = a - std::f64::consts::PI / 2.0;
    let d = 0.5 / (std::f64::consts::PI / 4.0).tan();
    let expected = (mid.0 + b.cos() * d, mid.1 + b.sin() * d);
    assert!((units(sq.point().x) - expected.0).abs() < 1e-6);
    assert!((units(sq.point().y) - expected.1).abs() < 1e-6);
}

#[test]
fn repeat_fills_viewing_area_and_is_idempotent() {
    // A hexagon ringed by hexagons; the outer ring defines the repeating
    // offsets.  After one fill the registry is stable: a second fill adds
    // zero new points.
    let mut model = Model::new(256, 256, scale(64));
    let hex = Shape::new(6, fill_hexagon(), stroke()).unwrap();
    model.add(hex);
    let ring = model.add_multi(0..1, 0..6, hex).unwrap();
    assert_eq!(ring, 1..7);
    model.repeat(ring.clone()).unwrap();
    let filled = model.tiles().len();
    assert!(filled > 7, "fill should materialize beyond the pattern");
    model.repeat(ring).unwrap();
    assert_eq!(model.tiles().len(), filled, "second fill must add nothing");
}

#[test]
fn repeat_reports_bad_index() {
    let mut model = Model::new(1024, 1024, scale(128));
    model.add(Shape::new(6, fill_hexagon(), stroke()).unwrap());
    match model.repeat(0..5) {
        Err(Error::OutOfBounds { index, length, name }) => {
            assert_eq!(index, 1);
            assert_eq!(length, 1);
            assert_eq!(name, "model shapes");
        },
        other => panic!("expected bounds error, got {:?}", other),
    }
}

#[test]
fn repeat_gives_up_on_degenerate_pattern() {
    // A single shape at the origin has a zero offset: the walk can never
    // cover the corners, and the engine stops at its depth ceiling.
    let mut model = Model::new(64, 64, scale(64));
    model.add(Shape::new(6, fill_hexagon(), stroke()).unwrap());
    match model.repeat(0..1) {
        Err(Error::OutOfBounds { name, .. }) => {
            assert_eq!(name, "fill depth");
        },
        other => panic!("expected the depth safeguard, got {:?}", other),
    }
}
