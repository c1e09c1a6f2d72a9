//! Tests for dual-tiling extraction and the inset outline.

use tiling::fixed::UNIT;
use tiling::{Color, Dual, Model, Point, Polygon, Shape};

fn scale(px_per_unit: i64) -> i64 {
    px_per_unit * UNIT
}

fn ticks(v: f64) -> i64 {
    (v * UNIT as f64).round() as i64
}

fn units(v: i64) -> f64 {
    v as f64 / UNIT as f64
}

fn stroke() -> Color {
    Color::new(242, 60, 60).unwrap()
}

fn fill_hexagon() -> Color {
    Color::new(242, 194, 106).unwrap()
}

fn fill_dual() -> Color {
    Color::new(23, 216, 146).unwrap()
}

/// A filled hexagonal tiling: exactly three hexagons meet at every
/// interior vertex.
fn hexagon_tiling() -> Model {
    let mut model = Model::new(256, 256, scale(64));
    let hex = Shape::new(6, fill_hexagon(), stroke()).unwrap();
    model.add(hex);
    let ring = model.add_multi(0..1, 0..6, hex).unwrap();
    model.repeat(ring).unwrap();
    model
}

#[test]
fn dual_of_hexagon_tiling_has_triangles() {
    // Three polygons meet at every interior vertex, so every dual polygon
    // closes after exactly 3 centers: 4 points with the repeated closer.
    let model = hexagon_tiling();
    let duals = model.dual(fill_dual(), stroke()).unwrap();
    assert!(!duals.is_empty(), "interior vertices must produce duals");
    for d in &duals {
        let ps = d.points(0).unwrap();
        assert_eq!(ps.len(), 4);
        assert!(ps[0] == ps[3]);
    }
}

#[test]
fn dual_centers_are_tile_centers() {
    let model = hexagon_tiling();
    let tiles = model.tiles();
    let duals = model.dual(fill_dual(), stroke()).unwrap();
    for d in &duals {
        let ps = d.points(0).unwrap();
        for p in &ps[..ps.len() - 1] {
            assert!(
                tiles.iter().any(|t| t.point() == *p),
                "dual corner must be a tile center"
            );
        }
    }
}

#[test]
fn dual_ring_is_angularly_ordered() {
    // Consecutive centers of a dual triangle wind consistently: the cross
    // product around the ring centroid keeps one sign.
    let model = hexagon_tiling();
    let duals = model.dual(fill_dual(), stroke()).unwrap();
    for d in &duals {
        let ps = d.points(0).unwrap();
        let n = ps.len() - 1;
        let cx = ps[..n].iter().map(|p| units(p.x)).sum::<f64>() / n as f64;
        let cy = ps[..n].iter().map(|p| units(p.y)).sum::<f64>() / n as f64;
        let mut sign = 0.0f64;
        for t in 0..n {
            let a = (units(ps[t].x) - cx, units(ps[t].y) - cy);
            let b = (units(ps[(t + 1) % n].x) - cx, units(ps[(t + 1) % n].y) - cy);
            let cross = a.0 * b.1 - a.1 * b.0;
            if sign == 0.0 {
                sign = cross.signum();
            } else {
                assert!(cross.signum() == sign, "winding flips inside one dual ring");
            }
        }
    }
}

#[test]
fn dual_points_zero_margin_returns_ring() {
    let ring = vec![
        Point { x: 0, y: 0 },
        Point { x: ticks(1.0), y: 0 },
        Point { x: ticks(1.0), y: ticks(1.0) },
        Point { x: 0, y: ticks(1.0) },
        Point { x: 0, y: 0 },
    ];
    let d = Dual::new(ring.clone(), fill_dual(), stroke());
    let ps = d.points(0).unwrap();
    assert_eq!(ps.len(), 5);
    for (a, b) in ps.iter().zip(ring.iter()) {
        assert_eq!(a.x, b.x);
        assert_eq!(a.y, b.y);
    }
}

#[test]
fn inset_square_corner_matches_closed_form() {
    // For the unit square listed counterclockwise, each edge is offset to
    // the right of its direction, so the corner (1, 0) moves to
    // (1 + m, -m).
    let ring = vec![
        Point { x: 0, y: 0 },
        Point { x: ticks(1.0), y: 0 },
        Point { x: ticks(1.0), y: ticks(1.0) },
        Point { x: 0, y: ticks(1.0) },
        Point { x: 0, y: 0 },
    ];
    let m = 0.125f64;
    let d = Dual::new(ring, fill_dual(), stroke());
    let ps = d.points(ticks(m)).unwrap();
    assert_eq!(ps.len(), 5);
    assert!(ps[0] == ps[4]);
    // Corner order follows the ring: ps[1] replaces (1, 0).
    assert!((units(ps[1].x) - (1.0 + m)).abs() < 1e-4);
    assert!((units(ps[1].y) - (-m)).abs() < 1e-4);
}
