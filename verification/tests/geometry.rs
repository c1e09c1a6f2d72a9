//! Tests for points, quantized equality, and regular-polygon geometry.

use tiling::fixed::{SIDES_MAX, UNIT};
use tiling::{Color, Error, Point, Polygon, Shape};

fn units(v: i64) -> f64 {
    v as f64 / UNIT as f64
}

fn ticks(v: f64) -> i64 {
    (v * UNIT as f64).round() as i64
}

fn stroke() -> Color {
    Color::new(242, 60, 60).unwrap()
}

fn fill() -> Color {
    Color::new(242, 194, 106).unwrap()
}

#[test]
fn color_components_are_kept() {
    let c = Color::new(1, 128, 255).unwrap();
    assert_eq!(c.red(), 1);
    assert_eq!(c.green(), 128);
    assert_eq!(c.blue(), 255);
}

#[test]
fn color_rejects_out_of_range_components() {
    assert!(matches!(Color::new(-1, 0, 0), Err(Error::InvalidColor)));
    assert!(matches!(Color::new(0, 256, 0), Err(Error::InvalidColor)));
    assert!(matches!(Color::new(0, 0, 999), Err(Error::InvalidColor)));
    assert!(Color::new(0, 0, 0).is_ok());
    assert!(Color::new(255, 255, 255).is_ok());
}

#[test]
fn quantized_point_equality() {
    // (1.0000001, 2.0) equals (1.0, 2.0); (1.00001, 2.0) does not.
    let a = Point { x: ticks(1.0000001), y: ticks(2.0) };
    let b = Point { x: ticks(1.0), y: ticks(2.0) };
    let c = Point { x: ticks(1.00001), y: ticks(2.0) };
    assert!(a == b);
    assert!(c != b);
    assert!(a != c);
}

#[test]
fn quantized_equality_near_zero() {
    let a = Point { x: ticks(-0.0000001), y: 0 };
    let b = Point { x: 0, y: 0 };
    assert!(a == b);
}

#[test]
fn point_translation_adds_coordinates() {
    let a = Point { x: ticks(1.5), y: ticks(-2.0) };
    let b = Point { x: ticks(0.25), y: ticks(4.0) };
    let c = a.translate(b);
    assert_eq!(c.x, ticks(1.75));
    assert_eq!(c.y, ticks(2.0));
    let o = Point::origin();
    assert_eq!(o.x, 0);
    assert_eq!(o.y, 0);
}

#[test]
fn shape_new_validates_sides() {
    assert!(matches!(Shape::new(2, fill(), stroke()), Err(Error::InvalidShape)));
    assert!(matches!(Shape::new(-5, fill(), stroke()), Err(Error::InvalidShape)));
    assert!(matches!(Shape::new(SIDES_MAX + 1, fill(), stroke()), Err(Error::InvalidShape)));
    let s = Shape::new(3, fill(), stroke()).unwrap();
    assert_eq!(s.sides(), 3);
    assert_eq!(s.rotation(), 0);
    assert_eq!(s.point().x, 0);
    assert_eq!(s.point().y, 0);
    assert_eq!(s.fill().red(), fill().red());
    assert_eq!(s.stroke().blue(), stroke().blue());
}

#[test]
fn vertex_ring_closes_for_every_side_count() {
    // n + 1 points, first equal to last under quantized comparison.
    for n in [3, 4, 5, 6, 7, 12, 100] {
        let s = Shape::new(n, fill(), stroke()).unwrap();
        let ps = s.points(0).unwrap();
        assert_eq!(ps.len(), n as usize + 1);
        assert!(ps[0] == ps[n as usize]);
        assert_eq!(ps[0].x, ps[n as usize].x);
        assert_eq!(ps[0].y, ps[n as usize].y);
    }
}

#[test]
fn hexagon_vertices_match_closed_form() {
    // Circumradius 0.5 / sin(pi/6) = 1; first vertex straight down.
    let s = Shape::new(6, fill(), stroke()).unwrap();
    let ps = s.points(0).unwrap();
    let expected = [
        (0.0, -1.0),
        (0.866025403784, -0.5),
        (0.866025403784, 0.5),
        (0.0, 1.0),
        (-0.866025403784, 0.5),
        (-0.866025403784, -0.5),
        (0.0, -1.0),
    ];
    for (p, (ex, ey)) in ps.iter().zip(expected.iter()) {
        assert!((units(p.x) - ex).abs() < 1e-6, "x {} vs {}", units(p.x), ex);
        assert!((units(p.y) - ey).abs() < 1e-6, "y {} vs {}", units(p.y), ey);
    }
}

#[test]
fn square_vertices_match_closed_form() {
    // Circumradius 0.5 / sin(pi/4) = sqrt(0.5).
    let s = Shape::new(4, fill(), stroke()).unwrap();
    let ps = s.points(0).unwrap();
    let r = 0.5f64.sqrt();
    let expected = [(0.0, -r), (r, 0.0), (0.0, r), (-r, 0.0), (0.0, -r)];
    for (p, (ex, ey)) in ps.iter().zip(expected.iter()) {
        assert!((units(p.x) - ex).abs() < 1e-6);
        assert!((units(p.y) - ey).abs() < 1e-6);
    }
}

#[test]
fn margin_insets_the_ring() {
    // With margin m the radial distance becomes 0.5/sin(pi/n) - m/cos(pi/n).
    let s = Shape::new(4, fill(), stroke()).unwrap();
    let m = 0.1f64;
    let ps = s.points(ticks(m)).unwrap();
    let rad = 0.5 / (std::f64::consts::PI / 4.0).sin() - m / (std::f64::consts::PI / 4.0).cos();
    assert!((units(ps[0].x) - 0.0).abs() < 1e-6);
    assert!((units(ps[0].y) + rad).abs() < 1e-6);
}

#[test]
fn adjacent_square_shares_hexagon_edge() {
    // Attaching a 4-sided polygon to edge 0 of a 6-sided polygon produces a
    // polygon with a coinciding edge, within 1e-6 per coordinate.
    let hex = Shape::new(6, fill(), stroke()).unwrap();
    let hex_ps = hex.points(0).unwrap();
    let (h0, h1) = (hex_ps[0], hex_ps[1]);
    let sq = hex.adjacent(4, 0, fill(), stroke()).unwrap();
    assert_eq!(sq.sides(), 4);
    let sq_ps = sq.points(0).unwrap();
    let mut found = false;
    for e in 0..4 {
        let (a, b) = (sq_ps[e], sq_ps[e + 1]);
        let fwd = (units(a.x) - units(h0.x)).abs() < 1e-6
            && (units(a.y) - units(h0.y)).abs() < 1e-6
            && (units(b.x) - units(h1.x)).abs() < 1e-6
            && (units(b.y) - units(h1.y)).abs() < 1e-6;
        let rev = (units(a.x) - units(h1.x)).abs() < 1e-6
            && (units(a.y) - units(h1.y)).abs() < 1e-6
            && (units(b.x) - units(h0.x)).abs() < 1e-6
            && (units(b.y) - units(h0.y)).abs() < 1e-6;
        if fwd || rev {
            found = true;
        }
    }
    assert!(found, "no square edge coincides with hexagon edge 0");
}

#[test]
fn adjacent_rejects_bad_edge_and_sides() {
    let hex = Shape::new(6, fill(), stroke()).unwrap();
    match hex.adjacent(4, 6, fill(), stroke()) {
        Err(Error::OutOfBounds { index, length, name }) => {
            assert_eq!(index, 6);
            assert_eq!(length, 6);
            assert_eq!(name, "shape edges");
        },
        other => panic!("expected bounds error, got {:?}", other),
    }
    assert!(matches!(hex.adjacent(2, 0, fill(), stroke()), Err(Error::InvalidShape)));
}

#[test]
fn clone_at_moves_only_the_center() {
    let hex = Shape::new(6, fill(), stroke()).unwrap();
    let p = Point { x: ticks(3.0), y: ticks(-2.5) };
    let moved = hex.clone_at(p);
    assert_eq!(moved.sides(), 6);
    assert_eq!(moved.rotation(), hex.rotation());
    assert_eq!(moved.point().x, p.x);
    assert_eq!(moved.point().y, p.y);
}
