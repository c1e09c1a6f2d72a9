//! Points, regular polygons, and dual polygons.
//!
//! Coordinates, angles and margins are fixed-point `i64` ticks (the real
//! value scaled by `UNIT`).  Two points are equal when their coordinates
//! agree after quantization to `10^-6` units, which lets independently
//! derived lattice coordinates collapse onto one point.

use vstd::prelude::*;

use vstd::arithmetic::div_mod::lemma_div_is_ordered;
use vstd::arithmetic::div_mod::lemma_div_is_ordered_by_denominator;
use vstd::arithmetic::div_mod::lemma_fundamental_div_mod;
use vstd::arithmetic::div_mod::lemma_fundamental_div_mod_converse;
use vstd::arithmetic::div_mod::lemma_mod_bound;

use crate::color::Color;
use crate::error::Error;
use crate::fixed::fdiv;
use crate::fixed::muli;
use crate::fixed::norm_angle;
use crate::fixed::quantize;
use crate::fixed::spec_norm_angle;
use crate::fixed::spec_quantize;
use crate::fixed::isqrt;
use crate::fixed::qdivi;
use crate::fixed::spec_isqrt;
use crate::fixed::spec_qdiv;
use crate::fixed::COORD_MAX;
use crate::fixed::DUAL_COORD_MAX;
use crate::fixed::INSET_SCALE;
use crate::fixed::HALF_PI_FP;
use crate::fixed::MARGIN_MAX;
use crate::fixed::PI_FP;
use crate::fixed::SIDES_MAX;
use crate::fixed::TWO_PI_FP;
use crate::fixed::UNIT;
use crate::fixed::VERTEX_MAX;
use crate::trig::cos_fp;
use crate::trig::cos_fp_spec;
use crate::trig::lemma_cos_fp_lb;
use crate::trig::lemma_sin_fp_lb;
use crate::trig::sin_fp;
use crate::trig::sin_fp_spec;

verus! {

/// Represents a point in two-dimensional space, in fixed-point ticks.
#[derive(Clone, Copy, Debug)]
pub struct Point {
    pub x: i64,
    pub y: i64,
}

impl Point {
    /// The pair of quantized coordinates that identifies this point as a
    /// lattice point.
    pub open spec fn quant(self) -> (int, int) {
        (spec_quantize(self.x as int), spec_quantize(self.y as int))
    }

    /// True when both coordinates are small enough for geometric
    /// derivations from this point to stay representable.
    pub open spec fn bounded(self) -> bool {
        -COORD_MAX <= self.x <= COORD_MAX && -COORD_MAX <= self.y <= COORD_MAX
    }

    /// Returns a point at the origin.
    pub fn origin() -> (r: Point)
        ensures
            r.x == 0 && r.y == 0,
    {
        Point { x: 0, y: 0 }
    }

    /// Returns this point translated by `other` (vector addition).
    pub fn translate(self, other: Point) -> (r: Point)
        requires
            i64::MIN <= self.x + other.x <= i64::MAX,
            i64::MIN <= self.y + other.y <= i64::MAX,
        ensures
            r.x == self.x + other.x,
            r.y == self.y + other.y,
    {
        Point { x: self.x + other.x, y: self.y + other.y }
    }
}

impl PartialEq for Point {
    /// Quantized comparison: coordinates are rounded to `10^-6` units
    /// before being compared, so coordinates that differ only by the
    /// rounding of independent derivations count as one lattice point.
    fn eq(&self, other: &Point) -> bool {
        quantize(self.x) == quantize(other.x) && quantize(self.y) == quantize(other.y)
    }
}

impl Eq for Point {

}

impl vstd::std_specs::cmp::PartialEqSpecImpl for Point {
    open spec fn obeys_eq_spec() -> bool {
        true
    }

    open spec fn eq_spec(&self, other: &Point) -> bool {
        self.quant() == other.quant()
    }
}

/// True when both coordinates lie within the range a derived vertex can
/// reach.
pub open spec fn vbounded(p: Point) -> bool {
    -VERTEX_MAX <= p.x <= VERTEX_MAX && -VERTEX_MAX <= p.y <= VERTEX_MAX
}

/// The angle pi/n in ticks.
pub open spec fn pi_over(n: int) -> int {
    (PI_FP as int) / n
}

/// Entry `j` of a vertex ring of shape `s`: the point holds exactly the
/// vertex coordinates, and lies in the representable vertex range.
pub open spec fn ring_entry_ok(s: Shape, margin: int, ps: Seq<Point>, j: int) -> bool {
    &&& ps[j].x == vertex_x(s.sides as int, s.point.x as int, s.rotation as int, margin, j)
    &&& ps[j].y == vertex_y(s.sides as int, s.point.y as int, s.rotation as int, margin, j)
    &&& vbounded(ps[j])
}

/// Edge `j` of shape `s`: the pair holds vertices `j` and `j + 1`.
pub open spec fn edge_ok(s: Shape, margin: int, e: (Point, Point), j: int) -> bool {
    &&& e.0.x == vertex_x(s.sides as int, s.point.x as int, s.rotation as int, margin, j)
    &&& e.0.y == vertex_y(s.sides as int, s.point.y as int, s.rotation as int, margin, j)
    &&& e.1.x == vertex_x(s.sides as int, s.point.x as int, s.rotation as int, margin, j + 1)
    &&& e.1.y == vertex_y(s.sides as int, s.point.y as int, s.rotation as int, margin, j + 1)
    &&& vbounded(e.0)
    &&& vbounded(e.1)
}

/// The full turn divided by the side count: the angle subtended by one
/// edge, in ticks.
pub open spec fn step_of(n: int) -> int {
    (TWO_PI_FP as int) / n
}

/// The distance from a polygon's center to its vertex ring, inset by
/// `margin` along each edge's perpendicular: `0.5/sin(pi/n) -
/// margin/cos(pi/n)` in ticks.
pub open spec fn radius_of(n: int, margin: int) -> int {
    (5_000_000_000 * (UNIT as int)) / sin_fp_spec(pi_over(n)) - (margin * (UNIT as int))
        / cos_fp_spec(pi_over(n))
}

/// The direction from the center to vertex `i` of an `n`-sided polygon
/// with rotation `rot`: `i*(2*pi/n) + rot - pi/2`, normalized.  Index `n`
/// wraps to index `0`, closing the ring exactly.
pub open spec fn vertex_theta(n: int, rot: int, i: int) -> int {
    spec_norm_angle((i % n) * step_of(n) + rot - (HALF_PI_FP as int))
}

/// The x coordinate of vertex `i` of a polygon with `n` sides centered at
/// `cx` with rotation `rot`, inset by `margin`.
pub open spec fn vertex_x(n: int, cx: int, rot: int, margin: int, i: int) -> int {
    cx + (radius_of(n, margin) * cos_fp_spec(vertex_theta(n, rot, i))) / (UNIT as int)
}

/// The y coordinate of vertex `i`.
pub open spec fn vertex_y(n: int, cy: int, rot: int, margin: int, i: int) -> int {
    cy + (radius_of(n, margin) * sin_fp_spec(vertex_theta(n, rot, i))) / (UNIT as int)
}

/// The direction angle of edge `e` of an `n`-sided polygon with rotation
/// `rot`: the edge from vertex `e` to vertex `e+1` points along
/// `rot + (2*e+1)*pi/n`.
pub open spec fn edge_angle(n: int, rot: int, e: int) -> int {
    spec_norm_angle(rot + ((PI_FP as int) * (2 * e + 1)) / n)
}

/// The distance from an edge midpoint to the center of the `m`-sided
/// polygon erected on that edge: `0.5/tan(pi/m)` in ticks.
pub open spec fn adj_distance(m: int) -> int {
    (cos_fp_spec(pi_over(m)) * 5_000_000_000) / sin_fp_spec(pi_over(m))
}

/// The rotation of the `m`-sided polygon attached to edge `e`.
pub open spec fn adj_rotation(n: int, rot: int, e: int, m: int) -> int {
    spec_norm_angle(edge_angle(n, rot, e) + ((PI_FP as int) * (m - 1)) / m)
}

/// The x coordinate of the center of the `m`-sided polygon attached to
/// edge `e`: the edge midpoint displaced by `adj_distance(m)` along the
/// outward perpendicular of the edge.
pub open spec fn adj_x(n: int, cx: int, rot: int, e: int, m: int) -> int {
    (vertex_x(n, cx, rot, 0, e) + vertex_x(n, cx, rot, 0, e + 1)) / 2 + (adj_distance(m)
        * cos_fp_spec(spec_norm_angle(edge_angle(n, rot, e) - (HALF_PI_FP as int)))) / (UNIT as int)
}

/// The y coordinate of the attached polygon's center.
pub open spec fn adj_y(n: int, cy: int, rot: int, e: int, m: int) -> int {
    (vertex_y(n, cy, rot, 0, e) + vertex_y(n, cy, rot, 0, e + 1)) / 2 + (adj_distance(m)
        * sin_fp_spec(spec_norm_angle(edge_angle(n, rot, e) - (HALF_PI_FP as int)))) / (UNIT as int)
}

/// Range of the angle pi/n for a well-formed side count.
pub(crate) proof fn lemma_pi_over_bounds(n: int)
    requires
        3 <= n <= SIDES_MAX as int,
    ensures
        31_415 <= pi_over(n) <= 10_471_975_512,
{
    lemma_div_is_ordered_by_denominator(PI_FP as int, 3, n);
    lemma_div_is_ordered_by_denominator(PI_FP as int, n, SIDES_MAX as int);
}

/// Magnitude bound for a quotient: if `|a| <= am` and `b >= bm >= 1` then
/// `|a / b| <= am / bm + 1`.
pub(crate) proof fn lemma_fdiv_mag(a: int, b: int, am: int, bm: int)
    requires
        1 <= bm <= b,
        -am <= a <= am,
        0 <= am,
    ensures
        -(am / bm) - 1 <= a / b <= am / bm,
{
    lemma_div_is_ordered(a, am, b);
    lemma_div_is_ordered_by_denominator(am, bm, b);
    lemma_div_is_ordered(-am, a, b);
    lemma_fundamental_div_mod(-am, b);
    lemma_mod_bound(-am, b);
    lemma_fundamental_div_mod(am, b);
    lemma_mod_bound(am, b);
    assert((-am) / b >= -(am / b) - 1) by (nonlinear_arith)
        requires
            b >= 1,
            -am == b * ((-am) / b) + (-am) % b,
            0 <= (-am) % b < b,
            am == b * (am / b) + am % b,
            0 <= am % b < b,
    ;
}

/// A generic interface of a polygon: anything that can produce its closed
/// point ring for a given inset margin.
pub trait Polygon {
    /// The condition under which the ring is defined.
    spec fn poly_wf(&self) -> bool;

    /// What `points` promises about its result.
    spec fn points_post(&self, margin: int, r: Result<Vec<Point>, Error>) -> bool;

    /// Returns the polygon's points: a closed ring whose first point is
    /// repeated at the end.
    fn points(&self, margin: i64) -> (r: Result<Vec<Point>, Error>)
        requires
            self.poly_wf(),
            -MARGIN_MAX <= margin <= MARGIN_MAX,
        ensures
            self.points_post(margin as int, r),
    ;
}

/// A representation of a regular polygon (all angles and sides are equal).
#[derive(Clone, Copy, Debug)]
pub struct Shape {
    pub sides: i32,
    pub point: Point,
    pub rotation: i64,
    pub fill: Color,
    pub stroke: Color,
}

impl Shape {
    /// A well-formed shape: a representable side count and a normalized
    /// rotation.
    pub open spec fn wf(self) -> bool {
        3 <= self.sides <= SIDES_MAX && 0 <= self.rotation < TWO_PI_FP
    }

    /// Returns a new shape at the origin with rotation zero, ensuring the
    /// number of sides is at least three (and at most `SIDES_MAX`, the
    /// largest representable side count).
    pub fn new(sides: i32, fill: Color, stroke: Color) -> (r: Result<Shape, Error>)
        ensures
            (3 <= sides <= SIDES_MAX) <==> r is Ok,
            r matches Ok(s) ==> s == (Shape {
                sides,
                point: Point { x: 0, y: 0 },
                rotation: 0,
                fill,
                stroke,
            }) && s.wf() && s.point.bounded(),
            r matches Err(e) ==> e == Error::InvalidShape,
    {
        if sides < 3 || sides > SIDES_MAX {
            return Err(Error::InvalidShape);
        }
        Ok(Shape { sides, point: Point { x: 0, y: 0 }, rotation: 0, fill, stroke })
    }

    /// Returns the shape's sides.
    pub fn sides(&self) -> (r: i32)
        ensures
            r == self.sides,
    {
        self.sides
    }

    /// Returns the shape's center point.
    pub fn point(&self) -> (r: Point)
        ensures
            r == self.point,
    {
        self.point
    }

    /// Returns the shape's rotation, in ticks.
    pub fn rotation(&self) -> (r: i64)
        ensures
            r == self.rotation,
    {
        self.rotation
    }

    /// Returns the shape's fill color.
    pub fn fill(&self) -> (r: Color)
        ensures
            r == self.fill,
    {
        self.fill
    }

    /// Returns the shape's stroke color.
    pub fn stroke(&self) -> (r: Color)
        ensures
            r == self.stroke,
    {
        self.stroke
    }

    /// Returns a copy of the shape centered at `point`.
    pub fn clone_at(&self, point: Point) -> (r: Shape)
        ensures
            r == (Shape { point, ..*self }),
    {
        let mut s: Shape = *self;
        s.point = point;
        s
    }

    /// Returns the edges of the shape: the `sides` consecutive point pairs
    /// of the vertex ring.
    fn edges(&self, margin: i64) -> (r: Result<Vec<(Point, Point)>, Error>)
        requires
            self.wf(),
            self.point.bounded(),
            -MARGIN_MAX <= margin <= MARGIN_MAX,
        ensures
            r matches Ok(es) && es.len() == self.sides && forall|j: int|
                0 <= j < self.sides ==> #[trigger] edge_ok(*self, margin as int, es[j], j),
    {
        let ps: Vec<Point> = match self.points(margin) {
            Ok(v) => v,
            Err(e) => {
                return Err(e);
            },
        };
        let n: usize = self.sides as usize;
        let mut es: Vec<(Point, Point)> = Vec::new();
        for i in 0..n
            invariant
                es.len() == i,
                ps.len() == n + 1,
                forall|j: int| 0 <= j < i ==> #[trigger] es[j] == (ps[j], ps[j + 1]),
        {
            es.push((ps[i], ps[i + 1]));
        }
        proof {
            let mg: int = margin as int;
            assert forall|j: int| 0 <= j < self.sides as int implies #[trigger] edge_ok(
                *self,
                mg,
                es[j],
                j,
            ) by {
                assert(es[j] == (ps[j], ps[j + 1]));
                assert(ring_entry_ok(*self, mg, ps@, j));
                assert(ring_entry_ok(*self, mg, ps@, j + 1));
            }
        }
        Ok(es)
    }

    /// Returns the edge indexed by `index`, or a bounds error naming the
    /// edge collection when `index` is not below the side count.
    fn edge(&self, index: usize, margin: i64) -> (r: Result<(Point, Point), Error>)
        requires
            self.wf(),
            self.point.bounded(),
            -MARGIN_MAX <= margin <= MARGIN_MAX,
        ensures
            index < self.sides ==> (r matches Ok(e) && edge_ok(
                *self,
                margin as int,
                e,
                index as int,
            )),
            index >= self.sides ==> (r matches Err(e) && (e matches Error::OutOfBounds {
                index: i,
                length,
                name,
            } && i == index && length == self.sides && name@ == "shape edges"@)),
    {
        let es: Vec<(Point, Point)> = match self.edges(margin) {
            Ok(v) => v,
            Err(e) => {
                return Err(e);
            },
        };
        if index >= es.len() {
            return Err(
                Error::OutOfBounds {
                    index,
                    length: es.len(),
                    name: "shape edges".to_owned(),
                },
            );
        }
        Ok(es[index])
    }

    /// Returns the `sides`-sided shape adjacent to the edge with index
    /// `edge`: the unique regular polygon of that side count sharing the
    /// edge exactly, on the far side of it.
    pub fn adjacent(&self, sides: i32, edge: usize, fill: Color, stroke: Color) -> (r: Result<
        Shape,
        Error,
    >)
        requires
            self.wf(),
            self.point.bounded(),
        ensures
            r matches Ok(s) ==> (edge < self.sides && 3 <= sides <= SIDES_MAX && s == (Shape {
                sides,
                point: Point {
                    x: adj_x(
                        self.sides as int,
                        self.point.x as int,
                        self.rotation as int,
                        edge as int,
                        sides as int,
                    ) as i64,
                    y: adj_y(
                        self.sides as int,
                        self.point.y as int,
                        self.rotation as int,
                        edge as int,
                        sides as int,
                    ) as i64,
                },
                rotation: adj_rotation(
                    self.sides as int,
                    self.rotation as int,
                    edge as int,
                    sides as int,
                ) as i64,
                fill,
                stroke,
            }) && s.wf()),
            edge >= self.sides ==> (r matches Err(e) && (e matches Error::OutOfBounds {
                index: i,
                length,
                name,
            } && i == edge && length == self.sides && name@ == "shape edges"@)),
            edge < self.sides && !(3 <= sides <= SIDES_MAX) ==> r == Err::<Shape, Error>(
                Error::InvalidShape,
            ),
            r is Ok <==> (edge < self.sides && 3 <= sides <= SIDES_MAX),
    {
        let (p0, p1) = match self.edge(edge, 0) {
            Ok(e) => e,
            Err(e) => {
                return Err(e);
            },
        };
        if sides < 3 || sides > SIDES_MAX {
            return Err(Error::InvalidShape);
        }
        let n: i128 = self.sides as i128;
        let m: i128 = sides as i128;
        proof {
            lemma_pi_over_bounds(sides as int);
            lemma_fdiv_mag((PI_FP as int) * (2 * edge + 1), n as int, 63_000_000_000_000_000, 3);
            lemma_fdiv_mag((PI_FP as int) * (m as int - 1), m as int, 32_000_000_000_000_000, 3);
        }
        let a: i64 = norm_angle(
            (self.rotation as i128) + fdiv(muli(PI_FP as i128, 2 * (edge as i128) + 1), n),
        );
        let b: i64 = norm_angle((a as i128) - (HALF_PI_FP as i128));
        let pm: i64 = fdiv(PI_FP as i128, m) as i64;
        proof {
            lemma_sin_fp_lb(pm as int);
            lemma_cos_fp_lb(pm as int);
        }
        let sm: i64 = sin_fp(pm);
        let cm: i64 = cos_fp(pm);
        proof {
            lemma_div_is_ordered(0, (cm as int) * 5_000_000_000, sm as int);
            lemma_fdiv_mag(
                (cm as int) * 5_000_000_000,
                sm as int,
                50_000_000_000_000_000_000,
                25_000,
            );
        }
        let dist: i128 = fdiv(muli(cm as i128, 5_000_000_000), sm as i128);
        let cb: i64 = cos_fp(b);
        let sb: i64 = sin_fp(b);
        proof {
            assert(-21_000_000_000_000_000_000_000_000 <= (dist as int) * (cb as int)
                <= 21_000_000_000_000_000_000_000_000 && -21_000_000_000_000_000_000_000_000 <= (
            dist as int) * (sb as int) <= 21_000_000_000_000_000_000_000_000) by (nonlinear_arith)
                requires
                    0 <= dist as int <= 2_100_000_000_000_000,
                    -10_000_000_000 <= cb as int <= 10_000_000_000,
                    -10_000_000_000 <= sb as int <= 10_000_000_000,
            ;
            lemma_fdiv_mag(
                (dist as int) * (cb as int),
                UNIT as int,
                21_000_000_000_000_000_000_000_000,
                UNIT as int,
            );
            lemma_fdiv_mag(
                (dist as int) * (sb as int),
                UNIT as int,
                21_000_000_000_000_000_000_000_000,
                UNIT as int,
            );
            lemma_fdiv_mag(
                (p0.x as int) + (p1.x as int),
                2,
                2 * (VERTEX_MAX as int),
                2,
            );
            lemma_fdiv_mag(
                (p0.y as int) + (p1.y as int),
                2,
                2 * (VERTEX_MAX as int),
                2,
            );
        }
        let px: i128 = fdiv((p0.x as i128) + (p1.x as i128), 2) + fdiv(
            muli(dist, cb as i128),
            UNIT as i128,
        );
        let py: i128 = fdiv((p0.y as i128) + (p1.y as i128), 2) + fdiv(
            muli(dist, sb as i128),
            UNIT as i128,
        );
        let rot: i64 = norm_angle((a as i128) + fdiv(muli(PI_FP as i128, m - 1), m));
        Ok(
            Shape {
                sides,
                point: Point { x: px as i64, y: py as i64 },
                rotation: rot,
                fill,
                stroke,
            },
        )
    }
}

impl Polygon for Shape {
    open spec fn poly_wf(&self) -> bool {
        self.wf() && self.point.bounded()
    }

    open spec fn points_post(&self, margin: int, r: Result<Vec<Point>, Error>) -> bool {
        r matches Ok(ps) && ps.len() == self.sides + 1 && (forall|i: int|
            0 <= i <= self.sides ==> #[trigger] ring_entry_ok(*self, margin, ps@, i)) && ps[0]
            == ps[self.sides as int]
    }

    /// Returns the vertex ring: `sides + 1` points, the vertex at index
    /// `sides` being computed from the same angle as the vertex at index
    /// `0`, so the ring closes exactly.
    #[verifier::loop_isolation(false)]
    fn points(&self, margin: i64) -> (r: Result<Vec<Point>, Error>) {
        let n: i128 = self.sides as i128;
        proof {
            lemma_pi_over_bounds(self.sides as int);
        }
        let pa: i64 = fdiv(PI_FP as i128, n) as i64;
        proof {
            lemma_sin_fp_lb(pa as int);
            lemma_cos_fp_lb(pa as int);
        }
        let sv: i64 = sin_fp(pa);
        let cv: i64 = cos_fp(pa);
        proof {
            lemma_fdiv_mag(
                5_000_000_000 * (UNIT as int),
                sv as int,
                50_000_000_000_000_000_000,
                25_000,
            );
            lemma_fdiv_mag(
                (margin as int) * (UNIT as int),
                cv as int,
                10_000_000_000_000_000_000_000_000,
                4_000_000_000,
            );
        }
        let rad: i128 = fdiv(muli(5_000_000_000, UNIT as i128), sv as i128) - fdiv(
            muli(margin as i128, UNIT as i128),
            cv as i128,
        );
        proof {
            assert(-4_600_000_000_000_000 <= rad as int <= 4_600_000_000_000_000);
        }
        let step: i64 = fdiv(TWO_PI_FP as i128, n) as i64;
        proof {
            lemma_div_is_ordered(0, TWO_PI_FP as int, n as int);
            lemma_div_is_ordered_by_denominator(TWO_PI_FP as int, 3, n as int);
        }
        let count: usize = (self.sides + 1) as usize;
        let mut ps: Vec<Point> = Vec::new();
        for i in 0..count
            invariant
                ps.len() == i,
                forall|j: int| 0 <= j < i ==> #[trigger] ring_entry_ok(
                    *self,
                    margin as int,
                    ps@,
                    j,
                ),
        {
            let im: usize = i % (self.sides as usize);
            proof {
                lemma_mod_bound(i as int, self.sides as int);
                assert(0 <= (im as int) * (step as int) <= 21_000_000_000_000_000_000)
                    by (nonlinear_arith)
                    requires
                        0 <= im as int <= 1_000_000,
                        0 <= step as int <= 20_943_951_024,
                ;
            }
            let theta: i64 = norm_angle(
                (im as i128) * (step as i128) + (self.rotation as i128) - (HALF_PI_FP as i128),
            );
            let ct: i64 = cos_fp(theta);
            let st: i64 = sin_fp(theta);
            proof {
                assert(-50_000_000_000_000_000_000_000_000 <= (rad as int) * (ct as int)
                    <= 50_000_000_000_000_000_000_000_000 && -50_000_000_000_000_000_000_000_000
                    <= (rad as int) * (st as int) <= 50_000_000_000_000_000_000_000_000)
                    by (nonlinear_arith)
                    requires
                        -4_600_000_000_000_000 <= rad as int <= 4_600_000_000_000_000,
                        -10_000_000_000 <= ct as int <= 10_000_000_000,
                        -10_000_000_000 <= st as int <= 10_000_000_000,
                ;
                lemma_fdiv_mag(
                    (rad as int) * (ct as int),
                    UNIT as int,
                    50_000_000_000_000_000_000_000_000,
                    UNIT as int,
                );
                lemma_fdiv_mag(
                    (rad as int) * (st as int),
                    UNIT as int,
                    50_000_000_000_000_000_000_000_000,
                    UNIT as int,
                );
            }
            let x: i128 = (self.point.x as i128) + fdiv(muli(rad, ct as i128), UNIT as i128);
            let y: i128 = (self.point.y as i128) + fdiv(muli(rad, st as i128), UNIT as i128);
            let ghost prev: Seq<Point> = ps@;
            ps.push(Point { x: x as i64, y: y as i64 });
            proof {
                assert(ring_entry_ok(*self, margin as int, ps@, i as int));
                assert forall|j: int| 0 <= j < i implies #[trigger] ring_entry_ok(
                    *self,
                    margin as int,
                    ps@,
                    j,
                ) by {
                    assert(ring_entry_ok(*self, margin as int, prev, j));
                    assert(ps@[j] == prev[j]);
                }
            }
        }
        proof {
            let sn: int = self.sides as int;
            assert(sn % sn == 0 && 0int % sn == 0) by (nonlinear_arith)
                requires
                    3 <= sn,
            ;
            assert(ring_entry_ok(*self, margin as int, ps@, 0));
            assert(ring_entry_ok(*self, margin as int, ps@, sn));
            assert(ps[0] == ps[sn]);
        }
        Ok(ps)
    }
}

/// True when both coordinates lie within the range accepted for dual
/// polygon corners.
pub open spec fn dbounded(p: Point) -> bool {
    -DUAL_COORD_MAX <= p.x <= DUAL_COORD_MAX && -DUAL_COORD_MAX <= p.y <= DUAL_COORD_MAX
}

/// The x component of the perpendicular offset of length `m` for a segment
/// with direction `(dx, dy)` (in downscaled ticks).  A degenerate segment
/// behaves as one pointing along the positive x axis.
pub open spec fn seg_off_x(dx: int, dy: int, m: int) -> int {
    if dx == 0 && dy == 0 {
        0
    } else {
        (m * dy) / spec_isqrt(dx * dx + dy * dy)
    }
}

/// The y component of the perpendicular offset.
pub open spec fn seg_off_y(dx: int, dy: int, m: int) -> int {
    if dx == 0 && dy == 0 {
        -m
    } else {
        (-(m * dx)) / spec_isqrt(dx * dx + dy * dy)
    }
}

/// The inset corner for the three consecutive ring points `p0, p1, p2`:
/// the intersection of the two adjacent edges, each offset outward by
/// `margin` along its perpendicular.  The computation happens on
/// coordinates downscaled by `INSET_SCALE`; when the offset edges are
/// parallel, or the intersection leaves the representable range, the
/// corner itself is returned.
pub open spec fn inset_corner_pt(p0: Point, p1: Point, p2: Point, margin: int) -> Point {
    let k: int = INSET_SCALE as int;
    let q0x: int = (p0.x - p1.x) / k;
    let q0y: int = (p0.y - p1.y) / k;
    let q2x: int = (p2.x - p1.x) / k;
    let q2y: int = (p2.y - p1.y) / k;
    let mk: int = margin / k;
    let dx0: int = -q0x;
    let dy0: int = -q0y;
    let dx1: int = q2x;
    let dy1: int = q2y;
    let o0x: int = seg_off_x(dx0, dy0, mk);
    let o0y: int = seg_off_y(dx0, dy0, mk);
    let o1x: int = seg_off_x(dx1, dy1, mk);
    let o1y: int = seg_off_y(dx1, dy1, mk);
    let ax0: int = q0x + o0x;
    let ay0: int = q0y + o0y;
    let c0: int = dy0 * ax0 - dx0 * ay0;
    let c1: int = dy1 * o1x - dx1 * o1y;
    let det: int = dx0 * dy1 - dy0 * dx1;
    if det == 0 {
        p1
    } else {
        let qx: int = spec_qdiv(dx0 * c1 - dx1 * c0, det);
        let qy: int = spec_qdiv(dy0 * c1 - dy1 * c0, det);
        if -4_000_000_000_000_000 <= qx <= 4_000_000_000_000_000 && -4_000_000_000_000_000 <= qy
            <= 4_000_000_000_000_000 {
            Point { x: (p1.x + k * qx) as i64, y: (p1.y + k * qy) as i64 }
        } else {
            p1
        }
    }
}

/// A representation of a polygon within a dual tiling: an ordered, closed
/// ring of points (the centers of the shapes meeting at one tiling vertex)
/// with fill and stroke colors.
#[derive(Clone, Debug)]
pub struct Dual {
    pub points: Vec<Point>,
    pub fill: Color,
    pub stroke: Color,
}

impl Dual {
    /// Returns a new dual with vertices `points`.
    pub fn new(points: Vec<Point>, fill: Color, stroke: Color) -> (r: Dual)
        ensures
            r.points == points,
            r.fill == fill,
            r.stroke == stroke,
    {
        Dual { points, fill, stroke }
    }

    /// Computes the perpendicular offset of the segment from `pa` to `pb`,
    /// downscaled: the exec counterpart of `seg_off_x`/`seg_off_y`.
    fn seg_offset(dx: i128, dy: i128, m: i128) -> (r: (i128, i128))
        requires
            -4_000_000_000_000 <= dx <= 4_000_000_000_000,
            -4_000_000_000_000 <= dy <= 4_000_000_000_000,
            -4_000_000_000_000 <= m <= 4_000_000_000_000,
        ensures
            r.0 == seg_off_x(dx as int, dy as int, m as int),
            r.1 == seg_off_y(dx as int, dy as int, m as int),
            -4_000_000_000_000 <= r.0 <= 4_000_000_000_000,
            -4_000_000_000_000 <= r.1 <= 4_000_000_000_000,
    {
        if dx == 0 && dy == 0 {
            (0, -m)
        } else {
            proof {
                assert(0 <= dx * dx <= 16_000_000_000_000_000_000_000_000 && 0 <= dy * dy
                    <= 16_000_000_000_000_000_000_000_000 && 0 < dx * dx + dy * dy
                    <= 32_000_000_000_000_000_000_000_000) by (nonlinear_arith)
                    requires
                        -4_000_000_000_000 <= dx as int <= 4_000_000_000_000,
                        -4_000_000_000_000 <= dy as int <= 4_000_000_000_000,
                        dx as int != 0 || dy as int != 0,
                ;
            }
            let len: i128 = isqrt(dx * dx + dy * dy);
            proof {
                let l: int = len as int;
                let nn: int = (dx as int) * (dx as int) + (dy as int) * (dy as int);
                assert(l >= 1) by (nonlinear_arith)
                    requires
                        l >= 0,
                        nn > 0,
                        nn < (l + 1) * (l + 1),
                        l * l <= nn,
                ;
                assert(-l <= dy as int <= l && -l <= dx as int <= l) by (nonlinear_arith)
                    requires
                        l >= 0,
                        (dx as int) * (dx as int) <= nn,
                        (dy as int) * (dy as int) <= nn,
                        nn < (l + 1) * (l + 1),
                        (dx as int) * (dx as int) >= 0,
                        (dy as int) * (dy as int) >= 0,
                ;
                assert(-16_000_000_000_000_000_000_000_000 <= (m as int) * (dy as int)
                    <= 16_000_000_000_000_000_000_000_000 && (-4_000_000_000_000) * l <= (m as int)
                    * (dy as int) <= 4_000_000_000_000 * l) by (nonlinear_arith)
                    requires
                        -4_000_000_000_000 <= m as int <= 4_000_000_000_000,
                        -4_000_000_000_000 <= dy as int <= 4_000_000_000_000,
                        -l <= dy as int <= l,
                        1 <= l,
                ;
                assert(-16_000_000_000_000_000_000_000_000 <= (m as int) * (dx as int)
                    <= 16_000_000_000_000_000_000_000_000 && (-4_000_000_000_000) * l <= (m as int)
                    * (dx as int) <= 4_000_000_000_000 * l) by (nonlinear_arith)
                    requires
                        -4_000_000_000_000 <= m as int <= 4_000_000_000_000,
                        -4_000_000_000_000 <= dx as int <= 4_000_000_000_000,
                        -l <= dx as int <= l,
                        1 <= l,
                ;
                lemma_fundamental_div_mod_converse(4_000_000_000_000 * l, l, 4_000_000_000_000, 0);
                lemma_fundamental_div_mod_converse(
                    (-4_000_000_000_000) * l,
                    l,
                    -4_000_000_000_000,
                    0,
                );
                lemma_div_is_ordered((-4_000_000_000_000) * l, (m as int) * (dy as int), l);
                lemma_div_is_ordered((m as int) * (dy as int), 4_000_000_000_000 * l, l);
                lemma_div_is_ordered((-4_000_000_000_000) * l, -((m as int) * (dx as int)), l);
                lemma_div_is_ordered(-((m as int) * (dx as int)), 4_000_000_000_000 * l, l);
            }
            let ox: i128 = qdivi(m * dy, len);
            let oy: i128 = qdivi(-(m * dx), len);
            (ox, oy)
        }
    }

    /// Computes the inset corner for three consecutive ring points.
    fn inset_corner(p0: Point, p1: Point, p2: Point, margin: i64) -> (r: Point)
        requires
            dbounded(p0),
            dbounded(p1),
            dbounded(p2),
            -MARGIN_MAX <= margin <= MARGIN_MAX,
        ensures
            r == inset_corner_pt(p0, p1, p2, margin as int),
    {
        let k: i128 = INSET_SCALE as i128;
        let q0x: i128 = fdiv((p0.x as i128) - (p1.x as i128), k);
        let q0y: i128 = fdiv((p0.y as i128) - (p1.y as i128), k);
        let q2x: i128 = fdiv((p2.x as i128) - (p1.x as i128), k);
        let q2y: i128 = fdiv((p2.y as i128) - (p1.y as i128), k);
        let mk: i128 = fdiv(margin as i128, k);
        proof {
            lemma_fdiv_mag((p0.x as int) - (p1.x as int), INSET_SCALE as int, 2_048_000_000_000_000, 1_024);
            lemma_fdiv_mag((p0.y as int) - (p1.y as int), INSET_SCALE as int, 2_048_000_000_000_000, 1_024);
            lemma_fdiv_mag((p2.x as int) - (p1.x as int), INSET_SCALE as int, 2_048_000_000_000_000, 1_024);
            lemma_fdiv_mag((p2.y as int) - (p1.y as int), INSET_SCALE as int, 2_048_000_000_000_000, 1_024);
            lemma_fdiv_mag(margin as int, INSET_SCALE as int, 1_024_000_000_000_000, 1_024);
        }
        let (o0x, o0y) = Dual::seg_offset(-q0x, -q0y, mk);
        let (o1x, o1y) = Dual::seg_offset(q2x, q2y, mk);
        let ax0: i128 = q0x + o0x;
        let ay0: i128 = q0y + o0y;
        proof {
            assert(-14_000_000_000_000_000_000_000_000 <= (-(q0y as int)) * (ax0 as int)
                <= 14_000_000_000_000_000_000_000_000 && -14_000_000_000_000_000_000_000_000 <= (
            -(q0x as int)) * (ay0 as int) <= 14_000_000_000_000_000_000_000_000
                && -14_000_000_000_000_000_000_000_000 <= (q2y as int) * (o1x as int)
                <= 14_000_000_000_000_000_000_000_000 && -14_000_000_000_000_000_000_000_000 <= (
            q2x as int) * (o1y as int) <= 14_000_000_000_000_000_000_000_000
                && -14_000_000_000_000_000_000_000_000 <= (-(q0x as int)) * (q2y as int)
                <= 14_000_000_000_000_000_000_000_000 && -14_000_000_000_000_000_000_000_000 <= (
            -(q0y as int)) * (q2x as int) <= 14_000_000_000_000_000_000_000_000)
                by (nonlinear_arith)
                requires
                    -2_100_000_000_000 <= q0x as int <= 2_100_000_000_000,
                    -2_100_000_000_000 <= q0y as int <= 2_100_000_000_000,
                    -2_100_000_000_000 <= q2x as int <= 2_100_000_000_000,
                    -2_100_000_000_000 <= q2y as int <= 2_100_000_000_000,
                    -6_200_000_000_000 <= ax0 as int <= 6_200_000_000_000,
                    -6_200_000_000_000 <= ay0 as int <= 6_200_000_000_000,
                    -4_000_000_000_000 <= o1x as int <= 4_000_000_000_000,
                    -4_000_000_000_000 <= o1y as int <= 4_000_000_000_000,
            ;
        }
        let c0: i128 = (-q0y) * ax0 - (-q0x) * ay0;
        let c1: i128 = q2y * o1x - q2x * o1y;
        let det: i128 = (-q0x) * q2y - (-q0y) * q2x;
        if det == 0 {
            return p1;
        }
        proof {
            assert(-60_000_000_000_000_000_000_000_000_000_000_000_000 <= (-(q0x as int)) * (
            c1 as int) <= 60_000_000_000_000_000_000_000_000_000_000_000_000
                && -60_000_000_000_000_000_000_000_000_000_000_000_000 <= (q2x as int) * (
            c0 as int) <= 60_000_000_000_000_000_000_000_000_000_000_000_000
                && -60_000_000_000_000_000_000_000_000_000_000_000_000 <= (-(q0y as int)) * (
            c1 as int) <= 60_000_000_000_000_000_000_000_000_000_000_000_000
                && -60_000_000_000_000_000_000_000_000_000_000_000_000 <= (q2y as int) * (
            c0 as int) <= 60_000_000_000_000_000_000_000_000_000_000_000_000)
                by (nonlinear_arith)
                requires
                    -2_100_000_000_000 <= q0x as int <= 2_100_000_000_000,
                    -2_100_000_000_000 <= q0y as int <= 2_100_000_000_000,
                    -2_100_000_000_000 <= q2x as int <= 2_100_000_000_000,
                    -2_100_000_000_000 <= q2y as int <= 2_100_000_000_000,
                    -28_000_000_000_000_000_000_000_000 <= c0 as int
                        <= 28_000_000_000_000_000_000_000_000,
                    -28_000_000_000_000_000_000_000_000 <= c1 as int
                        <= 28_000_000_000_000_000_000_000_000,
            ;
        }
        let numx: i128 = (-q0x) * c1 - q2x * c0;
        let numy: i128 = (-q0y) * c1 - q2y * c0;
        let qx: i128 = qdivi(numx, det);
        let qy: i128 = qdivi(numy, det);
        if qx < -4_000_000_000_000_000 || qx > 4_000_000_000_000_000 || qy < -4_000_000_000_000_000
            || qy > 4_000_000_000_000_000 {
            return p1;
        }
        Point { x: (p1.x as i128 + k * qx) as i64, y: (p1.y as i128 + k * qy) as i64 }
    }

    /// Computes the inset outline for a closed ring: one inset corner per
    /// original vertex (sliding three-point window, wrapping at the ends),
    /// with the first corner repeated at the end.
    fn inset_polygon(points: &Vec<Point>, margin: i64) -> (r: Result<Vec<Point>, Error>)
        requires
            points.len() >= 2,
            forall|i: int| 0 <= i < points.len() ==> dbounded(#[trigger] points[i]),
            -MARGIN_MAX <= margin <= MARGIN_MAX,
        ensures
            r matches Ok(rs) && rs.len() == points.len() && rs[0] == inset_corner_pt(
                points[points.len() - 2],
                points[0],
                points[1],
                margin as int,
            ) && (forall|j: int|
                1 <= j < points.len() - 1 ==> #[trigger] rs[j] == inset_corner_pt(
                    points[j - 1],
                    points[j],
                    points[j + 1],
                    margin as int,
                )) && rs[points.len() - 1] == rs[0],
    {
        let ln: usize = points.len();
        let mut rs: Vec<Point> = Vec::new();
        for i in 0..ln - 1
            invariant
                points.len() == ln >= 2,
                -MARGIN_MAX <= margin <= MARGIN_MAX,
                forall|j: int| 0 <= j < ln ==> dbounded(#[trigger] points[j]),
                rs.len() == i,
                i > 0 ==> rs[0] == inset_corner_pt(
                    points[ln - 2],
                    points[0],
                    points[1],
                    margin as int,
                ),
                forall|j: int| 1 <= j < i ==> #[trigger] rs[j] == inset_corner_pt(
                    points[j - 1],
                    points[j],
                    points[j + 1],
                    margin as int,
                ),
        {
            let prev: Point = if i == 0 {
                points[ln - 2]
            } else {
                points[i - 1]
            };
            rs.push(Dual::inset_corner(prev, points[i], points[i + 1], margin));
        }
        let first: Point = rs[0];
        rs.push(first);
        Ok(rs)
    }
}

impl Polygon for Dual {
    open spec fn poly_wf(&self) -> bool {
        self.points.len() >= 2 && forall|i: int|
            0 <= i < self.points.len() ==> dbounded(#[trigger] self.points[i])
    }

    open spec fn points_post(&self, margin: int, r: Result<Vec<Point>, Error>) -> bool {
        if margin == 0 {
            r matches Ok(ps) && ps@ == self.points@
        } else {
            r matches Ok(ps) && ps.len() == self.points.len() && ps[0] == inset_corner_pt(
                self.points[self.points.len() - 2],
                self.points[0],
                self.points[1],
                margin,
            ) && (forall|j: int|
                1 <= j < self.points.len() - 1 ==> #[trigger] ps[j] == inset_corner_pt(
                    self.points[j - 1],
                    self.points[j],
                    self.points[j + 1],
                    margin,
                )) && ps[self.points.len() - 1] == ps[0]
        }
    }

    /// Returns the ring itself for margin zero, and the inset outline
    /// otherwise.
    fn points(&self, margin: i64) -> (r: Result<Vec<Point>, Error>) {
        if margin == 0 {
            let mut out: Vec<Point> = Vec::new();
            for i in 0..self.points.len()
                invariant
                    out.len() == i <= self.points.len(),
                    forall|j: int| 0 <= j < i ==> #[trigger] out[j] == self.points[j],
            {
                out.push(self.points[i]);
            }
            proof {
                assert(out@ =~= self.points@);
            }
            Ok(out)
        } else {
            Dual::inset_polygon(&self.points, margin)
        }
    }
}

} // verus!
