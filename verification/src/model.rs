//! The pattern registry and the area-fill engine.
//!
//! A model holds an ordered sequence of placed polygons (the unit pattern)
//! and a point-keyed lookup holding the materialized tiling: at most one
//! shape per distinct quantized lattice point.  The lookup is a vector of
//! key/shape pairs searched by quantized point equality, which keeps the
//! walk deterministic.

use vstd::prelude::*;

use crate::color::Color;
use crate::error::Error;
use crate::shape::adj_rotation;
use crate::shape::ring_entry_ok;
use crate::shape::vbounded;
use crate::shape::vertex_x;
use crate::shape::vertex_y;
use crate::shape::Dual;
use crate::shape::adj_x;
use crate::shape::adj_y;
use crate::shape::Point;
use crate::shape::Polygon;
use crate::shape::Shape;
use vstd::arithmetic::div_mod::lemma_fundamental_div_mod_converse;

use crate::fixed::fdiv;
use crate::fixed::spec_quantize;
use crate::fixed::muli;
use crate::fixed::COORD_MAX;
use crate::fixed::UNIT;

use std::ops::Range;

verus! {

/// The shape that `adjacent` produces when the polygon described by
/// `template` is attached to edge `e` of `parent`.
pub open spec fn attached_shape(parent: Shape, template: Shape, e: int) -> Shape {
    Shape {
        sides: template.sides,
        point: Point {
            x: adj_x(
                parent.sides as int,
                parent.point.x as int,
                parent.rotation as int,
                e,
                template.sides as int,
            ) as i64,
            y: adj_y(
                parent.sides as int,
                parent.point.y as int,
                parent.rotation as int,
                e,
                template.sides as int,
            ) as i64,
        },
        rotation: adj_rotation(
            parent.sides as int,
            parent.rotation as int,
            e,
            template.sides as int,
        ) as i64,
        fill: template.fill,
        stroke: template.stroke,
    }
}

/// True when the center of the attached shape lies in the storable
/// coordinate range.
pub open spec fn attach_fits(parent: Shape, template: Shape, e: int) -> bool {
    let s = attached_shape(parent, template, e);
    -COORD_MAX <= s.point.x <= COORD_MAX && -COORD_MAX <= s.point.y <= COORD_MAX
}

/// The success precondition of a bulk attach: every index in
/// `is_..ie_` denotes an existing shape, every edge in `es_..ee_` exists
/// on it, and every resulting center is storable.
pub open spec fn multi_ok(
    base: Seq<Shape>,
    is_: int,
    ie_: int,
    es_: int,
    ee_: int,
    template: Shape,
) -> bool {
    forall|ii: int| #![trigger base[ii]]
        is_ <= ii < ie_ ==> ii < base.len() && ee_ <= base[ii].sides && (forall|ea: int|
            es_ <= ea < ee_ ==> #[trigger] attach_fits(base[ii], template, ea))
}

/// Universal elimination for `multi_ok` at one index/edge pair.
proof fn lemma_multi_ok_at(
    base: Seq<Shape>,
    is_: int,
    ie_: int,
    es_: int,
    ee_: int,
    template: Shape,
    i: int,
    e: int,
)
    requires
        multi_ok(base, is_, ie_, es_, ee_, template),
        is_ <= i < ie_,
        es_ <= e < ee_,
    ensures
        i < base.len(),
        ee_ <= base[i].sides,
        attach_fits(base[i], template, e),
{
    // naming the element instantiates the quantifier of multi_ok at ii = i
    let sh: Shape = base[i];
    assert(i < base.len() && ee_ <= base[i].sides);
    assert(attach_fits(base[i], template, e));
}


/// The index of the first lookup entry whose key has the quantized value
/// `q`, or `-1` when no entry has it.
pub open spec fn find_key(lk: Seq<(Point, Shape)>, q: (int, int)) -> int
    decreases lk.len(),
{
    if lk.len() == 0 {
        -1
    } else if lk[0].0.quant() == q {
        0
    } else {
        let r = find_key(lk.subrange(1, lk.len() as int), q);
        if r == -1 {
            -1
        } else {
            r + 1
        }
    }
}

/// The lookup after inserting `s` keyed by its center: the value at the
/// first entry with that quantized key is replaced (the key itself is
/// kept), or a new entry is appended.
pub open spec fn lookup_insert(lk: Seq<(Point, Shape)>, s: Shape) -> Seq<(Point, Shape)> {
    let i = find_key(lk, s.point.quant());
    if i == -1 {
        lk.push((s.point, s))
    } else {
        lk.update(i, (lk[i].0, s))
    }
}

/// The lookup after inserting, in order, the shapes of `added` from index
/// `k` on.
pub open spec fn lookup_after_adds(
    lk: Seq<(Point, Shape)>,
    added: Seq<Shape>,
    k: int,
) -> Seq<(Point, Shape)>
    decreases added.len() - k,
{
    if k < 0 || k >= added.len() {
        lk
    } else {
        lookup_after_adds(lookup_insert(lk, added[k]), added, k + 1)
    }
}

/// `find_key` returns the position of a first match.
proof fn lemma_find_key_at(lk: Seq<(Point, Shape)>, q: (int, int), i: int)
    requires
        0 <= i < lk.len(),
        lk[i].0.quant() == q,
        forall|j: int| 0 <= j < i ==> (#[trigger] lk[j]).0.quant() != q,
    ensures
        find_key(lk, q) == i,
    decreases i,
{
    if i > 0 {
        let tail = lk.subrange(1, lk.len() as int);
        assert(tail[i - 1] == lk[i]);
        assert forall|j: int| 0 <= j < i - 1 implies (#[trigger] tail[j]).0.quant() != q by {
            assert(tail[j] == lk[j + 1]);
        }
        lemma_find_key_at(tail, q, i - 1);
    }
}

/// `find_key` returns `-1` exactly when no entry matches.
proof fn lemma_find_key_none(lk: Seq<(Point, Shape)>, q: (int, int))
    requires
        forall|j: int| 0 <= j < lk.len() ==> (#[trigger] lk[j]).0.quant() != q,
    ensures
        find_key(lk, q) == -1,
    decreases lk.len(),
{
    if lk.len() > 0 {
        let tail = lk.subrange(1, lk.len() as int);
        assert forall|j: int| 0 <= j < tail.len() implies (#[trigger] tail[j]).0.quant() != q by {
            assert(tail[j] == lk[j + 1]);
        }
        lemma_find_key_none(tail, q);
    }
}

/// Inserting one more shape folds onto `lookup_after_adds` from the right.
proof fn lemma_lookup_after_push(lk: Seq<(Point, Shape)>, added: Seq<Shape>, s: Shape, k: int)
    requires
        0 <= k <= added.len(),
    ensures
        lookup_after_adds(lk, added.push(s), k) == lookup_insert(
            lookup_after_adds(lk, added, k),
            s,
        ),
    decreases added.len() - k,
{
    if k == added.len() {
        assert(added.push(s)[k] == s);
        assert(lookup_after_adds(lk, added.push(s), k) == lookup_after_adds(
            lookup_insert(lk, s),
            added.push(s),
            k + 1,
        ));
    } else {
        assert(added.push(s)[k] == added[k]);
        lemma_lookup_after_push(lookup_insert(lk, added[k]), added, s, k + 1);
    }
}

/// The pattern index a bulk attach reads for the shape appended at
/// position `k` (positions count from `start`, edges vary fastest).
pub open spec fn pair_parent(is_: int, es_: int, ee_: int, start: int, k: int) -> int {
    is_ + (k - start) / range_count(es_, ee_)
}

/// The edge index a bulk attach uses for the shape appended at position
/// `k`.
pub open spec fn pair_edge(es_: int, ee_: int, start: int, k: int) -> int {
    es_ + (k - start) % range_count(es_, ee_)
}

/// True when some entry of the lookup has the quantized key `q`.
pub open spec fn has_key(lk: Seq<(Point, Shape)>, q: (int, int)) -> bool {
    exists|i: int| 0 <= i < lk.len() && (#[trigger] lk[i]).0.quant() == q
}


/// The greatest depth budget the fill engine will try before giving up.
/// The original design iterates without bound and never terminates on a
/// degenerate (collinear or zero-offset) pattern; this explicit ceiling is
/// the documented safeguard for that case.
pub const MAX_FILL_DEPTH: i32 = 1_024;

/// Half the viewing rectangle's extent along one axis, in ticks: the
/// corner threshold `d / (2 * scale)` of the fill engine's stop test.
pub open spec fn half_extent(d: int, scale: int) -> int {
    (d * (UNIT as int) * (UNIT as int)) / (2 * scale)
}

/// The lattice point reached from `p` by the offset of shape `s`.
pub open spec fn target_pt(p: Point, s: Shape) -> Point {
    Point { x: (p.x + s.point.x) as i64, y: (p.y + s.point.y) as i64 }
}

/// True when `entry` is a translated copy of some pattern shape, placed at
/// the entry's own key point.
pub open spec fn is_pattern_copy(entry: (Point, Shape), shapes: Seq<Shape>) -> bool {
    exists|j: int|
        0 <= j < shapes.len() && entry.1 == (Shape { point: entry.0, ..#[trigger] shapes[j] })
}

/// True when `lk1` extends `lk0` by translated pattern copies only: the
/// old entries are kept, in place and unchanged.
pub open spec fn lookup_extended(
    lk0: Seq<(Point, Shape)>,
    lk1: Seq<(Point, Shape)>,
    shapes: Seq<Shape>,
) -> bool {
    &&& lk1.len() >= lk0.len()
    &&& lk1.subrange(0, lk0.len() as int) =~= lk0
    &&& forall|t: int| lk0.len() <= t < lk1.len() ==> is_pattern_copy(#[trigger] lk1[t], shapes)
}

/// Extension by pattern copies is transitive.
proof fn lemma_extended_trans(
    lk0: Seq<(Point, Shape)>,
    lk1: Seq<(Point, Shape)>,
    lk2: Seq<(Point, Shape)>,
    shapes: Seq<Shape>,
)
    requires
        lookup_extended(lk0, lk1, shapes),
        lookup_extended(lk1, lk2, shapes),
    ensures
        lookup_extended(lk0, lk2, shapes),
{
    assert forall|k: int| 0 <= k < lk0.len() implies lk2.subrange(0, lk0.len() as int)[k]
        == lk0[k] by {
        assert(lk2.subrange(0, lk1.len() as int)[k] == lk1[k]);
        assert(lk1.subrange(0, lk0.len() as int)[k] == lk0[k]);
    }
    assert forall|t: int| lk0.len() <= t < lk2.len() implies is_pattern_copy(
        #[trigger] lk2[t],
        shapes,
    ) by {
        if t < lk1.len() {
            assert(lk2.subrange(0, lk1.len() as int)[t] == lk1[t]);
        }
    }
}

/// The lookup after materializing the translated copies of the pattern
/// shapes from index `k` on at base point `p`: each target point that is
/// storable and not yet present receives a copy of its shape; targets
/// already present are left to their first writer.
pub open spec fn repeats_after(
    lk: Seq<(Point, Shape)>,
    shapes: Seq<Shape>,
    p: Point,
    k: int,
) -> Seq<(Point, Shape)>
    decreases shapes.len() - k,
{
    if k < 0 || k >= shapes.len() {
        lk
    } else {
        let tp = target_pt(p, shapes[k]);
        let lk2 = if -COORD_MAX <= tp.x <= COORD_MAX && -COORD_MAX <= tp.y <= COORD_MAX && !has_key(
            lk,
            tp.quant(),
        ) {
            lk.push((tp, Shape { point: tp, ..shapes[k] }))
        } else {
            lk
        };
        repeats_after(lk2, shapes, p, k + 1)
    }
}

/// Materializing the pattern extends the lookup by pattern copies only.
proof fn lemma_repeats_after_extended(
    lk: Seq<(Point, Shape)>,
    shapes: Seq<Shape>,
    p: Point,
    k: int,
)
    ensures
        lookup_extended(lk, repeats_after(lk, shapes, p, k), shapes),
    decreases shapes.len() - k,
{
    if k < 0 || k >= shapes.len() {
        assert(repeats_after(lk, shapes, p, k) == lk);
        assert(lk.subrange(0, lk.len() as int) =~= lk);
    } else {
        let tp = target_pt(p, shapes[k]);
        let lk2 = if -COORD_MAX <= tp.x <= COORD_MAX && -COORD_MAX <= tp.y <= COORD_MAX && !has_key(
            lk,
            tp.quant(),
        ) {
            lk.push((tp, Shape { point: tp, ..shapes[k] }))
        } else {
            lk
        };
        assert(lookup_extended(lk, lk2, shapes)) by {
            assert(lk2.subrange(0, lk.len() as int) =~= lk);
            if lk2.len() > lk.len() {
                assert(lk2[lk.len() as int] == (tp, Shape { point: tp, ..shapes[k] }));
                assert(is_pattern_copy(lk2[lk.len() as int], shapes));
            }
        }
        lemma_repeats_after_extended(lk2, shapes, p, k + 1);
        lemma_extended_trans(lk, lk2, repeats_after(lk2, shapes, p, k + 1), shapes);
        assert(repeats_after(lk, shapes, p, k) == repeats_after(lk2, shapes, p, k + 1));
    }
}

/// Materialization is idempotent: at a base point whose every target
/// already has an entry, the lookup is left exactly as it was.  This is
/// what makes a second run of the fill engine over an already-filled
/// registry add nothing.
pub proof fn law_materialize_idempotent(
    lk: Seq<(Point, Shape)>,
    shapes: Seq<Shape>,
    p: Point,
    k: int,
)
    requires
        forall|j: int|
            0 <= j < shapes.len() ==> has_key(lk, target_pt(p, #[trigger] shapes[j]).quant()),
    ensures
        repeats_after(lk, shapes, p, k) == lk,
    decreases shapes.len() - k,
{
    if k < 0 || k >= shapes.len() {
    } else {
        assert(has_key(lk, target_pt(p, shapes[k]).quant()));
        law_materialize_idempotent(lk, shapes, p, k + 1);
    }
}

/// True when every recorded point of the visited-depth memo is storable
/// and no lattice point is recorded twice.
pub open spec fn memo_ok(m: Seq<(Point, i32)>) -> bool {
    &&& forall|t: int| 0 <= t < m.len() ==> (#[trigger] m[t]).0.bounded()
    &&& forall|t1: int, t2: int|
        0 <= t1 < t2 < m.len() ==> (#[trigger] m[t1]).0.quant() != (#[trigger] m[t2]).0.quant()
}

/// True when the memo records the lattice point `q` at any depth.
pub open spec fn memo_has(m: Seq<(Point, i32)>, q: (int, int)) -> bool {
    exists|t: int| 0 <= t < m.len() && (#[trigger] m[t]).0.quant() == q
}

/// True when the entry `e` is still recorded in `m2` at the same or a
/// greater depth.
pub open spec fn memo_entry_geq(m2: Seq<(Point, i32)>, e: (Point, i32)) -> bool {
    exists|u: int| #![trigger m2[u]]
        0 <= u < m2.len() && m2[u].0.quant() == e.0.quant() && m2[u].1 >= e.1
}

/// True when every point of `m1` is still recorded in `m2`, at the same
/// or a greater depth: no key is removed and no value shrinks.
pub open spec fn memo_geq(m1: Seq<(Point, i32)>, m2: Seq<(Point, i32)>) -> bool {
    forall|t: int| 0 <= t < m1.len() ==> memo_entry_geq(m2, #[trigger] m1[t])
}

/// Memo growth is reflexive.
proof fn lemma_memo_geq_refl(m: Seq<(Point, i32)>)
    ensures
        memo_geq(m, m),
{
    assert forall|t: int| 0 <= t < m.len() implies memo_entry_geq(m, #[trigger] m[t]) by {
        assert(m[t].0.quant() == m[t].0.quant() && m[t].1 >= m[t].1);
    }
}

/// Memo growth is transitive.
proof fn lemma_memo_geq_trans(m1: Seq<(Point, i32)>, m2: Seq<(Point, i32)>, m3: Seq<(Point, i32)>)
    requires
        memo_geq(m1, m2),
        memo_geq(m2, m3),
    ensures
        memo_geq(m1, m3),
{
    assert forall|t: int| 0 <= t < m1.len() implies memo_entry_geq(m3, #[trigger] m1[t]) by {
        assert(memo_entry_geq(m2, m1[t]));
        let u1: int = choose|u: int| #![trigger m2[u]]
            0 <= u < m2.len() && m2[u].0.quant() == m1[t].0.quant() && m2[u].1 >= m1[t].1;
        assert(memo_entry_geq(m3, m2[u1]));
        let u2: int = choose|u: int| #![trigger m3[u]]
            0 <= u < m3.len() && m3[u].0.quant() == m2[u1].0.quant() && m3[u].1 >= m2[u1].1;
        assert(0 <= u2 < m3.len() && m3[u2].0.quant() == m1[t].0.quant() && m3[u2].1 >= m1[t].1);
    }
}

/// A depth recorded for a key survives memo growth.
proof fn lemma_memo_at_least_mono(
    m1: Seq<(Point, i32)>,
    m2: Seq<(Point, i32)>,
    q: (int, int),
    d: int,
)
    requires
        memo_at_least(m1, q, d),
        memo_geq(m1, m2),
    ensures
        memo_at_least(m2, q, d),
{
    let t: int = choose|t: int| 0 <= t < m1.len() && (#[trigger] m1[t]).0.quant() == q && m1[t].1
        >= d;
    assert(memo_entry_geq(m2, m1[t]));
    let u: int = choose|u: int| #![trigger m2[u]]
        0 <= u < m2.len() && m2[u].0.quant() == m1[t].0.quant() && m2[u].1 >= m1[t].1;
    assert(0 <= u < m2.len() && m2[u].0.quant() == q && m2[u].1 >= d);
}

/// The lattice point one pattern offset before `p`.
pub open spec fn prev_pt(p: Point, s: Shape) -> Point {
    Point { x: (p.x - s.point.x) as i64, y: (p.y - s.point.y) as i64 }
}

/// True when `p` is the origin translated by a sum of at most `n` offsets
/// of the pattern shapes with index in `is_..ie_`: a lattice point.
pub open spec fn reach(shapes: Seq<Shape>, is_: int, ie_: int, p: Point, n: nat) -> bool
    decreases n,
{
    if n == 0 {
        p.x == 0 && p.y == 0
    } else {
        reach(shapes, is_, ie_, p, (n - 1) as nat) || exists|j: int| #![trigger shapes[j]]
            is_ <= j < ie_ && 0 <= j < shapes.len() && reach(
                shapes,
                is_,
                ie_,
                prev_pt(p, shapes[j]),
                (n - 1) as nat,
            )
    }
}

/// True when `p` is reachable from the origin by some finite sum of
/// pattern offsets.
pub open spec fn reach_any(shapes: Seq<Shape>, is_: int, ie_: int, p: Point) -> bool {
    exists|n: nat| #[trigger] reach(shapes, is_, ie_, p, n)
}

/// One more offset step keeps a point reachable.
proof fn lemma_reach_step(shapes: Seq<Shape>, is_: int, ie_: int, q: Point, p: Point, j: int)
    requires
        reach_any(shapes, is_, ie_, q),
        is_ <= j < ie_,
        0 <= j < shapes.len(),
        q.bounded(),
        shapes[j].point.bounded(),
        p == target_pt(q, shapes[j]),
    ensures
        reach_any(shapes, is_, ie_, p),
{
    let n: nat = choose|n: nat| #[trigger] reach(shapes, is_, ie_, q, n);
    let n1: nat = (n + 1) as nat;
    assert(prev_pt(p, shapes[j]) == q);
    assert((n1 - 1) as nat == n);
    assert(reach(shapes, is_, ie_, prev_pt(p, shapes[j]), (n1 - 1) as nat));
    assert(reach(shapes, is_, ie_, p, n1));
}

/// True when every memoized point is a reachable lattice point.
pub open spec fn memo_reach(m: Seq<(Point, i32)>, shapes: Seq<Shape>, is_: int, ie_: int) -> bool {
    forall|t: int| 0 <= t < m.len() ==> reach_any(shapes, is_, ie_, (#[trigger] m[t]).0)
}

/// A key present in the lookup survives extension by pattern copies.
proof fn lemma_extended_has_key(
    l1: Seq<(Point, Shape)>,
    l2: Seq<(Point, Shape)>,
    shapes: Seq<Shape>,
    q: (int, int),
)
    requires
        lookup_extended(l1, l2, shapes),
        has_key(l1, q),
    ensures
        has_key(l2, q),
{
    let i: int = choose|i: int| 0 <= i < l1.len() && (#[trigger] l1[i]).0.quant() == q;
    assert(l2.subrange(0, l1.len() as int)[i] == l1[i]);
    assert(l2[i].0.quant() == q);
}

/// A key present in the lookup survives materialization.
proof fn lemma_repeats_preserves_key(
    lk: Seq<(Point, Shape)>,
    shapes: Seq<Shape>,
    p: Point,
    k: int,
    q: (int, int),
)
    requires
        has_key(lk, q),
    ensures
        has_key(repeats_after(lk, shapes, p, k), q),
    decreases shapes.len() - k,
{
    if 0 <= k < shapes.len() {
        let tp = target_pt(p, shapes[k]);
        let lk2 = if -COORD_MAX <= tp.x <= COORD_MAX && -COORD_MAX <= tp.y <= COORD_MAX
            && !has_key(lk, tp.quant()) {
            lk.push((tp, Shape { point: tp, ..shapes[k] }))
        } else {
            lk
        };
        assert(has_key(lk2, q)) by {
            let i: int = choose|i: int| 0 <= i < lk.len() && (#[trigger] lk[i]).0.quant() == q;
            assert(lk2[i].0.quant() == q);
        }
        lemma_repeats_preserves_key(lk2, shapes, p, k + 1, q);
        assert(repeats_after(lk, shapes, p, k) == repeats_after(lk2, shapes, p, k + 1));
    }
}

/// After materializing at `p`, every storable target of the pattern from
/// index `k` on has an entry.
proof fn lemma_repeats_after_has_key(lk: Seq<(Point, Shape)>, shapes: Seq<Shape>, p: Point, k: int)
    requires
        k >= 0,
    ensures
        forall|j: int|
            k <= j < shapes.len() ==> (target_pt(p, #[trigger] shapes[j]).bounded() ==> has_key(
                repeats_after(lk, shapes, p, k),
                target_pt(p, shapes[j]).quant(),
            )),
    decreases shapes.len() - k,
{
    if 0 <= k < shapes.len() {
        let tp = target_pt(p, shapes[k]);
        let lk2 = if -COORD_MAX <= tp.x <= COORD_MAX && -COORD_MAX <= tp.y <= COORD_MAX
            && !has_key(lk, tp.quant()) {
            lk.push((tp, Shape { point: tp, ..shapes[k] }))
        } else {
            lk
        };
        lemma_repeats_after_has_key(lk2, shapes, p, k + 1);
        assert(repeats_after(lk, shapes, p, k) == repeats_after(lk2, shapes, p, k + 1));
        if tp.bounded() {
            assert(has_key(lk2, tp.quant())) by {
                if has_key(lk, tp.quant()) {
                    let i: int = choose|i: int|
                        0 <= i < lk.len() && (#[trigger] lk[i]).0.quant() == tp.quant();
                    assert(lk2[i].0.quant() == tp.quant());
                } else {
                    assert(lk2[lk.len() as int].0.quant() == tp.quant());
                }
            }
            lemma_repeats_preserves_key(lk2, shapes, p, k + 1, tp.quant());
        }
    } else {
    }
}


/// True when the memo already records point `q` at a depth of at least
/// `d`: the fill walk prunes such points.
pub open spec fn memo_at_least(m: Seq<(Point, i32)>, q: (int, int), d: int) -> bool {
    exists|t: int| 0 <= t < m.len() && (#[trigger] m[t]).0.quant() == q && m[t].1 >= d
}


/// The quantized lattice key of vertex `i` of shape `s` (margin zero).
pub open spec fn vertex_key(s: Shape, i: int) -> (int, int) {
    (
        spec_quantize(vertex_x(s.sides as int, s.point.x as int, s.rotation as int, 0, i)),
        spec_quantize(vertex_y(s.sides as int, s.point.y as int, s.rotation as int, 0, i)),
    )
}

/// True when the quantized point `q` is one of the ring vertices of `s`.
pub open spec fn is_incident(s: Shape, q: (int, int)) -> bool {
    exists|i: int| 0 <= i < s.sides && #[trigger] vertex_key(s, i) == q
}

/// True when `p` is the center of a shape of the lookup that is incident
/// to the quantized point `q`.
pub open spec fn center_incident(lk: Seq<(Point, Shape)>, p: Point, q: (int, int)) -> bool {
    exists|i: int|
        0 <= i < lk.len() && (#[trigger] lk[i]).1.point == p && is_incident(lk[i].1, q)
}


/// The number of ring vertices of `s` among the first `t` slots whose
/// quantized key is `q`.
pub open spec fn occ_upto(s: Shape, q: (int, int), t: int) -> int
    decreases t,
{
    if t <= 0 {
        0
    } else {
        occ_upto(s, q, t - 1) + if vertex_key(s, t - 1) == q {
            1int
        } else {
            0int
        }
    }
}

/// The number of entries among the first `y` of `v` whose key has the
/// quantized value `q`.
pub open spec fn key_count(v: Seq<(Point, Shape)>, q: (int, int), y: int) -> int
    decreases y,
{
    if y <= 0 || y > v.len() {
        0
    } else {
        key_count(v, q, y - 1) + if v[y - 1].0.quant() == q {
            1int
        } else {
            0int
        }
    }
}

/// How many times the shapes of the first `j` lookup entries touch the
/// quantized point `q` with a ring vertex: the number of polygons meeting
/// at that vertex, counted with multiplicity.
pub open spec fn incidence_count(lk: Seq<(Point, Shape)>, q: (int, int), j: int) -> int
    decreases j,
{
    if j <= 0 || j > lk.len() {
        0
    } else {
        incidence_count(lk, q, j - 1) + occ_upto(lk[j - 1].1, q, lk[j - 1].1.sides as int)
    }
}

/// A key count over a prefix depends only on that prefix.
proof fn lemma_key_count_frame(
    v1: Seq<(Point, Shape)>,
    v2: Seq<(Point, Shape)>,
    q: (int, int),
    y: int,
)
    requires
        y <= v1.len(),
        y <= v2.len(),
        forall|i: int| 0 <= i < y ==> v1[i] == v2[i],
    ensures
        key_count(v1, q, y) == key_count(v2, q, y),
    decreases y,
{
    if y > 0 {
        lemma_key_count_frame(v1, v2, q, y - 1);
    }
}

/// The angular class of the center `c` as seen from the vertex `v`,
/// numbering the descending order of `atan2` over `(-pi, pi]`: the
/// direction pi first, then the open upper half plane, then the direction
/// zero (including a center on the vertex itself), then the open lower
/// half plane.
pub open spec fn ang_class(v: Point, c: Point) -> int {
    let ux = c.x - v.x;
    let uy = c.y - v.y;
    if uy == 0 && ux < 0 {
        0
    } else if uy > 0 {
        1
    } else if uy == 0 {
        2
    } else {
        3
    }
}

/// True when, seen from `v`, the center `a` comes no later than the
/// center `b` in descending-angle order.  Within a half plane the order
/// is decided exactly by the sign of the cross product.
pub open spec fn ang_before(v: Point, a: Point, b: Point) -> bool {
    let ca = ang_class(v, a);
    let cb = ang_class(v, b);
    ca < cb || (ca == cb && (ca == 0 || ca == 2 || (a.x - v.x) * (b.y - v.y) - (a.y - v.y) * (b.x
        - v.x) <= 0))
}

/// The descending-angle order is total.
proof fn lemma_ang_before_total(v: Point, a: Point, b: Point)
    ensures
        ang_before(v, a, b) || ang_before(v, b, a),
{
    let axv: int = a.x - v.x;
    let ayv: int = a.y - v.y;
    let bxv: int = b.x - v.x;
    let byv: int = b.y - v.y;
    assert(axv * byv - ayv * bxv <= 0 || bxv * ayv - byv * axv <= 0) by (nonlinear_arith);
}

/// The descending-angle order is transitive.
proof fn lemma_ang_before_trans(v: Point, a: Point, b: Point, c: Point)
    requires
        ang_before(v, a, b),
        ang_before(v, b, c),
    ensures
        ang_before(v, a, c),
{
    let ax: int = a.x - v.x;
    let ay: int = a.y - v.y;
    let bx: int = b.x - v.x;
    let by: int = b.y - v.y;
    let cx: int = c.x - v.x;
    let cy: int = c.y - v.y;
    if ang_class(v, a) == ang_class(v, b) && ang_class(v, b) == ang_class(v, c) {
        if ang_class(v, a) == 1 {
            assert(ax * cy - ay * cx <= 0) by (nonlinear_arith)
                requires
                    ay > 0,
                    by > 0,
                    cy > 0,
                    ax * by - ay * bx <= 0,
                    bx * cy - by * cx <= 0,
            ;
        }
        if ang_class(v, a) == 3 {
            assert(ax * cy - ay * cx <= 0) by (nonlinear_arith)
                requires
                    ay < 0,
                    by < 0,
                    cy < 0,
                    ax * by - ay * bx <= 0,
                    bx * cy - by * cx <= 0,
            ;
        }
    }
}



/// True when `d` is the dual polygon of the quantized vertex `q`: its
/// ring sits at a vertex with that key and closes after exactly the
/// number of incident polygons.
pub open spec fn dual_key(lk: Seq<(Point, Shape)>, d: Dual, q: (int, int)) -> bool {
    exists|v: Point|
        v.quant() == q && #[trigger] dual_ring_at(lk, d.points@, v) && d.points@.len() - 1
            == incidence_count(lk, q, lk.len() as int)
}

/// True when some recorded key point has the quantized value `q`.
pub open spec fn seen_has(seen: Seq<(Point, bool)>, q: (int, int)) -> bool {
    exists|t: int| #![trigger seen[t]] 0 <= t < seen.len() && seen[t].0.quant() == q
}

/// True when `ks` assigns each returned dual polygon its vertex: one
/// polygon per key, no key twice, and every lattice point where at least
/// three polygons meet is covered.
pub open spec fn dual_complete(lk: Seq<(Point, Shape)>, ds: Seq<Dual>, ks: Seq<(int, int)>) -> bool {
    &&& ks.len() == ds.len()
    &&& forall|j: int| 0 <= j < ds.len() ==> dual_key(lk, #[trigger] ds[j], ks[j])
    &&& forall|j1: int, j2: int|
        0 <= j1 < j2 < ks.len() ==> (#[trigger] ks[j1]) != (#[trigger] ks[j2])
    &&& forall|q: (int, int)|
        #[trigger] incidence_count(lk, q, lk.len() as int) >= 3 ==> ks.contains(q)
}

/// One step of the dual extractor's bookkeeping: recording a fresh
/// vertex key, with its polygon exactly when at least three shapes meet
/// there, keeps the key assignment unique and complete over the keys
/// recorded so far.
proof fn lemma_dual_step(
    lk: Seq<(Point, Shape)>,
    seen0: Seq<(Point, bool)>,
    ks0: Seq<(int, int)>,
    v: Point,
    emitted: bool,
)
    requires
        !seen_has(seen0, v.quant()),
        forall|j: int| 0 <= j < ks0.len() ==> seen_has(seen0, #[trigger] ks0[j]),
        forall|j1: int, j2: int|
            0 <= j1 < j2 < ks0.len() ==> (#[trigger] ks0[j1]) != (#[trigger] ks0[j2]),
        forall|t: int|
            0 <= t < seen0.len() ==> (incidence_count(
                lk,
                (#[trigger] seen0[t]).0.quant(),
                lk.len() as int,
            ) >= 3 ==> ks0.contains(seen0[t].0.quant())),
        emitted ==> incidence_count(lk, v.quant(), lk.len() as int) >= 3,
        !emitted ==> incidence_count(lk, v.quant(), lk.len() as int) < 3,
    ensures
        ({
            let seen1 = seen0.push((v, true));
            let ks1 = if emitted {
                ks0.push(v.quant())
            } else {
                ks0
            };
            &&& forall|j: int| 0 <= j < ks1.len() ==> seen_has(seen1, #[trigger] ks1[j])
            &&& forall|j1: int, j2: int|
                0 <= j1 < j2 < ks1.len() ==> (#[trigger] ks1[j1]) != (#[trigger] ks1[j2])
            &&& forall|t: int|
                0 <= t < seen1.len() ==> (incidence_count(
                    lk,
                    (#[trigger] seen1[t]).0.quant(),
                    lk.len() as int,
                ) >= 3 ==> ks1.contains(seen1[t].0.quant()))
        }),
{
    let seen1 = seen0.push((v, true));
    let ks1 = if emitted {
        ks0.push(v.quant())
    } else {
        ks0
    };
    assert forall|j: int| 0 <= j < ks1.len() implies seen_has(seen1, #[trigger] ks1[j]) by {
        if j < ks0.len() {
            assert(seen_has(seen0, ks0[j]));
            let t0: int = choose|t: int| #![trigger seen0[t]]
                0 <= t < seen0.len() && seen0[t].0.quant() == ks0[j];
            assert(seen1[t0] == seen0[t0]);
        } else {
            assert(seen1[seen1.len() - 1].0.quant() == v.quant());
        }
    }
    assert forall|j1: int, j2: int| 0 <= j1 < j2 < ks1.len() implies (#[trigger] ks1[j1]) != (
    #[trigger] ks1[j2]) by {
        if j2 == ks0.len() {
            assert(ks1[j1] == ks0[j1]);
            assert(seen_has(seen0, ks0[j1]));
        } else {
            assert(ks1[j1] == ks0[j1] && ks1[j2] == ks0[j2]);
        }
    }
    assert forall|t: int| 0 <= t < seen1.len() implies (incidence_count(
        lk,
        (#[trigger] seen1[t]).0.quant(),
        lk.len() as int,
    ) >= 3 ==> ks1.contains(seen1[t].0.quant())) by {
        if t < seen0.len() {
            assert(seen1[t] == seen0[t]);
            if incidence_count(lk, seen0[t].0.quant(), lk.len() as int) >= 3 {
                assert(ks0.contains(seen0[t].0.quant()));
                let j0: int = choose|j: int| 0 <= j < ks0.len() && ks0[j] == seen0[t].0.quant();
                assert(ks1[j0] == seen0[t].0.quant());
                assert(ks1.contains(seen0[t].0.quant()));
            }
        } else {
            assert(seen1[t].0.quant() == v.quant());
            if incidence_count(lk, v.quant(), lk.len() as int) >= 3 {
                assert(ks1[ks1.len() - 1] == v.quant());
                assert(ks1.contains(v.quant()));
            }
        }
    }
}

/// The dual extractor's running state: keys align one-to-one with the
/// emitted polygons, are pairwise distinct, point into the recorded
/// vertex set, and cover every recorded vertex where at least three
/// shapes meet.
pub open spec fn dual_loop_inv(
    lk: Seq<(Point, Shape)>,
    seen: Seq<(Point, bool)>,
    ks: Seq<(int, int)>,
    out: Seq<Dual>,
    fill: Color,
    stroke: Color,
) -> bool {
    &&& ks.len() == out.len()
    &&& forall|j: int| 0 <= j < out.len() ==> dual_entry_ok(lk, #[trigger] out[j], fill, stroke)
    &&& forall|j: int| 0 <= j < out.len() ==> dual_key(lk, #[trigger] out[j], ks[j])
    &&& forall|j1: int, j2: int|
        0 <= j1 < j2 < ks.len() ==> (#[trigger] ks[j1]) != (#[trigger] ks[j2])
    &&& forall|j: int| 0 <= j < ks.len() ==> seen_has(seen, #[trigger] ks[j])
    &&& forall|t: int|
        0 <= t < seen.len() ==> (incidence_count(lk, (#[trigger] seen[t]).0.quant(), lk.len() as int)
            >= 3 ==> ks.contains(seen[t].0.quant()))
}

/// True when some key assignment witnesses `dual_complete`.
pub open spec fn dual_complete_any(lk: Seq<(Point, Shape)>, ds: Seq<Dual>) -> bool {
    exists|ks: Seq<(int, int)>| #[trigger] dual_complete(lk, ds, ks)
}

/// A positive key count names at least one entry with that key.
proof fn lemma_key_count_pos(v: Seq<(Point, Shape)>, q: (int, int), y: int)
    requires
        key_count(v, q, y) >= 1,
        y <= v.len(),
    ensures
        exists|x: int| 0 <= x < y && (#[trigger] v[x]).0.quant() == q,
    decreases y,
{
    if y > 0 {
        if v[y - 1].0.quant() == q {
        } else {
            lemma_key_count_pos(v, q, y - 1);
        }
    }
}

/// What one emitted dual polygon promises: its interior points are the
/// centers of lookup shapes incident to one common vertex `v`, in
/// descending angular order around `v`.
pub open spec fn dual_ring_at(lk: Seq<(Point, Shape)>, ps: Seq<Point>, v: Point) -> bool {
    &&& forall|t: int| 0 <= t < ps.len() - 1 ==> center_incident(lk, #[trigger] ps[t], v.quant())
    &&& forall|t1: int, t2: int|
        0 <= t1 < t2 < ps.len() - 1 ==> ang_before(v, #[trigger] ps[t1], #[trigger] ps[t2])
}

/// What `dual` promises of each polygon it returns.
pub open spec fn dual_entry_ok(
    lk: Seq<(Point, Shape)>,
    d: Dual,
    fill: Color,
    stroke: Color,
) -> bool {
    &&& d.fill == fill
    &&& d.stroke == stroke
    &&& d.points.len() >= 4
    &&& d.points[d.points.len() - 1] == d.points[0]
    &&& exists|v: Point|
        #[trigger] dual_ring_at(lk, d.points@, v) && d.points.len() - 1 == incidence_count(
            lk,
            v.quant(),
            lk.len() as int,
        )
}


/// True when every element of `sq` is the center of a lookup shape
/// incident to the vertex `v`, with a storable center.
pub open spec fn members_ok(lk: Seq<(Point, Shape)>, sq: Seq<Shape>, v: Point) -> bool {
    forall|t: int|
        0 <= t < sq.len() ==> center_incident(lk, (#[trigger] sq[t]).point, v.quant()) && sq[
            t].point.bounded()
}

/// True when the centers of `sq` are pairwise in descending-angle order
/// around `v`.
pub open spec fn pairwise_sorted(v: Point, sq: Seq<Shape>) -> bool {
    forall|t1: int, t2: int|
        0 <= t1 < t2 < sq.len() ==> ang_before(v, (#[trigger] sq[t1]).point, (#[trigger] sq[
            t2]).point)
}

/// True when `e` records that the shape `e.1`, present in the lookup,
/// touches the lattice point of `e.0` with one of its ring vertices.
pub open spec fn incid_ok(lk: Seq<(Point, Shape)>, e: (Point, Shape)) -> bool {
    &&& exists|i: int| 0 <= i < lk.len() && (#[trigger] lk[i]).1 == e.1
    &&& is_incident(e.1, e.0.quant())
    &&& vbounded(e.0)
    &&& e.1.point.bounded()
}


/// The position at which a center `cp` is inserted into the sorted run:
/// the first index whose element does not come before `cp`.
fn insert_pos(v: &Point, sorted: &Vec<Shape>, cp: &Point) -> (pos: usize)
    requires
        vbounded(*v),
        vbounded(*cp),
        forall|t: int| 0 <= t < sorted@.len() ==> (#[trigger] sorted@[t]).point.bounded(),
    ensures
        pos <= sorted@.len(),
        forall|t: int| 0 <= t < pos ==> ang_before(*v, (#[trigger] sorted@[t]).point, *cp),
        pos < sorted@.len() ==> !ang_before(*v, sorted@[pos as int].point, *cp),
{
    let mut pos: usize = 0;
    while pos < sorted.len()
        invariant_except_break
            vbounded(*v),
            vbounded(*cp),
            forall|t: int| 0 <= t < sorted@.len() ==> (#[trigger] sorted@[t]).point.bounded(),
            pos <= sorted@.len(),
            forall|t: int| 0 <= t < pos ==> ang_before(*v, (#[trigger] sorted@[t]).point, *cp),
        ensures
            pos <= sorted@.len(),
            forall|t: int| 0 <= t < pos ==> ang_before(*v, (#[trigger] sorted@[t]).point, *cp),
            pos < sorted@.len() ==> !ang_before(*v, sorted@[pos as int].point, *cp),
        decreases sorted@.len() - pos,
    {
        let sp: Point = sorted[pos].point;
        if !ang_before_exec(v, &sp, cp) {
            break;
        }
        pos = pos + 1;
    }
    pos
}

/// Decides the descending-angle order of the centers `a` and `b` around
/// the vertex `v`.
fn ang_before_exec(v: &Point, a: &Point, b: &Point) -> (r: bool)
    requires
        vbounded(*v),
        vbounded(*a),
        vbounded(*b),
    ensures
        r == ang_before(*v, *a, *b),
{
    let ux: i128 = (a.x as i128) - (v.x as i128);
    let uy: i128 = (a.y as i128) - (v.y as i128);
    let wx: i128 = (b.x as i128) - (v.x as i128);
    let wy: i128 = (b.y as i128) - (v.y as i128);
    let ca: i32 = if uy == 0 && ux < 0 {
        0
    } else if uy > 0 {
        1
    } else if uy == 0 {
        2
    } else {
        3
    };
    let cb: i32 = if wy == 0 && wx < 0 {
        0
    } else if wy > 0 {
        1
    } else if wy == 0 {
        2
    } else {
        3
    };
    if ca < cb {
        true
    } else if ca > cb {
        false
    } else if ca == 0 || ca == 2 {
        true
    } else {
        proof {
            assert(-70_000_000_000_000_000_000_000_000_000_000_000_000 <= (ux as int) * (wy as int)
                <= 70_000_000_000_000_000_000_000_000_000_000_000_000
                && -70_000_000_000_000_000_000_000_000_000_000_000_000 <= (uy as int) * (wx as int)
                <= 70_000_000_000_000_000_000_000_000_000_000_000_000) by (nonlinear_arith)
                requires
                    -8_100_000_000_000_000_000 <= ux as int <= 8_100_000_000_000_000_000,
                    -8_100_000_000_000_000_000 <= uy as int <= 8_100_000_000_000_000_000,
                    -8_100_000_000_000_000_000 <= wx as int <= 8_100_000_000_000_000_000,
                    -8_100_000_000_000_000_000 <= wy as int <= 8_100_000_000_000_000_000,
            ;
        }
        ux * wy - uy * wx <= 0
    }
}


/// On a tiling where exactly three polygons meet at every vertex that has
/// at least three, every extracted dual polygon has exactly four points:
/// the three incident centers and the repeated closing point.
pub proof fn law_dual_triangle(lk: Seq<(Point, Shape)>, d: Dual, fill: Color, stroke: Color)
    requires
        dual_entry_ok(lk, d, fill, stroke),
        forall|q: (int, int)|
            #[trigger] incidence_count(lk, q, lk.len() as int) >= 3 ==> incidence_count(
                lk,
                q,
                lk.len() as int,
            ) == 3,
    ensures
        d.points@.len() == 4,
{
    let v: Point = choose|v: Point|
        #[trigger] dual_ring_at(lk, d.points@, v) && d.points.len() - 1 == incidence_count(
            lk,
            v.quant(),
            lk.len() as int,
        );
    assert(incidence_count(lk, v.quant(), lk.len() as int) >= 3);
}

/// Represents a tiling composed of an arbitrary number of regular
/// polygons.  A model is used to imperatively construct a tiling by
/// building small patterns of shapes that are then repeated to fill a
/// two-dimensional space.
#[derive(Debug)]
pub struct Model {
    width: i32,
    height: i32,
    scale: i64,
    shapes: Vec<Shape>,
    lookup: Vec<(Point, Shape)>,
}

impl Model {
    /// The ordered sequence of pattern shapes.
    pub closed spec fn spec_shapes(self) -> Seq<Shape> {
        self.shapes@
    }

    /// The materialized tiling: quantized-point-keyed entries, in
    /// insertion order.
    pub closed spec fn spec_lookup(self) -> Seq<(Point, Shape)> {
        self.lookup@
    }

    pub closed spec fn spec_width(self) -> i32 {
        self.width
    }

    pub closed spec fn spec_height(self) -> i32 {
        self.height
    }

    pub closed spec fn spec_scale(self) -> i64 {
        self.scale
    }

    /// Internal invariant: every stored shape is well formed with a
    /// storable center, viewing parameters are in range, and the lookup
    /// holds at most one entry per quantized point.
    pub open spec fn wf(self) -> bool {
        &&& 0 <= self.spec_width() <= 32_767
        &&& 0 <= self.spec_height() <= 32_767
        &&& 100_000_000 <= self.spec_scale()
        &&& forall|i: int|
            0 <= i < self.spec_shapes().len() ==> (#[trigger] self.spec_shapes()[i]).wf()
                && self.spec_shapes()[i].point.bounded()
        &&& forall|i: int|
            0 <= i < self.spec_lookup().len() ==> (#[trigger] self.spec_lookup()[i]).1.wf()
                && self.spec_lookup()[i].1.point.bounded() && self.spec_lookup()[i].0.bounded()
        &&& forall|i: int, j: int|
            0 <= i < j < self.spec_lookup().len() ==> (#[trigger] self.spec_lookup()[i]).0.quant()
                != (#[trigger] self.spec_lookup()[j]).0.quant()
    }

    /// Returns an empty model for a viewing area of `width` by `height`
    /// pixels, one pattern unit mapping to `scale` pixels (`scale` in
    /// ticks).  The bounds on the arguments keep every fill-engine
    /// computation representable.
    pub fn new(width: i32, height: i32, scale: i64) -> (r: Model)
        requires
            0 <= width <= 32_767,
            0 <= height <= 32_767,
            scale >= 100_000_000,
        ensures
            r.spec_width() == width,
            r.spec_height() == height,
            r.spec_scale() == scale,
            r.spec_shapes() =~= Seq::<Shape>::empty(),
            r.spec_lookup() =~= Seq::<(Point, Shape)>::empty(),
            r.wf(),
    {
        Model { width, height, scale, shapes: Vec::new(), lookup: Vec::new() }
    }

    /// Adds `shape` to the model: appends it to the pattern sequence and
    /// inserts its center into the lookup, replacing the shape already
    /// recorded at that quantized point if there is one.
    pub fn add(&mut self, shape: Shape)
        requires
            old(self).wf(),
            shape.wf(),
            shape.point.bounded(),
        ensures
            final(self).wf(),
            final(self).spec_width() == old(self).spec_width(),
            final(self).spec_height() == old(self).spec_height(),
            final(self).spec_scale() == old(self).spec_scale(),
            final(self).spec_shapes() =~= old(self).spec_shapes().push(shape),
            final(self).spec_lookup() =~= lookup_insert(old(self).spec_lookup(), shape),
    {
        self.shapes.push(shape);
        let pos: Option<usize> = find_pt(&self.lookup, &shape.point);
        match pos {
            Some(i) => {
                let key: Point = self.lookup[i].0;
                self.lookup.set(i, (key, shape));
                proof {
                    let lk0: Seq<(Point, Shape)> = old(self).spec_lookup();
                    lemma_find_key_at(lk0, shape.point.quant(), i as int);
                    assert(lk0[i as int].0.quant() == shape.point.quant());
                    assert(self.spec_lookup() =~= lk0.update(i as int, (lk0[i as int].0, shape)));
                    assert forall|a: int, b: int|
                        0 <= a < b < self.spec_lookup().len() implies (
                    #[trigger] self.spec_lookup()[a]).0.quant() != (#[trigger] self.spec_lookup()[
                        b]).0.quant() by {
                        assert(self.spec_lookup()[a].0 == lk0[a].0);
                        assert(self.spec_lookup()[b].0 == lk0[b].0);
                    }
                    assert forall|a: int| 0 <= a < self.spec_lookup().len() implies (
                    #[trigger] self.spec_lookup()[a]).1.wf() && self.spec_lookup()[
                        a].1.point.bounded() && self.spec_lookup()[a].0.bounded() by {
                        if a != i as int {
                            assert(self.spec_lookup()[a] == lk0[a]);
                        }
                    }
                    assert forall|a: int| 0 <= a < self.spec_shapes().len() implies (
                    #[trigger] self.spec_shapes()[a]).wf() && self.spec_shapes()[
                        a].point.bounded() by {
                        if a < old(self).spec_shapes().len() {
                            assert(self.spec_shapes()[a] == old(self).spec_shapes()[a]);
                        }
                    }
                }
            },
            None => {
                self.lookup.push((shape.point, shape));
                proof {
                    let lk0: Seq<(Point, Shape)> = old(self).spec_lookup();
                    lemma_find_key_none(lk0, shape.point.quant());
                    assert forall|a: int, b: int|
                        0 <= a < b < self.spec_lookup().len() implies (
                    #[trigger] self.spec_lookup()[a]).0.quant() != (#[trigger] self.spec_lookup()[
                        b]).0.quant() by {
                        if b == lk0.len() {
                            assert(self.spec_lookup()[a].0 == lk0[a].0);
                        } else {
                            assert(self.spec_lookup()[a].0 == lk0[a].0);
                            assert(self.spec_lookup()[b].0 == lk0[b].0);
                        }
                    }
                    assert forall|a: int| 0 <= a < self.spec_lookup().len() implies (
                    #[trigger] self.spec_lookup()[a]).1.wf() && self.spec_lookup()[
                        a].1.point.bounded() && self.spec_lookup()[a].0.bounded() by {
                        if a < lk0.len() {
                            assert(self.spec_lookup()[a] == lk0[a]);
                        }
                    }
                    assert forall|a: int| 0 <= a < self.spec_shapes().len() implies (
                    #[trigger] self.spec_shapes()[a]).wf() && self.spec_shapes()[
                        a].point.bounded() by {
                        if a < old(self).spec_shapes().len() {
                            assert(self.spec_shapes()[a] == old(self).spec_shapes()[a]);
                        }
                    }
                }
            },
        }
    }

    /// Attaches the polygon described by `shape` to the edge with index
    /// `edge` of the shape with index `index`.
    fn attach(&mut self, index: usize, edge: usize, shape: Shape) -> (r: Result<(), Error>)
        requires
            old(self).wf(),
            shape.wf(),
        ensures
            final(self).wf(),
            final(self).spec_width() == old(self).spec_width(),
            final(self).spec_height() == old(self).spec_height(),
            final(self).spec_scale() == old(self).spec_scale(),
            index >= old(self).spec_shapes().len() ==> (r matches Err(e) && (e
                matches Error::OutOfBounds { index: i, length, name } && i == index && length == old(
                self,
            ).spec_shapes().len() && name@ == "model shapes"@) && *final(self) == *old(self)),
            index < old(self).spec_shapes().len() && edge >= old(self).spec_shapes()[
                index as int].sides ==> (r matches Err(e) && (e matches Error::OutOfBounds {
                index: i,
                length,
                name,
            } && i == edge && length == old(self).spec_shapes()[index as int].sides && name@
                == "shape edges"@) && *final(self) == *old(self)),
            index < old(self).spec_shapes().len() && edge < old(self).spec_shapes()[
                index as int].sides && !attach_fits(
                old(self).spec_shapes()[index as int],
                shape,
                edge as int,
            ) ==> r == Err::<(), Error>(Error::InvalidShape) && *final(self) == *old(self),
            index < old(self).spec_shapes().len() && edge < old(self).spec_shapes()[
                index as int].sides && attach_fits(
                old(self).spec_shapes()[index as int],
                shape,
                edge as int,
            ) ==> (r matches Ok(u) && final(self).spec_shapes() =~= old(self).spec_shapes().push(
                attached_shape(old(self).spec_shapes()[index as int], shape, edge as int),
            ) && final(self).spec_lookup() =~= lookup_insert(
                old(self).spec_lookup(),
                attached_shape(old(self).spec_shapes()[index as int], shape, edge as int),
            )),
    {
        if index >= self.shapes.len() {
            return Err(
                Error::OutOfBounds {
                    index,
                    length: self.shapes.len(),
                    name: "model shapes".to_owned(),
                },
            );
        }
        let parent: Shape = self.shapes[index];
        let attached: Shape = match parent.adjacent(shape.sides(), edge, shape.fill(), shape.stroke()) {
            Ok(s) => s,
            Err(e) => {
                return Err(e);
            },
        };
        if attached.point.x < -COORD_MAX || attached.point.x > COORD_MAX || attached.point.y
            < -COORD_MAX || attached.point.y > COORD_MAX {
            return Err(Error::InvalidShape);
        }
        self.add(attached);
        Ok(())
    }

    /// Attaches the polygon described by `shape` to every edge in `edges`
    /// of each shape in `indexes`, in order, and returns the contiguous
    /// index range of the newly appended shapes.
    #[verifier::loop_isolation(false)]
    #[verifier::rlimit(100)]
    pub fn add_multi(&mut self, indexes: Range<usize>, edges: Range<usize>, shape: Shape) -> (r:
        Result<Range<usize>, Error>)
        requires
            old(self).wf(),
            shape.wf(),
        ensures
            final(self).wf(),
            final(self).spec_width() == old(self).spec_width(),
            final(self).spec_height() == old(self).spec_height(),
            final(self).spec_scale() == old(self).spec_scale(),
            final(self).spec_shapes().len() >= old(self).spec_shapes().len(),
            final(self).spec_shapes().subrange(0, old(self).spec_shapes().len() as int) =~= old(
                self,
            ).spec_shapes(),
            r matches Ok(rg) ==> (rg.start == old(self).spec_shapes().len() && rg.end
                == final(self).spec_shapes().len() && rg.end - rg.start == range_count(
                indexes.start as int,
                indexes.end as int,
            ) * range_count(edges.start as int, edges.end as int)),
            r matches Err(e) ==> (e == Error::InvalidShape || (e matches Error::OutOfBounds {
                index,
                length,
                name,
            } && ((name@ == "model shapes"@ && length == final(self).spec_shapes().len()) || name@
                == "shape edges"@))),
            forall|k: int|
                old(self).spec_shapes().len() <= k < final(self).spec_shapes().len()
                    ==> indexes.start <= pair_parent(
                    indexes.start as int,
                    edges.start as int,
                    edges.end as int,
                    old(self).spec_shapes().len() as int,
                    k,
                ) < k && #[trigger] final(self).spec_shapes()[k] == attached_shape(
                    final(self).spec_shapes()[pair_parent(
                        indexes.start as int,
                        edges.start as int,
                        edges.end as int,
                        old(self).spec_shapes().len() as int,
                        k,
                    )],
                    shape,
                    pair_edge(
                        edges.start as int,
                        edges.end as int,
                        old(self).spec_shapes().len() as int,
                        k,
                    ),
                ),
            final(self).spec_lookup() =~= lookup_after_adds(
                old(self).spec_lookup(),
                final(self).spec_shapes().subrange(
                    old(self).spec_shapes().len() as int,
                    final(self).spec_shapes().len() as int,
                ),
                0,
            ),
            multi_ok(
                old(self).spec_shapes(),
                indexes.start as int,
                indexes.end as int,
                edges.start as int,
                edges.end as int,
                shape,
            ) ==> r is Ok,
    {
        let start: usize = self.shapes.len();
        let ghost base: Model = *old(self);
        let ie: usize = indexes.end;
        let mut i: usize = indexes.start;
        while i < ie
            invariant
                self.wf(),
                shape.wf(),
                self.spec_width() == base.spec_width(),
                self.spec_height() == base.spec_height(),
                self.spec_scale() == base.spec_scale(),
                start == base.spec_shapes().len(),
                self.spec_shapes().len() == start + range_count(indexes.start as int, i as int)
                    * range_count(edges.start as int, edges.end as int),
                self.spec_shapes().subrange(0, start as int) =~= base.spec_shapes(),
                indexes.start <= i,
                i <= ie || i == indexes.start,
                ie == indexes.end,
                forall|k: int|
                    start <= k < self.spec_shapes().len() ==> indexes.start <= pair_parent(
                        indexes.start as int,
                        edges.start as int,
                        edges.end as int,
                        start as int,
                        k,
                    ) < k && #[trigger] self.spec_shapes()[k] == attached_shape(
                        self.spec_shapes()[pair_parent(
                            indexes.start as int,
                            edges.start as int,
                            edges.end as int,
                            start as int,
                            k,
                        )],
                        shape,
                        pair_edge(edges.start as int, edges.end as int, start as int, k),
                    ),
                self.spec_lookup() =~= lookup_after_adds(
                    base.spec_lookup(),
                    self.spec_shapes().subrange(start as int, self.spec_shapes().len() as int),
                    0,
                ),
            decreases ie - i,
        {
            let ee: usize = edges.end;
            let mut e: usize = edges.start;
            while e < ee
                invariant
                    ie == indexes.end,
                    ee == edges.end,
                    e <= ee || e == edges.start,
                    self.wf(),
                    shape.wf(),
                    self.spec_width() == base.spec_width(),
                    self.spec_height() == base.spec_height(),
                    self.spec_scale() == base.spec_scale(),
                    start == base.spec_shapes().len(),
                    edges.start <= e,
                    i < ie,
                    indexes.start <= i,
                    self.spec_shapes().len() == start + range_count(
                        indexes.start as int,
                        i as int,
                    ) * range_count(edges.start as int, edges.end as int) + range_count(
                        edges.start as int,
                        e as int,
                    ),
                    self.spec_shapes().subrange(0, start as int) =~= base.spec_shapes(),
                    forall|k: int|
                        start <= k < self.spec_shapes().len() ==> indexes.start <= pair_parent(
                            indexes.start as int,
                            edges.start as int,
                            edges.end as int,
                            start as int,
                            k,
                        ) < k && #[trigger] self.spec_shapes()[k] == attached_shape(
                            self.spec_shapes()[pair_parent(
                                indexes.start as int,
                                edges.start as int,
                                edges.end as int,
                                start as int,
                                k,
                            )],
                            shape,
                            pair_edge(edges.start as int, edges.end as int, start as int, k),
                        ),
                    self.spec_lookup() =~= lookup_after_adds(
                        base.spec_lookup(),
                        self.spec_shapes().subrange(start as int, self.spec_shapes().len() as int),
                        0,
                    ),
                decreases ee - e,
            {
                let ghost before: Model = *self;
                match self.attach(i, e, shape) {
                    Ok(u) => {},
                    Err(err) => {
                        proof {
                            lemma_subrange_trans(
                                base.spec_shapes(),
                                before.spec_shapes(),
                                self.spec_shapes(),
                            );
                            if multi_ok(
                                base.spec_shapes(),
                                indexes.start as int,
                                ie as int,
                                edges.start as int,
                                ee as int,
                                shape,
                            ) {
                                lemma_multi_ok_at(
                                    base.spec_shapes(),
                                    indexes.start as int,
                                    ie as int,
                                    edges.start as int,
                                    ee as int,
                                    shape,
                                    i as int,
                                    e as int,
                                );
                                assert(before.spec_shapes().subrange(0, start as int)[i as int]
                                    == before.spec_shapes()[i as int]);
                                assert(before.spec_shapes()[i as int] == base.spec_shapes()[
                                    i as int]);
                                assert(false);
                            }
                        }
                        return Err(err);
                    },
                }
                proof {
                    lemma_subrange_trans(
                        base.spec_shapes(),
                        before.spec_shapes(),
                        self.spec_shapes(),
                    );
                    let is_: int = indexes.start as int;
                    let es_: int = edges.start as int;
                    let ee2: int = edges.end as int;
                    let m: int = range_count(es_, ee2);
                    let blen: int = before.spec_shapes().len() as int;
                    let ns: Shape = attached_shape(before.spec_shapes()[i as int], shape, e as int);
                    lemma_fundamental_div_mod_converse(
                        (i as int - is_) * m + (e as int - es_),
                        m,
                        i as int - is_,
                        e as int - es_,
                    );
                    assert(pair_parent(is_, es_, ee2, start as int, blen) == i as int);
                    assert(pair_edge(es_, ee2, start as int, blen) == e as int);
                    assert forall|k: int|
                        start <= k < self.spec_shapes().len() implies is_ <= pair_parent(
                        is_,
                        es_,
                        ee2,
                        start as int,
                        k,
                    ) < k && #[trigger] self.spec_shapes()[k] == attached_shape(
                        self.spec_shapes()[pair_parent(is_, es_, ee2, start as int, k)],
                        shape,
                        pair_edge(es_, ee2, start as int, k),
                    ) by {
                        if k < blen {
                            assert(self.spec_shapes()[k] == before.spec_shapes()[k]);
                            assert(self.spec_shapes()[pair_parent(is_, es_, ee2, start as int, k)]
                                == before.spec_shapes()[pair_parent(
                                is_,
                                es_,
                                ee2,
                                start as int,
                                k,
                            )]);
                        } else {
                            assert(self.spec_shapes()[k] == ns);
                            assert(self.spec_shapes()[i as int] == before.spec_shapes()[i as int]);
                        }
                    }
                    let added0: Seq<Shape> = before.spec_shapes().subrange(start as int, blen);
                    let added1: Seq<Shape> = self.spec_shapes().subrange(
                        start as int,
                        self.spec_shapes().len() as int,
                    );
                    assert(added1 =~= added0.push(ns));
                    lemma_lookup_after_push(base.spec_lookup(), added0, ns, 0);
                }
                e = e + 1;
            }
            proof {
                let ic: int = range_count(indexes.start as int, i as int);
                let ec: int = range_count(edges.start as int, edges.end as int);
                assert((ic + 1) * ec == ic * ec + ec) by (nonlinear_arith);
            }
            i = i + 1;
        }
        let end: usize = self.shapes.len();
        Ok(start..end)
    }

    /// Materializes a translated copy of every pattern shape at
    /// `point + shape offset`, skipping any target already present: the
    /// first writer wins, which is how independent recursive paths
    /// converge on one materialized shape per lattice point.
    #[verifier::loop_isolation(false)]
    fn add_repeats(&mut self, point: Point)
        requires
            old(self).wf(),
            point.bounded(),
        ensures
            final(self).wf(),
            final(self).spec_width() == old(self).spec_width(),
            final(self).spec_height() == old(self).spec_height(),
            final(self).spec_scale() == old(self).spec_scale(),
            final(self).spec_shapes() == old(self).spec_shapes(),
            final(self).spec_lookup() == repeats_after(
                old(self).spec_lookup(),
                old(self).spec_shapes(),
                point,
                0,
            ),
    {
        let n: usize = self.shapes.len();
        let ghost lk0: Seq<(Point, Shape)> = self.spec_lookup();
        let ghost sh: Seq<Shape> = self.spec_shapes();
        let mut k: usize = 0;
        while k < n
            invariant
                self.wf(),
                point.bounded(),
                n == sh.len(),
                k <= n,
                self.spec_shapes() == sh,
                self.spec_width() == old(self).spec_width(),
                self.spec_height() == old(self).spec_height(),
                self.spec_scale() == old(self).spec_scale(),
                repeats_after(lk0, sh, point, 0) == repeats_after(
                    self.spec_lookup(),
                    sh,
                    point,
                    k as int,
                ),
            decreases n - k,
        {
            let tp: Point = point.translate(self.shapes[k].point());
            let ghost cur: Seq<(Point, Shape)> = self.spec_lookup();
            if -COORD_MAX <= tp.x && tp.x <= COORD_MAX && -COORD_MAX <= tp.y && tp.y <= COORD_MAX {
                let pos: Option<usize> = find_pt(&self.lookup, &tp);
                if pos.is_none() {
                    let copy: Shape = self.shapes[k].clone_at(tp);
                    self.lookup.push((tp, copy));
                    proof {
                        assert(!has_key(cur, tp.quant()));
                        assert(self.spec_lookup() =~= cur.push(
                            (tp, Shape { point: tp, ..sh[k as int] }),
                        ));
                        assert forall|a: int, b: int|
                            0 <= a < b < self.spec_lookup().len() implies (
                        #[trigger] self.spec_lookup()[a]).0.quant() != (
                        #[trigger] self.spec_lookup()[b]).0.quant() by {
                            if b == cur.len() {
                                assert(self.spec_lookup()[a] == cur[a]);
                            } else {
                                assert(self.spec_lookup()[a] == cur[a]);
                                assert(self.spec_lookup()[b] == cur[b]);
                            }
                        }
                        assert forall|a: int| 0 <= a < self.spec_lookup().len() implies (
                        #[trigger] self.spec_lookup()[a]).1.wf() && self.spec_lookup()[
                            a].1.point.bounded() && self.spec_lookup()[a].0.bounded() by {
                            if a < cur.len() {
                                assert(self.spec_lookup()[a] == cur[a]);
                            }
                        }
                    }
                } else {
                    proof {
                        assert(has_key(cur, tp.quant()));
                    }
                }
            }
            proof {
                assert(tp == target_pt(point, sh[k as int]));
                assert(repeats_after(cur, sh, point, k as int) == repeats_after(
                    self.spec_lookup(),
                    sh,
                    point,
                    k as int + 1,
                ));
            }
            k = k + 1;
        }
    }

    /// One bounded depth-first walk of the fill engine: visits `point`
    /// with the remaining budget `depth`, materializes the pattern on a
    /// first visit, and walks on through every pattern offset in
    /// `is_..ie_` with the budget decremented.
    #[verifier::loop_isolation(false)]
    fn repeat_r(
        &mut self,
        is_: usize,
        ie_: usize,
        point: Point,
        depth: i32,
        memo: &mut Vec<(Point, i32)>,
    ) -> (r: Result<(), Error>)
        requires
            old(self).wf(),
            point.bounded(),
            memo_ok(old(memo)@),
            memo_reach(old(memo)@, old(self).spec_shapes(), is_ as int, ie_ as int),
            reach_any(old(self).spec_shapes(), is_ as int, ie_ as int, point),
        ensures
            final(self).wf(),
            memo_ok(final(memo)@),
            final(self).spec_width() == old(self).spec_width(),
            final(self).spec_height() == old(self).spec_height(),
            final(self).spec_scale() == old(self).spec_scale(),
            final(self).spec_shapes() == old(self).spec_shapes(),
            lookup_extended(
                old(self).spec_lookup(),
                final(self).spec_lookup(),
                old(self).spec_shapes(),
            ),
            memo_geq(old(memo)@, final(memo)@),
            memo_reach(final(memo)@, old(self).spec_shapes(), is_ as int, ie_ as int),
            (depth < 0 || memo_at_least(old(memo)@, point.quant(), depth as int)) ==> (*final(self)
                == *old(self) && final(memo)@ == old(memo)@),
            depth >= 0 && !memo_at_least(old(memo)@, point.quant(), depth as int)
                ==> memo_at_least(final(memo)@, point.quant(), depth as int),
            depth >= 0 && !memo_has(old(memo)@, point.quant()) ==> forall|j: int|
                0 <= j < old(self).spec_shapes().len() ==> (target_pt(
                    point,
                    #[trigger] old(self).spec_shapes()[j],
                ).bounded() ==> has_key(
                    final(self).spec_lookup(),
                    target_pt(point, old(self).spec_shapes()[j]).quant(),
                )),
            r matches Err(e) ==> (e matches Error::OutOfBounds { index, length, name } && length
                == old(self).spec_shapes().len() && name@ == "model shapes"@ && is_ < ie_ && ie_
                > old(self).spec_shapes().len() && index == if is_ >= old(self).spec_shapes().len() {
                is_ as int
            } else {
                old(self).spec_shapes().len() as int
            }),
            is_ >= ie_ || ie_ <= old(self).spec_shapes().len() ==> r is Ok,
            depth >= 0 && !memo_at_least(old(memo)@, point.quant(), depth as int) && is_ < ie_
                && ie_ > old(self).spec_shapes().len() ==> r is Err,
        decreases depth,
    {
        if depth < 0 {
            proof {
                lemma_memo_geq_refl(old(memo)@);
                assert(self.spec_lookup().subrange(0, self.spec_lookup().len() as int)
                    =~= self.spec_lookup());
            }
            return Ok(());
        }
        let pos: Option<usize> = find_pt(&*memo, &point);
        let prev: i32 = match pos {
            Some(t) => memo[t].1,
            None => -1,
        };
        if prev >= depth {
            proof {
                lemma_memo_geq_refl(old(memo)@);
                assert(memo_at_least(old(memo)@, point.quant(), depth as int));
                assert(self.spec_lookup().subrange(0, self.spec_lookup().len() as int)
                    =~= self.spec_lookup());
            }
            return Ok(());
        }
        proof {
            if memo_at_least(old(memo)@, point.quant(), depth as int) {
                let t0: int = choose|t: int|
                    0 <= t < old(memo)@.len() && (#[trigger] old(memo)@[t]).0.quant()
                        == point.quant() && old(memo)@[t].1 >= depth;
                if pos is Some {
                    let tf: int = pos->0 as int;
                    assert(t0 == tf);
                }
                assert(false);
            }
        }
        match pos {
            Some(t) => {
                let key: Point = memo[t].0;
                memo.set(t, (key, depth));
                proof {
                    assert forall|a: int| 0 <= a < memo@.len() implies (
                    #[trigger] memo@[a]).0.bounded() by {
                        if a != t as int {
                            assert(memo@[a] == old(memo)@[a]);
                        }
                    }
                    assert forall|a: int, b: int|
                        0 <= a < b < memo@.len() implies (#[trigger] memo@[a]).0.quant() != (
                    #[trigger] memo@[b]).0.quant() by {
                        assert(memo@[a].0 == old(memo)@[a].0);
                        assert(memo@[b].0 == old(memo)@[b].0);
                    }
                    assert forall|a: int| 0 <= a < old(memo)@.len() implies memo_entry_geq(
                        memo@,
                        #[trigger] old(memo)@[a],
                    ) by {
                        assert(memo@[a].0.quant() == old(memo)@[a].0.quant() && memo@[a].1 >= old(
                            memo,
                        )@[a].1);
                    }
                    assert(memo@[t as int].0.quant() == point.quant() && memo@[t as int].1
                        >= depth);
                    assert(memo_at_least(memo@, point.quant(), depth as int));
                    assert forall|a: int| 0 <= a < memo@.len() implies reach_any(
                        old(self).spec_shapes(),
                        is_ as int,
                        ie_ as int,
                        (#[trigger] memo@[a]).0,
                    ) by {
                        assert(memo@[a].0 == old(memo)@[a].0);
                    }
                }
            },
            None => {
                memo.push((point, depth));
                proof {
                    assert forall|a: int| 0 <= a < memo@.len() implies (
                    #[trigger] memo@[a]).0.bounded() by {
                        if a < old(memo)@.len() {
                            assert(memo@[a] == old(memo)@[a]);
                        }
                    }
                    assert forall|a: int, b: int|
                        0 <= a < b < memo@.len() implies (#[trigger] memo@[a]).0.quant() != (
                    #[trigger] memo@[b]).0.quant() by {
                        if b < old(memo)@.len() {
                            assert(memo@[a].0 == old(memo)@[a].0);
                            assert(memo@[b].0 == old(memo)@[b].0);
                        } else {
                            assert(memo@[a].0 == old(memo)@[a].0);
                        }
                    }
                    assert forall|a: int| 0 <= a < old(memo)@.len() implies memo_entry_geq(
                        memo@,
                        #[trigger] old(memo)@[a],
                    ) by {
                        assert(memo@[a].0.quant() == old(memo)@[a].0.quant() && memo@[a].1 >= old(
                            memo,
                        )@[a].1);
                    }
                    assert(memo@[memo@.len() - 1].0.quant() == point.quant() && memo@[memo@.len()
                        - 1].1 >= depth);
                    assert(memo_at_least(memo@, point.quant(), depth as int));
                    assert forall|a: int| 0 <= a < memo@.len() implies reach_any(
                        old(self).spec_shapes(),
                        is_ as int,
                        ie_ as int,
                        (#[trigger] memo@[a]).0,
                    ) by {
                        if a < old(memo)@.len() {
                            assert(memo@[a].0 == old(memo)@[a].0);
                        } else {
                            assert(memo@[a].0 == point);
                        }
                    }
                }
            },
        }
        let ghost mem1: Seq<(Point, i32)> = memo@;
        if prev == -1 {
            self.add_repeats(point);
            proof {
                lemma_repeats_after_extended(
                    old(self).spec_lookup(),
                    old(self).spec_shapes(),
                    point,
                    0,
                );
                lemma_repeats_after_has_key(
                    old(self).spec_lookup(),
                    old(self).spec_shapes(),
                    point,
                    0,
                );
            }
        }
        proof {
            assert(lookup_extended(
                old(self).spec_lookup(),
                self.spec_lookup(),
                old(self).spec_shapes(),
            )) by {
                if prev != -1 {
                    assert(self.spec_lookup().subrange(0, self.spec_lookup().len() as int)
                        =~= self.spec_lookup());
                }
            }
        }
        let ghost lk1: Seq<(Point, Shape)> = self.spec_lookup();
        let mut pattern: Vec<Shape> = Vec::new();
        let mut i: usize = is_;
        while i < ie_
            invariant
                is_ <= i,
                i <= ie_ || i == is_,
                i == is_ || i <= self.shapes@.len(),
                pattern@.len() == i - is_,
                forall|t: int|
                    0 <= t < pattern@.len() ==> is_ + t < self.shapes@.len() && (
                    #[trigger] pattern@[t]) == self.shapes@[is_ + t],
            decreases ie_ - i,
        {
            if i >= self.shapes.len() {
                return Err(
                    Error::OutOfBounds {
                        index: i,
                        length: self.shapes.len(),
                        name: "model shapes".to_owned(),
                    },
                );
            }
            pattern.push(self.shapes[i]);
            i = i + 1;
        }
        let ghost mid: Model = *self;
        let mut j: usize = 0;
        while j < pattern.len()
            invariant
                self.wf(),
                memo_ok(memo@),
                self.spec_width() == mid.spec_width(),
                self.spec_height() == mid.spec_height(),
                self.spec_scale() == mid.spec_scale(),
                self.spec_shapes() == mid.spec_shapes(),
                lookup_extended(mid.spec_lookup(), self.spec_lookup(), mid.spec_shapes()),
                memo_geq(mem1, memo@),
                memo_at_least(memo@, point.quant(), depth as int),
                memo_reach(memo@, mid.spec_shapes(), is_ as int, ie_ as int),
                prev == -1 ==> forall|jj: int|
                    0 <= jj < mid.spec_shapes().len() ==> (target_pt(
                        point,
                        #[trigger] mid.spec_shapes()[jj],
                    ).bounded() ==> has_key(
                        self.spec_lookup(),
                        target_pt(point, mid.spec_shapes()[jj]).quant(),
                    )),
            decreases pattern.len() - j,
        {
            let off: Point = pattern[j].point();
            let tp: Point = point.translate(off);
            if -COORD_MAX <= tp.x && tp.x <= COORD_MAX && -COORD_MAX <= tp.y && tp.y <= COORD_MAX
                && depth > 0 {
                let ghost before: Model = *self;
                let ghost membefore: Seq<(Point, i32)> = memo@;
                proof {
                    lemma_reach_step(
                        mid.spec_shapes(),
                        is_ as int,
                        ie_ as int,
                        point,
                        tp,
                        is_ as int + j as int,
                    );
                }
                match self.repeat_r(is_, ie_, tp, depth - 1, memo) {
                    Ok(u) => {},
                    Err(err) => {
                        proof {
                            lemma_extended_trans(
                                mid.spec_lookup(),
                                before.spec_lookup(),
                                self.spec_lookup(),
                                mid.spec_shapes(),
                            );
                            lemma_extended_trans(
                                old(self).spec_lookup(),
                                mid.spec_lookup(),
                                self.spec_lookup(),
                                mid.spec_shapes(),
                            );
                            lemma_memo_geq_trans(old(memo)@, mem1, memo@);
                            lemma_memo_geq_trans(mem1, membefore, memo@);
                            lemma_memo_at_least_mono(
                                membefore,
                                memo@,
                                point.quant(),
                                depth as int,
                            );
                            if prev == -1 {
                                assert forall|jj: int|
                                    0 <= jj < mid.spec_shapes().len() implies (target_pt(
                                    point,
                                    #[trigger] mid.spec_shapes()[jj],
                                ).bounded() ==> has_key(
                                    self.spec_lookup(),
                                    target_pt(point, mid.spec_shapes()[jj]).quant(),
                                )) by {
                                    if target_pt(point, mid.spec_shapes()[jj]).bounded() {
                                        lemma_extended_has_key(
                                            before.spec_lookup(),
                                            self.spec_lookup(),
                                            mid.spec_shapes(),
                                            target_pt(point, mid.spec_shapes()[jj]).quant(),
                                        );
                                    }
                                }
                            }
                        }
                        return Err(err);
                    },
                }
                proof {
                    lemma_extended_trans(
                        mid.spec_lookup(),
                        before.spec_lookup(),
                        self.spec_lookup(),
                        mid.spec_shapes(),
                    );
                    lemma_memo_geq_trans(mem1, membefore, memo@);
                    lemma_memo_at_least_mono(membefore, memo@, point.quant(), depth as int);
                    if prev == -1 {
                        assert forall|jj: int|
                            0 <= jj < mid.spec_shapes().len() implies (target_pt(
                            point,
                            #[trigger] mid.spec_shapes()[jj],
                        ).bounded() ==> has_key(
                            self.spec_lookup(),
                            target_pt(point, mid.spec_shapes()[jj]).quant(),
                        )) by {
                            if target_pt(point, mid.spec_shapes()[jj]).bounded() {
                                lemma_extended_has_key(
                                    before.spec_lookup(),
                                    self.spec_lookup(),
                                    mid.spec_shapes(),
                                    target_pt(point, mid.spec_shapes()[jj]).quant(),
                                );
                            }
                        }
                    }
                }
            }
            j = j + 1;
        }
        proof {
            lemma_extended_trans(
                old(self).spec_lookup(),
                mid.spec_lookup(),
                self.spec_lookup(),
                mid.spec_shapes(),
            );
            lemma_memo_geq_trans(old(memo)@, mem1, memo@);
        }
        Ok(())
    }

    /// Fills the rest of the viewing area with the pattern contained by
    /// the shapes with index in `indexes`, by iterative deepening: after
    /// each bounded walk from the origin the four corners of the viewing
    /// rectangle are tested for coverage, and the depth budget grows until
    /// they are covered, or until `MAX_FILL_DEPTH` is reached (the
    /// explicit safeguard this implementation adds for degenerate
    /// patterns, reported as a bounds error naming the fill depth).
    #[verifier::loop_isolation(false)]
    #[verifier::rlimit(100)]
    pub fn repeat(&mut self, indexes: Range<usize>) -> (r: Result<(), Error>)
        requires
            old(self).wf(),
        ensures
            final(self).wf(),
            final(self).spec_width() == old(self).spec_width(),
            final(self).spec_height() == old(self).spec_height(),
            final(self).spec_scale() == old(self).spec_scale(),
            final(self).spec_shapes() == old(self).spec_shapes(),
            lookup_extended(
                old(self).spec_lookup(),
                final(self).spec_lookup(),
                old(self).spec_shapes(),
            ),
            forall|j: int|
                0 <= j < old(self).spec_shapes().len() ==> (target_pt(
                    (Point { x: 0, y: 0 }),
                    #[trigger] old(self).spec_shapes()[j],
                ).bounded() ==> has_key(
                    final(self).spec_lookup(),
                    target_pt((Point { x: 0, y: 0 }), old(self).spec_shapes()[j]).quant(),
                )),
            r is Ok ==> exists|c1: Point, c2: Point, c3: Point, c4: Point|
                {
                    let hw = half_extent(
                        old(self).spec_width() as int,
                        old(self).spec_scale() as int,
                    );
                    let hh = half_extent(
                        old(self).spec_height() as int,
                        old(self).spec_scale() as int,
                    );
                    &&& #[trigger] reach_any(
                        old(self).spec_shapes(),
                        indexes.start as int,
                        indexes.end as int,
                        c1,
                    )
                    &&& #[trigger] reach_any(
                        old(self).spec_shapes(),
                        indexes.start as int,
                        indexes.end as int,
                        c2,
                    )
                    &&& #[trigger] reach_any(
                        old(self).spec_shapes(),
                        indexes.start as int,
                        indexes.end as int,
                        c3,
                    )
                    &&& #[trigger] reach_any(
                        old(self).spec_shapes(),
                        indexes.start as int,
                        indexes.end as int,
                        c4,
                    )
                    &&& c1.x < -hw && c1.y < -hh
                    &&& c2.x > hw && c2.y < -hh
                    &&& c3.x < -hw && c3.y > hh
                    &&& c4.x > hw && c4.y > hh
                },
            indexes.start < indexes.end && indexes.end > old(self).spec_shapes().len()
                ==> (r matches Err(e) && (e matches Error::OutOfBounds { index, length, name }
                && length == old(self).spec_shapes().len() && name@ == "model shapes"@ && index
                == if indexes.start >= old(self).spec_shapes().len() {
                indexes.start as int
            } else {
                old(self).spec_shapes().len() as int
            })),
            !(indexes.start < indexes.end && indexes.end > old(self).spec_shapes().len()) ==> (r
                is Ok || (r matches Err(e) && (e matches Error::OutOfBounds {
                index,
                length,
                name,
            } && index == MAX_FILL_DEPTH && length == MAX_FILL_DEPTH && name@ == "fill depth"@))),
    {
        let mut memo: Vec<(Point, i32)> = Vec::new();
        let origin: Point = Point::origin();
        let mut d: i32 = 0;
        let ghost base: Model = *old(self);
        let ghost is_: int = indexes.start as int;
        let ghost ie_: int = indexes.end as int;
        proof {
            assert(origin == (Point { x: 0, y: 0 }));
            assert(reach(base.spec_shapes(), is_, ie_, origin, 0));
        }
        while d < MAX_FILL_DEPTH
            invariant
                self.wf(),
                memo_ok(memo@),
                0 <= d,
                d == 0 ==> memo@.len() == 0,
                self.spec_width() == base.spec_width(),
                self.spec_height() == base.spec_height(),
                self.spec_scale() == base.spec_scale(),
                self.spec_shapes() == base.spec_shapes(),
                lookup_extended(base.spec_lookup(), self.spec_lookup(), base.spec_shapes()),
                memo_reach(memo@, base.spec_shapes(), is_, ie_),
                d > 0 ==> !(indexes.start < indexes.end && indexes.end
                    > base.spec_shapes().len()),
                d > 0 ==> forall|j: int|
                    0 <= j < base.spec_shapes().len() ==> (target_pt(
                        origin,
                        #[trigger] base.spec_shapes()[j],
                    ).bounded() ==> has_key(
                        self.spec_lookup(),
                        target_pt(origin, base.spec_shapes()[j]).quant(),
                    )),
            decreases MAX_FILL_DEPTH - d,
        {
            let ghost before: Model = *self;
            let ghost memprev: Seq<(Point, i32)> = memo@;
            match self.repeat_r(indexes.start, indexes.end, origin, d, &mut memo) {
                Ok(u) => {},
                Err(err) => {
                    proof {
                        lemma_extended_trans(
                            base.spec_lookup(),
                            before.spec_lookup(),
                            self.spec_lookup(),
                            base.spec_shapes(),
                        );
                        if d > 0 {
                            assert forall|j: int|
                                0 <= j < base.spec_shapes().len() implies (target_pt(
                                origin,
                                #[trigger] base.spec_shapes()[j],
                            ).bounded() ==> has_key(
                                self.spec_lookup(),
                                target_pt(origin, base.spec_shapes()[j]).quant(),
                            )) by {
                                if target_pt(origin, base.spec_shapes()[j]).bounded() {
                                    lemma_extended_has_key(
                                        before.spec_lookup(),
                                        self.spec_lookup(),
                                        base.spec_shapes(),
                                        target_pt(origin, base.spec_shapes()[j]).quant(),
                                    );
                                }
                            }
                        }
                    }
                    return Err(err);
                },
            }
            proof {
                lemma_extended_trans(
                    base.spec_lookup(),
                    before.spec_lookup(),
                    self.spec_lookup(),
                    base.spec_shapes(),
                );
                if d > 0 {
                    assert forall|j: int|
                        0 <= j < base.spec_shapes().len() implies (target_pt(
                        origin,
                        #[trigger] base.spec_shapes()[j],
                    ).bounded() ==> has_key(
                        self.spec_lookup(),
                        target_pt(origin, base.spec_shapes()[j]).quant(),
                    )) by {
                        if target_pt(origin, base.spec_shapes()[j]).bounded() {
                            lemma_extended_has_key(
                                before.spec_lookup(),
                                self.spec_lookup(),
                                base.spec_shapes(),
                                target_pt(origin, base.spec_shapes()[j]).quant(),
                            );
                        }
                    }
                }
            }
            proof {
                crate::shape::lemma_fdiv_mag(
                    (self.spec_width() as int) * (UNIT as int) * (UNIT as int),
                    2 * (self.spec_scale() as int),
                    3_280_000_000_000_000_000_000_000,
                    200_000_000,
                );
                crate::shape::lemma_fdiv_mag(
                    (self.spec_height() as int) * (UNIT as int) * (UNIT as int),
                    2 * (self.spec_scale() as int),
                    3_280_000_000_000_000_000_000_000,
                    200_000_000,
                );
            }
            let wq: i64 = fdiv(
                muli(muli(self.width as i128, UNIT as i128), UNIT as i128),
                2 * (self.scale as i128),
            ) as i64;
            let hq: i64 = fdiv(
                muli(muli(self.height as i128, UNIT as i128), UNIT as i128),
                2 * (self.scale as i128),
            ) as i64;
            let mut tl: bool = false;
            let mut tr: bool = false;
            let mut bl: bool = false;
            let mut br: bool = false;
            let ghost mut w1: Point = origin;
            let ghost mut w2: Point = origin;
            let ghost mut w3: Point = origin;
            let ghost mut w4: Point = origin;
            let mut t: usize = 0;
            while t < memo.len()
                invariant
                    t <= memo.len(),
                    tl ==> reach_any(base.spec_shapes(), is_, ie_, w1) && w1.x < -wq && w1.y
                        < -hq,
                    tr ==> reach_any(base.spec_shapes(), is_, ie_, w2) && w2.x > wq && w2.y < -hq,
                    bl ==> reach_any(base.spec_shapes(), is_, ie_, w3) && w3.x < -wq && w3.y > hq,
                    br ==> reach_any(base.spec_shapes(), is_, ie_, w4) && w4.x > wq && w4.y > hq,
                decreases memo.len() - t,
            {
                let p: Point = memo[t].0;
                proof {
                    assert(reach_any(base.spec_shapes(), is_, ie_, memo@[t as int].0));
                }
                if p.x < -wq && p.y < -hq {
                    tl = true;
                    proof {
                        w1 = p;
                    }
                }
                if p.x > wq && p.y < -hq {
                    tr = true;
                    proof {
                        w2 = p;
                    }
                }
                if p.x < -wq && p.y > hq {
                    bl = true;
                    proof {
                        w3 = p;
                    }
                }
                if p.x > wq && p.y > hq {
                    br = true;
                    proof {
                        w4 = p;
                    }
                }
                t = t + 1;
            }
            if tl && tr && bl && br {
                proof {
                    assert(wq as int == half_extent(
                        base.spec_width() as int,
                        base.spec_scale() as int,
                    ));
                    assert(hq as int == half_extent(
                        base.spec_height() as int,
                        base.spec_scale() as int,
                    ));
                }
                return Ok(());
            }
            d = d + 1;
        }
        Err(
            Error::OutOfBounds {
                index: MAX_FILL_DEPTH as usize,
                length: MAX_FILL_DEPTH as usize,
                name: "fill depth".to_owned(),
            },
        )
    }

    /// Returns the materialized shapes of the lookup, in insertion order:
    /// the polygons a renderer paints.
    pub fn tiles(&self) -> (r: Vec<Shape>)
        ensures
            r@.len() == self.spec_lookup().len(),
            forall|i: int| 0 <= i < r@.len() ==> (#[trigger] r@[i]) == self.spec_lookup()[i].1,
    {
        let mut r: Vec<Shape> = Vec::new();
        let mut i: usize = 0;
        while i < self.lookup.len()
            invariant
                i <= self.lookup@.len(),
                r@.len() == i,
                forall|j: int| 0 <= j < i ==> (#[trigger] r@[j]) == self.lookup@[j].1,
            decreases self.lookup@.len() - i,
        {
            r.push(self.lookup[i].1);
            i = i + 1;
        }
        r
    }

    /// Processes one incidence record of the dual extractor: a fresh
    /// vertex gets its polygon when at least three shapes meet there, and
    /// the running key assignment is kept unique and complete.
    #[verifier::loop_isolation(false)]
    #[verifier::rlimit(100)]
    fn dual_step(
        incid: &Vec<(Point, Shape)>,
        x: usize,
        seen: &mut Vec<(Point, bool)>,
        out: &mut Vec<Dual>,
        fill: Color,
        stroke: Color,
        Ghost(lk): Ghost<Seq<(Point, Shape)>>,
        Ghost(ks0): Ghost<Seq<(int, int)>>,
    ) -> (ksr: Ghost<Seq<(int, int)>>)
        requires
            x < incid@.len(),
            forall|x3: int| 0 <= x3 < incid@.len() ==> incid_ok(lk, #[trigger] incid@[x3]),
            forall|q: (int, int)|
                #[trigger] key_count(incid@, q, incid@.len() as int) == incidence_count(
                    lk,
                    q,
                    lk.len() as int,
                ),
            dual_loop_inv(lk, old(seen)@, ks0, old(out)@, fill, stroke),
            forall|x2: int|
                0 <= x2 < x ==> seen_has(old(seen)@, (#[trigger] incid@[x2]).0.quant()),
        ensures
            dual_loop_inv(lk, final(seen)@, ksr@, final(out)@, fill, stroke),
            forall|x2: int|
                0 <= x2 < x + 1 ==> seen_has(final(seen)@, (#[trigger] incid@[x2]).0.quant()),
    {
        let ghost mut ks: Seq<(int, int)> = ks0;
            let v: Point = incid[x].0;
            proof {
                assert(incid_ok(lk, incid@[x as int]));
            }
            let ghost seen0: Seq<(Point, bool)> = seen@;
            let ghost ksb: Seq<(int, int)> = ks;
            let ghost out0: Seq<Dual> = out@;
            let dup: Option<usize> = find_pt(&seen, &v);
            if dup.is_none() {
                seen.push((v, true));
                let built: Option<Dual> = Model::build_dual(&incid, &v, fill, stroke, Ghost(lk));
                proof {
                    assert(!seen_has(seen0, v.quant()));
                    lemma_dual_step(lk, seen0, ksb, v, built is Some);
                }
                if let Some(d) = built {
                    out.push(d);
                    proof {
                        ks = ks.push(v.quant());
                        assert(dual_key(lk, d, v.quant()));
                    }
                }
                proof {
                    assert(seen@ =~= seen0.push((v, true)));
                    if built is Some {
                        assert(ks =~= ksb.push(v.quant()));
                    } else {
                        assert(ks =~= ksb);
                    }
                    assert forall|j: int| 0 <= j < out@.len() implies dual_key(
                        lk,
                        #[trigger] out@[j],
                        ks[j],
                    ) by {
                        if j < out0.len() {
                            assert(out@[j] == out0[j] && ks[j] == ksb[j]);
                        }
                    }
                    assert forall|j: int| 0 <= j < out@.len() implies dual_entry_ok(
                        lk,
                        #[trigger] out@[j],
                        fill,
                        stroke,
                    ) by {
                        if j < out0.len() {
                            assert(out@[j] == out0[j]);
                        }
                    }
                    assert forall|j: int| 0 <= j < ks.len() implies seen_has(
                        seen@,
                        #[trigger] ks[j],
                    ) by {
                        if j < ksb.len() {
                            assert(seen_has(seen0, ksb[j]));
                            let t0: int = choose|t: int| #![trigger seen0[t]]
                                0 <= t < seen0.len() && seen0[t].0.quant() == ksb[j];
                            assert(seen@[t0] == seen0[t0]);
                            assert(seen@[t0].0.quant() == ks[j]);
                        } else {
                            assert(seen@[seen@.len() - 1].0.quant() == v.quant());
                            assert(ks[j] == v.quant());
                        }
                    }
                    assert forall|x2: int| 0 <= x2 < x + 1 implies seen_has(
                        seen@,
                        (#[trigger] incid@[x2]).0.quant(),
                    ) by {
                        if x2 < x {
                            let t0: int = choose|t: int| #![trigger seen0[t]]
                                0 <= t < seen0.len() && seen0[t].0.quant() == incid@[x2].0.quant();
                            assert(seen@[t0] == seen0[t0]);
                        } else {
                            assert(seen@[seen@.len() - 1].0.quant() == v.quant());
                        }
                    }
                }
            } else {
                proof {
                    let ti: int = dup->0 as int;
                    assert(seen@[ti].0.quant() == v.quant());
                    assert forall|x2: int| 0 <= x2 < x + 1 implies seen_has(
                        seen@,
                        (#[trigger] incid@[x2]).0.quant(),
                    ) by {
                        if x2 == x {
                            assert(seen@[ti].0.quant() == incid@[x2].0.quant());
                        }
                    }
                }
            }
            Ghost(ks)
    }

    /// Builds the dual polygon of the vertex `v` when at least three
    /// shapes meet there, and reports when fewer do.
    #[verifier::loop_isolation(false)]
    #[verifier::rlimit(100)]
    fn build_dual(
        incid: &Vec<(Point, Shape)>,
        v: &Point,
        fill: Color,
        stroke: Color,
        Ghost(lk): Ghost<Seq<(Point, Shape)>>,
    ) -> (r: Option<Dual>)
        requires
            forall|x: int| 0 <= x < incid@.len() ==> incid_ok(lk, #[trigger] incid@[x]),
            forall|q: (int, int)|
                #[trigger] key_count(incid@, q, incid@.len() as int) == incidence_count(
                    lk,
                    q,
                    lk.len() as int,
                ),
            vbounded(*v),
        ensures
            r matches Some(d) ==> (dual_entry_ok(lk, d, fill, stroke) && dual_key(lk, d, v.quant())
                && incidence_count(lk, v.quant(), lk.len() as int) >= 3),
            r is None ==> incidence_count(lk, v.quant(), lk.len() as int) < 3,
    {
        let members: Vec<Shape> = Model::gather_members(incid, v, Ghost(lk));
        if members.len() >= 3 {
            let sorted: Vec<Shape> = Model::sort_members(v, &members, Ghost(lk));
            let mut pts: Vec<Point> = Vec::new();
            let mut t2: usize = 0;
            while t2 < sorted.len()
                invariant
                    pts@.len() == t2,
                    t2 <= sorted@.len(),
                    forall|t: int| 0 <= t < t2 ==> (#[trigger] pts@[t]) == sorted@[t].point,
                decreases sorted.len() - t2,
            {
                pts.push(sorted[t2].point);
                t2 = t2 + 1;
            }
            let firstp: Point = pts[0];
            pts.push(firstp);
            let d: Dual = Dual::new(pts, fill, stroke);
            proof {
                assert(d.points@.len() == sorted@.len() + 1);
                assert forall|t: int| 0 <= t < d.points@.len() - 1 implies center_incident(
                    lk,
                    #[trigger] d.points@[t],
                    v.quant(),
                ) by {
                    assert(d.points@[t] == sorted@[t].point);
                }
                assert forall|ta: int, tb: int|
                    0 <= ta < tb < d.points@.len() - 1 implies ang_before(
                    *v,
                    #[trigger] d.points@[ta],
                    #[trigger] d.points@[tb],
                ) by {
                    assert(d.points@[ta] == sorted@[ta].point);
                    assert(d.points@[tb] == sorted@[tb].point);
                }
                assert(dual_ring_at(lk, d.points@, *v));
                assert(d.points@[d.points@.len() - 1] == d.points@[0]);
                assert(d.points@.len() - 1 == incidence_count(lk, v.quant(), lk.len() as int));
                assert(dual_entry_ok(lk, d, fill, stroke));
                assert(dual_key(lk, d, v.quant()));
            }
            Some(d)
        } else {
            None
        }
    }

    /// Returns the model's dual tiling: for every materialized lattice
    /// vertex where at least three shapes meet, one closed polygon through
    /// the centers of the shapes incident to that vertex, in descending
    /// angular order, with the first point repeated at the end.
    /// Collects one incidence record per ring vertex of every
    /// materialized shape: the vertex point paired with the shape touching
    /// it.
    #[verifier::loop_isolation(false)]
    #[verifier::rlimit(50)]
    fn collect_incidences(&self) -> (r: Result<Vec<(Point, Shape)>, Error>)
        requires
            self.wf(),
        ensures
            r matches Ok(incid) && (forall|x: int|
                0 <= x < incid@.len() ==> incid_ok(self.spec_lookup(), #[trigger] incid@[x])) && (
            forall|q: (int, int)|
                #[trigger] key_count(incid@, q, incid@.len() as int) == incidence_count(
                    self.spec_lookup(),
                    q,
                    self.spec_lookup().len() as int,
                )),
    {
        let ghost lk: Seq<(Point, Shape)> = self.spec_lookup();
        let mut incid: Vec<(Point, Shape)> = Vec::new();
        let mut li: usize = 0;
        while li < self.lookup.len()
            invariant
                li <= self.lookup@.len(),
                forall|x: int| 0 <= x < incid@.len() ==> incid_ok(lk, #[trigger] incid@[x]),
                forall|q: (int, int)|
                    #[trigger] key_count(incid@, q, incid@.len() as int) == incidence_count(
                        lk,
                        q,
                        li as int,
                    ),
            decreases self.lookup.len() - li,
        {
            let s: Shape = self.lookup[li].1;
            let ps: Vec<Point> = match s.points(0) {
                Ok(v) => v,
                Err(er) => {
                    return Err(er);
                },
            };
            let n: usize = ps.len() - 1;
            let mut t: usize = 0;
            while t < n
                invariant
                    n == s.sides,
                    ps.len() == n + 1,
                    s == self.lookup@[li as int].1,
                    li < self.lookup.len(),
                    t <= n,
                    forall|x: int| 0 <= x < incid@.len() ==> incid_ok(lk, #[trigger] incid@[x]),
                    forall|q: (int, int)|
                        #[trigger] key_count(incid@, q, incid@.len() as int) == incidence_count(
                            lk,
                            q,
                            li as int,
                        ) + occ_upto(s, q, t as int),
                decreases n - t,
            {
                let ghost prev: Seq<(Point, Shape)> = incid@;
                incid.push((ps[t], s));
                proof {
                    assert(ring_entry_ok(s, 0, ps@, t as int));
                    assert(vertex_key(s, t as int) == ps@[t as int].quant());
                    assert(is_incident(s, ps@[t as int].quant()));
                    assert(lk[li as int].1 == s);
                    assert(incid_ok(lk, incid@[incid@.len() - 1]));
                    assert forall|q: (int, int)|
                        #[trigger] key_count(incid@, q, incid@.len() as int) == incidence_count(
                        lk,
                        q,
                        li as int,
                    ) + occ_upto(s, q, t as int + 1) by {
                        lemma_key_count_frame(prev, incid@, q, prev.len() as int);
                        assert(key_count(incid@, q, incid@.len() as int) == key_count(
                            incid@,
                            q,
                            prev.len() as int,
                        ) + if incid@[prev.len() as int].0.quant() == q {
                            1int
                        } else {
                            0int
                        });
                    }
                }
                t = t + 1;
            }
            proof {
                assert forall|q: (int, int)|
                    #[trigger] key_count(incid@, q, incid@.len() as int) == incidence_count(
                    lk,
                    q,
                    li as int + 1,
                ) by {
                    assert(incidence_count(lk, q, li as int + 1) == incidence_count(lk, q, li as int)
                        + occ_upto(lk[li as int].1, q, lk[li as int].1.sides as int));
                }
            }
            li = li + 1;
        }
        Ok(incid)
    }

    /// Gathers, in insertion order, the shapes whose incidence records
    /// carry the lattice key of `v`.
    #[verifier::loop_isolation(false)]
    fn gather_members(
        incid: &Vec<(Point, Shape)>,
        v: &Point,
        Ghost(lk): Ghost<Seq<(Point, Shape)>>,
    ) -> (members: Vec<Shape>)
        requires
            forall|x: int| 0 <= x < incid@.len() ==> incid_ok(lk, #[trigger] incid@[x]),
        ensures
            members_ok(lk, members@, *v),
            members@.len() == key_count(incid@, v.quant(), incid@.len() as int),
    {
        let mut members: Vec<Shape> = Vec::new();
        let mut y: usize = 0;
        while y < incid.len()
            invariant
                y <= incid@.len(),
                members_ok(lk, members@, *v),
                members@.len() == key_count(incid@, v.quant(), y as int),
            decreases incid.len() - y,
        {
            let cand: Point = incid[y].0;
            if cand == *v {
                members.push(incid[y].1);
                proof {
                    assert(incid_ok(lk, incid@[y as int]));
                    assert(incid@[y as int].0.quant() == v.quant());
                    let wi: int = choose|i: int|
                        0 <= i < lk.len() && (#[trigger] lk[i]).1 == incid@[y as int].1;
                    assert(center_incident(lk, incid@[y as int].1.point, v.quant()));
                }
            }
            y = y + 1;
        }
        members
    }

    /// Sorts the gathered shapes into descending angular order around `v`.
    #[verifier::loop_isolation(false)]
    #[verifier::rlimit(100)]
    fn sort_members(
        v: &Point,
        members: &Vec<Shape>,
        Ghost(lk): Ghost<Seq<(Point, Shape)>>,
    ) -> (sorted: Vec<Shape>)
        requires
            vbounded(*v),
            members_ok(lk, members@, *v),
        ensures
            sorted@.len() == members@.len(),
            members_ok(lk, sorted@, *v),
            pairwise_sorted(*v, sorted@),
    {
        let mut sorted: Vec<Shape> = Vec::new();
        let mut m: usize = 0;
        while m < members.len()
            invariant
                sorted@.len() == m,
                m <= members@.len(),
                members_ok(lk, sorted@, *v),
                pairwise_sorted(*v, sorted@),
            decreases members.len() - m,
        {
            let cur: Shape = members[m];
            let cp: Point = cur.point;
            let pos: usize = insert_pos(v, &sorted, &cp);
            let ghost olds: Seq<Shape> = sorted@;
            proof {
                if (pos as int) < olds.len() {
                    lemma_ang_before_total(*v, olds[pos as int].point, cp);
                }
                assert forall|t: int| pos <= t < olds.len() implies ang_before(
                    *v,
                    cp,
                    (#[trigger] olds[t]).point,
                ) by {
                    if t > pos {
                        lemma_ang_before_trans(*v, cp, olds[pos as int].point, olds[t].point);
                    }
                }
            }
            sorted.insert(pos, cur);
            proof {
                assert(sorted@ == olds.insert(pos as int, cur));
                assert forall|t1: int, t2: int| 0 <= t1 < t2 < sorted@.len() implies ang_before(
                    *v,
                    (#[trigger] sorted@[t1]).point,
                    (#[trigger] sorted@[t2]).point,
                ) by {
                    if t2 < pos {
                        assert(sorted@[t1] == olds[t1] && sorted@[t2] == olds[t2]);
                    } else if t2 == pos {
                        assert(sorted@[t1] == olds[t1] && sorted@[t2] == cur);
                    } else {
                        if t1 < pos {
                            assert(sorted@[t1] == olds[t1] && sorted@[t2] == olds[t2 - 1]);
                        } else if t1 == pos {
                            assert(sorted@[t1] == cur && sorted@[t2] == olds[t2 - 1]);
                        } else {
                            assert(sorted@[t1] == olds[t1 - 1] && sorted@[t2] == olds[t2 - 1]);
                        }
                    }
                }
                assert forall|t: int| 0 <= t < sorted@.len() implies center_incident(
                    lk,
                    (#[trigger] sorted@[t]).point,
                    v.quant(),
                ) && sorted@[t].point.bounded() by {
                    if t < pos {
                        assert(sorted@[t] == olds[t]);
                    } else if t > pos {
                        assert(sorted@[t] == olds[t - 1]);
                    }
                }
            }
            m = m + 1;
        }
        sorted
    }

    /// Returns the model's dual tiling: for every materialized lattice
    /// vertex where at least three shapes meet, one closed polygon through
    /// the centers of the shapes incident to that vertex, in descending
    /// angular order, with the first point repeated at the end.
    #[verifier::loop_isolation(false)]
    #[verifier::rlimit(100)]
    pub fn dual(&self, fill: Color, stroke: Color) -> (r: Result<Vec<Dual>, Error>)
        requires
            self.wf(),
        ensures
            r is Ok,
            r matches Ok(ds) ==> forall|j: int|
                0 <= j < ds.len() ==> dual_entry_ok(self.spec_lookup(), #[trigger] ds[j], fill, stroke),
            r matches Ok(ds) ==> dual_complete_any(self.spec_lookup(), ds@),
    {
        let ghost lk: Seq<(Point, Shape)> = self.spec_lookup();
        let incid: Vec<(Point, Shape)> = match self.collect_incidences() {
            Ok(v) => v,
            Err(er) => {
                return Err(er);
            },
        };
        let mut seen: Vec<(Point, bool)> = Vec::new();
        let mut out: Vec<Dual> = Vec::new();
        let ghost mut ks: Seq<(int, int)> = Seq::empty();
        let mut x: usize = 0;
        while x < incid.len()
            invariant
                x <= incid@.len(),
                dual_loop_inv(lk, seen@, ks, out@, fill, stroke),
                forall|x2: int|
                    0 <= x2 < x ==> seen_has(seen@, (#[trigger] incid@[x2]).0.quant()),
            decreases incid.len() - x,
        {
            let g: Ghost<Seq<(int, int)>> = Model::dual_step(
                &incid,
                x,
                &mut seen,
                &mut out,
                fill,
                stroke,
                Ghost(lk),
                Ghost(ks),
            );
            proof {
                ks = g@;
            }
            x = x + 1;
        }
        proof {
            assert forall|q: (int, int)|
                #[trigger] incidence_count(lk, q, lk.len() as int) >= 3 implies ks.contains(
                q,
            ) by {
                assert(key_count(incid@, q, incid@.len() as int) >= 3);
                lemma_key_count_pos(incid@, q, incid@.len() as int);
                let x0: int = choose|x2: int|
                    0 <= x2 < incid@.len() && (#[trigger] incid@[x2]).0.quant() == q;
                assert(seen_has(seen@, incid@[x0].0.quant()));
                let t0: int = choose|t: int| #![trigger seen@[t]]
                    0 <= t < seen@.len() && seen@[t].0.quant() == q;
                assert(ks.contains(q));
            }
            assert(dual_complete(lk, out@, ks));
            assert(dual_complete_any(lk, out@));
            assert(forall|j: int|
                0 <= j < out@.len() ==> dual_entry_ok(lk, #[trigger] out@[j], fill, stroke));
        }
        Ok(out)
    }
}

/// The number of indices the half-open range `s..e` covers.
pub open spec fn range_count(s: int, e: int) -> int {
    if s < e {
        e - s
    } else {
        0
    }
}

/// Appending to a sequence keeps an established prefix.
proof fn lemma_subrange_trans(base: Seq<Shape>, mid: Seq<Shape>, cur: Seq<Shape>)
    requires
        base.len() <= mid.len() <= cur.len(),
        mid.subrange(0, base.len() as int) =~= base,
        cur.subrange(0, mid.len() as int) =~= mid,
    ensures
        cur.subrange(0, base.len() as int) =~= base,
{
    assert forall|k: int| 0 <= k < base.len() implies cur.subrange(0, base.len() as int)[k]
        == base[k] by {
        assert(cur.subrange(0, mid.len() as int)[k] == mid[k]);
        assert(mid.subrange(0, base.len() as int)[k] == base[k]);
    }
}

/// Finds the first entry of `v` whose key point equals `p` under
/// quantized comparison.
fn find_pt<T>(v: &Vec<(Point, T)>, p: &Point) -> (r: Option<usize>)
    ensures
        r matches Some(i) ==> (i < v.len() && v@[i as int].0.quant() == p.quant() && forall|j: int|
            0 <= j < i ==> (#[trigger] v@[j]).0.quant() != p.quant()),
        r is None ==> forall|j: int| 0 <= j < v.len() ==> (#[trigger] v@[j]).0.quant() != p.quant(),
{
    let mut i: usize = 0;
    while i < v.len()
        invariant
            i <= v.len(),
            forall|j: int| 0 <= j < i ==> (#[trigger] v@[j]).0.quant() != p.quant(),
        decreases v.len() - i,
    {
        if v[i].0 == *p {
            return Some(i);
        }
        i = i + 1;
    }
    None
}

} // verus!
