//! The separating axis test: project both polygons onto every candidate
//! axis of either polygon and report overlap unless some axis separates the
//! two projection intervals.

use vstd::prelude::*;

use crate::geom::Point;
use crate::geom::abs_val;
use crate::geom::axis_in_bounds;
use crate::geom::dot;
use crate::geom::dot_product;
use crate::geom::in_bounds;
use crate::geom::pt_val;
use crate::shape::BoundingPolygon;

verus! {

/// A projection interval: the least and greatest scalar projection of a
/// polygon's corners onto one axis.
pub struct MinMax {
    pub min: i64,
    pub max: i64,
}

impl MinMax {
    /// Packs the two ends of a projection interval.
    pub fn new(min: i64, max: i64) -> (r: MinMax)
        ensures
            r.min == min,
            r.max == max,
    {
        MinMax { min, max }
    }
}

/// Least dot product of a corner of `c` with `axis`.
pub open spec fn min_proj(c: Seq<Point>, axis: Point) -> int
    decreases c.len(),
{
    if c.len() <= 1 {
        dot(c[0], axis)
    } else {
        let m = min_proj(c.drop_last(), axis);
        if dot(c.last(), axis) < m {
            dot(c.last(), axis)
        } else {
            m
        }
    }
}

/// Greatest dot product of a corner of `c` with `axis`.
pub open spec fn max_proj(c: Seq<Point>, axis: Point) -> int
    decreases c.len(),
{
    if c.len() <= 1 {
        dot(c[0], axis)
    } else {
        let m = max_proj(c.drop_last(), axis);
        if dot(c.last(), axis) > m {
            dot(c.last(), axis)
        } else {
            m
        }
    }
}

/// The projection interval brackets every corner's projection and each end
/// is attained by some corner.
pub proof fn lemma_proj_range(c: Seq<Point>, axis: Point)
    requires
        c.len() >= 1,
    ensures
        forall|i: int|
            0 <= i < c.len() ==> min_proj(c, axis) <= #[trigger] dot(c[i], axis) <= max_proj(
                c,
                axis,
            ),
        exists|i: int| 0 <= i < c.len() && dot(c[i], axis) == min_proj(c, axis),
        exists|i: int| 0 <= i < c.len() && dot(c[i], axis) == max_proj(c, axis),
    decreases c.len(),
{
    if c.len() == 1 {
        assert(0 <= 0 < c.len() && dot(c[0], axis) == min_proj(c, axis));
        assert(0 <= 0 < c.len() && dot(c[0], axis) == max_proj(c, axis));
    } else {
        let d = c.drop_last();
        lemma_proj_range(d, axis);
        assert(forall|i: int| 0 <= i < d.len() ==> #[trigger] c[i] == d[i]);
        if dot(c.last(), axis) < min_proj(d, axis) {
            assert(0 <= c.len() - 1 < c.len() && dot(c[c.len() - 1], axis) == min_proj(c, axis));
        } else {
            let i = choose|i: int| 0 <= i < d.len() && dot(d[i], axis) == min_proj(d, axis);
            assert(0 <= i < c.len() && dot(c[i], axis) == min_proj(c, axis));
        }
        if dot(c.last(), axis) > max_proj(d, axis) {
            assert(0 <= c.len() - 1 < c.len() && dot(c[c.len() - 1], axis) == max_proj(c, axis));
        } else {
            let i = choose|i: int| 0 <= i < d.len() && dot(d[i], axis) == max_proj(d, axis);
            assert(0 <= i < c.len() && dot(c[i], axis) == max_proj(c, axis));
        }
    }
}

/// Computes the projection interval of a populated polygon on one axis.
pub fn find_max_min_projection(poly: &BoundingPolygon, axis: Point) -> (mm: MinMax)
    requires
        poly.corners@.len() >= 1,
        forall|i: int| 0 <= i < poly.corners@.len() ==> in_bounds(#[trigger] poly.corners@[i]),
        axis_in_bounds(axis),
    ensures
        mm.min == min_proj(poly.corners@, axis),
        mm.max == max_proj(poly.corners@, axis),
{
    let c = &poly.corners;
    let n = c.len();
    let mut projection: i64 = dot_product(c[0], axis);
    let mut max: i64 = projection;
    let mut min: i64 = projection;
    proof {
        assert(c@.subrange(0, 1).len() == 1);
        assert(c@.subrange(0, 1)[0] == c@[0]);
    }
    let mut i: usize = 1;
    while i < n
        invariant
            n == c@.len(),
            1 <= i <= n,
            forall|j: int| 0 <= j < n ==> in_bounds(#[trigger] c@[j]),
            axis_in_bounds(axis),
            min == min_proj(c@.subrange(0, i as int), axis),
            max == max_proj(c@.subrange(0, i as int), axis),
        decreases n - i,
    {
        projection = dot_product(c[i], axis);
        proof {
            let sub1 = c@.subrange(0, i as int + 1);
            assert(sub1.drop_last() =~= c@.subrange(0, i as int));
            assert(sub1.last() == c@[i as int]);
        }
        max = if max > projection {
            max
        } else {
            projection
        };
        min = if min < projection {
            min
        } else {
            projection
        };
        i = i + 1;
    }
    proof {
        assert(c@.subrange(0, n as int) =~= c@);
    }
    MinMax::new(min, max)
}

/// `axis` separates the two corner sets: their projection intervals are
/// strictly disjoint.  Intervals that merely touch do not separate.
pub open spec fn separated_on(c1: Seq<Point>, c2: Seq<Point>, axis: Point) -> bool {
    max_proj(c1, axis) < min_proj(c2, axis) || max_proj(c2, axis) < min_proj(c1, axis)
}

/// The two polygons overlap or touch: no candidate axis of either polygon
/// separates their projection intervals.
pub open spec fn spec_collides(p1: &BoundingPolygon, p2: &BoundingPolygon) -> bool {
    &&& !(exists|k: int|
        0 <= k < p1.normals@.len() && separated_on(
            p1.corners@,
            p2.corners@,
            #[trigger] p1.normals@[k],
        ))
    &&& !(exists|k: int|
        0 <= k < p2.normals@.len() && separated_on(
            p1.corners@,
            p2.corners@,
            #[trigger] p2.normals@[k],
        ))
}

/// Tests two populated polygons for overlap along every candidate axis of
/// both, returning `false` as soon as a separating axis is found.
pub fn collides(p1: &BoundingPolygon, p2: &BoundingPolygon) -> (r: bool)
    requires
        p1.wf(),
        p2.wf(),
    ensures
        r == spec_collides(p1, p2),
{
    let n1 = p1.normals.len();
    let mut k: usize = 0;
    while k < n1
        invariant
            p1.wf(),
            p2.wf(),
            n1 == p1.normals@.len(),
            k <= n1,
            forall|j: int|
                0 <= j < k ==> !separated_on(p1.corners@, p2.corners@, #[trigger] p1.normals@[j]),
        decreases n1 - k,
    {
        let normal = p1.normals[k];
        let mm1 = find_max_min_projection(p1, normal);
        let mm2 = find_max_min_projection(p2, normal);
        if mm1.max < mm2.min || mm2.max < mm1.min {
            proof {
                assert(separated_on(p1.corners@, p2.corners@, p1.normals@[k as int]));
            }
            return false;
        }
        k = k + 1;
    }
    let n2 = p2.normals.len();
    let mut k: usize = 0;
    while k < n2
        invariant
            p1.wf(),
            p2.wf(),
            n2 == p2.normals@.len(),
            k <= n2,
            forall|j: int|
                0 <= j < p1.normals@.len() ==> !separated_on(
                    p1.corners@,
                    p2.corners@,
                    #[trigger] p1.normals@[j],
                ),
            forall|j: int|
                0 <= j < k ==> !separated_on(p1.corners@, p2.corners@, #[trigger] p2.normals@[j]),
        decreases n2 - k,
    {
        let normal = p2.normals[k];
        let mm1 = find_max_min_projection(p1, normal);
        let mm2 = find_max_min_projection(p2, normal);
        if mm1.max < mm2.min || mm2.max < mm1.min {
            proof {
                assert(separated_on(p1.corners@, p2.corners@, p2.normals@[k as int]));
            }
            return false;
        }
        k = k + 1;
    }
    true
}

/// Law: the collision test is symmetric in its two polygons.  The candidate
/// axes are drawn from both polygons either way, and interval disjointness
/// does not depend on which interval comes first.
pub proof fn lemma_collides_symmetric(p1: &BoundingPolygon, p2: &BoundingPolygon)
    ensures
        spec_collides(p1, p2) == spec_collides(p2, p1),
{
    let c1 = p1.corners@;
    let c2 = p2.corners@;
    if spec_collides(p1, p2) {
        assert forall|k: int| 0 <= k < p2.normals@.len() implies !separated_on(
            c2,
            c1,
            #[trigger] p2.normals@[k],
        ) by {
            assert(!separated_on(c1, c2, p2.normals@[k]));
        }
        assert forall|k: int| 0 <= k < p1.normals@.len() implies !separated_on(
            c2,
            c1,
            #[trigger] p1.normals@[k],
        ) by {
            assert(!separated_on(c1, c2, p1.normals@[k]));
        }
        assert(spec_collides(p2, p1));
    }
    if spec_collides(p2, p1) {
        assert forall|k: int| 0 <= k < p1.normals@.len() implies !separated_on(
            c1,
            c2,
            #[trigger] p1.normals@[k],
        ) by {
            assert(!separated_on(c2, c1, p1.normals@[k]));
        }
        assert forall|k: int| 0 <= k < p2.normals@.len() implies !separated_on(
            c1,
            c2,
            #[trigger] p2.normals@[k],
        ) by {
            assert(!separated_on(c2, c1, p2.normals@[k]));
        }
        assert(spec_collides(p1, p2));
    }
}

/// Translating a point shifts its projection by the projection of the
/// translation.
proof fn lemma_dot_translate(p: Point, q: Point, tx: int, ty: int, axis: Point)
    requires
        pt_val(q) == (p.x + tx, p.y + ty),
    ensures
        dot(q, axis) == dot(p, axis) + tx * axis.x + ty * axis.y,
{
    assert(q.x * axis.x == p.x * axis.x + tx * axis.x) by (nonlinear_arith)
        requires
            q.x == p.x + tx;
    assert(q.y * axis.y == p.y * axis.y + ty * axis.y) by (nonlinear_arith)
        requires
            q.y == p.y + ty;
}

/// Translating a corner set shifts both ends of its projection interval by
/// the projection of the translation.
pub proof fn lemma_proj_translate(c1: Seq<Point>, c2: Seq<Point>, tx: int, ty: int, axis: Point)
    requires
        c1.len() >= 1,
        c2.len() == c1.len(),
        forall|i: int| 0 <= i < c1.len() ==> pt_val(#[trigger] c2[i]) == (c1[i].x + tx, c1[i].y + ty),
    ensures
        min_proj(c2, axis) == min_proj(c1, axis) + tx * axis.x + ty * axis.y,
        max_proj(c2, axis) == max_proj(c1, axis) + tx * axis.x + ty * axis.y,
    decreases c1.len(),
{
    if c1.len() == 1 {
        lemma_dot_translate(c1[0], c2[0], tx, ty, axis);
    } else {
        let d1 = c1.drop_last();
        let d2 = c2.drop_last();
        assert(forall|i: int| 0 <= i < d1.len() ==> #[trigger] d1[i] == c1[i]);
        assert(forall|i: int| 0 <= i < d2.len() ==> #[trigger] d2[i] == c2[i]);
        lemma_proj_translate(d1, d2, tx, ty, axis);
        lemma_dot_translate(c1.last(), c2.last(), tx, ty, axis);
    }
}

/// Law: a polygon does not collide with a translate of itself once the
/// translation, projected onto one of the polygon's own axes, moves further
/// than the polygon extends along that axis.
pub proof fn lemma_translate_separates(
    p1: &BoundingPolygon,
    p2: &BoundingPolygon,
    tx: int,
    ty: int,
    k: int,
)
    requires
        p1.corners@.len() >= 1,
        p2.corners@.len() == p1.corners@.len(),
        forall|i: int|
            0 <= i < p1.corners@.len() ==> pt_val(#[trigger] p2.corners@[i]) == (
                p1.corners@[i].x + tx,
                p1.corners@[i].y + ty,
            ),
        0 <= k < p1.normals@.len(),
        abs_val(tx * p1.normals@[k].x + ty * p1.normals@[k].y) > max_proj(
            p1.corners@,
            p1.normals@[k],
        ) - min_proj(p1.corners@, p1.normals@[k]),
    ensures
        !spec_collides(p1, p2),
{
    let n = p1.normals@[k];
    lemma_proj_translate(p1.corners@, p2.corners@, tx, ty, n);
    assert(separated_on(p1.corners@, p2.corners@, n));
}

/// Law: a populated polygon always collides with itself; identical corner
/// sets give identical projection intervals on every axis, and an interval
/// cannot lie strictly beyond itself.
pub proof fn lemma_collides_self(p: &BoundingPolygon)
    requires
        p.corners@.len() >= 1,
    ensures
        spec_collides(p, p),
{
    let c = p.corners@;
    assert forall|k: int| 0 <= k < p.normals@.len() implies !separated_on(
        c,
        c,
        #[trigger] p.normals@[k],
    ) by {
        lemma_proj_range(c, p.normals@[k]);
        assert(min_proj(c, p.normals@[k]) <= dot(c[0], p.normals@[k]));
        assert(dot(c[0], p.normals@[k]) <= max_proj(c, p.normals@[k]));
    }
}

} // verus!
