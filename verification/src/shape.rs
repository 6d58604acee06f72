//! A convex polygon together with the deduplicated directions of its edge
//! normals, rebuilt in place from a fresh corner sequence.

use vstd::prelude::*;

use crate::geom::Point;
use crate::geom::abs_val;
use crate::geom::axis_in_bounds;
use crate::geom::canon_dir;
use crate::geom::canonical_axis;
use crate::geom::in_bounds;
use crate::geom::lemma_canon_parallel;
use crate::geom::lemma_canon_primitive;
use crate::geom::pt_val;
use crate::num::gcd;

verus! {

/// Edge `i` of the cyclic corner sequence, as a vector: edge `0` runs from
/// the last corner to the first, edge `i` from corner `i - 1` to corner `i`.
pub open spec fn edge_vec(c: Seq<Point>, i: int) -> (int, int) {
    if i == 0 {
        (c[0].x - c[c.len() - 1].x, c[0].y - c[c.len() - 1].y)
    } else {
        (c[i].x - c[i - 1].x, c[i].y - c[i - 1].y)
    }
}

/// An edge whose two endpoints differ.  Zero-length edges (repeated
/// consecutive corners) have no direction and are skipped.
pub open spec fn edge_nondegenerate(c: Seq<Point>, i: int) -> bool {
    !(edge_vec(c, i).0 == 0 && edge_vec(c, i).1 == 0)
}

/// The direction of the perpendicular of edge `i` — the candidate separating
/// axis the edge contributes — in canonical form.
pub open spec fn normal_dir(c: Seq<Point>, i: int) -> (int, int) {
    canon_dir(edge_vec(c, i).1, -edge_vec(c, i).0)
}

/// Some entry of `ns` stands for the direction `d`.
pub open spec fn has_dir(ns: Seq<Point>, d: (int, int)) -> bool {
    exists|k: int| 0 <= k < ns.len() && pt_val(ns[k]) == d
}

/// `d` is the perpendicular direction of some nondegenerate edge of `c`
/// with index below `i`.
pub open spec fn from_edge_before(c: Seq<Point>, i: int, d: (int, int)) -> bool {
    exists|j: int| 0 <= j < i && edge_nondegenerate(c, j) && d == normal_dir(c, j)
}

/// Widening the index bound keeps a direction's edge witness.
pub proof fn lemma_from_edge_mono(c: Seq<Point>, i: int, d: (int, int))
    requires
        from_edge_before(c, i, d),
    ensures
        from_edge_before(c, i + 1, d),
{
    let j = choose|j: int| 0 <= j < i && edge_nondegenerate(c, j) && d == normal_dir(c, j);
    assert(0 <= j < i + 1 && edge_nondegenerate(c, j) && d == normal_dir(c, j));
}

/// `ns` lists exactly the canonical perpendicular directions of the
/// nondegenerate edges of `c`, each direction once, all within bounds.
pub open spec fn normals_match(c: Seq<Point>, ns: Seq<Point>) -> bool {
    &&& forall|i: int|
        0 <= i < c.len() && edge_nondegenerate(c, i) ==> has_dir(ns, #[trigger] normal_dir(c, i))
    &&& forall|k: int|
        0 <= k < ns.len() ==> from_edge_before(c, c.len() as int, pt_val(#[trigger] ns[k]))
    &&& ns.no_duplicates()
    &&& forall|k: int| 0 <= k < ns.len() ==> axis_in_bounds(#[trigger] ns[k])
}

/// A polygon given by its corners in winding order, carrying the
/// deduplicated directions of its edge normals as derived data.
pub struct BoundingPolygon {
    /// Corner sequence; insertion order is the winding order.
    pub corners: Vec<Point>,
    /// One entry per distinct perpendicular direction of a nondegenerate
    /// edge; iteration order is unspecified.
    pub normals: Vec<Point>,
}

impl BoundingPolygon {
    /// A populated, well-formed polygon: at least three corners, all within
    /// coordinate bounds, with normals derived from the corners.
    pub open spec fn wf(&self) -> bool {
        &&& self.corners@.len() >= 3
        &&& forall|i: int| 0 <= i < self.corners@.len() ==> in_bounds(#[trigger] self.corners@[i])
        &&& normals_match(self.corners@, self.normals@)
    }

    /// Replaces the stored corners with a copy of `corners` and recomputes
    /// the normal set from scratch; nothing of the previous state survives.
    pub fn bounding_polygon(&mut self, corners: &Vec<Point>)
        requires
            corners@.len() >= 3,
            forall|i: int| 0 <= i < corners@.len() ==> in_bounds(#[trigger] corners@[i]),
        ensures
            final(self).corners@ == corners@,
            final(self).wf(),
    {
        let n = corners.len();
        let mut cs: Vec<Point> = Vec::new();
        let mut i: usize = 0;
        while i < n
            invariant
                n == corners@.len(),
                i <= n,
                cs@ == corners@.subrange(0, i as int),
            decreases n - i,
        {
            cs.push(corners[i]);
            proof {
                assert(cs@ =~= corners@.subrange(0, i + 1));
            }
            i = i + 1;
        }
        proof {
            assert(cs@ =~= corners@);
        }

        let mut ns: Vec<Point> = Vec::new();
        let mut i: usize = 0;
        while i < n
            invariant
                n == corners@.len(),
                n >= 3,
                i <= n,
                forall|j: int| 0 <= j < n ==> in_bounds(#[trigger] corners@[j]),
                forall|j: int|
                    0 <= j < i && edge_nondegenerate(corners@, j) ==> has_dir(
                        ns@,
                        #[trigger] normal_dir(corners@, j),
                    ),
                forall|k: int|
                    0 <= k < ns@.len() ==> from_edge_before(
                        corners@,
                        i as int,
                        pt_val(#[trigger] ns@[k]),
                    ),
                ns@.no_duplicates(),
                forall|k: int| 0 <= k < ns@.len() ==> axis_in_bounds(#[trigger] ns@[k]),
            decreases n - i,
        {
            let ex: i64;
            let ey: i64;
            if i == 0 {
                ex = corners[0].x - corners[n - 1].x;
                ey = corners[0].y - corners[n - 1].y;
            } else {
                ex = corners[i].x - corners[i - 1].x;
                ey = corners[i].y - corners[i - 1].y;
            }
            proof {
                assert((ex as int, ey as int) == edge_vec(corners@, i as int));
            }
            let px: i64 = ey;
            let py: i64 = -ex;
            if px != 0 || py != 0 {
                let cn = canonical_axis(px, py);
                proof {
                    assert(edge_nondegenerate(corners@, i as int));
                    assert(pt_val(cn) == normal_dir(corners@, i as int));
                }
                if !contains_point(&ns, cn) {
                    let ghost old_ns = ns@;
                    ns.push(cn);
                    proof {
                        assert(forall|k: int|
                            0 <= k < old_ns.len() ==> ns@[k] == #[trigger] old_ns[k]);
                        assert(ns@[old_ns.len() as int] == cn);
                        assert(ns@.no_duplicates());
                        assert forall|k: int| 0 <= k < ns@.len() implies from_edge_before(
                            corners@,
                            i as int + 1,
                            pt_val(#[trigger] ns@[k]),
                        ) by {
                            if k < old_ns.len() {
                                lemma_from_edge_mono(corners@, i as int, pt_val(ns@[k]));
                            } else {
                                assert(ns@[k] == cn);
                                assert(0 <= (i as int) && (i as int) < i as int + 1
                                    && edge_nondegenerate(corners@, i as int) && pt_val(cn)
                                    == normal_dir(corners@, i as int));
                            }
                        }
                    }
                } else {
                    proof {
                        assert forall|k: int| 0 <= k < ns@.len() implies from_edge_before(
                            corners@,
                            i as int + 1,
                            pt_val(#[trigger] ns@[k]),
                        ) by {
                            lemma_from_edge_mono(corners@, i as int, pt_val(ns@[k]));
                        }
                    }
                }
            } else {
                proof {
                    assert(!edge_nondegenerate(corners@, i as int));
                    assert forall|k: int| 0 <= k < ns@.len() implies from_edge_before(
                        corners@,
                        i as int + 1,
                        pt_val(#[trigger] ns@[k]),
                    ) by {
                        lemma_from_edge_mono(corners@, i as int, pt_val(ns@[k]));
                    }
                }
            }
            i = i + 1;
        }
        self.corners = cs;
        self.normals = ns;
    }
}

impl Default for BoundingPolygon {
    /// An empty polygon; it must be populated through
    /// [`BoundingPolygon::bounding_polygon`] before any collision test.
    fn default() -> (r: Self)
        ensures
            r.corners@.len() == 0,
            r.normals@.len() == 0,
    {
        BoundingPolygon { corners: Vec::new(), normals: Vec::new() }
    }
}

/// Whether `v` holds an entry equal to `p`.
pub fn contains_point(v: &Vec<Point>, p: Point) -> (r: bool)
    ensures
        r == (exists|k: int| 0 <= k < v@.len() && v@[k] == p),
{
    let mut i: usize = 0;
    while i < v.len()
        invariant
            i <= v@.len(),
            forall|k: int| 0 <= k < i ==> v@[k] != p,
        decreases v@.len() - i,
    {
        if v[i] == p {
            return true;
        }
        i = i + 1;
    }
    false
}

/// The set of distinct candidate-axis directions among the nondegenerate
/// edges of a corner sequence.
pub open spec fn edge_dirs(c: Seq<Point>) -> Set<(int, int)> {
    Set::new(
        |d: (int, int)|
            exists|i: int| 0 <= i < c.len() && edge_nondegenerate(c, i) && d == normal_dir(c, i),
    )
}

/// Law: the number of stored normals equals the number of distinct edge
/// directions — parallel edges, read without orientation, contribute a
/// single candidate axis.
pub proof fn lemma_normal_count(p: &BoundingPolygon)
    requires
        p.wf(),
    ensures
        p.normals@.len() == edge_dirs(p.corners@).len(),
{
    let c = p.corners@;
    let ns = p.normals@;
    let f = |q: Point| pt_val(q);
    let vals = ns.map_values(f);
    ns.lemma_no_duplicates_injective(f);
    assert forall|d: (int, int)| vals.to_set().contains(d) implies edge_dirs(c).contains(d) by {
        let k = choose|k: int| 0 <= k < vals.len() && vals[k] == d;
        assert(pt_val(ns[k]) == d);
        assert(from_edge_before(c, c.len() as int, d));
        let i = choose|i: int|
            0 <= i < c.len() && edge_nondegenerate(c, i) && d == normal_dir(c, i);
        assert(edge_nondegenerate(c, i) && d == normal_dir(c, i));
    }
    assert forall|d: (int, int)| edge_dirs(c).contains(d) implies vals.to_set().contains(d) by {
        let i = choose|i: int|
            0 <= i < c.len() && edge_nondegenerate(c, i) && d == normal_dir(c, i);
        assert(has_dir(ns, normal_dir(c, i)));
        let k = choose|k: int| 0 <= k < ns.len() && pt_val(ns[k]) == d;
        assert(vals[k] == d);
        assert(vals.contains(d));
    }
    assert(vals.to_set() =~= edge_dirs(c));
    vals.unique_seq_to_set();
}

/// Law: two nondegenerate parallel edges contribute the same candidate axis,
/// so the stored normals count distinct undirected edge directions, not
/// edges.  A rectangle's four edges, for example, yield two axes.
pub proof fn lemma_parallel_edges_share_axis(c: Seq<Point>, i: int, j: int)
    requires
        0 <= i < c.len(),
        0 <= j < c.len(),
        edge_nondegenerate(c, i),
        edge_nondegenerate(c, j),
        edge_vec(c, i).0 * edge_vec(c, j).1 == edge_vec(c, i).1 * edge_vec(c, j).0,
    ensures
        normal_dir(c, i) == normal_dir(c, j),
{
    let e1 = edge_vec(c, i);
    let e2 = edge_vec(c, j);
    assert(e1.1 * -e2.0 == -e1.0 * e2.1) by (nonlinear_arith)
        requires
            e1.0 * e2.1 == e1.1 * e2.0;
    lemma_canon_parallel(e1.1, -e1.0, e2.1, -e2.0);
}

/// Law: every stored normal of a well-formed polygon is a primitive integer
/// vector — its components have no common factor.  Over exact integer
/// coordinates this is the counterpart of every normal having unit length:
/// the stored vector is the shortest one along its axis.
pub proof fn lemma_normals_primitive(p: &BoundingPolygon)
    requires
        p.wf(),
    ensures
        forall|k: int|
            0 <= k < p.normals@.len() ==> gcd(
                abs_val(pt_val(#[trigger] p.normals@[k]).0) as nat,
                abs_val(pt_val(p.normals@[k]).1) as nat,
            ) == 1,
{
    let c = p.corners@;
    assert forall|k: int| 0 <= k < p.normals@.len() implies gcd(
        abs_val(pt_val(#[trigger] p.normals@[k]).0) as nat,
        abs_val(pt_val(p.normals@[k]).1) as nat,
    ) == 1 by {
        assert(from_edge_before(c, c.len() as int, pt_val(p.normals@[k])));
        let j = choose|j: int|
            0 <= j < c.len() && edge_nondegenerate(c, j) && pt_val(p.normals@[k]) == normal_dir(
                c,
                j,
            );
        let e = edge_vec(c, j);
        lemma_canon_primitive(e.1, -e.0);
    }
}

} // verus!
