//! Points, dot products, and the bounds under which all arithmetic of the
//! collision test stays inside `i64`.

use vstd::prelude::*;

use crate::num::divides;
use crate::num::gcd;
use crate::num::gcd_u64;
use crate::num::lemma_coprime_divides_factor;
use crate::num::lemma_divides_antisymmetric;
use crate::num::lemma_gcd_comm;
use crate::num::lemma_gcd_divides;
use crate::num::lemma_gcd_pos;
use crate::num::lemma_quotients_coprime;

verus! {

/// A 2D point or vector in fixed-point integer coordinates.
///
/// Callers pick the unit (for example thousandths); every computation of this
/// crate is exact, so the choice only sets the resolution.
#[derive(Clone, Copy, PartialEq, Eq, Structural, Debug)]
pub struct Point {
    pub x: i64,
    pub y: i64,
}

/// Largest coordinate magnitude a polygon corner may have.  Edge vectors then
/// fit in twice this bound and every projection fits comfortably in `i64`.
pub const COORD_BOUND: i64 = 1_000_000;

/// Bound on an axis component: an axis is derived from an edge vector, whose
/// components are differences of two corner coordinates.
pub const AXIS_BOUND: i64 = 2_000_000;

/// A corner coordinate pair within [`COORD_BOUND`].
pub open spec fn in_bounds(p: Point) -> bool {
    -COORD_BOUND <= p.x <= COORD_BOUND && -COORD_BOUND <= p.y <= COORD_BOUND
}

/// An axis component pair within [`AXIS_BOUND`].
pub open spec fn axis_in_bounds(p: Point) -> bool {
    -AXIS_BOUND <= p.x <= AXIS_BOUND && -AXIS_BOUND <= p.y <= AXIS_BOUND
}

/// Scalar product of a point with an axis, over unbounded integers.
pub open spec fn dot(a: Point, b: Point) -> int {
    a.x * b.x + a.y * b.y
}

/// Magnitude of an integer.
pub open spec fn abs_val(x: int) -> int {
    if x < 0 {
        -x
    } else {
        x
    }
}

/// Canonical representative of the undirected direction of a nonzero integer
/// vector: both components are divided by their gcd, then the sign is fixed
/// so that the second component is positive, or zero with a positive first
/// component.  Two vectors lie on the same line through the origin exactly
/// when they share this representative, so it serves as the deduplication key
/// for candidate separating axes.
pub open spec fn canon_dir(x: int, y: int) -> (int, int) {
    let g = gcd(abs_val(x) as nat, abs_val(y) as nat) as int;
    let qx = abs_val(x) / g;
    let qy = abs_val(y) / g;
    let sx = if x < 0 {
        -qx
    } else {
        qx
    };
    let sy = if y < 0 {
        -qy
    } else {
        qy
    };
    if sy < 0 || (sy == 0 && sx < 0) {
        (-sx, -sy)
    } else {
        (sx, sy)
    }
}

/// Law: the canonical direction of a nonzero vector is primitive — its
/// components have no common factor, so it is the shortest integer vector
/// along its line.  This is the exact-arithmetic counterpart of a normal
/// vector having unit length.
pub proof fn lemma_canon_primitive(x: int, y: int)
    requires
        !(x == 0 && y == 0),
    ensures
        gcd(abs_val(canon_dir(x, y).0) as nat, abs_val(canon_dir(x, y).1) as nat) == 1,
{
    let a = abs_val(x) as nat;
    let b = abs_val(y) as nat;
    lemma_gcd_pos(a, b);
    let g = gcd(a, b);
    lemma_quotients_coprime(a, b);
    let qa = a / g;
    let qb = b / g;
    assert(qa as int == a as int / g as int && qb as int == b as int / g as int);
    assert(abs_val(canon_dir(x, y).0) == qa as int && abs_val(canon_dir(x, y).1) == qb as int);
}

/// The canonical direction, scaled back by the gcd of the input's component
/// magnitudes, recovers the input vector or its negation; and the canonical
/// direction carries the normalized sign.
pub proof fn lemma_canon_decompose(x: int, y: int)
    requires
        !(x == 0 && y == 0),
    ensures
        ({
            let g = gcd(abs_val(x) as nat, abs_val(y) as nat) as int;
            let u = canon_dir(x, y);
            (u.0 * g == x && u.1 * g == y) || (u.0 * g == -x && u.1 * g == -y)
        }),
        canon_dir(x, y).1 > 0 || (canon_dir(x, y).1 == 0 && canon_dir(x, y).0 > 0),
{
    let a = abs_val(x) as nat;
    let b = abs_val(y) as nat;
    lemma_gcd_pos(a, b);
    lemma_gcd_divides(a, b);
    let g = gcd(a, b) as int;
    let ka = choose|k: int| a as int == #[trigger] (g * k);
    let kb = choose|k: int| b as int == #[trigger] (g * k);
    assert(ka >= 0 && kb >= 0) by (nonlinear_arith)
        requires
            g > 0,
            a as int >= 0,
            b as int >= 0,
            a as int == g * ka,
            b as int == g * kb;
    vstd::arithmetic::div_mod::lemma_div_multiples_vanish(ka, g);
    vstd::arithmetic::div_mod::lemma_div_multiples_vanish(kb, g);
    assert(a as int / g == ka && b as int / g == kb);
    assert(ka > 0 || kb > 0) by (nonlinear_arith)
        requires
            g > 0,
            a as int > 0 || b as int > 0,
            a as int == g * ka,
            b as int == g * kb;
    let sx = if x < 0 {
        -ka
    } else {
        ka
    };
    let sy = if y < 0 {
        -kb
    } else {
        kb
    };
    assert(sx * g == x && sy * g == y) by (nonlinear_arith)
        requires
            abs_val(x) == g * ka,
            abs_val(y) == g * kb,
            sx == (if x < 0 {
                -ka
            } else {
                ka
            }),
            sy == (if y < 0 {
                -kb
            } else {
                kb
            }),
            abs_val(x) == (if x < 0 {
                -x
            } else {
                x
            }),
            abs_val(y) == (if y < 0 {
                -y
            } else {
                y
            });
    if sy < 0 || (sy == 0 && sx < 0) {
        assert(canon_dir(x, y) == (-sx, -sy));
        assert(-sx * g == -x && -sy * g == -y) by (nonlinear_arith)
            requires
                sx * g == x && sy * g == y;
    } else {
        assert(canon_dir(x, y) == (sx, sy));
    }
}

/// Law: two nonzero vectors lying on one line through the origin share one
/// canonical direction.  With [`lemma_canon_primitive`] this makes the
/// canonical form a faithful key for undirected directions: parallel edges
/// collapse to a single candidate axis and nothing else does.
pub proof fn lemma_canon_parallel(x1: int, y1: int, x2: int, y2: int)
    requires
        !(x1 == 0 && y1 == 0),
        !(x2 == 0 && y2 == 0),
        x1 * y2 == y1 * x2,
    ensures
        canon_dir(x1, y1) == canon_dir(x2, y2),
{
    let u1 = canon_dir(x1, y1);
    let u2 = canon_dir(x2, y2);
    let g1 = gcd(abs_val(x1) as nat, abs_val(y1) as nat) as int;
    let g2 = gcd(abs_val(x2) as nat, abs_val(y2) as nat) as int;
    lemma_gcd_pos(abs_val(x1) as nat, abs_val(y1) as nat);
    lemma_gcd_pos(abs_val(x2) as nat, abs_val(y2) as nat);
    lemma_canon_primitive(x1, y1);
    lemma_canon_primitive(x2, y2);
    lemma_canon_decompose(x1, y1);
    lemma_canon_decompose(x2, y2);
    assert(!(u1.0 == 0 && u1.1 == 0)) by (nonlinear_arith)
        requires
            g1 > 0,
            !(x1 == 0 && y1 == 0),
            (u1.0 * g1 == x1 && u1.1 * g1 == y1) || (u1.0 * g1 == -x1 && u1.1 * g1 == -y1);
    assert(!(u2.0 == 0 && u2.1 == 0)) by (nonlinear_arith)
        requires
            g2 > 0,
            !(x2 == 0 && y2 == 0),
            (u2.0 * g2 == x2 && u2.1 * g2 == y2) || (u2.0 * g2 == -x2 && u2.1 * g2 == -y2);
    let s1: int = if u1.0 * g1 == x1 && u1.1 * g1 == y1 {
        1
    } else {
        -1
    };
    let s2: int = if u2.0 * g2 == x2 && u2.1 * g2 == y2 {
        1
    } else {
        -1
    };
    lemma_cross_transfer(u1.0, u1.1, u2.0, u2.1, g1, g2, x1, y1, x2, y2, s1, s2);
    lemma_primitive_parallel_unique(u1.0, u1.1, u2.0, u2.1);
}

/// Parallelism carries over from two vectors to their scaled-down, possibly
/// negated representatives: the positive scales and the signs cancel out of
/// the cross product.
proof fn lemma_cross_transfer(
    ua: int,
    ub: int,
    va: int,
    vb: int,
    g1: int,
    g2: int,
    x1: int,
    y1: int,
    x2: int,
    y2: int,
    s1: int,
    s2: int,
)
    requires
        g1 > 0,
        g2 > 0,
        s1 == 1 || s1 == -1,
        s2 == 1 || s2 == -1,
        ua * g1 == s1 * x1,
        ub * g1 == s1 * y1,
        va * g2 == s2 * x2,
        vb * g2 == s2 * y2,
        x1 * y2 == y1 * x2,
    ensures
        ua * vb == ub * va,
{
    assert((ua * g1) * (vb * g2) == (s1 * x1) * (s2 * y2));
    assert((ub * g1) * (va * g2) == (s1 * y1) * (s2 * x2));
    assert((s1 * x1) * (s2 * y2) == (s1 * s2) * (x1 * y2)) by (nonlinear_arith);
    assert((s1 * y1) * (s2 * x2) == (s1 * s2) * (y1 * x2)) by (nonlinear_arith);
    assert((s1 * s2) * (x1 * y2) == (s1 * s2) * (y1 * x2));
    assert((ua * g1) * (vb * g2) == (ua * vb) * (g1 * g2)) by (nonlinear_arith);
    assert((ub * g1) * (va * g2) == (ub * va) * (g1 * g2)) by (nonlinear_arith);
    assert((ua * vb) * (g1 * g2) == (ub * va) * (g1 * g2));
    assert(g1 * g2 > 0) by (nonlinear_arith)
        requires
            g1 > 0,
            g2 > 0;
    assert(ua * vb == ub * va) by (nonlinear_arith)
        requires
            (ua * vb) * (g1 * g2) == (ub * va) * (g1 * g2),
            g1 * g2 > 0;
}

/// Two primitive, sign-normalized vectors on one line through the origin are
/// equal.
proof fn lemma_primitive_parallel_unique(a1: int, b1: int, a2: int, b2: int)
    requires
        !(a1 == 0 && b1 == 0),
        !(a2 == 0 && b2 == 0),
        gcd(abs_val(a1) as nat, abs_val(b1) as nat) == 1,
        gcd(abs_val(a2) as nat, abs_val(b2) as nat) == 1,
        b1 > 0 || (b1 == 0 && a1 > 0),
        b2 > 0 || (b2 == 0 && a2 > 0),
        a1 * b2 == b1 * a2,
    ensures
        a1 == a2,
        b1 == b2,
{
    if b1 == 0 {
        assert(gcd(abs_val(a1) as nat, 0) == abs_val(a1) as nat);
        assert(a1 == 1);
        assert(b2 == 0) by (nonlinear_arith)
            requires
                a1 == 1,
                b1 == 0,
                a1 * b2 == b1 * a2;
        assert(gcd(abs_val(a2) as nat, 0) == abs_val(a2) as nat);
        assert(a2 == 1);
    } else {
        if b2 == 0 {
            assert(gcd(abs_val(a2) as nat, 0) == abs_val(a2) as nat);
            assert(a2 == 1);
            assert(false) by (nonlinear_arith)
                requires
                    a1 * b2 == b1 * a2,
                    b2 == 0,
                    a2 == 1,
                    b1 > 0;
        }
        assert(b1 > 0 && b2 > 0);
        assert(abs_val(a1) * b2 == b1 * abs_val(a2)) by (nonlinear_arith)
            requires
                a1 * b2 == b1 * a2,
                b1 > 0,
                b2 > 0,
                abs_val(a1) == (if a1 < 0 {
                    -a1
                } else {
                    a1
                }),
                abs_val(a2) == (if a2 < 0 {
                    -a2
                } else {
                    a2
                });
        lemma_gcd_comm(abs_val(a1) as nat, b1 as nat);
        lemma_gcd_comm(abs_val(a2) as nat, b2 as nat);
        assert(divides(b1, (abs_val(a1) as nat * b2 as nat) as int)) by {
            assert((abs_val(a1) as nat * b2 as nat) as int == b1 * abs_val(a2)) by (nonlinear_arith)
                requires
                    abs_val(a1) * b2 == b1 * abs_val(a2),
                    abs_val(a1) >= 0,
                    b2 > 0;
        }
        lemma_coprime_divides_factor(b1 as nat, abs_val(a1) as nat, b2 as nat);
        assert(divides(b2, (abs_val(a2) as nat * b1 as nat) as int)) by {
            assert((abs_val(a2) as nat * b1 as nat) as int == b2 * abs_val(a1)) by (nonlinear_arith)
                requires
                    abs_val(a1) * b2 == b1 * abs_val(a2),
                    abs_val(a2) >= 0,
                    b1 > 0;
        }
        lemma_coprime_divides_factor(b2 as nat, abs_val(a2) as nat, b1 as nat);
        lemma_divides_antisymmetric(b1, b2);
        assert(a1 == a2) by (nonlinear_arith)
            requires
                a1 * b2 == b1 * a2,
                b1 == b2,
                b1 > 0;
    }
}

/// The coordinate pair a point stands for, as unbounded integers.
pub open spec fn pt_val(p: Point) -> (int, int) {
    (p.x as int, p.y as int)
}

/// Computes the canonical direction of a nonzero vector.
pub fn canonical_axis(ex: i64, ey: i64) -> (r: Point)
    requires
        !(ex == 0 && ey == 0),
        -AXIS_BOUND <= ex <= AXIS_BOUND,
        -AXIS_BOUND <= ey <= AXIS_BOUND,
    ensures
        pt_val(r) == canon_dir(ex as int, ey as int),
        axis_in_bounds(r),
{
    let ux: u64 = if ex < 0 {
        (-ex) as u64
    } else {
        ex as u64
    };
    let uy: u64 = if ey < 0 {
        (-ey) as u64
    } else {
        ey as u64
    };
    proof {
        assert(ux as int == abs_val(ex as int));
        assert(uy as int == abs_val(ey as int));
        lemma_gcd_pos(ux as nat, uy as nat);
    }
    let g: u64 = gcd_u64(ux, uy);
    let qx: u64 = ux / g;
    let qy: u64 = uy / g;
    proof {
        assert(qx as int == abs_val(ex as int) / (g as int));
        assert(qy as int == abs_val(ey as int) / (g as int));
        assert(qx <= ux && qy <= uy) by (nonlinear_arith)
            requires
                g >= 1,
                qx == ux / g,
                qy == uy / g;
    }
    let sx: i64 = if ex < 0 {
        -(qx as i64)
    } else {
        qx as i64
    };
    let sy: i64 = if ey < 0 {
        -(qy as i64)
    } else {
        qy as i64
    };
    if sy < 0 || (sy == 0 && sx < 0) {
        Point { x: -sx, y: -sy }
    } else {
        Point { x: sx, y: sy }
    }
}

/// Computes the dot product of a corner with an axis.
pub fn dot_product(a: Point, b: Point) -> (r: i64)
    requires
        in_bounds(a),
        axis_in_bounds(b),
    ensures
        r == dot(a, b),
{
    proof {
        assert(-2_000_000_000_000 <= a.x * b.x <= 2_000_000_000_000) by (nonlinear_arith)
            requires
                -1_000_000 <= a.x <= 1_000_000,
                -2_000_000 <= b.x <= 2_000_000;
        assert(-2_000_000_000_000 <= a.y * b.y <= 2_000_000_000_000) by (nonlinear_arith)
            requires
                -1_000_000 <= a.y <= 1_000_000,
                -2_000_000 <= b.y <= 2_000_000;
    }
    a.x * b.x + a.y * b.y
}

} // verus!
