//! Edge functions, coverage and barycentric weights in sub-pixel fixed point.
use vstd::prelude::*;
use crate::point::{Point2D, Point2Dx4, Point3D, Point3Dx4, bounded2, lane2, lemma_mul_bound};

verus! {

/// Sub-pixel steps per pixel: screen coordinates are multiples of `1 / SUBPIXEL`.
pub const SUBPIXEL: i64 = 256;

/// Largest magnitude of a screen coordinate, in sub-pixel units.
pub const COORD_LIMIT: i64 = 16_777_216;

/// Twice the signed area of the triangle `(a, b, p)`: the 2D cross product of
/// `b - a` and `p - a`, positive when `p` lies to the left of the directed
/// edge `a -> b` (counter-clockwise with `y` pointing up).
pub open spec fn edge(a: Point2D, b: Point2D, p: Point2D) -> int {
    (b.x - a.x) * (p.y - a.y) - (b.y - a.y) * (p.x - a.x)
}

/// `p` lies inside or on the border of the triangle `(a, b, c)`.
pub open spec fn inside(a: Point2D, b: Point2D, c: Point2D, p: Point2D) -> bool {
    edge(a, b, p) >= 0 && edge(b, c, p) >= 0 && edge(c, a, p) >= 0
}

/// A point that screen-space arithmetic accepts.
pub open spec fn on_canvas(p: Point2D) -> bool {
    bounded2(p, COORD_LIMIT as int)
}

pub proof fn lemma_edge_bound(a: Point2D, b: Point2D, p: Point2D)
    requires
        on_canvas(a),
        on_canvas(b),
        on_canvas(p),
    ensures
        -0x8_0000_0000_0000 <= edge(a, b, p) <= 0x8_0000_0000_0000,
{
    let m: int = 0x200_0000;
    assert(m * m == 0x4_0000_0000_0000);
    lemma_mul_bound(b.x - a.x, p.y - a.y, m, m);
    lemma_mul_bound(b.y - a.y, p.x - a.x, m, m);
}

proof fn lemma_expand(x1: int, x2: int, y1: int, y2: int)
    ensures
        (x1 - x2) * (y1 - y2) == x1 * y1 - x1 * y2 - x2 * y1 + x2 * y2,
{
    assert((x1 - x2) * (y1 - y2) == x1 * y1 - x1 * y2 - x2 * y1 + x2 * y2) by (nonlinear_arith);
}

/// Twice the signed area of `(t1, t2, p)`, as the dot product of the
/// perpendicular of `p - t1` with `t2 - t1`.
pub fn signed_triangle_area(t1: Point2D, t2: Point2D, p: Point2D) -> (r: i64)
    requires
        on_canvas(t1),
        on_canvas(t2),
        on_canvas(p),
    ensures
        r == edge(t1, t2, p),
{
    proof {
        lemma_edge_bound(t1, t2, p);
    }
    let ap = Point2D { x: p.x - t1.x, y: p.y - t1.y };
    let t1t2 = Point2D { x: t2.x - t1.x, y: t2.y - t1.y };
    let n = crate::point::perp(ap);
    let r = crate::point::dot2(n, t1t2);
    proof {
        let (ux, uy) = ((p.x - t1.x) as int, (p.y - t1.y) as int);
        let (dx, dy) = ((t2.x - t1.x) as int, (t2.y - t1.y) as int);
        assert((-ux) * dy == -(dy * ux)) by (nonlinear_arith);
        assert(uy * dx == dx * uy) by (nonlinear_arith);
    }
    r as i64
}

/// Coverage test of `p` against the triangle `(a, b, c)` whose doubled area is
/// `area`. When `p` is covered, `weights` receives the three barycentric
/// numerators (over the common denominator `area`) of `a`, `b` and `c`.
pub fn point_in_triangle(a: Point2D, b: Point2D, c: Point2D, p: Point2D, area: i64, weights: &mut Point3D) -> (r: bool)
    requires
        on_canvas(a),
        on_canvas(b),
        on_canvas(c),
        on_canvas(p),
    ensures
        r == (inside(a, b, c, p) && area > 0),
        r ==> *final(weights) == (Point3D {
            x: edge(b, c, p) as i64,
            y: edge(c, a, p) as i64,
            z: edge(a, b, p) as i64,
        }),
        !r ==> *final(weights) == *old(weights),
{
    let area_ab = signed_triangle_area(a, b, p);
    if !(area_ab >= 0) {
        return false;
    }
    let area_bc = signed_triangle_area(b, c, p);
    if !(area_bc >= 0) {
        return false;
    }
    let area_ca = signed_triangle_area(c, a, p);
    if !(area_ca >= 0) {
        return false;
    }
    if !(area > 0) {
        return false;
    }
    weights.x = area_bc;
    weights.y = area_ca;
    weights.z = area_ab;
    true
}

/// Four-lane coverage test: lane `i` of the result says whether lane `i` of
/// `p` is covered, and lane `i` of `weights` receives its barycentric
/// numerators, covered or not.
pub fn point_in_triangle_simd(a: Point2D, b: Point2D, c: Point2D, p: Point2Dx4, area: i64, weights: &mut Point3Dx4) -> (r: [bool; 4])
    requires
        on_canvas(a),
        on_canvas(b),
        on_canvas(c),
        forall|i: int| 0 <= i < 4 ==> on_canvas(#[trigger] lane2(p, i)),
    ensures
        forall|i: int| 0 <= i < 4 ==> r[i] == (inside(a, b, c, #[trigger] lane2(p, i)) && area > 0),
        forall|i: int| 0 <= i < 4 ==> final(weights).x[i] == edge(b, c, #[trigger] lane2(p, i)),
        forall|i: int| 0 <= i < 4 ==> final(weights).y[i] == edge(c, a, #[trigger] lane2(p, i)),
        forall|i: int| 0 <= i < 4 ==> final(weights).z[i] == edge(a, b, #[trigger] lane2(p, i)),
{
    let mut r = [false; 4];
    let mut lane: usize = 0;
    while lane < 4
        invariant
            0 <= lane <= 4,
            on_canvas(a),
            on_canvas(b),
            on_canvas(c),
            forall|i: int| 0 <= i < 4 ==> on_canvas(#[trigger] lane2(p, i)),
            forall|i: int| 0 <= i < lane ==> r[i] == (inside(a, b, c, #[trigger] lane2(p, i)) && area > 0),
            forall|i: int| 0 <= i < lane ==> weights.x[i] == edge(b, c, #[trigger] lane2(p, i)),
            forall|i: int| 0 <= i < lane ==> weights.y[i] == edge(c, a, #[trigger] lane2(p, i)),
            forall|i: int| 0 <= i < lane ==> weights.z[i] == edge(a, b, #[trigger] lane2(p, i)),
        decreases 4 - lane,
    {
        let q = Point2D { x: p.x[lane], y: p.y[lane] };
        assert(q == lane2(p, lane as int));
        let e_ab = signed_triangle_area(a, b, q);
        let e_bc = signed_triangle_area(b, c, q);
        let e_ca = signed_triangle_area(c, a, q);
        weights.x[lane] = e_bc;
        weights.y[lane] = e_ca;
        weights.z[lane] = e_ab;
        r[lane] = e_ab >= 0 && e_bc >= 0 && e_ca >= 0 && area > 0;
        lane = lane + 1;
    }
    r
}

proof fn lemma_commute(u: int, v: int)
    ensures
        u * v == v * u,
{
    assert(u * v == v * u) by (nonlinear_arith);
}

/// The three barycentric numerators of any point sum to the doubled area of
/// the triangle, so the weights `edge / area` sum to one; inside the triangle
/// each of them is non-negative.
pub proof fn lemma_barycentric_partition(a: Point2D, b: Point2D, c: Point2D, p: Point2D)
    ensures
        edge(b, c, p) + edge(c, a, p) + edge(a, b, p) == edge(a, b, c),
        inside(a, b, c, p) ==> edge(b, c, p) >= 0 && edge(c, a, p) >= 0 && edge(a, b, p) >= 0,
{
    lemma_expand(c.x as int, b.x as int, p.y as int, b.y as int);
    lemma_expand(c.y as int, b.y as int, p.x as int, b.x as int);
    lemma_expand(a.x as int, c.x as int, p.y as int, c.y as int);
    lemma_expand(a.y as int, c.y as int, p.x as int, c.x as int);
    lemma_expand(b.x as int, a.x as int, p.y as int, a.y as int);
    lemma_expand(b.y as int, a.y as int, p.x as int, a.x as int);
    lemma_expand(b.x as int, a.x as int, c.y as int, a.y as int);
    lemma_expand(b.y as int, a.y as int, c.x as int, a.x as int);
    lemma_commute(a.y as int, a.x as int);
    lemma_commute(a.y as int, b.x as int);
    lemma_commute(a.y as int, c.x as int);
    lemma_commute(a.y as int, p.x as int);
    lemma_commute(b.y as int, a.x as int);
    lemma_commute(b.y as int, b.x as int);
    lemma_commute(b.y as int, c.x as int);
    lemma_commute(b.y as int, p.x as int);
    lemma_commute(c.y as int, a.x as int);
    lemma_commute(c.y as int, b.x as int);
    lemma_commute(c.y as int, c.x as int);
    lemma_commute(c.y as int, p.x as int);
    lemma_commute(p.y as int, a.x as int);
    lemma_commute(p.y as int, b.x as int);
    lemma_commute(p.y as int, c.x as int);
    lemma_commute(p.y as int, p.x as int);
}

} // verus!
