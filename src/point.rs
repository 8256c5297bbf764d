//! Fixed-point 2D/3D vectors and their 4-lane batch forms.
use vstd::prelude::*;

verus! {

/// A 2D vector with integer (fixed-point) components.
#[derive(Debug, Clone, Copy, PartialEq, Eq, Structural)]
pub struct Point2D {
    pub x: i64,
    pub y: i64,
}

/// A 3D vector with integer (fixed-point) components.
#[derive(Debug, Clone, Copy, PartialEq, Eq, Structural)]
pub struct Point3D {
    pub x: i64,
    pub y: i64,
    pub z: i64,
}

/// Four 2D vectors, one per lane.
#[derive(Debug, Clone, Copy, PartialEq, Eq)]
pub struct Point2Dx4 {
    pub x: [i64; 4],
    pub y: [i64; 4],
}

/// Four 3D vectors, one per lane.
#[derive(Debug, Clone, Copy, PartialEq, Eq)]
pub struct Point3Dx4 {
    pub x: [i64; 4],
    pub y: [i64; 4],
    pub z: [i64; 4],
}

/// Largest magnitude of a component that the dot products accept.
pub const DOT_LIMIT: i64 = 0x3fff_ffff_ffff_ffff;

pub open spec fn dot2_spec(a: Point2D, b: Point2D) -> int {
    a.x * b.x + a.y * b.y
}

pub open spec fn dot3_spec(a: Point3D, b: Point3D) -> int {
    a.x * b.x + a.y * b.y + a.z * b.z
}

/// Every component of `v` has magnitude at most `m`.
pub open spec fn bounded3(v: Point3D, m: int) -> bool {
    -m <= v.x <= m && -m <= v.y <= m && -m <= v.z <= m
}

/// Every component of `v` has magnitude at most `m`.
pub open spec fn bounded2(v: Point2D, m: int) -> bool {
    -m <= v.x <= m && -m <= v.y <= m
}

/// Lane `i` of a 3D batch.
pub open spec fn lane3(v: Point3Dx4, i: int) -> Point3D {
    Point3D { x: v.x[i], y: v.y[i], z: v.z[i] }
}

/// Lane `i` of a 2D batch.
pub open spec fn lane2(v: Point2Dx4, i: int) -> Point2D {
    Point2D { x: v.x[i], y: v.y[i] }
}

pub proof fn lemma_mul_bound(a: int, b: int, ma: int, mb: int)
    requires
        -ma <= a <= ma,
        -mb <= b <= mb,
    ensures
        -(ma * mb) <= a * b <= ma * mb,
{
    assert(-(ma * mb) <= a * b <= ma * mb) by (nonlinear_arith)
        requires
            -ma <= a <= ma,
            -mb <= b <= mb,
    ;
}

pub fn dot2(a: Point2D, b: Point2D) -> (r: i128)
    requires
        bounded2(a, DOT_LIMIT as int),
        bounded2(b, DOT_LIMIT as int),
    ensures
        r == dot2_spec(a, b),
{
    proof {
        let m = DOT_LIMIT as int;
        lemma_mul_bound(a.x as int, b.x as int, m, m);
        lemma_mul_bound(a.y as int, b.y as int, m, m);
    }
    (a.x as i128) * (b.x as i128) + (a.y as i128) * (b.y as i128)
}

pub fn dot2_simd(a: Point2Dx4, b: Point2Dx4) -> (r: [i128; 4])
    requires
        forall|i: int| 0 <= i < 4 ==> bounded2(#[trigger] lane2(a, i), DOT_LIMIT as int),
        forall|i: int| 0 <= i < 4 ==> bounded2(#[trigger] lane2(b, i), DOT_LIMIT as int),
    ensures
        forall|i: int| 0 <= i < 4 ==> r[i] == #[trigger] dot2_spec(lane2(a, i), lane2(b, i)),
{
    proof {
        assert(bounded2(lane2(a, 0), DOT_LIMIT as int) && bounded2(lane2(b, 0), DOT_LIMIT as int));
        assert(bounded2(lane2(a, 1), DOT_LIMIT as int) && bounded2(lane2(b, 1), DOT_LIMIT as int));
        assert(bounded2(lane2(a, 2), DOT_LIMIT as int) && bounded2(lane2(b, 2), DOT_LIMIT as int));
        assert(bounded2(lane2(a, 3), DOT_LIMIT as int) && bounded2(lane2(b, 3), DOT_LIMIT as int));
    }
    let r = [
        dot2(Point2D { x: a.x[0], y: a.y[0] }, Point2D { x: b.x[0], y: b.y[0] }),
        dot2(Point2D { x: a.x[1], y: a.y[1] }, Point2D { x: b.x[1], y: b.y[1] }),
        dot2(Point2D { x: a.x[2], y: a.y[2] }, Point2D { x: b.x[2], y: b.y[2] }),
        dot2(Point2D { x: a.x[3], y: a.y[3] }, Point2D { x: b.x[3], y: b.y[3] }),
    ];
    assert forall|i: int| 0 <= i < 4 implies r[i] == #[trigger] dot2_spec(lane2(a, i), lane2(b, i)) by {
        if i == 0 {} else if i == 1 {} else if i == 2 {} else {}
    }
    r
}

/// The vector turned a quarter turn: `(x, y) -> (y, -x)`.
pub fn perp(v: Point2D) -> (r: Point2D)
    requires
        v.x > i64::MIN,
    ensures
        r.x == v.y,
        r.y == -v.x,
{
    Point2D { x: v.y, y: -v.x }
}

pub fn perp_simd(v: Point2Dx4) -> (r: Point2Dx4)
    requires
        forall|i: int| 0 <= i < 4 ==> v.x[i] > i64::MIN,
    ensures
        r.x@ == v.y@,
        forall|i: int| 0 <= i < 4 ==> r.y[i] == -v.x[i],
{
    let r = Point2Dx4 { x: v.y, y: [-v.x[0], -v.x[1], -v.x[2], -v.x[3]] };
    assert forall|i: int| 0 <= i < 4 implies r.y[i] == -v.x[i] by {
        if i == 0 {} else if i == 1 {} else if i == 2 {} else {}
    }
    r
}

pub fn dot3(a: Point3D, b: Point3D) -> (r: i128)
    requires
        bounded3(a, DOT_LIMIT as int),
        bounded3(b, DOT_LIMIT as int),
    ensures
        r == dot3_spec(a, b),
{
    proof {
        let m = DOT_LIMIT as int;
        lemma_mul_bound(a.x as int, b.x as int, m, m);
        lemma_mul_bound(a.y as int, b.y as int, m, m);
        lemma_mul_bound(a.z as int, b.z as int, m, m);
    }
    (a.x as i128) * (b.x as i128) + (a.y as i128) * (b.y as i128) + (a.z as i128) * (b.z as i128)
}

pub fn dot3_simd(a: Point3Dx4, b: Point3Dx4) -> (r: [i128; 4])
    requires
        forall|i: int| 0 <= i < 4 ==> bounded3(#[trigger] lane3(a, i), DOT_LIMIT as int),
        forall|i: int| 0 <= i < 4 ==> bounded3(#[trigger] lane3(b, i), DOT_LIMIT as int),
    ensures
        forall|i: int| 0 <= i < 4 ==> r[i] == #[trigger] dot3_spec(lane3(a, i), lane3(b, i)),
{
    proof {
        assert(bounded3(lane3(a, 0), DOT_LIMIT as int) && bounded3(lane3(b, 0), DOT_LIMIT as int));
        assert(bounded3(lane3(a, 1), DOT_LIMIT as int) && bounded3(lane3(b, 1), DOT_LIMIT as int));
        assert(bounded3(lane3(a, 2), DOT_LIMIT as int) && bounded3(lane3(b, 2), DOT_LIMIT as int));
        assert(bounded3(lane3(a, 3), DOT_LIMIT as int) && bounded3(lane3(b, 3), DOT_LIMIT as int));
    }
    let r = [
        dot3(Point3D { x: a.x[0], y: a.y[0], z: a.z[0] }, Point3D { x: b.x[0], y: b.y[0], z: b.z[0] }),
        dot3(Point3D { x: a.x[1], y: a.y[1], z: a.z[1] }, Point3D { x: b.x[1], y: b.y[1], z: b.z[1] }),
        dot3(Point3D { x: a.x[2], y: a.y[2], z: a.z[2] }, Point3D { x: b.x[2], y: b.y[2], z: b.z[2] }),
        dot3(Point3D { x: a.x[3], y: a.y[3], z: a.z[3] }, Point3D { x: b.x[3], y: b.y[3], z: b.z[3] }),
    ];
    assert forall|i: int| 0 <= i < 4 implies r[i] == #[trigger] dot3_spec(lane3(a, i), lane3(b, i)) by {
        if i == 0 {} else if i == 1 {} else if i == 2 {} else {}
    }
    r
}

} // verus!
