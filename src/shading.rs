//! Half-Lambert shading of sampled colors by an interpolated normal.
use vstd::prelude::*;
use crate::point::{Point3D, Point3Dx4, bounded3, dot3, dot3_spec, dot3_simd, lane3, DOT_LIMIT};
use crate::screen::Color;

verus! {

/// Largest magnitude of a normal or light component.
pub const NORMAL_LIMIT: i64 = 1_048_576;

/// `r` is the square root of `v`, rounded down.
pub open spec fn is_floor_sqrt(r: int, v: int) -> bool {
    0 <= r && r * r <= v < (r + 1) * (r + 1)
}

/// The square root of `v`, rounded down.
pub open spec fn floor_sqrt(v: int) -> int {
    choose|r: int| is_floor_sqrt(r, v)
}

proof fn lemma_floor_sqrt_unique(r: int, s: int, v: int)
    requires
        is_floor_sqrt(r, v),
        is_floor_sqrt(s, v),
    ensures
        r == s,
{
    if r < s {
        assert((r + 1) * (r + 1) <= s * s) by (nonlinear_arith)
            requires
                0 <= r < s,
        ;
    } else if s < r {
        assert((s + 1) * (s + 1) <= r * r) by (nonlinear_arith)
            requires
                0 <= s < r,
        ;
    }
}

/// Relies on `u128::isqrt` of std: the square root rounded down.
#[verifier::external_body]
fn isqrt(v: u128) -> (r: u128)
    ensures
        r * r <= v,
        v < (r + 1) * (r + 1),
{
    v.isqrt()
}

/// One color channel scaled by the intensity `(d / m + 1) / 2`, where `d` is
/// the dot product of normal and light and `m` the product of their lengths;
/// with a zero-length vector the intensity is one half.
pub open spec fn shade_channel(c: int, d: int, m: int) -> int {
    if m == 0 {
        c / 2
    } else {
        (c * (d + m)) / (2 * m)
    }
}

/// The product of the lengths of `n` and `l`, rounded down.
pub open spec fn length_product(n: Point3D, l: Point3D) -> int {
    floor_sqrt(dot3_spec(n, n) * dot3_spec(l, l))
}

/// The color `c` lit by the directional light `l` on a surface with normal
/// `n`; alpha is kept.
pub open spec fn shade_spec(c: Color, n: Point3D, l: Point3D) -> Color {
    let d = dot3_spec(n, l);
    let m = length_product(n, l);
    (
        shade_channel(c.0 as int, d, m) as u8,
        shade_channel(c.1 as int, d, m) as u8,
        shade_channel(c.2 as int, d, m) as u8,
        c.3,
    )
}

proof fn lemma_square_of_products(x: int, y: int, u: int, v: int)
    ensures
        (x * y) * (u * v) == (x * u) * (y * v),
        (x * y) * (u * v) == (x * v) * (y * u),
{
    assert((x * y) * (u * v) == (x * u) * (y * v)) by (nonlinear_arith);
    assert((x * y) * (u * v) == (x * v) * (y * u)) by (nonlinear_arith);
}

proof fn lemma_expand_sum_product(a1: int, a2: int, a3: int, b1: int, b2: int, b3: int)
    ensures
        (a1 + a2 + a3) * (b1 + b2 + b3) == a1 * b1 + a1 * b2 + a1 * b3 + a2 * b1 + a2 * b2 + a2 * b3 + a3 * b1
            + a3 * b2 + a3 * b3,
{
    assert((a1 + a2 + a3) * (b1 + b2 + b3) == a1 * b1 + a1 * b2 + a1 * b3 + a2 * b1 + a2 * b2 + a2 * b3 + a3
        * b1 + a3 * b2 + a3 * b3) by (nonlinear_arith);
}

proof fn lemma_square_of_difference(x: int, y: int)
    ensures
        (x - y) * (x - y) == x * x - 2 * (x * y) + y * y,
        0 <= (x - y) * (x - y),
{
    assert((x - y) * (x - y) == x * x - 2 * (x * y) + y * y) by (nonlinear_arith);
    assert(0 <= (x - y) * (x - y)) by (nonlinear_arith);
}

proof fn lemma_cauchy_schwarz(n1: int, n2: int, n3: int, l1: int, l2: int, l3: int)
    ensures
        (n1 * l1 + n2 * l2 + n3 * l3) * (n1 * l1 + n2 * l2 + n3 * l3) <= (n1 * n1 + n2 * n2 + n3 * n3) * (l1 * l1
            + l2 * l2 + l3 * l3),
{
    let (a, b, c) = (n1 * l1, n2 * l2, n3 * l3);
    lemma_expand_sum_product(n1 * n1, n2 * n2, n3 * n3, l1 * l1, l2 * l2, l3 * l3);
    lemma_expand_sum_product(a, b, c, a, b, c);
    lemma_square_of_products(n1, n1, l1, l1);
    lemma_square_of_products(n2, n2, l2, l2);
    lemma_square_of_products(n3, n3, l3, l3);
    lemma_square_of_products(n1, n1, l2, l2);
    lemma_square_of_products(n2, n2, l1, l1);
    lemma_square_of_products(n1, n1, l3, l3);
    lemma_square_of_products(n3, n3, l1, l1);
    lemma_square_of_products(n2, n2, l3, l3);
    lemma_square_of_products(n3, n3, l2, l2);
    lemma_square_of_products(n1, l1, n2, l2);
    lemma_square_of_products(n1, l1, n3, l3);
    lemma_square_of_products(n2, l2, n3, l3);
    lemma_square_of_products(n2, l2, n1, l1);
    lemma_square_of_products(n3, l3, n1, l1);
    lemma_square_of_products(n3, l3, n2, l2);
    lemma_square_of_difference(n1 * l2, n2 * l1);
    lemma_square_of_difference(n1 * l3, n3 * l1);
    lemma_square_of_difference(n2 * l3, n3 * l2);
    assert((n1 * l2) * (n2 * l1) == a * b) by {
        lemma_square_of_products(n1, l1, n2, l2);
        assert((n1 * l2) * (n2 * l1) == (n1 * l2) * (l1 * n2)) by (nonlinear_arith);
        assert((n1 * l1) * (n2 * l2) == (n1 * l2) * (l1 * n2)) by (nonlinear_arith);
    }
    assert((n1 * l3) * (n3 * l1) == a * c) by {
        assert((n1 * l3) * (n3 * l1) == (n1 * l1) * (n3 * l3)) by (nonlinear_arith);
    }
    assert((n2 * l3) * (n3 * l2) == b * c) by {
        assert((n2 * l3) * (n3 * l2) == (n2 * l2) * (n3 * l3)) by (nonlinear_arith);
    }
    assert((n1 * l2) * (n1 * l2) == (n1 * n1) * (l2 * l2)) by (nonlinear_arith);
    assert((n2 * l1) * (n2 * l1) == (n2 * n2) * (l1 * l1)) by (nonlinear_arith);
    assert((n1 * l3) * (n1 * l3) == (n1 * n1) * (l3 * l3)) by (nonlinear_arith);
    assert((n3 * l1) * (n3 * l1) == (n3 * n3) * (l1 * l1)) by (nonlinear_arith);
    assert((n2 * l3) * (n2 * l3) == (n2 * n2) * (l3 * l3)) by (nonlinear_arith);
    assert((n3 * l2) * (n3 * l2) == (n3 * n3) * (l2 * l2)) by (nonlinear_arith);
    assert((n1 * l1) * (n1 * l1) == (n1 * n1) * (l1 * l1)) by (nonlinear_arith);
    assert((n2 * l2) * (n2 * l2) == (n2 * n2) * (l2 * l2)) by (nonlinear_arith);
    assert((n3 * l3) * (n3 * l3) == (n3 * n3) * (l3 * l3)) by (nonlinear_arith);
    assert(b * a == a * b && c * a == a * c && c * b == b * c) by (nonlinear_arith);
}

/// `|n . l|` is at most the rounded-down product of the lengths.
proof fn lemma_dot_within_length_product(n: Point3D, l: Point3D, m: int)
    requires
        is_floor_sqrt(m, dot3_spec(n, n) * dot3_spec(l, l)),
    ensures
        -m <= dot3_spec(n, l) <= m,
{
    let d = dot3_spec(n, l);
    lemma_cauchy_schwarz(n.x as int, n.y as int, n.z as int, l.x as int, l.y as int, l.z as int);
    if d > m {
        assert((m + 1) * (m + 1) <= d * d) by (nonlinear_arith)
            requires
                0 <= m < d,
        ;
    }
    if -d > m {
        assert((m + 1) * (m + 1) <= d * d) by (nonlinear_arith)
            requires
                0 <= m < -d,
        ;
    }
}

proof fn lemma_shade_channel_bound(c: int, d: int, m: int)
    requires
        0 <= c <= 255,
        0 <= m,
        -m <= d <= m,
    ensures
        0 <= shade_channel(c, d, m) <= c,
{
    if m > 0 {
        assert(0 <= c * (d + m) <= c * (2 * m)) by (nonlinear_arith)
            requires
                0 <= c,
                0 <= d + m <= 2 * m,
        ;
        vstd::arithmetic::div_mod::lemma_div_is_ordered(c * (d + m), c * (2 * m), 2 * m);
        vstd::arithmetic::div_mod::lemma_div_is_ordered(0, c * (d + m), 2 * m);
        assert((c * (2 * m)) / (2 * m) == c) by {
            vstd::arithmetic::div_mod::lemma_div_multiples_vanish(c, 2 * m);
            assert(c * (2 * m) == (2 * m) * c) by (nonlinear_arith);
        }
    }
}

/// The product of the two lengths, with the facts that callers need.
fn length_product_exec(nn: i128, ll: i128, Ghost(n): Ghost<Point3D>, Ghost(l): Ghost<Point3D>) -> (m: i128)
    requires
        nn == dot3_spec(n, n),
        ll == dot3_spec(l, l),
        bounded3(n, NORMAL_LIMIT as int),
        bounded3(l, NORMAL_LIMIT as int),
    ensures
        m == length_product(n, l),
        -m <= dot3_spec(n, l) <= m,
        0 <= m <= 0x4_0000_0000_0000,
{
    proof {
        lemma_dot_bound(n);
        lemma_dot_bound(l);
    }
    assert(nn * ll <= 0x4_0000_0000_0000 * 0x4_0000_0000_0000) by (nonlinear_arith)
        requires
            0 <= nn <= 0x4_0000_0000_0000,
            0 <= ll <= 0x4_0000_0000_0000,
    ;
    assert(0 <= nn * ll) by (nonlinear_arith)
        requires
            0 <= nn,
            0 <= ll,
    ;
    let p = (nn as u128) * (ll as u128);
    let r = isqrt(p);
    proof {
        assert(is_floor_sqrt(r as int, p as int));
        lemma_floor_sqrt_unique(r as int, floor_sqrt(p as int), p as int);
        lemma_dot_within_length_product(n, l, r as int);
        if r > 0x4_0000_0000_0000 {
            assert(0x4_0000_0000_0000 * 0x4_0000_0000_0000 < (r as int) * (r as int)) by (nonlinear_arith)
                requires
                    r > 0x4_0000_0000_0000,
            ;
        }
    }
    r as i128
}

proof fn lemma_dot_bound(n: Point3D)
    requires
        bounded3(n, NORMAL_LIMIT as int),
    ensures
        0 <= dot3_spec(n, n) <= 0x4_0000_0000_0000,
{
    let k = NORMAL_LIMIT as int;
    assert(0 <= n.x * n.x <= k * k) by (nonlinear_arith)
        requires
            -k <= n.x <= k,
    ;
    assert(0 <= n.y * n.y <= k * k) by (nonlinear_arith)
        requires
            -k <= n.y <= k,
    ;
    assert(0 <= n.z * n.z <= k * k) by (nonlinear_arith)
        requires
            -k <= n.z <= k,
    ;
}

fn channel(c: u8, d: i128, m: i128) -> (r: u8)
    requires
        0 <= m <= 0x4_0000_0000_0000,
        -m <= d <= m,
    ensures
        r == shade_channel(c as int, d as int, m as int),
{
    proof {
        lemma_shade_channel_bound(c as int, d as int, m as int);
    }
    if m == 0 {
        c / 2
    } else {
        assert((c as int) * ((d + m) as int) <= 255 * 0x8_0000_0000_0000) by (nonlinear_arith)
            requires
                0 <= c <= 255,
                0 <= d + m <= 0x8_0000_0000_0000,
        ;
        assert(0 <= (c as int) * ((d + m) as int)) by (nonlinear_arith)
            requires
                0 <= c,
                0 <= d + m,
        ;
        (((c as i128) * (d + m)) / (2 * m)) as u8
    }
}

/// Shades one pixel: each color channel is scaled by the half-Lambert
/// intensity `(cos(normal, light) + 1) / 2`, alpha passes through.
pub fn shade_pixel(r: u8, g: u8, b: u8, a: u8, normal: Point3D, light: Point3D) -> (c: Color)
    requires
        bounded3(normal, NORMAL_LIMIT as int),
        bounded3(light, NORMAL_LIMIT as int),
    ensures
        c == shade_spec((r, g, b, a), normal, light),
{
    let d = dot3(normal, light);
    let nn = dot3(normal, normal);
    let ll = dot3(light, light);
    let m = length_product_exec(nn, ll, Ghost(normal), Ghost(light));
    (channel(r, d, m), channel(g, d, m), channel(b, d, m), a)
}

/// Shades four lanes by calling `shade_pixel` lane by lane.
pub fn shade_quad_test(r: [u8; 4], g: [u8; 4], b: [u8; 4], a: [u8; 4], normal: Point3Dx4, light: Point3D) -> (c: ([u8; 4], [u8; 4], [u8; 4], [u8; 4]))
    requires
        forall|l: int| 0 <= l < 4 ==> bounded3(#[trigger] lane3(normal, l), NORMAL_LIMIT as int),
        bounded3(light, NORMAL_LIMIT as int),
    ensures
        forall|l: int| 0 <= l < 4 ==> (c.0[l], c.1[l], c.2[l], c.3[l]) == #[trigger] shade_spec((r[l], g[l], b[l], a[l]), lane3(normal, l), light),
{
    let mut rr = [0u8; 4];
    let mut gg = [0u8; 4];
    let mut bb = [0u8; 4];
    let mut aa = [0u8; 4];
    let mut lane: usize = 0;
    while lane < 4
        invariant
            0 <= lane <= 4,
            forall|l: int| 0 <= l < 4 ==> bounded3(#[trigger] lane3(normal, l), NORMAL_LIMIT as int),
            bounded3(light, NORMAL_LIMIT as int),
            forall|l: int| 0 <= l < lane ==> (rr[l], gg[l], bb[l], aa[l]) == #[trigger] shade_spec((r[l], g[l], b[l], a[l]), lane3(normal, l), light),
        decreases 4 - lane,
    {
        let n = Point3D { x: normal.x[lane], y: normal.y[lane], z: normal.z[lane] };
        assert(n == lane3(normal, lane as int));
        let (sr, sg, sb, sa) = shade_pixel(r[lane], g[lane], b[lane], a[lane], n, light);
        rr[lane] = sr;
        gg[lane] = sg;
        bb[lane] = sb;
        aa[lane] = sa;
        lane = lane + 1;
    }
    (rr, gg, bb, aa)
}

/// Shades four lanes at once: lane-wise dot products, then lane-wise scaling.
pub fn shade_quad(r: [u8; 4], g: [u8; 4], b: [u8; 4], a: [u8; 4], normal: Point3Dx4, light: Point3D) -> (c: ([u8; 4], [u8; 4], [u8; 4], [u8; 4]))
    requires
        forall|l: int| 0 <= l < 4 ==> bounded3(#[trigger] lane3(normal, l), NORMAL_LIMIT as int),
        bounded3(light, NORMAL_LIMIT as int),
    ensures
        forall|l: int| 0 <= l < 4 ==> (c.0[l], c.1[l], c.2[l], c.3[l]) == #[trigger] shade_spec((r[l], g[l], b[l], a[l]), lane3(normal, l), light),
{
    let lights = Point3Dx4 { x: [light.x; 4], y: [light.y; 4], z: [light.z; 4] };
    assert forall|l: int| 0 <= l < 4 implies #[trigger] lane3(lights, l) == light && bounded3(lane3(normal, l), DOT_LIMIT as int) by {
        if l == 0 {} else if l == 1 {} else if l == 2 {} else {}
    }
    let d = dot3_simd(normal, lights);
    let nn = dot3_simd(normal, normal);
    let ll = dot3(light, light);
    let mut rr = [0u8; 4];
    let mut gg = [0u8; 4];
    let mut bb = [0u8; 4];
    let mut lane: usize = 0;
    while lane < 4
        invariant
            0 <= lane <= 4,
            forall|l: int| 0 <= l < 4 ==> bounded3(#[trigger] lane3(normal, l), NORMAL_LIMIT as int),
            bounded3(light, NORMAL_LIMIT as int),
            forall|l: int| 0 <= l < 4 ==> #[trigger] lane3(lights, l) == light,
            forall|l: int| 0 <= l < 4 ==> d[l] == #[trigger] dot3_spec(lane3(normal, l), lane3(lights, l)),
            forall|l: int| 0 <= l < 4 ==> nn[l] == dot3_spec(#[trigger] lane3(normal, l), lane3(normal, l)),
            ll == dot3_spec(light, light),
            forall|l: int| 0 <= l < lane ==> (rr[l], gg[l], bb[l], a[l]) == #[trigger] shade_spec((r[l], g[l], b[l], a[l]), lane3(normal, l), light),
        decreases 4 - lane,
    {
        assert(bounded3(lane3(normal, lane as int), NORMAL_LIMIT as int));
        assert(lane3(lights, lane as int) == light);
        let m = length_product_exec(nn[lane], ll, Ghost(lane3(normal, lane as int)), Ghost(light));
        rr[lane] = channel(r[lane], d[lane], m);
        gg[lane] = channel(g[lane], d[lane], m);
        bb[lane] = channel(b[lane], d[lane], m);
        lane = lane + 1;
    }
    (rr, gg, bb, a)
}

} // verus!
