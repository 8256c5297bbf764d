//! Per-tile rasterization: coverage, perspective-correct interpolation,
//! depth test, texturing and shading of screen-space triangles.
use vstd::prelude::*;
use vstd::arithmetic::div_mod::{lemma_div_is_ordered, lemma_div_multiples_vanish, lemma_fundamental_div_mod, lemma_fundamental_div_mod_converse, lemma_mod_bound};
use crate::geometry::{edge, inside, on_canvas, lemma_edge_bound, lemma_barycentric_partition, point_in_triangle_simd, signed_triangle_area, SUBPIXEL};
use crate::point::{Point2D, Point2Dx4, Point3D, Point3Dx4, bounded2, bounded3, lane2, lane3};
use crate::screen::{Color, ScreenSpace, FAR, in_block, lane_of, lane_x, lane_y};
use crate::shading::{shade_spec, shade_quad, NORMAL_LIMIT};
use crate::texture::Texture;

verus! {

/// Largest inverse depth: vertex depths are stored as `2^32 / depth`.
pub const INV_DEPTH_LIMIT: i64 = 1_099_511_627_776;

/// Largest magnitude of a texture coordinate (in units of `1 / UV_ONE`).
pub const UV_LIMIT: i64 = 2_147_483_648;

/// Scale of interpolated depths: a depth `d` (in units of `2^-16`) is
/// `DEPTH_SCALE * area / sum(weight * inverse depth)`.
pub const DEPTH_SCALE: i128 = 281_474_976_710_656;

/// Largest pixel coordinate that a rasterized tile may reach.
pub const MAX_SCREEN: u32 = 32768;

/// A triangle in screen space. `x` and `y` of each vertex are sub-pixel screen
/// coordinates and `z` its pre-inverted depth; `ta..tc` are texture
/// coordinates, `na..nc` normals, and the bounding box `[bb_start, bb_end)`
/// is aligned to 2x2 blocks.
#[derive(Debug, Clone, Copy, PartialEq, Eq, Structural)]
pub struct Triangle3D {
    pub a: Point3D,
    pub b: Point3D,
    pub c: Point3D,
    pub ta: Point2D,
    pub tb: Point2D,
    pub tc: Point2D,
    pub na: Point3D,
    pub nb: Point3D,
    pub nc: Point3D,
    pub bb_start_x: u32,
    pub bb_start_y: u32,
    pub bb_end_x: u32,
    pub bb_end_y: u32,
}

/// The screen position of a vertex.
pub open spec fn xy(p: Point3D) -> Point2D {
    Point2D { x: p.x, y: p.y }
}

/// The sample point of pixel `(px, py)`: its center, in sub-pixel units.
pub open spec fn sample_point(px: int, py: int) -> Point2D {
    Point2D {
        x: (px * SUBPIXEL + SUBPIXEL / 2) as i64,
        y: (py * SUBPIXEL + SUBPIXEL / 2) as i64,
    }
}

impl Triangle3D {
    /// Every coordinate lies in the range the fixed-point arithmetic accepts.
    pub open spec fn wf(&self) -> bool {
        &&& on_canvas(xy(self.a))
        &&& on_canvas(xy(self.b))
        &&& on_canvas(xy(self.c))
        &&& -INV_DEPTH_LIMIT <= self.a.z <= INV_DEPTH_LIMIT
        &&& -INV_DEPTH_LIMIT <= self.b.z <= INV_DEPTH_LIMIT
        &&& -INV_DEPTH_LIMIT <= self.c.z <= INV_DEPTH_LIMIT
        &&& bounded2(self.ta, UV_LIMIT as int)
        &&& bounded2(self.tb, UV_LIMIT as int)
        &&& bounded2(self.tc, UV_LIMIT as int)
        &&& bounded3(self.na, NORMAL_LIMIT as int)
        &&& bounded3(self.nb, NORMAL_LIMIT as int)
        &&& bounded3(self.nc, NORMAL_LIMIT as int)
    }

    /// Twice the signed screen area; positive for front-facing triangles.
    pub open spec fn area(&self) -> int {
        edge(xy(self.a), xy(self.b), xy(self.c))
    }

    /// The triangle is drawn at all: it faces the viewer (counter-clockwise,
    /// positive area) and is not degenerate. Each vertex's inverse depth must
    /// also be at least one unit: this keeps the perspective divisor
    /// `sum(weight * inverse depth)` positive (no smaller than the area), so
    /// that depths and interpolated attributes are defined; a triangle with a
    /// vertex at or behind the eye is skipped.
    pub open spec fn drawable(&self) -> bool {
        self.area() > 0 && self.a.z >= 1 && self.b.z >= 1 && self.c.z >= 1
    }

    pub open spec fn in_box(&self, px: int, py: int) -> bool {
        self.bb_start_x <= px < self.bb_end_x && self.bb_start_y <= py < self.bb_end_y
    }

    /// The triangle produces a fragment at pixel `(px, py)`.
    pub open spec fn covers(&self, px: int, py: int) -> bool {
        self.drawable() && self.in_box(px, py) && inside(xy(self.a), xy(self.b), xy(self.c), sample_point(px, py))
    }

    /// Barycentric numerators at `p`, each multiplied by its vertex's inverse depth.
    pub open spec fn persp_weights(&self, p: Point2D) -> (int, int, int) {
        (
            edge(xy(self.b), xy(self.c), p) * self.a.z,
            edge(xy(self.c), xy(self.a), p) * self.b.z,
            edge(xy(self.a), xy(self.b), p) * self.c.z,
        )
    }

    /// Perspective-correct depth at `p`, in units of `2^-16`.
    pub open spec fn depth_at(&self, p: Point2D) -> int {
        let k = self.persp_weights(p);
        (self.area() * DEPTH_SCALE) / (k.0 + k.1 + k.2)
    }

    pub open spec fn uv_at(&self, p: Point2D) -> (int, int) {
        let k = self.persp_weights(p);
        (interp(k, self.ta.x as int, self.tb.x as int, self.tc.x as int), interp(k, self.ta.y as int, self.tb.y as int, self.tc.y as int))
    }

    pub open spec fn normal_at(&self, p: Point2D) -> Point3D {
        let k = self.persp_weights(p);
        Point3D {
            x: interp(k, self.na.x as int, self.nb.x as int, self.nc.x as int) as i64,
            y: interp(k, self.na.y as int, self.nb.y as int, self.nc.y as int) as i64,
            z: interp(k, self.na.z as int, self.nb.z as int, self.nc.z as int) as i64,
        }
    }
}

/// Perspective-correct interpolation of a vertex attribute: the weighted mean
/// of `va, vb, vc` under the weights `k`, rounded down.
pub open spec fn interp(k: (int, int, int), va: int, vb: int, vc: int) -> int {
    (k.0 * va + k.1 * vb + k.2 * vc) / (k.0 + k.1 + k.2)
}

/// What triangle `t` contributes at pixel `(px, py)`: its depth there and its
/// textured, shaded color, or nothing where it does not cover the pixel.
pub open spec fn fragment(t: Triangle3D, tex: Texture, light: Point3D, px: int, py: int) -> Option<(u64, Color)> {
    if t.covers(px, py) {
        let p = sample_point(px, py);
        let uv = t.uv_at(p);
        Some((t.depth_at(p) as u64, shade_spec(tex.sample_spec(uv.0, uv.1), t.normal_at(p), light)))
    } else {
        None
    }
}

/// The depth test: a fragment replaces the stored depth and color only when
/// it is strictly nearer.
pub open spec fn depth_test(s: (u64, Color), f: Option<(u64, Color)>) -> (u64, Color) {
    match f {
        Some(frag) => if frag.0 < s.0 { frag } else { s },
        None => s,
    }
}

/// The depth and color of pixel `(px, py)` after drawing `tris` in order over
/// the initial state `init`.
pub open spec fn render_pixel(tris: Seq<Triangle3D>, tex: Texture, light: Point3D, px: int, py: int, init: (u64, Color)) -> (u64, Color)
    decreases tris.len(),
{
    if tris.len() == 0 {
        init
    } else {
        depth_test(render_pixel(tris.drop_last(), tex, light, px, py, init), fragment(tris.last(), tex, light, px, py))
    }
}

proof fn lemma_edge_at_endpoints(a: Point2D, b: Point2D)
    ensures
        edge(a, b, a) == 0,
        edge(a, b, b) == 0,
{
    let (dx, dy) = ((b.x - a.x) as int, (b.y - a.y) as int);
    assert(dy * dx == dx * dy) by (nonlinear_arith);
    assert(0 * dy == 0 && 0 * dx == 0);
}

proof fn lemma_interp_single(w: int, va: int, vb: int, vc: int)
    requires
        w > 0,
    ensures
        interp((w, 0, 0), va, vb, vc) == va,
        interp((0, w, 0), va, vb, vc) == vb,
        interp((0, 0, w), va, vb, vc) == vc,
{
    lemma_div_multiples_vanish(va, w);
    lemma_div_multiples_vanish(vb, w);
    lemma_div_multiples_vanish(vc, w);
}

/// Interpolating a drawable triangle's texture coordinates and normals at
/// the screen position of one of its vertices gives back exactly that
/// vertex's own texture coordinate and normal.
pub proof fn lemma_interpolation_at_vertices(t: Triangle3D)
    requires
        t.drawable(),
    ensures
        t.uv_at(xy(t.a)) == (t.ta.x as int, t.ta.y as int),
        t.uv_at(xy(t.b)) == (t.tb.x as int, t.tb.y as int),
        t.uv_at(xy(t.c)) == (t.tc.x as int, t.tc.y as int),
        t.normal_at(xy(t.a)) == t.na,
        t.normal_at(xy(t.b)) == t.nb,
        t.normal_at(xy(t.c)) == t.nc,
{
    let (a, b, c) = (xy(t.a), xy(t.b), xy(t.c));
    lemma_edge_at_endpoints(a, b);
    lemma_edge_at_endpoints(b, c);
    lemma_edge_at_endpoints(c, a);
    lemma_barycentric_partition(a, b, c, a);
    lemma_barycentric_partition(a, b, c, b);
    lemma_barycentric_partition(a, b, c, c);
    let area = t.area();
    assert(area * t.a.z > 0 && area * t.b.z > 0 && area * t.c.z > 0) by (nonlinear_arith)
        requires
            area > 0,
            t.a.z >= 1,
            t.b.z >= 1,
            t.c.z >= 1,
    ;
    assert(t.persp_weights(a) == (area * t.a.z, 0int, 0int));
    assert(t.persp_weights(b) == (0int, area * t.b.z, 0int));
    assert(t.persp_weights(c) == (0int, 0int, area * t.c.z));
    lemma_interp_single(area * t.a.z, t.ta.x as int, t.tb.x as int, t.tc.x as int);
    lemma_interp_single(area * t.a.z, t.ta.y as int, t.tb.y as int, t.tc.y as int);
    lemma_interp_single(area * t.a.z, t.na.x as int, t.nb.x as int, t.nc.x as int);
    lemma_interp_single(area * t.a.z, t.na.y as int, t.nb.y as int, t.nc.y as int);
    lemma_interp_single(area * t.a.z, t.na.z as int, t.nb.z as int, t.nc.z as int);
    lemma_interp_single(area * t.b.z, t.ta.x as int, t.tb.x as int, t.tc.x as int);
    lemma_interp_single(area * t.b.z, t.ta.y as int, t.tb.y as int, t.tc.y as int);
    lemma_interp_single(area * t.b.z, t.na.x as int, t.nb.x as int, t.nc.x as int);
    lemma_interp_single(area * t.b.z, t.na.y as int, t.nb.y as int, t.nc.y as int);
    lemma_interp_single(area * t.b.z, t.na.z as int, t.nb.z as int, t.nc.z as int);
    lemma_interp_single(area * t.c.z, t.ta.x as int, t.tb.x as int, t.tc.x as int);
    lemma_interp_single(area * t.c.z, t.ta.y as int, t.tb.y as int, t.tc.y as int);
    lemma_interp_single(area * t.c.z, t.na.x as int, t.nb.x as int, t.nc.x as int);
    lemma_interp_single(area * t.c.z, t.na.y as int, t.nb.y as int, t.nc.y as int);
    lemma_interp_single(area * t.c.z, t.na.z as int, t.nb.z as int, t.nc.z as int);
}

/// Drawing two triangles in either order leaves the same depth and color at
/// a pixel where their fragments, if both exist, have different depths; where
/// both exist, the nearer one is what remains (unless the pixel already held
/// something nearer still).
pub proof fn lemma_depth_test_order_independent(
    t1: Triangle3D,
    t2: Triangle3D,
    tex: Texture,
    light: Point3D,
    px: int,
    py: int,
    init: (u64, Color),
)
    requires
        fragment(t1, tex, light, px, py) is Some && fragment(t2, tex, light, px, py) is Some
            ==> fragment(t1, tex, light, px, py).unwrap().0 != fragment(t2, tex, light, px, py).unwrap().0,
    ensures
        render_pixel(seq![t1, t2], tex, light, px, py, init) == render_pixel(seq![t2, t1], tex, light, px, py, init),
        ({
            let f1 = fragment(t1, tex, light, px, py);
            let f2 = fragment(t2, tex, light, px, py);
            f1 is Some && f2 is Some && f1.unwrap().0 < f2.unwrap().0 && f1.unwrap().0 < init.0
                ==> render_pixel(seq![t1, t2], tex, light, px, py, init) == f1.unwrap()
        }),
{
    let s12 = seq![t1, t2];
    let s21 = seq![t2, t1];
    assert(s12.drop_last() =~= seq![t1]);
    assert(s21.drop_last() =~= seq![t2]);
    assert(seq![t1].drop_last() =~= Seq::<Triangle3D>::empty());
    assert(seq![t2].drop_last() =~= Seq::<Triangle3D>::empty());
    reveal_with_fuel(render_pixel, 3);
}

/// Largest perspective weight: a barycentric numerator times an inverse depth.
const WEIGHT_LIMIT: i128 = 0x800_0000_0000_0000_0000_0000;

/// `n / d` rounded down.
pub(crate) fn div_floor(n: i128, d: i128) -> (q: i128)
    requires
        d > 0,
    ensures
        q == n / d,
{
    if n >= 0 {
        proof {
            assert(n as int <= n as int * d as int) by (nonlinear_arith)
                requires
                    n >= 0,
                    d >= 1,
            ;
            assert(n as int * d as int == d as int * n as int) by (nonlinear_arith);
            lemma_div_is_ordered(0, n as int, d as int);
            lemma_div_is_ordered(n as int, n as int * d as int, d as int);
            lemma_div_multiples_vanish(n as int, d as int);
        }
        ((n as u128) / (d as u128)) as i128
    } else {
        let m = (-(n + 1)) as u128;
        let q = m / (d as u128);
        proof {
            lemma_fundamental_div_mod(m as int, d as int);
            lemma_mod_bound(m as int, d as int);
            let r = (m as int) % (d as int);
            assert((q as int) == (m as int) / (d as int));
            assert((n as int) == (-(q as int) - 1) * (d as int) + ((d as int) - r - 1)) by (nonlinear_arith)
                requires
                    m as int == d as int * (q as int) + r,
                    m as int == -(n as int) - 1,
            ;
            lemma_fundamental_div_mod_converse(n as int, d as int, -(q as int) - 1, (d as int) - r - 1);
            assert(q as int <= m as int) by {
                assert(m as int <= m as int * d as int) by (nonlinear_arith)
                    requires
                        m >= 0,
                        d >= 1,
                ;
                assert(m as int * d as int == d as int * m as int) by (nonlinear_arith);
                lemma_div_is_ordered(m as int, m as int * d as int, d as int);
                lemma_div_multiples_vanish(m as int, d as int);
            }
        }
        -(q as i128) - 1
    }
}

proof fn lemma_div_within(n: int, d: int, lim: int)
    requires
        d > 0,
        lim >= 0,
        -(lim * d) <= n <= lim * d,
    ensures
        -lim <= n / d <= lim,
{
    lemma_div_is_ordered(n, lim * d, d);
    lemma_div_is_ordered(-(lim * d), n, d);
    assert(lim * d == d * lim) by (nonlinear_arith);
    lemma_div_multiples_vanish(lim, d);
    assert(-(lim * d) == d * (-lim)) by (nonlinear_arith);
    lemma_div_multiples_vanish(-lim, d);
}

/// The interpolated value lies within the range of the vertex values.
proof fn lemma_interp_bound(k: (int, int, int), va: int, vb: int, vc: int, lim: int)
    requires
        k.0 >= 0,
        k.1 >= 0,
        k.2 >= 0,
        k.0 + k.1 + k.2 > 0,
        lim >= 0,
        -lim <= va <= lim,
        -lim <= vb <= lim,
        -lim <= vc <= lim,
    ensures
        -lim <= interp(k, va, vb, vc) <= lim,
{
    let (ka, kb, kc) = k;
    assert(-(ka * lim) <= ka * va <= ka * lim) by (nonlinear_arith)
        requires
            ka >= 0,
            -lim <= va <= lim,
    ;
    assert(-(kb * lim) <= kb * vb <= kb * lim) by (nonlinear_arith)
        requires
            kb >= 0,
            -lim <= vb <= lim,
    ;
    assert(-(kc * lim) <= kc * vc <= kc * lim) by (nonlinear_arith)
        requires
            kc >= 0,
            -lim <= vc <= lim,
    ;
    assert(ka * lim + kb * lim + kc * lim == lim * (ka + kb + kc)) by (nonlinear_arith);
    lemma_div_within(ka * va + kb * vb + kc * vc, ka + kb + kc, lim);
}

/// Perspective-correct interpolation of one attribute.
fn interpolate(ka: i128, kb: i128, kc: i128, va: i64, vb: i64, vc: i64, lim: i64) -> (r: i64)
    requires
        0 <= ka <= WEIGHT_LIMIT,
        0 <= kb <= WEIGHT_LIMIT,
        0 <= kc <= WEIGHT_LIMIT,
        ka + kb + kc > 0,
        0 <= lim <= UV_LIMIT,
        -lim <= va <= lim,
        -lim <= vb <= lim,
        -lim <= vc <= lim,
    ensures
        r == interp((ka as int, kb as int, kc as int), va as int, vb as int, vc as int),
        -lim <= r <= lim,
{
    proof {
        lemma_interp_bound((ka as int, kb as int, kc as int), va as int, vb as int, vc as int, lim as int);
        crate::point::lemma_mul_bound(ka as int, va as int, WEIGHT_LIMIT as int, UV_LIMIT as int);
        crate::point::lemma_mul_bound(kb as int, vb as int, WEIGHT_LIMIT as int, UV_LIMIT as int);
        crate::point::lemma_mul_bound(kc as int, vc as int, WEIGHT_LIMIT as int, UV_LIMIT as int);
    }
    let n = ka * (va as i128) + kb * (vb as i128) + kc * (vc as i128);
    div_floor(n, ka + kb + kc) as i64
}

/// The perspective weights of a covered sample, from its barycentric numerators.
fn weights_exec(t: &Triangle3D, wa: i64, wb: i64, wc: i64, Ghost(p): Ghost<Point2D>) -> (k: (i128, i128, i128))
    requires
        t.wf(),
        t.drawable(),
        wa == edge(xy(t.b), xy(t.c), p),
        wb == edge(xy(t.c), xy(t.a), p),
        wc == edge(xy(t.a), xy(t.b), p),
        inside(xy(t.a), xy(t.b), xy(t.c), p),
        on_canvas(p),
    ensures
        (k.0 as int, k.1 as int, k.2 as int) == t.persp_weights(p),
        0 <= k.0 <= WEIGHT_LIMIT,
        0 <= k.1 <= WEIGHT_LIMIT,
        0 <= k.2 <= WEIGHT_LIMIT,
        k.0 + k.1 + k.2 >= t.area(),
{
    proof {
        lemma_edge_bound(xy(t.b), xy(t.c), p);
        lemma_edge_bound(xy(t.c), xy(t.a), p);
        lemma_edge_bound(xy(t.a), xy(t.b), p);
        lemma_barycentric_partition(xy(t.a), xy(t.b), xy(t.c), p);
        let m = INV_DEPTH_LIMIT as int;
        assert(wa <= wa * t.a.z <= 0x8_0000_0000_0000 * m) by (nonlinear_arith)
            requires
                0 <= wa <= 0x8_0000_0000_0000,
                1 <= t.a.z <= m,
        ;
        assert(wb <= wb * t.b.z <= 0x8_0000_0000_0000 * m) by (nonlinear_arith)
            requires
                0 <= wb <= 0x8_0000_0000_0000,
                1 <= t.b.z <= m,
        ;
        assert(wc <= wc * t.c.z <= 0x8_0000_0000_0000 * m) by (nonlinear_arith)
            requires
                0 <= wc <= 0x8_0000_0000_0000,
                1 <= t.c.z <= m,
        ;
    }
    ((wa as i128) * (t.a.z as i128), (wb as i128) * (t.b.z as i128), (wc as i128) * (t.c.z as i128))
}

/// Perspective-correct depth of a covered sample.
fn depth_exec(area: i64, k: (i128, i128, i128), Ghost(t): Ghost<Triangle3D>, Ghost(p): Ghost<Point2D>) -> (d: u64)
    requires
        t.drawable(),
        area == t.area(),
        (k.0 as int, k.1 as int, k.2 as int) == t.persp_weights(p),
        0 <= k.0 <= WEIGHT_LIMIT,
        0 <= k.1 <= WEIGHT_LIMIT,
        0 <= k.2 <= WEIGHT_LIMIT,
        k.0 + k.1 + k.2 >= t.area(),
        t.area() <= 0x8_0000_0000_0000,
    ensures
        d == t.depth_at(p),
        d <= DEPTH_SCALE,
{
    let s = k.0 + k.1 + k.2;
    proof {
        let n = (area as int) * (DEPTH_SCALE as int);
        assert(n <= (s as int) * (DEPTH_SCALE as int)) by (nonlinear_arith)
            requires
                0 < area <= s,
                n == (area as int) * (DEPTH_SCALE as int),
        ;
        assert(0 <= n) by (nonlinear_arith)
            requires
                0 < area,
                n == (area as int) * (DEPTH_SCALE as int),
        ;
        lemma_div_within(n, s as int, DEPTH_SCALE as int);
        assert((s as int) * (DEPTH_SCALE as int) == (DEPTH_SCALE as int) * (s as int)) by (nonlinear_arith);
        lemma_div_is_ordered(0, n, s as int);
    }
    let q = ((area as i128) * DEPTH_SCALE) / s;
    q as u64
}

/// Draws triangle `t` into the 2x2 block whose top-left pixel is `(x, y)`, in
/// screen coordinates: each lane that `t` covers and whose depth passes the
/// test receives the new depth and the textured, shaded color.
#[verifier::rlimit(50)]
fn shade_block(tile: &mut ScreenSpace, t: &Triangle3D, area: i64, tex: &Texture, light: Point3D, x: u32, y: u32)
    requires
        old(tile).wf(),
        old(tile).fits_rect(),
        old(tile).rect.max_x <= MAX_SCREEN,
        old(tile).rect.max_y <= MAX_SCREEN,
        old(tile).rect.min_x <= x < old(tile).rect.max_x,
        old(tile).rect.min_y <= y < old(tile).rect.max_y,
        t.wf(),
        t.drawable(),
        area == t.area(),
        tex.wf(),
        bounded3(light, NORMAL_LIMIT as int),
    ensures
        final(tile).wf(),
        final(tile).rect == old(tile).rect,
        final(tile).width == old(tile).width,
        final(tile).height == old(tile).height,
        forall|px: int, py: int| old(tile).in_bounds(px, py) ==> #[trigger] final(tile).state_at(px, py) == (if in_block(x - old(tile).rect.min_x, y - old(tile).rect.min_y, px, py) {
            depth_test(old(tile).state_at(px, py), fragment(*t, *tex, light, px + old(tile).rect.min_x, py + old(tile).rect.min_y))
        } else {
            old(tile).state_at(px, py)
        }),
{
    let ghost start = *tile;
    let sx: i64 = (x as i64) * SUBPIXEL + SUBPIXEL / 2;
    let sy: i64 = (y as i64) * SUBPIXEL + SUBPIXEL / 2;
    let p = Point2Dx4 { x: [sx, sx + SUBPIXEL, sx, sx + SUBPIXEL], y: [sy, sy, sy + SUBPIXEL, sy + SUBPIXEL] };
    assert forall|l: int| 0 <= l < 4 implies #[trigger] lane2(p, l) == sample_point(lane_x(x as int, l), lane_y(y as int, l))
        && on_canvas(lane2(p, l)) by {
        if l == 0 {} else if l == 1 {} else if l == 2 {} else {}
    }
    let va = Point2D { x: t.a.x, y: t.a.y };
    let vb = Point2D { x: t.b.x, y: t.b.y };
    let vc = Point2D { x: t.c.x, y: t.c.y };
    let mut w = Point3Dx4 { x: [0; 4], y: [0; 4], z: [0; 4] };
    let inside_lanes = point_in_triangle_simd(va, vb, vc, p, area, &mut w);

    // Coverage and depth, lane by lane.
    let mut covered = [false; 4];
    let mut depth = [FAR; 4];
    let mut ka = [0i128; 4];
    let mut kb = [0i128; 4];
    let mut kc = [0i128; 4];
    let mut l: usize = 0;
    while l < 4
        invariant
            0 <= l <= 4,
            t.wf(),
            t.drawable(),
            area == t.area(),
            x < MAX_SCREEN,
            y < MAX_SCREEN,
            va == xy(t.a),
            vb == xy(t.b),
            vc == xy(t.c),
            forall|k: int| 0 <= k < 4 ==> #[trigger] lane2(p, k) == sample_point(lane_x(x as int, k), lane_y(y as int, k))
                && on_canvas(lane2(p, k)),
            forall|k: int| 0 <= k < 4 ==> inside_lanes[k] == (inside(va, vb, vc, #[trigger] lane2(p, k)) && area > 0),
            forall|k: int| 0 <= k < 4 ==> w.x[k] == edge(vb, vc, #[trigger] lane2(p, k)),
            forall|k: int| 0 <= k < 4 ==> w.y[k] == edge(vc, va, #[trigger] lane2(p, k)),
            forall|k: int| 0 <= k < 4 ==> w.z[k] == edge(va, vb, #[trigger] lane2(p, k)),
            forall|k: int| l <= k < 4 ==> !#[trigger] covered[k],
            forall|k: int| 0 <= k < l ==> #[trigger] covered[k] == t.covers(lane_x(x as int, k), lane_y(y as int, k)),
            forall|k: int| 0 <= k < l && #[trigger] covered[k] ==> {
                &&& (ka[k] as int, kb[k] as int, kc[k] as int) == t.persp_weights(lane2(p, k))
                &&& 0 <= ka[k] <= WEIGHT_LIMIT
                &&& 0 <= kb[k] <= WEIGHT_LIMIT
                &&& 0 <= kc[k] <= WEIGHT_LIMIT
                &&& ka[k] + kb[k] + kc[k] > 0
                &&& depth[k] == t.depth_at(lane2(p, k))
                &&& depth[k] <= DEPTH_SCALE
            },
        decreases 4 - l,
    {
        let gx: u32 = if l == 1 || l == 3 { x + 1 } else { x };
        let gy: u32 = if l >= 2 { y + 1 } else { y };
        let in_box = t.bb_start_x <= gx && gx < t.bb_end_x && t.bb_start_y <= gy && gy < t.bb_end_y;
        let ghost q = lane2(p, l as int);
        assert(q == sample_point(lane_x(x as int, l as int), lane_y(y as int, l as int)) && on_canvas(q));
        assert(gx == lane_x(x as int, l as int) && gy == lane_y(y as int, l as int));
        if inside_lanes[l] && in_box {
            proof {
                lemma_edge_bound(va, vb, vc);
            }
            let k = weights_exec(t, w.x[l], w.y[l], w.z[l], Ghost(q));
            ka[l] = k.0;
            kb[l] = k.1;
            kc[l] = k.2;
            depth[l] = depth_exec(area, k, Ghost(*t), Ghost(q));
            covered[l] = true;
        }
        l = l + 1;
    }

    let lx = x - tile.rect.min_x;
    let ly = y - tile.rect.min_y;
    let stored = tile.get_depth_quad(lx, ly);
    let pass = [
        covered[0] && depth[0] < stored[0],
        covered[1] && depth[1] < stored[1],
        covered[2] && depth[2] < stored[2],
        covered[3] && depth[3] < stored[3],
    ];
    assert forall|k: int| 0 <= k < 4 implies #[trigger] pass[k] == (covered[k] && depth[k] < stored[k]) by {
        if k == 0 {} else if k == 1 {} else if k == 2 {} else {}
    }
    if !(pass[0] || pass[1] || pass[2] || pass[3]) {
        proof {
            assert forall|px: int, py: int| start.in_bounds(px, py) implies #[trigger] tile.state_at(px, py) == (if in_block(x - start.rect.min_x, y - start.rect.min_y, px, py) {
                depth_test(start.state_at(px, py), fragment(*t, *tex, light, px + start.rect.min_x, py + start.rect.min_y))
            } else {
                start.state_at(px, py)
            }) by {
                if in_block(lx as int, ly as int, px, py) {
                    let k = lane_of(lx as int, ly as int, px, py);
                    assert(0 <= k < 4);
                    assert(!pass[k]);
                    assert(lane_x(x as int, k) == px + start.rect.min_x);
                    assert(lane_y(y as int, k) == py + start.rect.min_y);
                    assert(lane_x(lx as int, k) == px && lane_y(ly as int, k) == py);
                }
            }
        }
        return;
    }

    // Texture coordinates and normals of the lanes that passed.
    let mut u = [0i64; 4];
    let mut v = [0i64; 4];
    let mut nx = [0i64; 4];
    let mut ny = [0i64; 4];
    let mut nz = [0i64; 4];
    let mut l: usize = 0;
    while l < 4
        invariant
            0 <= l <= 4,
            t.wf(),
            forall|k: int| 0 <= k < 4 ==> #[trigger] pass[k] == (covered[k] && depth[k] < stored[k]),
            forall|k: int| 0 <= k < 4 ==> #[trigger] covered[k] == t.covers(lane_x(x as int, k), lane_y(y as int, k)),
            forall|k: int| 0 <= k < 4 && #[trigger] covered[k] ==> depth[k] == t.depth_at(lane2(p, k)),
            forall|k: int| 0 <= k < 4 && #[trigger] covered[k] ==> {
                &&& (ka[k] as int, kb[k] as int, kc[k] as int) == t.persp_weights(lane2(p, k))
                &&& 0 <= ka[k] <= WEIGHT_LIMIT
                &&& 0 <= kb[k] <= WEIGHT_LIMIT
                &&& 0 <= kc[k] <= WEIGHT_LIMIT
                &&& ka[k] + kb[k] + kc[k] > 0
            },
            forall|k: int| 0 <= k < 4 ==> -NORMAL_LIMIT <= #[trigger] nx[k] <= NORMAL_LIMIT,
            forall|k: int| 0 <= k < 4 ==> -NORMAL_LIMIT <= #[trigger] ny[k] <= NORMAL_LIMIT,
            forall|k: int| 0 <= k < 4 ==> -NORMAL_LIMIT <= #[trigger] nz[k] <= NORMAL_LIMIT,
            forall|k: int| 0 <= k < l && #[trigger] pass[k] ==> {
                &&& (u[k] as int, v[k] as int) == t.uv_at(lane2(p, k))
                &&& (Point3D { x: nx[k], y: ny[k], z: nz[k] }) == t.normal_at(lane2(p, k))
            },
        decreases 4 - l,
    {
        if pass[l] {
            u[l] = interpolate(ka[l], kb[l], kc[l], t.ta.x, t.tb.x, t.tc.x, UV_LIMIT);
            v[l] = interpolate(ka[l], kb[l], kc[l], t.ta.y, t.tb.y, t.tc.y, UV_LIMIT);
            nx[l] = interpolate(ka[l], kb[l], kc[l], t.na.x, t.nb.x, t.nc.x, NORMAL_LIMIT);
            ny[l] = interpolate(ka[l], kb[l], kc[l], t.na.y, t.nb.y, t.nc.y, NORMAL_LIMIT);
            nz[l] = interpolate(ka[l], kb[l], kc[l], t.na.z, t.nb.z, t.nc.z, NORMAL_LIMIT);
        }
        l = l + 1;
    }

    tile.set_depth_quad(lx, ly, depth, pass);
    let ghost mid = *tile;
    let normal = Point3Dx4 { x: nx, y: ny, z: nz };
    assert forall|k: int| 0 <= k < 4 implies bounded3(#[trigger] lane3(normal, k), NORMAL_LIMIT as int) by {
        assert(-NORMAL_LIMIT <= nx[k] <= NORMAL_LIMIT);
        assert(-NORMAL_LIMIT <= ny[k] <= NORMAL_LIMIT);
        assert(-NORMAL_LIMIT <= nz[k] <= NORMAL_LIMIT);
    }
    let (sr, sg, sb, sa) = tex.sample_quad(u, v);
    let (r, g, b, a) = shade_quad(sr, sg, sb, sa, normal, light);
    tile.set_pixel_quad(lx, ly, r, g, b, a, pass);
    proof {
        assert forall|px: int, py: int| start.in_bounds(px, py) implies #[trigger] tile.state_at(px, py) == (if in_block(x - start.rect.min_x, y - start.rect.min_y, px, py) {
            depth_test(start.state_at(px, py), fragment(*t, *tex, light, px + start.rect.min_x, py + start.rect.min_y))
        } else {
            start.state_at(px, py)
        }) by {
            assert(mid.in_bounds(px, py));
            assert(tile.depth_at(px, py) == mid.depth_at(px, py));
            assert(mid.color_at(px, py) == start.color_at(px, py));
            let md = mid.depth_at(px, py);
            let fc = tile.color_at(px, py);
            if in_block(lx as int, ly as int, px, py) {
                let k = lane_of(lx as int, ly as int, px, py);
                assert(0 <= k < 4);
                assert(md == (if pass[k] { depth[k] } else { start.depth_at(px, py) }));
                assert(fc == (if pass[k] { (r[k], g[k], b[k], a[k]) } else { start.color_at(px, py) }));
                assert(lane_x(x as int, k) == px + start.rect.min_x);
                assert(lane_y(y as int, k) == py + start.rect.min_y);
                assert(lane_x(lx as int, k) == px && lane_y(ly as int, k) == py);
                assert(stored[k] == start.depth_at(px, py));
                assert(lane2(p, k) == sample_point(px + start.rect.min_x, py + start.rect.min_y));
                assert(covered[k] == t.covers(px + start.rect.min_x, py + start.rect.min_y));
                if pass[k] {
                    assert(depth[k] == t.depth_at(lane2(p, k)));
                    assert(lane3(normal, k) == t.normal_at(lane2(p, k)));
                    assert((sr[k], sg[k], sb[k], sa[k]) == tex.sample_spec(u[k] as int, v[k] as int));
                    assert((r[k], g[k], b[k], a[k]) == shade_spec((sr[k], sg[k], sb[k], sa[k]), lane3(normal, k), light));
                }
            } else {
                assert(md == start.depth_at(px, py));
                assert(fc == start.color_at(px, py));
            }
        }
    }
}

/// Draws `triangles`, in order, into the tile. Afterwards each pixel holds
/// what drawing every triangle in turn over the pixel's previous depth and
/// color gives (`render_pixel`); only the tile's own buffers are touched.
pub fn rasterize_tile(tile: &mut ScreenSpace, triangles: &Vec<Triangle3D>, texture: &Texture, light: Point3D)
    requires
        old(tile).wf(),
        old(tile).fits_rect(),
        old(tile).rect.max_x <= MAX_SCREEN,
        old(tile).rect.max_y <= MAX_SCREEN,
        forall|i: int| 0 <= i < triangles@.len() ==> #[trigger] triangles@[i].wf(),
        texture.wf(),
        bounded3(light, NORMAL_LIMIT as int),
    ensures
        final(tile).wf(),
        final(tile).rect == old(tile).rect,
        final(tile).width == old(tile).width,
        final(tile).height == old(tile).height,
        forall|px: int, py: int| old(tile).in_bounds(px, py) ==> #[trigger] final(tile).state_at(px, py) == render_pixel(
            triangles@,
            *texture,
            light,
            px + old(tile).rect.min_x,
            py + old(tile).rect.min_y,
            old(tile).state_at(px, py),
        ),
{
    let ghost start = *tile;
    let min_x = tile.rect.min_x;
    let min_y = tile.rect.min_y;
    let max_x = tile.rect.max_x;
    let max_y = tile.rect.max_y;
    let mut i: usize = 0;
    while i < triangles.len()
        invariant
            0 <= i <= triangles@.len(),
            tile.wf(),
            tile.fits_rect(),
            tile.rect == start.rect,
            tile.width == start.width,
            tile.height == start.height,
            min_x == start.rect.min_x,
            min_y == start.rect.min_y,
            max_x == start.rect.max_x,
            max_y == start.rect.max_y,
            max_x <= MAX_SCREEN,
            max_y <= MAX_SCREEN,
            forall|j: int| 0 <= j < triangles@.len() ==> #[trigger] triangles@[j].wf(),
            texture.wf(),
            bounded3(light, NORMAL_LIMIT as int),
            forall|px: int, py: int| start.in_bounds(px, py) ==> #[trigger] tile.state_at(px, py) == render_pixel(
                triangles@.take(i as int),
                *texture,
                light,
                px + min_x,
                py + min_y,
                start.state_at(px, py),
            ),
        decreases triangles@.len() - i,
    {
        let t: Triangle3D = triangles[i];
        assert(t.wf());
        let ghost before = *tile;
        let area = signed_triangle_area(Point2D { x: t.a.x, y: t.a.y }, Point2D { x: t.b.x, y: t.b.y }, Point2D { x: t.c.x, y: t.c.y });
        if area > 0 && t.a.z >= 1 && t.b.z >= 1 && t.c.z >= 1 {
            let ys = if t.bb_start_y > min_y { t.bb_start_y } else { min_y };
            let ye = if t.bb_end_y < max_y { t.bb_end_y } else { max_y };
            let xs = if t.bb_start_x > min_x { t.bb_start_x } else { min_x };
            let xe = if t.bb_end_x < max_x { t.bb_end_x } else { max_x };
            let mut y = ys;
            while y < ye
                invariant
                    tile.wf(),
                    tile.fits_rect(),
                    tile.rect == start.rect,
                    tile.width == start.width,
                    tile.height == start.height,
                    min_x == start.rect.min_x,
                    min_y == start.rect.min_y,
                    max_x == start.rect.max_x,
                    max_y == start.rect.max_y,
                    max_x <= MAX_SCREEN,
                    max_y <= MAX_SCREEN,
                    t.wf(),
                    t.drawable(),
                    area == t.area(),
                    texture.wf(),
                    bounded3(light, NORMAL_LIMIT as int),
                    min_y <= ys <= y,
                    y == ys || y <= ye + 1,
                    ye <= max_y,
                    ye <= t.bb_end_y,
                    ye == t.bb_end_y || ye == max_y,
                    ys >= t.bb_start_y,
                    xs == t.bb_start_x || xs == min_x,
                    xe == t.bb_end_x || xe == max_x,
                    min_x <= xs,
                    xs >= t.bb_start_x,
                    xe <= max_x,
                    xe <= t.bb_end_x,
                    forall|px: int, py: int| start.in_bounds(px, py) ==> #[trigger] tile.state_at(px, py) == (if py + min_y < y {
                        depth_test(before.state_at(px, py), fragment(t, *texture, light, px + min_x, py + min_y))
                    } else {
                        before.state_at(px, py)
                    }),
                decreases ye + 2 - y,
            {
                let mut x = xs;
                proof {
                    assert forall|px: int, py: int| start.in_bounds(px, py) implies #[trigger] tile.state_at(px, py) == (if py + min_y < y
                        || (py + min_y <= y + 1 && px + min_x < x) {
                        depth_test(before.state_at(px, py), fragment(t, *texture, light, px + min_x, py + min_y))
                    } else {
                        before.state_at(px, py)
                    }) by {
                        if py + min_y >= y && py + min_y <= y + 1 && px + min_x < x {
                            assert(!t.in_box(px + min_x, py + min_y));
                        }
                    }
                }
                while x < xe
                    invariant
                        tile.wf(),
                        tile.fits_rect(),
                        tile.rect == start.rect,
                        tile.width == start.width,
                        tile.height == start.height,
                        min_x == start.rect.min_x,
                        min_y == start.rect.min_y,
                        max_x == start.rect.max_x,
                        max_y == start.rect.max_y,
                        max_x <= MAX_SCREEN,
                        max_y <= MAX_SCREEN,
                        t.wf(),
                        t.drawable(),
                        area == t.area(),
                        texture.wf(),
                        bounded3(light, NORMAL_LIMIT as int),
                        min_y <= y < ye,
                        ye <= max_y,
                        min_x <= xs <= x,
                        x == xs || x <= xe + 1,
                        xs >= t.bb_start_x,
                        xe <= max_x,
                        xe <= t.bb_end_x,
                        xs == t.bb_start_x || xs == min_x,
                        xe == t.bb_end_x || xe == max_x,
                        forall|px: int, py: int| start.in_bounds(px, py) ==> #[trigger] tile.state_at(px, py) == (if py + min_y < y
                            || (py + min_y <= y + 1 && px + min_x < x) {
                            depth_test(before.state_at(px, py), fragment(t, *texture, light, px + min_x, py + min_y))
                        } else {
                            before.state_at(px, py)
                        }),
                    decreases xe + 2 - x,
                {
                    let ghost prev = *tile;
                    shade_block(tile, &t, area, texture, light, x, y);
                    proof {
                        assert forall|px: int, py: int| start.in_bounds(px, py) implies #[trigger] tile.state_at(px, py) == (if py + min_y < y
                            || (py + min_y <= y + 1 && px + min_x < x + 2) {
                            depth_test(before.state_at(px, py), fragment(t, *texture, light, px + min_x, py + min_y))
                        } else {
                            before.state_at(px, py)
                        }) by {
                            assert(prev.in_bounds(px, py));
                            assert(prev.state_at(px, py) == (if py + min_y < y || (py + min_y <= y + 1 && px + min_x < x) {
                                depth_test(before.state_at(px, py), fragment(t, *texture, light, px + min_x, py + min_y))
                            } else {
                                before.state_at(px, py)
                            }));
                        }
                    }
                    x = x + 2;
                }
                proof {
                    assert forall|px: int, py: int| start.in_bounds(px, py) implies #[trigger] tile.state_at(px, py) == (if py + min_y < y + 2 {
                        depth_test(before.state_at(px, py), fragment(t, *texture, light, px + min_x, py + min_y))
                    } else {
                        before.state_at(px, py)
                    }) by {
                        if py + min_y <= y + 1 && py + min_y >= y && px + min_x >= x {
                            assert(!t.in_box(px + min_x, py + min_y));
                        }
                    }
                }
                y = y + 2;
            }
            proof {
                assert forall|px: int, py: int| start.in_bounds(px, py) implies #[trigger] tile.state_at(px, py) == depth_test(
                    before.state_at(px, py),
                    fragment(t, *texture, light, px + min_x, py + min_y),
                ) by {
                    if py + min_y >= y {
                        assert(!t.in_box(px + min_x, py + min_y));
                    }
                }
            }
        }
        proof {
            let s = triangles@.take(i as int + 1);
            assert(s.drop_last() =~= triangles@.take(i as int));
            assert(s.last() == t);
            assert forall|px: int, py: int| start.in_bounds(px, py) implies #[trigger] tile.state_at(px, py) == render_pixel(
                s,
                *texture,
                light,
                px + min_x,
                py + min_y,
                start.state_at(px, py),
            ) by {
                assert(before.state_at(px, py) == render_pixel(triangles@.take(i as int), *texture, light, px + min_x, py + min_y, start.state_at(px, py)));
                if !t.drawable() {
                    assert(!t.covers(px + min_x, py + min_y));
                }
            }
        }
        i = i + 1;
    }
    assert(triangles@.take(i as int) =~= triangles@);
}

/// `v` clamped to `[lo, hi]`.
pub open spec fn clamp(v: int, lo: int, hi: int) -> int {
    if v < lo {
        lo
    } else if v > hi {
        hi
    } else {
        v
    }
}

pub open spec fn min3(a: int, b: int, c: int) -> int {
    if a <= b && a <= c {
        a
    } else if b <= c {
        b
    } else {
        c
    }
}

pub open spec fn max3(a: int, b: int, c: int) -> int {
    if a >= b && a >= c {
        a
    } else if b >= c {
        b
    } else {
        c
    }
}

/// First pixel of a bounding box whose smallest sub-pixel coordinate is `m`,
/// on a screen of `n` pixels: the pixel holding `m`, clamped to the screen
/// and rounded down to an even pixel.
pub open spec fn box_start(m: int, n: int) -> int {
    let p = clamp(m / (SUBPIXEL as int), 0, n - 1);
    p - p % 2
}

/// End (exclusive) of a bounding box whose largest sub-pixel coordinate is
/// `m`: the pixel at or above `m`, clamped to the screen, plus one, rounded
/// down to an even pixel.
pub open spec fn box_end(m: int, n: int) -> int {
    let p = clamp(-((-m) / (SUBPIXEL as int)), 0, n - 1) + 1;
    p - p % 2
}

fn clamp_exec(v: i128, hi: u32) -> (r: u32)
    requires
        hi >= 0,
    ensures
        r == clamp(v as int, 0, hi as int),
{
    if v < 0 {
        0
    } else if v > hi as i128 {
        hi
    } else {
        v as u32
    }
}

fn min3_exec(a: i64, b: i64, c: i64) -> (r: i64)
    ensures
        r == min3(a as int, b as int, c as int),
{
    if a <= b && a <= c {
        a
    } else if b <= c {
        b
    } else {
        c
    }
}

fn max3_exec(a: i64, b: i64, c: i64) -> (r: i64)
    ensures
        r == max3(a as int, b as int, c as int),
{
    if a >= b && a >= c {
        a
    } else if b >= c {
        b
    } else {
        c
    }
}

impl Triangle3D {
    /// The triangle with projected vertices `a, b, c` (sub-pixel `x, y`,
    /// pre-inverted depth `z`), texture coordinates `ta..tc` and normals
    /// `na..nc`, and the bounding box of its vertices on a
    /// `width x height` screen, rounded outward to whole 2x2 blocks.
    pub fn with_bounding_box(
        a: Point3D,
        b: Point3D,
        c: Point3D,
        ta: Point2D,
        tb: Point2D,
        tc: Point2D,
        na: Point3D,
        nb: Point3D,
        nc: Point3D,
        width: u32,
        height: u32,
    ) -> (t: Triangle3D)
        requires
            width >= 1,
            height >= 1,
        ensures
            t.a == a && t.b == b && t.c == c,
            t.ta == ta && t.tb == tb && t.tc == tc,
            t.na == na && t.nb == nb && t.nc == nc,
            t.bb_start_x == box_start(min3(a.x as int, b.x as int, c.x as int), width as int),
            t.bb_start_y == box_start(min3(a.y as int, b.y as int, c.y as int), height as int),
            t.bb_end_x == box_end(max3(a.x as int, b.x as int, c.x as int), width as int),
            t.bb_end_y == box_end(max3(a.y as int, b.y as int, c.y as int), height as int),
    {
        let sx = clamp_exec(div_floor(min3_exec(a.x, b.x, c.x) as i128, SUBPIXEL as i128), width - 1);
        let sy = clamp_exec(div_floor(min3_exec(a.y, b.y, c.y) as i128, SUBPIXEL as i128), height - 1);
        let ex = clamp_exec(-div_floor(-(max3_exec(a.x, b.x, c.x) as i128), SUBPIXEL as i128), width - 1) + 1;
        let ey = clamp_exec(-div_floor(-(max3_exec(a.y, b.y, c.y) as i128), SUBPIXEL as i128), height - 1) + 1;
        Triangle3D {
            a,
            b,
            c,
            ta,
            tb,
            tc,
            na,
            nb,
            nc,
            bb_start_x: sx - sx % 2,
            bb_start_y: sy - sy % 2,
            bb_end_x: ex - ex % 2,
            bb_end_y: ey - ey % 2,
        }
    }
}

} // verus!
