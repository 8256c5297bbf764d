//! Textures and repeat-addressed sampling at fixed-point texture coordinates.
use vstd::prelude::*;
use vstd::arithmetic::div_mod::{lemma_mod_bound, lemma_fundamental_div_mod, lemma_fundamental_div_mod_converse};
use crate::screen::{Color, color_of, pix, lemma_pix_bound};

verus! {

/// One unit of texture coordinate: `u = UV_ONE` is one full texture width.
pub const UV_ONE: i64 = 65536;

/// An RGBA8 image stored row by row, row 0 at the bottom.
pub struct Texture {
    pub width: u32,
    pub height: u32,
    pub rgba: Vec<u8>,
}

/// The texel column (or row) that the coordinate `t` selects in a texture of
/// `n` texels: the fractional part of `t`, scaled to `[0, n - 1]` and rounded.
pub open spec fn texel_coord(t: int, n: int) -> int {
    ((t % (UV_ONE as int)) * (n - 1) + (UV_ONE as int) / 2) / (UV_ONE as int)
}

proof fn lemma_texel_coord_bound(t: int, n: int)
    requires
        n >= 1,
    ensures
        0 <= texel_coord(t, n) < n,
{
    let f = t % 65536;
    lemma_mod_bound(t, 65536);
    let m = f * (n - 1) + 32768;
    assert(0 <= f * (n - 1) <= 65535 * (n - 1)) by (nonlinear_arith)
        requires
            0 <= f < 65536,
            n >= 1,
    ;
    lemma_fundamental_div_mod(m, 65536);
    lemma_mod_bound(m, 65536);
}

/// `t` modulo `UV_ONE`, in `[0, UV_ONE)` for negative `t` as well.
fn wrap_uv(t: i64) -> (f: u64)
    ensures
        f == (t as int) % (UV_ONE as int),
        f < 65536,
{
    if t >= 0 {
        proof {
            lemma_mod_bound(t as int, 65536);
        }
        (t as u64) % 65536
    } else {
        let p = (-(t + 1)) as u64;
        let r = p % 65536;
        proof {
            let q = (p as int) / 65536;
            lemma_fundamental_div_mod(p as int, 65536);
            lemma_mod_bound(p as int, 65536);
            lemma_fundamental_div_mod_converse(t as int, 65536, -q - 1, 65535 - r);
        }
        65535 - r
    }
}

/// The wrapped texel index that `t` selects, as computed with 64-bit words.
fn texel_index(t: i64, n: u32) -> (r: u64)
    requires
        n >= 1,
    ensures
        r == texel_coord(t as int, n as int),
        r < n,
{
    proof {
        lemma_texel_coord_bound(t as int, n as int);
    }
    let f = wrap_uv(t);
    assert((f as int) * ((n as int) - 1) <= 65535 * 0xffff_ffff) by (nonlinear_arith)
        requires
            f < 65536,
            1 <= n <= 0xffff_ffff,
    ;
    (f * ((n - 1) as u64) + 32768) / 65536
}

impl Texture {
    pub open spec fn wf(&self) -> bool {
        &&& self.width >= 1
        &&& self.height >= 1
        &&& self.rgba@.len() == 4 * (self.width * self.height)
    }

    /// The texel at column `x`, row `y`.
    pub open spec fn texel(&self, x: int, y: int) -> Color {
        color_of(self.rgba@, pix(x, y, self.width as int))
    }

    /// The color sampled at texture coordinates `(u, v)` with repeat addressing.
    pub open spec fn sample_spec(&self, u: int, v: int) -> Color {
        self.texel(texel_coord(u, self.width as int), texel_coord(v, self.height as int))
    }

    /// Position of the first byte of the texel that `(u, v)` selects.
    fn texel_offset(&self, u: i64, v: i64) -> (i: usize)
        requires
            self.wf(),
        ensures
            i == 4 * pix(texel_coord(u as int, self.width as int), texel_coord(v as int, self.height as int), self.width as int),
            i + 3 < self.rgba@.len(),
    {
        let x = texel_index(u, self.width);
        let y = texel_index(v, self.height);
        proof {
            lemma_pix_bound(x as int, y as int, self.width as int, self.height as int);
            assert(0 <= (y as int) * (self.width as int)) by (nonlinear_arith)
                requires
                    0 <= y,
                    0 <= self.width,
            ;
        }
        let n = self.rgba.len();
        assert(n <= usize::MAX);
        ((y as usize) * (self.width as usize) + (x as usize)) * 4
    }

    /// Samples the texel at `(u, v)`; coordinates wrap, so any value is accepted.
    pub fn sample(&self, u: i64, v: i64) -> (c: Color)
        requires
            self.wf(),
        ensures
            c == self.sample_spec(u as int, v as int),
    {
        let idx = self.texel_offset(u, v);
        (self.rgba[idx], self.rgba[idx + 1], self.rgba[idx + 2], self.rgba[idx + 3])
    }

    /// Samples four lanes, one texel per lane, by calling `sample` lane by lane.
    pub fn sample_quad_test(&self, u: [i64; 4], v: [i64; 4]) -> (r: ([u8; 4], [u8; 4], [u8; 4], [u8; 4]))
        requires
            self.wf(),
        ensures
            forall|l: int| 0 <= l < 4 ==> (r.0[l], r.1[l], r.2[l], r.3[l]) == #[trigger] self.sample_spec(u[l] as int, v[l] as int),
    {
        let mut r = [0u8; 4];
        let mut g = [0u8; 4];
        let mut b = [0u8; 4];
        let mut a = [0u8; 4];
        let mut lane: usize = 0;
        while lane < 4
            invariant
                self.wf(),
                0 <= lane <= 4,
                forall|l: int| 0 <= l < lane ==> (r[l], g[l], b[l], a[l]) == #[trigger] self.sample_spec(u[l] as int, v[l] as int),
            decreases 4 - lane,
        {
            let (sr, sg, sb, sa) = self.sample(u[lane], v[lane]);
            r[lane] = sr;
            g[lane] = sg;
            b[lane] = sb;
            a[lane] = sa;
            lane = lane + 1;
        }
        (r, g, b, a)
    }

    /// Samples four lanes at once: computes the four texel offsets, then
    /// gathers each channel across the lanes.
    pub fn sample_quad(&self, u: [i64; 4], v: [i64; 4]) -> (r: ([u8; 4], [u8; 4], [u8; 4], [u8; 4]))
        requires
            self.wf(),
        ensures
            forall|l: int| 0 <= l < 4 ==> (r.0[l], r.1[l], r.2[l], r.3[l]) == #[trigger] self.sample_spec(u[l] as int, v[l] as int),
    {
        let idx = [
            self.texel_offset(u[0], v[0]),
            self.texel_offset(u[1], v[1]),
            self.texel_offset(u[2], v[2]),
            self.texel_offset(u[3], v[3]),
        ];
        let r = [self.rgba[idx[0]], self.rgba[idx[1]], self.rgba[idx[2]], self.rgba[idx[3]]];
        let g = [self.rgba[idx[0] + 1], self.rgba[idx[1] + 1], self.rgba[idx[2] + 1], self.rgba[idx[3] + 1]];
        let b = [self.rgba[idx[0] + 2], self.rgba[idx[1] + 2], self.rgba[idx[2] + 2], self.rgba[idx[3] + 2]];
        let a = [self.rgba[idx[0] + 3], self.rgba[idx[1] + 3], self.rgba[idx[2] + 3], self.rgba[idx[3] + 3]];
        assert forall|l: int| 0 <= l < 4 implies (r[l], g[l], b[l], a[l]) == #[trigger] self.sample_spec(u[l] as int, v[l] as int) by {
            if l == 0 {} else if l == 1 {} else if l == 2 {} else {}
        }
        (r, g, b, a)
    }
}

/// Byte `k` of row `r` in a buffer of rows `row_len` bytes long.
pub open spec fn row_byte(s: Seq<u8>, row_len: int, r: int, k: int) -> u8 {
    s[r * row_len + k]
}

proof fn lemma_row_offsets(w: int, h: int, r: int, k: int)
    requires
        0 <= r < h,
        0 <= k < 4 * w,
    ensures
        0 <= r * (4 * w) + k < 4 * (w * h),
        r * (4 * w) + 4 * w == (r + 1) * (4 * w),
        0 <= r * (4 * w),
{
    assert(0 <= r * (4 * w) + k < 4 * (w * h)) by (nonlinear_arith)
        requires
            0 <= r < h,
            0 <= k < 4 * w,
    ;
    assert(r * (4 * w) + 4 * w == (r + 1) * (4 * w)) by (nonlinear_arith);
    assert(0 <= r * (4 * w)) by (nonlinear_arith)
        requires
            0 <= r,
            0 <= k < 4 * w,
    ;
}

proof fn lemma_row_before(rr: int, r: int, kk: int, row_len: int)
    requires
        0 <= rr < r,
        0 <= kk < row_len,
    ensures
        0 <= rr * row_len + kk < r * row_len,
{
    assert(0 <= rr * row_len + kk < r * row_len) by (nonlinear_arith)
        requires
            0 <= rr < r,
            0 <= kk < row_len,
    ;
}

impl Texture {
    /// A texture from `width x height` RGBA8 pixels listed row by row from
    /// the top of the image: the rows are reversed, so that row 0 of the
    /// texture is the bottom of the image and texture coordinate `(0, 0)`
    /// is its bottom-left corner.
    pub fn from_top_down_rows(width: u32, height: u32, pixels: &Vec<u8>) -> (t: Texture)
        requires
            width >= 1,
            height >= 1,
            pixels@.len() == 4 * (width * height),
        ensures
            t.wf(),
            t.width == width,
            t.height == height,
            forall|x: int, y: int| 0 <= x < width && 0 <= y < height ==> #[trigger] t.texel(x, y) == color_of(
                pixels@,
                pix(x, height - 1 - y, width as int),
            ),
    {
        let ghost (w, h) = (width as int, height as int);
        let n = pixels.len();
        proof {
            lemma_row_offsets(w, h, 0, 0);
            assert(4 * w <= 4 * (w * h)) by (nonlinear_arith)
                requires
                    h >= 1,
                    w >= 0,
            ;
        }
        let row_len = 4 * (width as usize);
        let mut rgba: Vec<u8> = Vec::new();
        let mut r: usize = 0;
        while r < height as usize
            invariant
                n == pixels@.len(),
                n == 4 * (w * h),
                row_len == 4 * w,
                w == width,
                h == height,
                w >= 1,
                0 <= r <= h,
                rgba@.len() == r * row_len,
                forall|rr: int, kk: int| 0 <= rr < r && 0 <= kk < row_len ==> #[trigger] row_byte(rgba@, row_len as int, rr, kk)
                    == row_byte(pixels@, row_len as int, h - 1 - rr, kk),
            decreases h - r,
        {
            proof {
                lemma_row_offsets(w, h, h - 1 - r, 0);
                lemma_row_offsets(w, h, r as int, 0);
            }
            let src = (height as usize - 1 - r) * row_len;
            let mut k: usize = 0;
            while k < row_len
                invariant
                    n == pixels@.len(),
                    n == 4 * (w * h),
                    row_len == 4 * w,
                    w == width,
                    h == height,
                    0 <= r < h,
                    0 <= k <= row_len,
                    src == (h - 1 - r) * row_len,
                    rgba@.len() == r * row_len + k,
                    forall|rr: int, kk: int| 0 <= rr < r && 0 <= kk < row_len ==> #[trigger] row_byte(rgba@, row_len as int, rr, kk)
                        == row_byte(pixels@, row_len as int, h - 1 - rr, kk),
                    forall|kk: int| 0 <= kk < k ==> #[trigger] rgba@[r * row_len + kk] == pixels@[src + kk],
                decreases row_len - k,
            {
                proof {
                    lemma_row_offsets(w, h, h - 1 - r, k as int);
                }
                let ghost before = rgba@;
                rgba.push(pixels[src + k]);
                proof {
                    assert forall|rr: int, kk: int| 0 <= rr < r && 0 <= kk < row_len implies #[trigger] row_byte(rgba@, row_len as int, rr, kk)
                        == row_byte(pixels@, row_len as int, h - 1 - rr, kk) by {
                        lemma_row_before(rr, r as int, kk, row_len as int);
                        assert(row_byte(before, row_len as int, rr, kk) == row_byte(pixels@, row_len as int, h - 1 - rr, kk));
                    }
                }
                k = k + 1;
            }
            proof {
                lemma_row_offsets(w, h, r as int, 0);
                assert forall|rr: int, kk: int| 0 <= rr < r + 1 && 0 <= kk < row_len implies #[trigger] row_byte(rgba@, row_len as int, rr, kk)
                    == row_byte(pixels@, row_len as int, h - 1 - rr, kk) by {
                    if rr == r {
                        assert(rgba@[r * row_len + kk] == pixels@[src + kk]);
                    }
                }
            }
            r = r + 1;
        }
        let t = Texture { width, height, rgba };
        proof {
            assert(r * row_len == 4 * (w * h)) by (nonlinear_arith)
                requires
                    r == h,
                    row_len == 4 * w,
            ;
            assert forall|x: int, y: int| 0 <= x < width && 0 <= y < height implies #[trigger] t.texel(x, y) == color_of(
                pixels@,
                pix(x, height - 1 - y, width as int),
            ) by {
                let i = pix(x, y, w);
                let j = pix(x, h - 1 - y, w);
                assert(4 * i == y * (4 * w) + 4 * x) by (nonlinear_arith)
                    requires
                        i == y * w + x,
                ;
                assert(4 * j == (h - 1 - y) * (4 * w) + 4 * x) by (nonlinear_arith)
                    requires
                        j == (h - 1 - y) * w + x,
                ;
                assert(row_byte(t.rgba@, 4 * w, y, 4 * x) == row_byte(pixels@, 4 * w, h - 1 - y, 4 * x));
                assert(row_byte(t.rgba@, 4 * w, y, 4 * x + 1) == row_byte(pixels@, 4 * w, h - 1 - y, 4 * x + 1));
                assert(row_byte(t.rgba@, 4 * w, y, 4 * x + 2) == row_byte(pixels@, 4 * w, h - 1 - y, 4 * x + 2));
                assert(row_byte(t.rgba@, 4 * w, y, 4 * x + 3) == row_byte(pixels@, 4 * w, h - 1 - y, 4 * x + 3));
            }
        }
        t
    }
}

} // verus!
