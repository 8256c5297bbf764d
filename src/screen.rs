//! Color and depth buffers of a framebuffer or of one tile of it.
use vstd::prelude::*;
use crate::tiling::Rect;

verus! {

/// The depth of an empty pixel: farther than any depth a triangle produces.
pub const FAR: u64 = 0xffff_ffff_ffff_ffff;

/// An RGBA color.
pub type Color = (u8, u8, u8, u8);

/// Color and depth buffers of `width x height` pixels, stored row by row.
/// `rect` places a tile within the full framebuffer.
pub struct ScreenSpace {
    pub rect: Rect,
    pub width: u32,
    pub height: u32,
    pub rgba: Vec<u8>,
    pub depth: Vec<u64>,
}

/// Index of pixel `(x, y)` in a buffer `w` pixels wide.
pub open spec fn pix(x: int, y: int, w: int) -> int {
    y * w + x
}

/// The color of the `i`-th pixel of an RGBA byte buffer.
pub open spec fn color_of(rgba: Seq<u8>, i: int) -> Color {
    (rgba[4 * i], rgba[4 * i + 1], rgba[4 * i + 2], rgba[4 * i + 3])
}

/// Pixel `(px, py)` belongs to the 2x2 block whose top-left pixel is `(x, y)`.
pub open spec fn in_block(x: int, y: int, px: int, py: int) -> bool {
    x <= px <= x + 1 && y <= py <= y + 1
}

/// The lane of the 2x2 block at `(x, y)` that holds pixel `(px, py)`: lanes 0
/// and 1 are the top row, lanes 2 and 3 the bottom row.
pub open spec fn lane_of(x: int, y: int, px: int, py: int) -> int {
    2 * (py - y) + (px - x)
}

/// Column of lane `l` of the block at column `x`.
pub open spec fn lane_x(x: int, l: int) -> int {
    if l == 1 || l == 3 { x + 1 } else { x }
}

/// Row of lane `l` of the block at row `y`.
pub open spec fn lane_y(y: int, l: int) -> int {
    if l >= 2 { y + 1 } else { y }
}

pub proof fn lemma_pix_bound(x: int, y: int, w: int, h: int)
    requires
        0 <= x < w,
        0 <= y < h,
    ensures
        0 <= pix(x, y, w) < w * h,
        pix(x, y, w) + 1 <= w * h,
{
    assert(0 <= y * w + x < w * h) by (nonlinear_arith)
        requires
            0 <= x < w,
            0 <= y < h,
    ;
}

pub proof fn lemma_pix_injective(x1: int, y1: int, x2: int, y2: int, w: int)
    requires
        0 <= x1 < w,
        0 <= x2 < w,
        0 <= y1,
        0 <= y2,
        pix(x1, y1, w) == pix(x2, y2, w),
    ensures
        x1 == x2 && y1 == y2,
{
    if y1 < y2 {
        assert(y1 * w + w <= y2 * w) by (nonlinear_arith)
            requires
                y1 < y2,
                0 <= w,
        ;
    } else if y2 < y1 {
        assert(y2 * w + w <= y1 * w) by (nonlinear_arith)
            requires
                y2 < y1,
                0 <= w,
        ;
    }
}

fn filled<T: Copy>(value: T, n: usize) -> (v: Vec<T>)
    ensures
        v@.len() == n,
        forall|i: int| 0 <= i < n ==> v@[i] == value,
{
    let mut v: Vec<T> = Vec::new();
    while v.len() < n
        invariant
            v@.len() <= n,
            forall|i: int| 0 <= i < v@.len() ==> v@[i] == value,
        decreases n - v@.len(),
    {
        v.push(value);
    }
    v
}

impl ScreenSpace {
    /// The buffers hold exactly one entry (four bytes of color) per pixel.
    pub open spec fn wf(&self) -> bool {
        &&& self.rgba@.len() == 4 * (self.width * self.height)
        &&& self.depth@.len() == self.width * self.height
    }

    /// The buffers are those of a tile covering `rect`.
    pub open spec fn fits_rect(&self) -> bool {
        &&& self.rect.wf()
        &&& self.width == self.rect.max_x - self.rect.min_x
        &&& self.height == self.rect.max_y - self.rect.min_y
    }

    pub open spec fn in_bounds(&self, x: int, y: int) -> bool {
        0 <= x < self.width && 0 <= y < self.height
    }

    pub open spec fn color_at(&self, x: int, y: int) -> Color {
        color_of(self.rgba@, pix(x, y, self.width as int))
    }

    pub open spec fn depth_at(&self, x: int, y: int) -> u64 {
        self.depth@[pix(x, y, self.width as int)]
    }

    /// Depth and color of pixel `(x, y)`.
    pub open spec fn state_at(&self, x: int, y: int) -> (u64, Color) {
        (self.depth_at(x, y), self.color_at(x, y))
    }

    /// A framebuffer of `width x height` black, transparent pixels at depth `FAR`.
    pub fn new(width: u32, height: u32) -> (s: ScreenSpace)
        requires
            4 * (width * height) <= usize::MAX,
        ensures
            s.wf(),
            s.width == width,
            s.height == height,
            s.rect == (Rect { min_x: 0, min_y: 0, max_x: 0, max_y: 0 }),
            forall|x: int, y: int| s.in_bounds(x, y) ==> #[trigger] s.color_at(x, y) == (0u8, 0u8, 0u8, 0u8),
            forall|x: int, y: int| s.in_bounds(x, y) ==> #[trigger] s.depth_at(x, y) == FAR,
    {
        let n = (width as usize) * (height as usize);
        let s = ScreenSpace {
            rect: Rect { min_x: 0, min_y: 0, max_x: 0, max_y: 0 },
            width,
            height,
            rgba: filled(0u8, 4 * n),
            depth: filled(FAR, n),
        };
        proof {
            assert forall|x: int, y: int| s.in_bounds(x, y) implies #[trigger] s.depth_at(x, y) == FAR by {
                lemma_pix_bound(x, y, width as int, height as int);
            }
            assert forall|x: int, y: int| s.in_bounds(x, y) implies #[trigger] s.color_at(x, y) == (0u8, 0u8, 0u8, 0u8) by {
                lemma_pix_bound(x, y, width as int, height as int);
            }
        }
        s
    }

    /// The buffers of a tile covering `rect`, cleared to black at depth `FAR`.
    pub fn for_rect(rect: Rect) -> (s: ScreenSpace)
        requires
            rect.wf(),
            4 * ((rect.max_x - rect.min_x) * (rect.max_y - rect.min_y)) <= usize::MAX,
        ensures
            s.wf(),
            s.fits_rect(),
            s.rect == rect,
            forall|x: int, y: int| s.in_bounds(x, y) ==> #[trigger] s.color_at(x, y) == (0u8, 0u8, 0u8, 0u8),
            forall|x: int, y: int| s.in_bounds(x, y) ==> #[trigger] s.depth_at(x, y) == FAR,
    {
        let t = ScreenSpace::new(rect.width(), rect.height());
        let s = ScreenSpace { rect, width: t.width, height: t.height, rgba: t.rgba, depth: t.depth };
        assert forall|x: int, y: int| s.in_bounds(x, y) implies #[trigger] s.color_at(x, y) == (0u8, 0u8, 0u8, 0u8) by {
            assert(t.in_bounds(x, y) && s.color_at(x, y) == t.color_at(x, y));
        }
        assert forall|x: int, y: int| s.in_bounds(x, y) implies #[trigger] s.depth_at(x, y) == FAR by {
            assert(t.in_bounds(x, y) && s.depth_at(x, y) == t.depth_at(x, y));
        }
        s
    }

    /// Position of an in-bounds pixel in the depth buffer.
    fn pixel_index(&self, x: u32, y: u32) -> (i: usize)
        requires
            self.wf(),
            self.in_bounds(x as int, y as int),
        ensures
            i == pix(x as int, y as int, self.width as int),
            4 * i + 3 < self.rgba@.len(),
            4 * i + 3 < usize::MAX,
            i < self.depth@.len(),
    {
        proof {
            lemma_pix_bound(x as int, y as int, self.width as int, self.height as int);
            assert(0 <= (y as int) * (self.width as int)) by (nonlinear_arith)
                requires
                    0 <= y,
                    0 <= self.width,
            ;
        }
        let _ = self.depth.len();
        let n = self.rgba.len();
        assert(n <= usize::MAX);
        (y as usize) * (self.width as usize) + (x as usize)
    }

    /// Writes color `c` at an in-bounds pixel.
    fn put_color(&mut self, x: u32, y: u32, c: Color)
        requires
            old(self).wf(),
            old(self).in_bounds(x as int, y as int),
        ensures
            final(self).wf(),
            final(self).rect == old(self).rect,
            final(self).width == old(self).width,
            final(self).height == old(self).height,
            final(self).depth@ == old(self).depth@,
            forall|px: int, py: int| #[trigger] final(self).color_at(px, py) == (if px == x && py == y {
                c
            } else {
                old(self).color_at(px, py)
            }) || !old(self).in_bounds(px, py),
    {
        let i = self.pixel_index(x, y) * 4;
        self.rgba.set(i, c.0);
        self.rgba.set(i + 1, c.1);
        self.rgba.set(i + 2, c.2);
        self.rgba.set(i + 3, c.3);
        proof {
            assert forall|px: int, py: int| old(self).in_bounds(px, py) && !(px == x && py == y) implies #[trigger] self.color_at(px, py) == old(self).color_at(px, py) by {
                lemma_pix_bound(px, py, self.width as int, self.height as int);
                if pix(px, py, self.width as int) == pix(x as int, y as int, self.width as int) {
                    lemma_pix_injective(px, py, x as int, y as int, self.width as int);
                }
            }
        }
    }

    /// Writes depth `d` at an in-bounds pixel.
    fn put_depth(&mut self, x: u32, y: u32, d: u64)
        requires
            old(self).wf(),
            old(self).in_bounds(x as int, y as int),
        ensures
            final(self).wf(),
            final(self).rect == old(self).rect,
            final(self).width == old(self).width,
            final(self).height == old(self).height,
            final(self).rgba@ == old(self).rgba@,
            forall|px: int, py: int| #[trigger] final(self).depth_at(px, py) == (if px == x && py == y {
                d
            } else {
                old(self).depth_at(px, py)
            }) || !old(self).in_bounds(px, py),
    {
        let i = self.pixel_index(x, y);
        self.depth.set(i, d);
        proof {
            assert forall|px: int, py: int| old(self).in_bounds(px, py) && !(px == x && py == y) implies #[trigger] self.depth_at(px, py) == old(self).depth_at(px, py) by {
                lemma_pix_bound(px, py, self.width as int, self.height as int);
                if pix(px, py, self.width as int) == pix(x as int, y as int, self.width as int) {
                    lemma_pix_injective(px, py, x as int, y as int, self.width as int);
                }
            }
        }
    }

    /// Sets the color of pixel `(x, y)`; does nothing outside the buffer.
    pub fn set_pixel(&mut self, x: u32, y: u32, red: u8, green: u8, blue: u8, alpha: u8)
        requires
            old(self).wf(),
        ensures
            final(self).wf(),
            final(self).rect == old(self).rect,
            final(self).width == old(self).width,
            final(self).height == old(self).height,
            final(self).depth@ == old(self).depth@,
            forall|px: int, py: int| old(self).in_bounds(px, py) ==> #[trigger] final(self).color_at(px, py) == (if px == x && py == y {
                (red, green, blue, alpha)
            } else {
                old(self).color_at(px, py)
            }),
    {
        if x >= self.width || y >= self.height {
            return;
        }
        self.put_color(x, y, (red, green, blue, alpha));
    }

    /// The color of pixel `(x, y)`, or `None` outside the buffer.
    pub fn get_pixel(&self, x: u32, y: u32) -> (r: Option<Color>)
        requires
            self.wf(),
        ensures
            r == (if self.in_bounds(x as int, y as int) {
                Some(self.color_at(x as int, y as int))
            } else {
                None
            }),
    {
        if x >= self.width || y >= self.height {
            return None;
        }
        let i = self.pixel_index(x, y) * 4;
        Some((self.rgba[i], self.rgba[i + 1], self.rgba[i + 2], self.rgba[i + 3]))
    }

    /// Sets the depth of pixel `(x, y)`; does nothing outside the buffer.
    pub fn set_depth(&mut self, x: u32, y: u32, value: u64)
        requires
            old(self).wf(),
        ensures
            final(self).wf(),
            final(self).rect == old(self).rect,
            final(self).width == old(self).width,
            final(self).height == old(self).height,
            final(self).rgba@ == old(self).rgba@,
            forall|px: int, py: int| old(self).in_bounds(px, py) ==> #[trigger] final(self).depth_at(px, py) == (if px == x && py == y {
                value
            } else {
                old(self).depth_at(px, py)
            }),
    {
        if x >= self.width || y >= self.height {
            return;
        }
        self.put_depth(x, y, value);
    }

    /// The depth of pixel `(x, y)`, or `None` outside the buffer.
    pub fn get_depth(&self, x: u32, y: u32) -> (r: Option<u64>)
        requires
            self.wf(),
        ensures
            r == (if self.in_bounds(x as int, y as int) {
                Some(self.depth_at(x as int, y as int))
            } else {
                None
            }),
    {
        if x >= self.width || y >= self.height {
            return None;
        }
        Some(self.depth[self.pixel_index(x, y)])
    }

    /// The depths of the 2x2 block whose top-left pixel is `(x, y)`, one lane
    /// per pixel; a lane outside the buffer reads `FAR`.
    pub fn get_depth_quad(&self, x: u32, y: u32) -> (r: [u64; 4])
        requires
            self.wf(),
        ensures
            forall|l: int| 0 <= l < 4 ==> #[trigger] r[l] == (if self.in_bounds(lane_x(x as int, l), lane_y(y as int, l)) {
                self.depth_at(lane_x(x as int, l), lane_y(y as int, l))
            } else {
                FAR
            }),
    {
        let mut r = [FAR; 4];
        let mut l: usize = 0;
        while l < 4
            invariant
                self.wf(),
                0 <= l <= 4,
                forall|k: int| l <= k < 4 ==> #[trigger] r[k] == FAR,
                forall|k: int| 0 <= k < l ==> #[trigger] r[k] == (if self.in_bounds(lane_x(x as int, k), lane_y(y as int, k)) {
                    self.depth_at(lane_x(x as int, k), lane_y(y as int, k))
                } else {
                    FAR
                }),
            decreases 4 - l,
        {
            let qx: u64 = if l == 1 || l == 3 { x as u64 + 1 } else { x as u64 };
            let qy: u64 = if l >= 2 { y as u64 + 1 } else { y as u64 };
            if qx < self.width as u64 && qy < self.height as u64 {
                match self.get_depth(qx as u32, qy as u32) {
                    Some(d) => { r[l] = d; },
                    None => {},
                }
            }
            l = l + 1;
        }
        r
    }

    /// Writes lane `l` of `depth` into the matching pixel of the 2x2 block at
    /// `(x, y)` for each lane whose `mask` bit is set; lanes outside the buffer
    /// are dropped.
    pub fn set_depth_quad(&mut self, x: u32, y: u32, depth: [u64; 4], mask: [bool; 4])
        requires
            old(self).wf(),
        ensures
            final(self).wf(),
            final(self).rect == old(self).rect,
            final(self).width == old(self).width,
            final(self).height == old(self).height,
            final(self).rgba@ == old(self).rgba@,
            forall|px: int, py: int| old(self).in_bounds(px, py) ==> #[trigger] final(self).depth_at(px, py) == (if in_block(x as int, y as int, px, py) && mask[lane_of(x as int, y as int, px, py)] {
                depth[lane_of(x as int, y as int, px, py)]
            } else {
                old(self).depth_at(px, py)
            }),
    {
        let ghost start = *self;
        let mut l: usize = 0;
        while l < 4
            invariant
                self.wf(),
                0 <= l <= 4,
                self.rect == start.rect,
                self.width == start.width,
                self.height == start.height,
                self.rgba@ == start.rgba@,
                forall|px: int, py: int| start.in_bounds(px, py) ==> #[trigger] self.depth_at(px, py) == (if in_block(x as int, y as int, px, py) && lane_of(x as int, y as int, px, py) < l && mask[lane_of(x as int, y as int, px, py)] {
                    depth[lane_of(x as int, y as int, px, py)]
                } else {
                    start.depth_at(px, py)
                }),
            decreases 4 - l,
        {
            let qx: u64 = if l == 1 || l == 3 { x as u64 + 1 } else { x as u64 };
            let qy: u64 = if l >= 2 { y as u64 + 1 } else { y as u64 };
            if mask[l] && qx < self.width as u64 && qy < self.height as u64 {
                self.put_depth(qx as u32, qy as u32, depth[l]);
            }
            l = l + 1;
        }
    }

    /// Writes lane `l` of the four channels into the matching pixel of the 2x2
    /// block at `(x, y)` for each lane whose `mask` bit is set; lanes outside
    /// the buffer are dropped.
    pub fn set_pixel_quad(&mut self, x: u32, y: u32, r: [u8; 4], g: [u8; 4], b: [u8; 4], a: [u8; 4], mask: [bool; 4])
        requires
            old(self).wf(),
        ensures
            final(self).wf(),
            final(self).rect == old(self).rect,
            final(self).width == old(self).width,
            final(self).height == old(self).height,
            final(self).depth@ == old(self).depth@,
            forall|px: int, py: int| old(self).in_bounds(px, py) ==> #[trigger] final(self).color_at(px, py) == (if in_block(x as int, y as int, px, py) && mask[lane_of(x as int, y as int, px, py)] {
                (r[lane_of(x as int, y as int, px, py)], g[lane_of(x as int, y as int, px, py)], b[lane_of(x as int, y as int, px, py)], a[lane_of(x as int, y as int, px, py)])
            } else {
                old(self).color_at(px, py)
            }),
    {
        let ghost start = *self;
        let mut l: usize = 0;
        while l < 4
            invariant
                self.wf(),
                0 <= l <= 4,
                self.rect == start.rect,
                self.width == start.width,
                self.height == start.height,
                self.depth@ == start.depth@,
                forall|px: int, py: int| start.in_bounds(px, py) ==> #[trigger] self.color_at(px, py) == (if in_block(x as int, y as int, px, py) && lane_of(x as int, y as int, px, py) < l && mask[lane_of(x as int, y as int, px, py)] {
                    (r[lane_of(x as int, y as int, px, py)], g[lane_of(x as int, y as int, px, py)], b[lane_of(x as int, y as int, px, py)], a[lane_of(x as int, y as int, px, py)])
                } else {
                    start.color_at(px, py)
                }),
            decreases 4 - l,
        {
            let qx: u64 = if l == 1 || l == 3 { x as u64 + 1 } else { x as u64 };
            let qy: u64 = if l >= 2 { y as u64 + 1 } else { y as u64 };
            if mask[l] && qx < self.width as u64 && qy < self.height as u64 {
                self.put_color(qx as u32, qy as u32, (r[l], g[l], b[l], a[l]));
            }
            l = l + 1;
        }
    }

    /// Resets every pixel to the color `(r, g, b, a)` and every depth to `FAR`.
    pub fn clear(&mut self, r: u8, g: u8, b: u8, a: u8)
        requires
            old(self).wf(),
        ensures
            final(self).wf(),
            final(self).rect == old(self).rect,
            final(self).width == old(self).width,
            final(self).height == old(self).height,
            forall|px: int, py: int| old(self).in_bounds(px, py) ==> #[trigger] final(self).color_at(px, py) == (r, g, b, a),
            forall|px: int, py: int| old(self).in_bounds(px, py) ==> #[trigger] final(self).depth_at(px, py) == FAR,
    {
        let ghost start = *self;
        let n = self.depth.len();
        let m = self.rgba.len();
        let mut i: usize = 0;
        while i < n
            invariant
                n == self.depth@.len(),
                m == self.rgba@.len(),
                m == 4 * n,
                self.wf(),
                self.rect == start.rect,
                self.width == start.width,
                self.height == start.height,
                0 <= i <= n,
                forall|j: int| 0 <= j < i ==> #[trigger] self.depth@[j] == FAR,
                forall|j: int| 0 <= j < i ==> #[trigger] color_of(self.rgba@, j) == (r, g, b, a),
            decreases n - i,
        {
            let ghost before = self.rgba@;
            self.depth.set(i, FAR);
            self.rgba.set(4 * i, r);
            self.rgba.set(4 * i + 1, g);
            self.rgba.set(4 * i + 2, b);
            self.rgba.set(4 * i + 3, a);
            assert forall|j: int| 0 <= j < i + 1 implies #[trigger] color_of(self.rgba@, j) == (r, g, b, a) by {
                if j < i {
                    assert(color_of(before, j) == (r, g, b, a));
                }
            }
            i = i + 1;
        }
        proof {
            assert forall|px: int, py: int| self.in_bounds(px, py) implies #[trigger] self.color_at(px, py) == (r, g, b, a) by {
                lemma_pix_bound(px, py, self.width as int, self.height as int);
                let j = pix(px, py, self.width as int);
                assert(color_of(self.rgba@, j) == (r, g, b, a));
            }
            assert forall|px: int, py: int| self.in_bounds(px, py) implies #[trigger] self.depth_at(px, py) == FAR by {
                lemma_pix_bound(px, py, self.width as int, self.height as int);
            }
        }
    }
}

} // verus!
