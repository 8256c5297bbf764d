//! Painting of the tiling's rectangles into an RGB image, one flat color each.
use vstd::prelude::*;
use crate::screen::{pix, lemma_pix_bound, lemma_pix_injective};
use crate::tiling::Rect;

verus! {

/// An RGB color.
pub type Rgb = (u8, u8, u8);

/// The color of pixel `i` of a row-major RGB8 buffer.
pub open spec fn rgb_of(img: Seq<u8>, i: int) -> Rgb {
    (img[3 * i], img[3 * i + 1], img[3 * i + 2])
}

/// Pixel `(x, y)` lies in `r`, borders included on all four sides.
pub open spec fn touches(r: Rect, x: int, y: int) -> bool {
    r.min_x <= x <= r.max_x && r.min_y <= y <= r.max_y
}

/// The color of pixel `(x, y)` after painting the first `k` rectangles over
/// a black image: that of the last of them that touches the pixel.
pub open spec fn painted(rects: Seq<Rect>, colors: Seq<Rgb>, k: int, x: int, y: int) -> Rgb
    decreases k,
{
    if k <= 0 {
        (0u8, 0u8, 0u8)
    } else if touches(rects[k - 1], x, y) {
        colors[k - 1]
    } else {
        painted(rects, colors, k - 1, x, y)
    }
}

/// A `width x height` RGB8 image, black, on which each rectangle in turn
/// is filled with its color, borders included; parts beyond the image are
/// dropped.
pub fn paint_rectangles(rects: &Vec<Rect>, colors: &Vec<Rgb>, width: u32, height: u32) -> (img: Vec<u8>)
    requires
        colors@.len() == rects@.len(),
        3 * (width * height) <= usize::MAX,
    ensures
        img@.len() == 3 * (width * height),
        forall|x: int, y: int| 0 <= x < width && 0 <= y < height ==> #[trigger] rgb_of(img@, pix(x, y, width as int)) == painted(
            rects@,
            colors@,
            rects@.len() as int,
            x,
            y,
        ),
{
    let ghost (w, h) = (width as int, height as int);
    let n = 3 * ((width as usize) * (height as usize));
    let mut img: Vec<u8> = Vec::new();
    while img.len() < n
        invariant
            img@.len() <= n,
            forall|i: int| 0 <= i < img@.len() ==> img@[i] == 0u8,
        decreases n - img@.len(),
    {
        img.push(0u8);
    }
    proof {
        assert forall|x: int, y: int| 0 <= x < w && 0 <= y < h implies #[trigger] rgb_of(img@, pix(x, y, w)) == painted(rects@, colors@, 0, x, y) by {
            lemma_pix_bound(x, y, w, h);
        }
    }
    let mut k: usize = 0;
    while k < rects.len()
        invariant
            0 <= k <= rects@.len(),
            colors@.len() == rects@.len(),
            img@.len() == n,
            n == 3 * (w * h),
            w == width,
            h == height,
            forall|x: int, y: int| 0 <= x < w && 0 <= y < h ==> #[trigger] rgb_of(img@, pix(x, y, w)) == painted(rects@, colors@, k as int, x, y),
        decreases rects@.len() - k,
    {
        let r = rects[k];
        let c = colors[k];
        let ghost before = img@;
        if r.min_x < width && r.min_y < height && r.min_x <= r.max_x && r.min_y <= r.max_y {
            let x_end = if r.max_x < width { r.max_x } else { width - 1 };
            let y_end = if r.max_y < height { r.max_y } else { height - 1 };
            let mut y = r.min_y;
            while y <= y_end
                invariant
                    k < rects@.len(),
                    r == rects@[k as int],
                    r.min_x <= x_end < w,
                    r.min_y <= y_end < h,
                    x_end == r.max_x || (x_end == w - 1 && r.max_x >= w),
                    y_end == r.max_y || (y_end == h - 1 && r.max_y >= h),
                    r.min_y <= y <= y_end + 1,
                    img@.len() == n,
                    n == 3 * (w * h),
                    w == width,
                    h == height,
                    forall|px: int, py: int| 0 <= px < w && 0 <= py < h ==> #[trigger] rgb_of(img@, pix(px, py, w)) == (if touches(r, px, py) && py < y {
                        c
                    } else {
                        rgb_of(before, pix(px, py, w))
                    }),
                decreases y_end + 1 - y,
            {
                let mut x = r.min_x;
                while x <= x_end
                    invariant
                        k < rects@.len(),
                        r == rects@[k as int],
                        r.min_x <= x_end < w,
                        r.min_y <= y <= y_end < h,
                        x_end == r.max_x || (x_end == w - 1 && r.max_x >= w),
                        y_end == r.max_y || (y_end == h - 1 && r.max_y >= h),
                        r.min_x <= x <= x_end + 1,
                        img@.len() == n,
                        n == 3 * (w * h),
                        w == width,
                        h == height,
                        forall|px: int, py: int| 0 <= px < w && 0 <= py < h ==> #[trigger] rgb_of(img@, pix(px, py, w)) == (if touches(r, px, py)
                            && (py < y || (py == y && px < x)) {
                            c
                        } else {
                            rgb_of(before, pix(px, py, w))
                        }),
                    decreases x_end + 1 - x,
                {
                    proof {
                        lemma_pix_bound(x as int, y as int, w, h);
                        assert(0 <= (y as int) * w) by (nonlinear_arith)
                            requires
                                0 <= y,
                                0 <= w,
                        ;
                    }
                    let i = 3 * ((y as usize) * (width as usize) + (x as usize));
                    let ghost prev = img@;
                    img.set(i, c.0);
                    img.set(i + 1, c.1);
                    img.set(i + 2, c.2);
                    proof {
                        assert forall|px: int, py: int| 0 <= px < w && 0 <= py < h implies #[trigger] rgb_of(img@, pix(px, py, w)) == (if touches(r, px, py)
                            && (py < y || (py == y && px < x + 1)) {
                            c
                        } else {
                            rgb_of(before, pix(px, py, w))
                        }) by {
                            lemma_pix_bound(px, py, w, h);
                            if pix(px, py, w) == pix(x as int, y as int, w) {
                                lemma_pix_injective(px, py, x as int, y as int, w);
                                assert(touches(r, px, py));
                                assert(rgb_of(img@, pix(px, py, w)) == c);
                            } else {
                                assert(rgb_of(img@, pix(px, py, w)) == rgb_of(prev, pix(px, py, w)));
                            }
                        }
                    }
                    x = x + 1;
                }
                y = y + 1;
            }
        }
        proof {
            assert forall|x: int, y: int| 0 <= x < w && 0 <= y < h implies #[trigger] rgb_of(img@, pix(x, y, w)) == painted(rects@, colors@, k + 1, x, y) by {
                assert(rgb_of(before, pix(x, y, w)) == painted(rects@, colors@, k as int, x, y));
            }
        }
        k = k + 1;
    }
    img
}

} // verus!
