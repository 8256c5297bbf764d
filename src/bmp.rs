//! Encoding of a framebuffer as a 24-bit uncompressed BMP file.
use vstd::prelude::*;
use crate::screen::{ScreenSpace, Color};

verus! {

/// The four little-endian bytes of `v`.
pub open spec fn le_u32(v: int) -> Seq<u8> {
    seq![(v % 256) as u8, ((v / 256) % 256) as u8, ((v / 65536) % 256) as u8, ((v / 16777216) % 256) as u8]
}

/// Bytes per stored row: three per pixel, padded to a multiple of four.
pub open spec fn row_stride(w: int) -> int {
    (3 * w + 3) / 4 * 4
}

/// The 54-byte file and info header of a `w x h` 24-bit BMP.
pub open spec fn bmp_header(w: int, h: int) -> Seq<u8> {
    let size = row_stride(w) * h;
    seq![66u8, 77u8] + le_u32(54 + size) + seq![0u8, 0u8, 0u8, 0u8] + le_u32(54) + seq![40u8, 0u8, 0u8, 0u8]
        + le_u32(w) + le_u32(h) + seq![1u8, 0u8, 24u8, 0u8] + seq![0u8, 0u8, 0u8, 0u8] + le_u32(size)
        + Seq::new(16, |i: int| 0u8)
}

/// Byte `k` of the stored row holding image row `y`: blue, green and red of
/// each pixel, then zero padding.
pub open spec fn row_byte(s: ScreenSpace, y: int, k: int) -> u8 {
    if k < 3 * s.width {
        let c: Color = s.color_at(k / 3, y);
        if k % 3 == 0 {
            c.2
        } else if k % 3 == 1 {
            c.1
        } else {
            c.0
        }
    } else {
        0u8
    }
}

pub open spec fn bmp_row(s: ScreenSpace, y: int) -> Seq<u8> {
    Seq::new(row_stride(s.width as int) as nat, |k: int| row_byte(s, y, k))
}

/// The first `n` stored rows: image rows `height - 1` down to `height - n`.
pub open spec fn bmp_rows(s: ScreenSpace, n: int) -> Seq<u8>
    decreases n,
{
    if n <= 0 {
        Seq::empty()
    } else {
        bmp_rows(s, n - 1) + bmp_row(s, s.height - n)
    }
}

/// The whole file.
pub open spec fn bmp_file(s: ScreenSpace) -> Seq<u8> {
    bmp_header(s.width as int, s.height as int) + bmp_rows(s, s.height as int)
}

fn push_le_u32(out: &mut Vec<u8>, v: u32)
    ensures
        final(out)@ == old(out)@ + le_u32(v as int),
{
    out.push((v % 256) as u8);
    out.push(((v / 256) % 256) as u8);
    out.push(((v / 65536) % 256) as u8);
    out.push(((v / 16777216) % 256) as u8);
    assert(final(out)@ =~= old(out)@ + le_u32(v as int));
}

fn header_bytes(w: u32, h: u32, size: u32) -> (out: Vec<u8>)
    requires
        size == row_stride(w as int) * h,
        54 + size <= 0xffff_ffff,
    ensures
        out@ == bmp_header(w as int, h as int),
{
    let mut out: Vec<u8> = Vec::new();
    out.push(66);
    out.push(77);
    push_le_u32(&mut out, 54 + size);
    push_le_u32(&mut out, 0);
    push_le_u32(&mut out, 54);
    push_le_u32(&mut out, 40);
    push_le_u32(&mut out, w);
    push_le_u32(&mut out, h);
    out.push(1);
    out.push(0);
    out.push(24);
    out.push(0);
    push_le_u32(&mut out, 0);
    push_le_u32(&mut out, size);
    let ghost fixed = out@;
    assert(fixed.len() == 38);
    let mut z: usize = 0;
    while z < 16
        invariant
            0 <= z <= 16,
            out@ == fixed + Seq::new(z as nat, |i: int| 0u8),
        decreases 16 - z,
    {
        out.push(0);
        assert(fixed + Seq::new((z + 1) as nat, |i: int| 0u8) =~= (fixed + Seq::new(z as nat, |i: int| 0u8)).push(0u8));
        z = z + 1;
    }
    assert(out@ =~= bmp_header(w as int, h as int));
    out
}

impl ScreenSpace {
    /// Appends the stored row of image row `y`.
    fn push_bmp_row(&self, out: &mut Vec<u8>, y: u32, stride: u64)
        requires
            self.wf(),
            y < self.height,
            stride == row_stride(self.width as int),
        ensures
            final(out)@ == old(out)@ + bmp_row(*self, y as int),
    {
        let ghost prefix = out@;
        let ghost w = self.width as int;
        let mut x: u32 = 0;
        while x < self.width
            invariant
                self.wf(),
                w == self.width,
                stride == row_stride(w),
                y < self.height,
                0 <= x <= w,
                out@ == prefix + bmp_row(*self, y as int).take(3 * x),
            decreases w - x,
        {
            let c = match self.get_pixel(x, y) {
                Some(c) => c,
                None => (0, 0, 0, 0),
            };
            out.push(c.2);
            out.push(c.1);
            out.push(c.0);
            proof {
                let row = bmp_row(*self, y as int);
                assert(3 * w + 3 <= row_stride(w) + 3);
                assert(row_byte(*self, y as int, 3 * x) == c.2);
                assert(row_byte(*self, y as int, 3 * x + 1) == c.1);
                assert(row_byte(*self, y as int, 3 * x + 2) == c.0);
                assert(row.take(3 * x + 3) =~= row.take(3 * x).push(c.2).push(c.1).push(c.0));
            }
            x = x + 1;
        }
        let mut k: u64 = 3 * (self.width as u64);
        while k < stride
            invariant
                self.wf(),
                w == self.width,
                stride == row_stride(w),
                3 * w <= k <= stride,
                out@ == prefix + bmp_row(*self, y as int).take(k as int),
            decreases stride - k,
        {
            out.push(0);
            proof {
                let row = bmp_row(*self, y as int);
                assert(row.take(k + 1) =~= row.take(k as int).push(0u8));
            }
            k = k + 1;
        }
        assert(bmp_row(*self, y as int).take(stride as int) =~= bmp_row(*self, y as int));
    }

    /// The framebuffer as a 24-bit BMP file: rows stored bottom-up starting
    /// with the last row of the buffer, pixels as blue, green, red, alpha
    /// dropped.
    pub fn bmp_bytes(&self) -> (out: Vec<u8>)
        requires
            self.wf(),
            self.width <= 0x7fff_ffff,
            self.height <= 0x7fff_ffff,
            54 + row_stride(self.width as int) * self.height <= 0xffff_ffff,
        ensures
            out@ == bmp_file(*self),
    {
        let ghost (w, h) = (self.width as int, self.height as int);
        let stride: u64 = (3 * (self.width as u64) + 3) / 4 * 4;
        proof {
            assert(0 <= row_stride(w) * h) by (nonlinear_arith)
                requires
                    0 <= w,
                    0 <= h,
            ;
            if h > 0 {
                assert(row_stride(w) <= row_stride(w) * h) by (nonlinear_arith)
                    requires
                        0 <= row_stride(w),
                        1 <= h,
                ;
            }
        }
        let size: u32 = if self.height == 0 { 0 } else { (stride * (self.height as u64)) as u32 };
        let mut out = header_bytes(self.width, self.height, size);
        let mut j: u32 = 0;
        while j < self.height
            invariant
                self.wf(),
                w == self.width,
                h == self.height,
                stride == row_stride(w),
                0 <= j <= h,
                out@ == bmp_header(w, h) + bmp_rows(*self, j as int),
            decreases h - j,
        {
            let y = self.height - 1 - j;
            self.push_bmp_row(&mut out, y, stride);
            assert(out@ =~= bmp_header(w, h) + bmp_rows(*self, j + 1));
            j = j + 1;
        }
        out
    }
}

} // verus!
