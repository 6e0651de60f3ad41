//! An in-memory raster surface: a byte buffer holding four bytes per pixel.
//!
//! `Display` owns the buffer; `setpx` stores one packed pixel, `zero` clears
//! the buffer, `fromrgb` packs a color, and `draw_fade` paints a test
//! gradient. Writing the buffer out to a device is the caller's business.

use vstd::prelude::*;

verus! {

/// A packed pixel: four 8-bit lanes in one 32-bit value. Bits 24..32 hold
/// the first byte of the stored big-endian pixel, bits 0..8 the last.
pub type Pixel = u32;

/// A raster surface of `width_px * height_px` pixels, four bytes each,
/// stored row by row in big-endian byte order.
pub struct Display {
    pub width_px: u32,
    pub height_px: u32,
    pub bit_depth: u32,
    pub framebuffer: Vec<u8>,
}

/// Byte index of the first of the four bytes of pixel `(x, y)` on a surface
/// `w` pixels wide.
pub open spec fn pixel_offset(w: int, x: int, y: int) -> int {
    4 * x + 4 * w * y
}

/// The packed pixel stored at `(x, y)`: the four bytes reassembled
/// big-endian.
pub open spec fn pixel_at(d: Display, x: int, y: int) -> u32 {
    let o = pixel_offset(d.width_px as int, x, y);
    ((d.framebuffer@[o] as u32) << 24)
        | ((d.framebuffer@[o + 1] as u32) << 16)
        | ((d.framebuffer@[o + 2] as u32) << 8)
        | (d.framebuffer@[o + 3] as u32)
}

/// Reassembling the four big-endian bytes of a pixel value gives the value
/// back.
proof fn lemma_pixel_pack_unpack(value: u32)
    ensures
        ((((value >> 24) as u8) as u32) << 24) | ((((value >> 16) as u8) as u32) << 16)
            | ((((value >> 8) as u8) as u32) << 8) | ((value as u8) as u32) == value,
{
    assert(((((value >> 24) as u8) as u32) << 24) | ((((value >> 16) as u8) as u32) << 16)
        | ((((value >> 8) as u8) as u32) << 8) | ((value as u8) as u32) == value) by (bit_vector);
}

/// Distinct pixel coordinates occupy disjoint byte ranges.
proof fn lemma_pixel_offsets_disjoint(w: int, h: int, x1: int, y1: int, x2: int, y2: int)
    requires
        0 <= x1 < w,
        0 <= y1 < h,
        0 <= x2 < w,
        0 <= y2 < h,
        !(x1 == x2 && y1 == y2),
    ensures
        pixel_offset(w, x1, y1) + 3 < pixel_offset(w, x2, y2)
            || pixel_offset(w, x2, y2) + 3 < pixel_offset(w, x1, y1),
{
    assert(4 * x1 + 4 * w * y1 + 3 < 4 * x2 + 4 * w * y2
        || 4 * x2 + 4 * w * y2 + 3 < 4 * x1 + 4 * w * y1) by (nonlinear_arith)
        requires
            0 <= x1 < w,
            0 <= y1 < h,
            0 <= x2 < w,
            0 <= y2 < h,
            !(x1 == x2 && y1 == y2),
    ;
}

/// Every pixel's four bytes lie inside a well-formed buffer.
proof fn lemma_pixel_offset_in_bounds(w: int, h: int, x: int, y: int)
    requires
        0 <= x < w,
        0 <= y < h,
    ensures
        0 <= pixel_offset(w, x, y),
        pixel_offset(w, x, y) + 3 < 4 * w * h,
{
    assert(0 <= 4 * x + 4 * w * y && 4 * x + 4 * w * y + 3 < 4 * w * h) by (nonlinear_arith)
        requires
            0 <= x < w,
            0 <= y < h,
    ;
}

impl Display {
    /// The buffer holds exactly four bytes per pixel.
    pub open spec fn wf(self) -> bool {
        self.framebuffer@.len() == 4 * (self.width_px as int) * (self.height_px as int)
    }

    /// Width, height and bit depth agree with `other`'s.
    pub open spec fn same_shape(self, other: Display) -> bool {
        &&& self.width_px == other.width_px
        &&& self.height_px == other.height_px
        &&& self.bit_depth == other.bit_depth
    }

    /// A surface of the given size with every byte zero.
    pub fn new(width_px: u32, height_px: u32, bit_depth: u32) -> (d: Display)
        requires
            4 * (width_px as int) * (height_px as int) <= usize::MAX,
        ensures
            d.wf(),
            d.width_px == width_px,
            d.height_px == height_px,
            d.bit_depth == bit_depth,
            forall|k: int| 0 <= k < d.framebuffer@.len() ==> d.framebuffer@[k] == 0u8,
    {
        proof {
            let w = width_px as int;
            let h = height_px as int;
            assert(0 <= w * h && 4 * (w * h) == 4 * w * h && w * h <= 4 * w * h) by (nonlinear_arith)
                requires
                    0 <= w,
                    0 <= h,
            ;
        }
        let count = (width_px as usize) * (height_px as usize);
        let len = 4 * count;
        let mut buf: Vec<u8> = Vec::new();
        let mut k: usize = 0;
        while k < len
            invariant
                k <= len,
                buf@.len() == k,
                forall|m: int| 0 <= m < k ==> buf@[m] == 0u8,
            decreases len - k,
        {
            buf.push(0u8);
            k = k + 1;
        }
        Display { width_px, height_px, bit_depth, framebuffer: buf }
    }

    /// Zero out the whole buffer.
    pub fn zero(&mut self)
        requires
            old(self).wf(),
        ensures
            final(self).wf(),
            final(self).same_shape(*old(self)),
            final(self).framebuffer@.len() == old(self).framebuffer@.len(),
            forall|k: int|
                0 <= k < final(self).framebuffer@.len() ==> final(self).framebuffer@[k] == 0u8,
    {
        let ghost shape = *self;
        let n = self.framebuffer.len();
        let mut k: usize = 0;
        while k < n
            invariant
                k <= n,
                self.framebuffer@.len() == n,
                self.same_shape(shape),
                self.width_px == shape.width_px,
                forall|m: int| 0 <= m < k ==> self.framebuffer@[m] == 0u8,
            decreases n - k,
        {
            self.framebuffer[k] = 0u8;
            k = k + 1;
        }
    }

    /// Store `value` as the pixel at `(x, y)`: its four big-endian bytes land
    /// at the pixel's offset, and every other pixel keeps its value.
    pub fn setpx(&mut self, x: usize, y: usize, value: Pixel)
        requires
            old(self).wf(),
            x < old(self).width_px,
            y < old(self).height_px,
        ensures
            final(self).wf(),
            final(self).same_shape(*old(self)),
            final(self).framebuffer@.len() == old(self).framebuffer@.len(),
            final(self).framebuffer@ == old(self).framebuffer@
                .update(pixel_offset(old(self).width_px as int, x as int, y as int), (value >> 24) as u8)
                .update(pixel_offset(old(self).width_px as int, x as int, y as int) + 1, (value >> 16) as u8)
                .update(pixel_offset(old(self).width_px as int, x as int, y as int) + 2, (value >> 8) as u8)
                .update(pixel_offset(old(self).width_px as int, x as int, y as int) + 3, value as u8),
            pixel_at(*final(self), x as int, y as int) == value,
            forall|a: int, b: int|
                0 <= a < old(self).width_px && 0 <= b < old(self).height_px
                    && !(a == x as int && b == y as int)
                    ==> pixel_at(*final(self), a, b) == pixel_at(*old(self), a, b),
    {
        let ghost w = self.width_px as int;
        let ghost h = self.height_px as int;
        let ghost xi = x as int;
        let ghost yi = y as int;
        proof {
            lemma_pixel_offset_in_bounds(w, h, xi, yi);
            assert(4 * xi <= 4 * xi + 4 * w * yi && 0 <= 4 * w * yi && yi * (w * 4) == 4 * w * yi
                && xi * 4 == 4 * xi && w * 4 <= 4 * w * h) by (nonlinear_arith)
                requires
                    0 <= xi < w,
                    0 <= yi < h,
            ;
        }
        let n = self.framebuffer.len();
        let offset = x * 4 + y * ((self.width_px as usize) * 4);
        self.framebuffer[offset] = (value >> 24) as u8;
        self.framebuffer[offset + 1] = #[verifier::truncate] ((value >> 16) as u8);
        self.framebuffer[offset + 2] = #[verifier::truncate] ((value >> 8) as u8);
        self.framebuffer[offset + 3] = #[verifier::truncate] (value as u8);
        proof {
            lemma_pixel_pack_unpack(value);
            assert forall|a: int, b: int|
                0 <= a < old(self).width_px && 0 <= b < old(self).height_px
                    && !(a == xi && b == yi)
                    implies pixel_at(*self, a, b) == pixel_at(*old(self), a, b) by {
                lemma_pixel_offsets_disjoint(w, h, a, b, xi, yi);
                lemma_pixel_offset_in_bounds(w, h, a, b);
            }
        }
    }

    /// Pack an RGB triple into a pixel: red in bits 8..16, green in 16..24,
    /// blue in 24..32.
    pub fn fromrgb(&self, red: u8, green: u8, blue: u8) -> (r: Pixel)
        ensures
            r == ((red as u32) << 8) | ((green as u32) << 16) | ((blue as u32) << 24),
    {
        ((red as Pixel) << 8) | ((green as Pixel) << 16) | ((blue as Pixel) << 24)
    }
}

/// Red ramps with the column; both ramps divide by the width, so green
/// saturates on surfaces taller than wide.
pub open spec fn fade_red(i: int, w: int) -> int {
    (i * 255) / w
}

pub open spec fn fade_green(j: int, w: int) -> int {
    if (j * 255) / w > 255 {
        255
    } else {
        (j * 255) / w
    }
}

pub open spec fn fade_blue(r: int, g: int) -> int {
    255 - (r / 2 + g / 2)
}

/// The test-gradient pixel at `(i, j)` on a surface `w` pixels wide.
pub open spec fn fade_pixel(i: int, j: int, w: int) -> u32 {
    let r = fade_red(i, w);
    let g = fade_green(j, w);
    let b = fade_blue(r, g);
    ((r as u32) << 8) | ((g as u32) << 16) | ((b as u32) << 24)
}

/// Paint a diagnostic gradient over the whole surface: red rises left to
/// right, green top to bottom, blue fades against both.
pub fn draw_fade(disp: &mut Display)
    requires
        old(disp).wf(),
    ensures
        final(disp).wf(),
        final(disp).same_shape(*old(disp)),
        forall|i: int, j: int|
            0 <= i < old(disp).width_px && 0 <= j < old(disp).height_px ==> pixel_at(
                *final(disp),
                i,
                j,
            ) == fade_pixel(i, j, old(disp).width_px as int),
{
    let ghost shape = *disp;
    let w = disp.width_px;
    let h = disp.height_px;
    let mut i: u32 = 0;
    while i < w
        invariant
            disp.wf(),
            disp.width_px == w,
            disp.height_px == h,
            disp.same_shape(shape),
            i <= w,
            forall|a: int, b: int|
                0 <= a < i && 0 <= b < h ==> pixel_at(*disp, a, b) == fade_pixel(a, b, w as int),
        decreases w - i,
    {
        let mut j: u32 = 0;
        while j < h
            invariant
                disp.wf(),
                disp.width_px == w,
                disp.height_px == h,
                disp.same_shape(shape),
                i < w,
                j <= h,
                forall|a: int, b: int|
                    0 <= a < i && 0 <= b < h ==> pixel_at(*disp, a, b) == fade_pixel(a, b, w as int),
                forall|b: int|
                    0 <= b < j ==> pixel_at(*disp, i as int, b) == fade_pixel(i as int, b, w as int),
            decreases h - j,
        {
            proof {
                vstd::arithmetic::div_mod::lemma_div_pos_is_pos((i as int) * 255, w as int);
                vstd::arithmetic::div_mod::lemma_div_pos_is_pos((j as int) * 255, w as int);
                assert((i as int) * 255 < (w as int) * 255) by (nonlinear_arith)
                    requires
                        0 <= (i as int) < (w as int),
                ;
                vstd::arithmetic::div_mod::lemma_multiply_divide_lt((i as int) * 255, w as int, 255);
            }
            let qr = (((i as u64) * 255) / (w as u64)) as u8;
            let qg_wide = ((j as u64) * 255) / (w as u64);
            let qg: u8 = if qg_wide > 255 {
                255
            } else {
                qg_wide as u8
            };
            let b: u8 = 255 - (qr / 2 + qg / 2);
            let px = disp.fromrgb(qr, qg, b);
            disp.setpx(i as usize, j as usize, px);
            j = j + 1;
        }
        i = i + 1;
    }
}

} // verus!
