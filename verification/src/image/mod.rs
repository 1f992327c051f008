//! The crate's RGBA image buffer.
//!
//! Pixels are stored row-major, four bytes per pixel, in B, G, R, A byte
//! order; every accessor converts to and from [`Color`].

use crate::color::Color;
use vstd::prelude::*;

pub mod raster;
pub mod svg;
pub mod transforms;

verus! {

/// An owned RGBA image buffer (B, G, R, A byte order, `stride == width * 4`).
#[derive(Clone, Debug)]
pub struct RgbaImage {
    /// Width in pixels.
    pub width: u32,
    /// Height in pixels.
    pub height: u32,
    /// Bytes per row (`width * 4`).
    pub stride: usize,
    /// Raw pixel data, `height * stride` bytes long.
    pub pixels: Vec<u8>,
}

/// The color stored at byte offset `o` of a raw B, G, R, A buffer.
pub open spec fn color_at_offset(pixels: Seq<u8>, o: int) -> Color {
    Color { r: pixels[o + 2], g: pixels[o + 1], b: pixels[o], a: pixels[o + 3] }
}

impl RgbaImage {
    /// The buffer is laid out as its dimensions say.
    pub open spec fn wf(&self) -> bool {
        &&& self.stride == self.width * 4
        &&& self.pixels@.len() == self.height * self.stride
    }

    /// Byte offset of pixel `(x, y)`.
    pub open spec fn offset_of(&self, x: int, y: int) -> int {
        y * self.stride + x * 4
    }

    /// The color of pixel `(x, y)`, read from the buffer.
    pub open spec fn pixel(&self, x: int, y: int) -> Color {
        color_at_offset(self.pixels@, self.offset_of(x, y))
    }

    /// `(x, y)` lies inside the image.
    pub open spec fn in_bounds(&self, x: int, y: int) -> bool {
        0 <= x < self.width && 0 <= y < self.height
    }

    /// Two images have the same dimensions and the same pixels.
    pub open spec fn same_picture(&self, other: &RgbaImage) -> bool {
        &&& self.width == other.width
        &&& self.height == other.height
        &&& forall|x: int, y: int| self.in_bounds(x, y) ==> #[trigger] self.pixel(x, y) == other.pixel(x, y)
    }

    /// Create an image of `width` x `height` filled with `fill`.
    pub fn new(width: u32, height: u32, fill: Color) -> (img: RgbaImage)
        requires
            width * 4 <= usize::MAX,
            width * 4 * height <= usize::MAX,
        ensures
            img.wf(),
            img.width == width,
            img.height == height,
            forall|x: int, y: int| img.in_bounds(x, y) ==> #[trigger] img.pixel(x, y) == fill,
    {
        proof {
            lemma_area_bound(width as int, height as int);
            assert(height * (width * 4) == width * 4 * height) by (nonlinear_arith);
        }
        let stride = width as usize * 4;
        let count = width as usize * height as usize;
        let mut pixels: Vec<u8> = Vec::with_capacity(stride * height as usize);
        let mut i: usize = 0;
        while i < count
            invariant
                count == width * height,
                count * 4 <= usize::MAX,
                i <= count,
                pixels@.len() == 4 * i,
                forall|k: int| 0 <= k < i ==> #[trigger] color_at_offset(pixels@, 4 * k) == fill,
            decreases count - i,
        {
            let ghost before = pixels@;
            pixels.push(fill.b);
            pixels.push(fill.g);
            pixels.push(fill.r);
            pixels.push(fill.a);
            proof {
                assert forall|k: int| 0 <= k < i + 1 implies #[trigger] color_at_offset(pixels@, 4 * k) == fill by {
                    if k < i {
                        assert(color_at_offset(before, 4 * k) == fill);
                    }
                }
            }
            i = i + 1;
        }
        let img = RgbaImage { width, height, stride, pixels };
        proof {
            assert forall|x: int, y: int| img.in_bounds(x, y) implies #[trigger] img.pixel(x, y) == fill by {
                lemma_offset_group(width as int, height as int, x, y);
                assert(color_at_offset(img.pixels@, 4 * (y * width + x)) == fill);
            }
        }
        img
    }

    /// Byte offset of pixel `(x, y)` inside `pixels`.
    pub fn pixel_offset(&self, x: u32, y: u32) -> (o: usize)
        requires
            self.offset_of(x as int, y as int) <= usize::MAX,
        ensures
            o == self.offset_of(x as int, y as int),
    {
        proof {
            lemma_offset_parts(self.stride as int, x as int, y as int);
        }
        y as usize * self.stride + x as usize * 4
    }

    /// Read the color of pixel `(x, y)`, which must lie inside the image.
    pub fn get(&self, x: u32, y: u32) -> (c: Color)
        requires
            self.wf(),
            self.in_bounds(x as int, y as int),
        ensures
            c == self.pixel(x as int, y as int),
    {
        proof {
            lemma_in_buffer(self, x as int, y as int);
        }
        let _len = self.pixels.len();
        let offset = self.pixel_offset(x, y);
        Color {
            b: self.pixels[offset],
            g: self.pixels[offset + 1],
            r: self.pixels[offset + 2],
            a: self.pixels[offset + 3],
        }
    }

    /// Overwrite pixel `(x, y)`, which must lie inside the image, with `color`.
    pub fn set(&mut self, x: u32, y: u32, color: Color)
        requires
            old(self).wf(),
            old(self).in_bounds(x as int, y as int),
        ensures
            final(self).width == old(self).width,
            final(self).height == old(self).height,
            final(self).stride == old(self).stride,
            final(self).pixels@ == old(self).pixels@
                .update(old(self).offset_of(x as int, y as int), color.b)
                .update(old(self).offset_of(x as int, y as int) + 1, color.g)
                .update(old(self).offset_of(x as int, y as int) + 2, color.r)
                .update(old(self).offset_of(x as int, y as int) + 3, color.a),
    {
        proof {
            lemma_in_buffer(self, x as int, y as int);
        }
        let _len = self.pixels.len();
        let offset = self.pixel_offset(x, y);
        self.pixels.set(offset, color.b);
        self.pixels.set(offset + 1, color.g);
        self.pixels.set(offset + 2, color.r);
        self.pixels.set(offset + 3, color.a);
    }

    /// Whether `(x, y)` lies inside the image.
    pub fn is_in_bounds(&self, x: u32, y: u32) -> (b: bool)
        ensures
            b == self.in_bounds(x as int, y as int),
    {
        x < self.width && y < self.height
    }

    /// All pixels as `(x, y, color)` triples, row by row.
    pub fn iter_pixels(&self) -> (v: Vec<(u32, u32, Color)>)
        requires
            self.wf(),
        ensures
            v@.len() == self.width * self.height,
            forall|k: int|
                #![trigger v@[k]]
                0 <= k < v@.len() ==> v@[k] == ((k % self.width as int) as u32, (k / self.width as int) as u32,
                    self.pixel(k % self.width as int, k / self.width as int)),
    {
        let mut v: Vec<(u32, u32, Color)> = Vec::new();
        let mut y: u32 = 0;
        while y < self.height
            invariant
                self.wf(),
                y <= self.height,
                v@.len() == y * self.width,
                forall|k: int|
                    #![trigger v@[k]]
                    0 <= k < v@.len() ==> v@[k] == ((k % self.width as int) as u32, (k / self.width as int) as u32,
                        self.pixel(k % self.width as int, k / self.width as int)),
            decreases self.height - y,
        {
            let mut x: u32 = 0;
            while x < self.width
                invariant
                    self.wf(),
                    y < self.height,
                    x <= self.width,
                    v@.len() == y * self.width + x,
                    forall|k: int|
                        #![trigger v@[k]]
                        0 <= k < v@.len() ==> v@[k] == ((k % self.width as int) as u32, (k / self.width as int) as u32,
                            self.pixel(k % self.width as int, k / self.width as int)),
                decreases self.width - x,
            {
                proof {
                    lemma_in_buffer(self, x as int, y as int);
                    vstd::arithmetic::div_mod::lemma_fundamental_div_mod_converse(
                        y * self.width + x, self.width as int, y as int, x as int);
                }
                let c = self.get(x, y);
                v.push((x, y, c));
                x = x + 1;
            }
            proof {
                lemma_row_step(y as int, self.width as int);
            }
            y = y + 1;
        }
        proof {
            assert(self.height * self.width == self.width * self.height) by (nonlinear_arith);
        }
        v
    }
}

/// The color of pixel `k` of a buffer in R, G, B, A byte order.
pub open spec fn rgba_bytes_color(bytes: Seq<u8>, k: int) -> Color {
    Color { r: bytes[4 * k], g: bytes[4 * k + 1], b: bytes[4 * k + 2], a: bytes[4 * k + 3] }
}

/// Build an image from pixels given row by row in R, G, B, A byte order
/// (the layout decoders hand out); the image stores them as B, G, R, A.
pub fn from_rgba_bytes(width: u32, height: u32, rgba: &Vec<u8>) -> (img: RgbaImage)
    requires
        rgba@.len() == width * height * 4,
        width * 4 <= usize::MAX,
        width * 4 * height <= usize::MAX,
    ensures
        img.wf(),
        img.width == width,
        img.height == height,
        forall|x: int, y: int|
            img.in_bounds(x, y) ==> #[trigger] img.pixel(x, y) == rgba_bytes_color(rgba@, y * width + x),
{
    proof {
        lemma_area_bound(width as int, height as int);
        assert(height * (width * 4) == width * 4 * height) by (nonlinear_arith);
    }
    let count = width as usize * height as usize;
    let mut pixels: Vec<u8> = Vec::with_capacity(count * 4);
    let mut k: usize = 0;
    while k < count
        invariant
            count == width * height,
            count * 4 <= usize::MAX,
            rgba@.len() == count * 4,
            k <= count,
            pixels@.len() == 4 * k,
            forall|j: int| 0 <= j < k ==> #[trigger] color_at_offset(pixels@, 4 * j) == rgba_bytes_color(rgba@, j),
        decreases count - k,
    {
        let ghost before = pixels@;
        let o = 4 * k;
        pixels.push(rgba[o + 2]);
        pixels.push(rgba[o + 1]);
        pixels.push(rgba[o]);
        pixels.push(rgba[o + 3]);
        proof {
            assert forall|j: int| 0 <= j < k + 1 implies #[trigger] color_at_offset(pixels@, 4 * j) == rgba_bytes_color(
                rgba@,
                j,
            ) by {
                if j < k {
                    assert(color_at_offset(before, 4 * j) == rgba_bytes_color(rgba@, j));
                }
            }
        }
        k = k + 1;
    }
    let img = RgbaImage { width, height, stride: width as usize * 4, pixels };
    proof {
        assert forall|x: int, y: int| img.in_bounds(x, y) implies #[trigger] img.pixel(x, y) == rgba_bytes_color(
            rgba@,
            y * width + x,
        ) by {
            lemma_offset_group(width as int, height as int, x, y);
            assert(color_at_offset(img.pixels@, 4 * (y * width + x)) == rgba_bytes_color(rgba@, y * width + x));
        }
    }
    img
}

/// Distinct pixels of a well-laid-out image occupy disjoint byte ranges.
pub proof fn lemma_offsets_apart(img: &RgbaImage, x1: int, y1: int, x2: int, y2: int)
    requires
        img.wf(),
        img.in_bounds(x1, y1),
        img.in_bounds(x2, y2),
        x1 != x2 || y1 != y2,
    ensures
        img.offset_of(x1, y1) + 4 <= img.offset_of(x2, y2) || img.offset_of(x2, y2) + 4 <= img.offset_of(x1, y1),
{
    lemma_in_buffer(img, x1, y1);
    lemma_in_buffer(img, x2, y2);
    let w = img.width as int;
    let k1 = y1 * w + x1;
    let k2 = y2 * w + x2;
    vstd::arithmetic::div_mod::lemma_fundamental_div_mod_converse(k1, w, y1, x1);
    vstd::arithmetic::div_mod::lemma_fundamental_div_mod_converse(k2, w, y2, x2);
    assert(k1 != k2);
}

/// Writing one pixel of a well-laid-out image changes exactly that pixel.
pub proof fn lemma_set_pixel(before: &RgbaImage, after: &RgbaImage, x: int, y: int, c: Color)
    requires
        before.wf(),
        before.in_bounds(x, y),
        after.width == before.width,
        after.height == before.height,
        after.stride == before.stride,
        after.pixels@ == before.pixels@
            .update(before.offset_of(x, y), c.b)
            .update(before.offset_of(x, y) + 1, c.g)
            .update(before.offset_of(x, y) + 2, c.r)
            .update(before.offset_of(x, y) + 3, c.a),
    ensures
        after.wf(),
        after.pixel(x, y) == c,
        forall|xx: int, yy: int|
            #![trigger after.pixel(xx, yy)]
            after.in_bounds(xx, yy) && (xx != x || yy != y) ==> after.pixel(xx, yy) == before.pixel(xx, yy),
{
    lemma_in_buffer(before, x, y);
    assert forall|xx: int, yy: int|
        #![trigger after.pixel(xx, yy)]
        after.in_bounds(xx, yy) && (xx != x || yy != y) implies after.pixel(xx, yy) == before.pixel(xx, yy) by {
        lemma_offsets_apart(before, x, y, xx, yy);
        lemma_in_buffer(before, xx, yy);
    }
}

/// Reading a pixel right after writing it gives the written color, and the
/// write leaves every other pixel as it was.
pub proof fn law_get_after_set(before: &RgbaImage, after: &RgbaImage, x: u32, y: u32, c: Color)
    requires
        before.wf(),
        before.in_bounds(x as int, y as int),
        after.width == before.width,
        after.height == before.height,
        after.stride == before.stride,
        after.pixels@ == before.pixels@
            .update(before.offset_of(x as int, y as int), c.b)
            .update(before.offset_of(x as int, y as int) + 1, c.g)
            .update(before.offset_of(x as int, y as int) + 2, c.r)
            .update(before.offset_of(x as int, y as int) + 3, c.a),
    ensures
        after.wf(),
        after.pixel(x as int, y as int) == c,
        forall|xx: int, yy: int|
            #![trigger after.pixel(xx, yy)]
            after.in_bounds(xx, yy) && (xx != x || yy != y) ==> after.pixel(xx, yy) == before.pixel(xx, yy),
{
    lemma_set_pixel(before, after, x as int, y as int, c);
}

/// `width * height * 4` bounds every group index of the buffer.
pub proof fn lemma_area_bound(width: int, height: int)
    requires
        0 <= width,
        0 <= height,
    ensures
        width * height * 4 == width * 4 * height,
{
    assert(width * height * 4 == width * 4 * height) by (nonlinear_arith);
}

/// In a well-laid-out buffer the offset of `(x, y)` is four times its
/// row-major pixel index, and that index is below `width * height`.
pub proof fn lemma_offset_group(width: int, height: int, x: int, y: int)
    requires
        0 <= x < width,
        0 <= y < height,
    ensures
        y * (width * 4) + x * 4 == 4 * (y * width + x),
        0 <= y * width + x < width * height,
{
    assert(y * (width * 4) + x * 4 == 4 * (y * width + x)) by (nonlinear_arith);
    assert(y * width + x < width * height) by (nonlinear_arith)
        requires
            0 <= x < width,
            0 <= y < height,
    ;
    assert(0 <= y * width) by (nonlinear_arith)
        requires
            0 <= y,
            0 <= width,
    ;
}

/// Both factors of an offset are non-negative and below the sum.
pub proof fn lemma_offset_parts(stride: int, x: int, y: int)
    requires
        0 <= stride,
        0 <= x,
        0 <= y,
    ensures
        0 <= y * stride,
        0 <= x * 4,
{
    assert(0 <= y * stride) by (nonlinear_arith)
        requires
            0 <= stride,
            0 <= y,
    ;
}

/// A pixel inside a well-laid-out image has all four bytes inside the buffer.
pub proof fn lemma_in_buffer(img: &RgbaImage, x: int, y: int)
    requires
        img.wf(),
        img.in_bounds(x, y),
    ensures
        0 <= img.offset_of(x, y),
        img.offset_of(x, y) + 3 < img.pixels@.len(),
        img.offset_of(x, y) == 4 * (y * img.width + x),
{
    lemma_offset_group(img.width as int, img.height as int, x, y);
    assert(4 * (y * img.width + x) + 3 < 4 * (img.width * img.height));
    lemma_area_bound(img.width as int, img.height as int);
    assert(img.height * (img.width * 4) == img.width * 4 * img.height) by (nonlinear_arith);
}

/// One more row adds `width` entries.
pub proof fn lemma_row_step(y: int, width: int)
    ensures
        y * width + width == (y + 1) * width,
{
    assert(y * width + width == (y + 1) * width) by (nonlinear_arith);
}

} // verus!
