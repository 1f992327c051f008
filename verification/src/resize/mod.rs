//! Integer resampling kernels.
//!
//! A resampling filter maps every output column to a span `[start, end)` of
//! source columns and every output row to a span of source rows (or, for
//! nearest-neighbor sampling, to one source column and row). Given those
//! spans, the kernels here compute each output pixel exactly: the box average
//! of the covered rectangle (directly, or through a summed-area table), the
//! most frequent color of the rectangle, or the sampled pixel.

use crate::color::Color;
use crate::error::Error;
use crate::image::{lemma_in_buffer, lemma_set_pixel, RgbaImage};
use vstd::prelude::*;

pub mod integral;
pub mod mode;


verus! {

/// Channel `0` (red), `1` (green), `2` (blue) or `3` (alpha) of a color.
pub open spec fn rgba_channel(c: Color, ch: int) -> int {
    if ch == 0 {
        c.r as int
    } else if ch == 1 {
        c.g as int
    } else if ch == 2 {
        c.b as int
    } else {
        c.a as int
    }
}

/// Sum of channel `ch` over the pixels `x0..x1` of row `y`.
pub open spec fn row_sum(img: &RgbaImage, y: int, x0: int, x1: int, ch: int) -> int
    decreases x1 - x0,
{
    if x1 <= x0 {
        0
    } else {
        row_sum(img, y, x0, x1 - 1, ch) + rgba_channel(img.pixel(x1 - 1, y), ch)
    }
}

/// Sum of channel `ch` over the rectangle of columns `x0..x1` and rows `y0..y1`.
pub open spec fn rect_sum(img: &RgbaImage, x0: int, x1: int, y0: int, y1: int, ch: int) -> int
    decreases y1 - y0,
{
    if y1 <= y0 {
        0
    } else {
        rect_sum(img, x0, x1, y0, y1 - 1, ch) + row_sum(img, y1 - 1, x0, x1, ch)
    }
}

/// Number of source positions a span `[start, end)` covers.
pub open spec fn span_len(span: (u32, u32)) -> int {
    if span.1 > span.0 {
        span.1 - span.0
    } else {
        0
    }
}

/// Channel `ch` of the box average: the channel sum over the rectangle,
/// divided by its pixel count (truncating), or `0` for an empty rectangle.
pub open spec fn box_channel(img: &RgbaImage, col: (u32, u32), row: (u32, u32), ch: int) -> u8 {
    let count = span_len(col) * span_len(row);
    if count == 0 {
        0
    } else {
        (rect_sum(img, col.0 as int, col.1 as int, row.0 as int, row.1 as int, ch) / count) as u8
    }
}

/// The unweighted average color of the source rectangle `col` x `row`.
pub open spec fn box_mean(img: &RgbaImage, col: (u32, u32), row: (u32, u32)) -> Color {
    Color {
        r: box_channel(img, col, row, 0),
        g: box_channel(img, col, row, 1),
        b: box_channel(img, col, row, 2),
        a: box_channel(img, col, row, 3),
    }
}

/// `out` holds, for every output position, the box average of the source
/// rectangle `cols[x]` x `rows[y]`.
pub open spec fn box_filtered(img: &RgbaImage, cols: Seq<(u32, u32)>, rows: Seq<(u32, u32)>, out: &RgbaImage) -> bool {
    &&& out.wf()
    &&& out.width == cols.len()
    &&& out.height == rows.len()
    &&& forall|x: int, y: int| out.in_bounds(x, y) ==> #[trigger] out.pixel(x, y) == box_mean(img, cols[x], rows[y])
}

/// Two box-filtered results over the same spans are the same picture: the
/// summed-area route of [`integral::integral_image`] and the direct sums of
/// [`box_filter`] agree pixel for pixel.
pub proof fn law_box_filters_agree(
    img: &RgbaImage,
    cols: Seq<(u32, u32)>,
    rows: Seq<(u32, u32)>,
    direct: &RgbaImage,
    tabled: &RgbaImage,
)
    requires
        box_filtered(img, cols, rows, direct),
        box_filtered(img, cols, rows, tabled),
    ensures
        direct.same_picture(tabled),
{
    assert forall|x: int, y: int| direct.in_bounds(x, y) implies #[trigger] direct.pixel(x, y) == tabled.pixel(x, y) by {
        assert(tabled.in_bounds(x, y));
    }
}

/// Every span ends inside `0..=size`.
pub open spec fn spans_within(spans: Seq<(u32, u32)>, size: int) -> bool {
    forall|i: int| 0 <= i < spans.len() ==> (#[trigger] spans[i]).1 <= size
}

/// An output image of `width` x `height` pixels fits in memory.
pub open spec fn output_fits(width: int, height: int) -> bool {
    &&& width <= u32::MAX
    &&& height <= u32::MAX
    &&& width * 4 <= usize::MAX
    &&& width * 4 * height <= usize::MAX
}

/// A source image small enough that every channel sum fits in 64 bits.
pub open spec fn summable(img: &RgbaImage) -> bool {
    img.width * img.height <= 0x1_0000_0000_0000
}

/// Channel `ch` of a color (`3` and above: alpha).
pub fn rgba_channel_value(c: &Color, ch: usize) -> (v: u8)
    ensures
        v as int == rgba_channel(*c, ch as int),
{
    if ch == 0 {
        c.r
    } else if ch == 1 {
        c.g
    } else if ch == 2 {
        c.b
    } else {
        c.a
    }
}

pub proof fn lemma_row_sum_bound(img: &RgbaImage, y: int, x0: int, x1: int, ch: int)
    requires
        x0 <= x1,
    ensures
        0 <= row_sum(img, y, x0, x1, ch) <= 255 * (x1 - x0),
    decreases x1 - x0,
{
    if x1 > x0 {
        lemma_row_sum_bound(img, y, x0, x1 - 1, ch);
    }
}

pub proof fn lemma_rect_sum_bound(img: &RgbaImage, x0: int, x1: int, y0: int, y1: int, ch: int)
    requires
        x0 <= x1,
        y0 <= y1,
    ensures
        0 <= rect_sum(img, x0, x1, y0, y1, ch) <= 255 * ((x1 - x0) * (y1 - y0)),
    decreases y1 - y0,
{
    if y1 > y0 {
        lemma_rect_sum_bound(img, x0, x1, y0, y1 - 1, ch);
        lemma_row_sum_bound(img, y1 - 1, x0, x1, ch);
        assert((x1 - x0) * (y1 - y0) == (x1 - x0) * (y1 - 1 - y0) + (x1 - x0)) by (nonlinear_arith);
    }
}

/// A rectangle inside the image has fewer pixels than the image.
pub proof fn lemma_area_within(w: int, h: int, a: int, b: int)
    requires
        0 <= a <= w,
        0 <= b <= h,
    ensures
        a * b <= w * h,
{
    assert(a * b <= w * h) by (nonlinear_arith)
        requires
            0 <= a <= w,
            0 <= b <= h,
    ;
}

/// The box average of one source rectangle, summed pixel by pixel.
fn box_average(image: &RgbaImage, col: (u32, u32), row: (u32, u32)) -> (c: Color)
    requires
        image.wf(),
        summable(image),
        col.1 <= image.width,
        row.1 <= image.height,
    ensures
        c == box_mean(image, col, row),
{
    let (x0, x1) = col;
    let (y0, y1) = row;
    if x1 <= x0 || y1 <= y0 {
        return Color::new(0, 0, 0, 0);
    }
    let mut r: u64 = 0;
    let mut g: u64 = 0;
    let mut b: u64 = 0;
    let mut a: u64 = 0;
    let mut sy = y0;
    while sy < y1
        invariant
            image.wf(),
            summable(image),
            x0 < x1 <= image.width,
            y0 <= sy <= y1 <= image.height,
            r == rect_sum(image, x0 as int, x1 as int, y0 as int, sy as int, 0),
            g == rect_sum(image, x0 as int, x1 as int, y0 as int, sy as int, 1),
            b == rect_sum(image, x0 as int, x1 as int, y0 as int, sy as int, 2),
            a == rect_sum(image, x0 as int, x1 as int, y0 as int, sy as int, 3),
        decreases y1 - sy,
    {
        let mut sx = x0;
        while sx < x1
            invariant
                image.wf(),
                summable(image),
                x0 <= sx <= x1 <= image.width,
                y0 <= sy < y1 <= image.height,
                r == rect_sum(image, x0 as int, x1 as int, y0 as int, sy as int, 0) + row_sum(image, sy as int, x0 as int, sx as int, 0),
                g == rect_sum(image, x0 as int, x1 as int, y0 as int, sy as int, 1) + row_sum(image, sy as int, x0 as int, sx as int, 1),
                b == rect_sum(image, x0 as int, x1 as int, y0 as int, sy as int, 2) + row_sum(image, sy as int, x0 as int, sx as int, 2),
                a == rect_sum(image, x0 as int, x1 as int, y0 as int, sy as int, 3) + row_sum(image, sy as int, x0 as int, sx as int, 3),
            decreases x1 - sx,
        {
            proof {
                lemma_in_buffer(image, sx as int, sy as int);
                assert forall|ch: int| 0 <= ch < 4 implies rect_sum(image, x0 as int, x1 as int, y0 as int, sy as int, ch)
                    + row_sum(image, sy as int, x0 as int, sx as int + 1, ch) <= 255 * (image.width * image.height) by {
                    lemma_rect_sum_bound(image, x0 as int, x1 as int, y0 as int, sy as int + 1, ch);
                    lemma_row_sum_bound(image, sy as int, sx as int + 1, x1 as int, ch);
                    lemma_row_sum_split(image, sy as int, x0 as int, sx as int + 1, x1 as int, ch);
                    lemma_area_within(image.width as int, image.height as int, (x1 - x0) as int, (sy + 1 - y0) as int);
                }
            }
            let c = image.get(sx, sy);
            r = r + c.r as u64;
            g = g + c.g as u64;
            b = b + c.b as u64;
            a = a + c.a as u64;
            sx = sx + 1;
        }
        sy = sy + 1;
    }
    proof {
        lemma_area_within(image.width as int, image.height as int, (x1 - x0) as int, (y1 - y0) as int);
        assert((x1 - x0) * (y1 - y0) > 0) by (nonlinear_arith)
            requires
                x1 > x0,
                y1 > y0,
        ;
    }
    let count: u64 = (x1 - x0) as u64 * (y1 - y0) as u64;
    assert(count == span_len(col) * span_len(row));
    Color::new((r / count) as u8, (g / count) as u8, (b / count) as u8, (a / count) as u8)
}

/// Splitting a row at `xm` splits its sum.
pub proof fn lemma_row_sum_split(img: &RgbaImage, y: int, x0: int, xm: int, x1: int, ch: int)
    requires
        x0 <= xm <= x1,
    ensures
        row_sum(img, y, x0, x1, ch) == row_sum(img, y, x0, xm, ch) + row_sum(img, y, xm, x1, ch),
    decreases x1 - xm,
{
    if x1 > xm {
        lemma_row_sum_split(img, y, x0, xm, x1 - 1, ch);
    }
}

/// A row whose pixels all have color `c` sums to its length times the channel.
pub proof fn lemma_row_sum_uniform(img: &RgbaImage, y: int, x0: int, x1: int, ch: int, c: Color)
    requires
        x0 <= x1,
        forall|x: int| x0 <= x < x1 ==> #[trigger] img.pixel(x, y) == c,
    ensures
        row_sum(img, y, x0, x1, ch) == (x1 - x0) * rgba_channel(c, ch),
    decreases x1 - x0,
{
    if x1 > x0 {
        lemma_row_sum_uniform(img, y, x0, x1 - 1, ch, c);
        assert(img.pixel(x1 - 1, y) == c);
        assert((x1 - x0) * rgba_channel(c, ch) == (x1 - 1 - x0) * rgba_channel(c, ch) + rgba_channel(c, ch))
            by (nonlinear_arith);
    } else {
        assert((x1 - x0) * rgba_channel(c, ch) == 0) by (nonlinear_arith)
            requires
                x1 == x0,
        ;
    }
}

/// A rectangle whose pixels all have color `c` sums to its area times the channel.
pub proof fn lemma_rect_sum_uniform(img: &RgbaImage, x0: int, x1: int, y0: int, y1: int, ch: int, c: Color)
    requires
        x0 <= x1,
        y0 <= y1,
        forall|x: int, y: int| x0 <= x < x1 && y0 <= y < y1 ==> #[trigger] img.pixel(x, y) == c,
    ensures
        rect_sum(img, x0, x1, y0, y1, ch) == (x1 - x0) * (y1 - y0) * rgba_channel(c, ch),
    decreases y1 - y0,
{
    if y1 > y0 {
        lemma_rect_sum_uniform(img, x0, x1, y0, y1 - 1, ch, c);
        assert forall|x: int| x0 <= x < x1 implies #[trigger] img.pixel(x, y1 - 1) == c by {}
        lemma_row_sum_uniform(img, y1 - 1, x0, x1, ch, c);
        let v = rgba_channel(c, ch);
        assert((x1 - x0) * (y1 - y0) * v == (x1 - x0) * (y1 - 1 - y0) * v + (x1 - x0) * v)
            by (nonlinear_arith);
    } else {
        assert((x1 - x0) * (y1 - y0) * rgba_channel(c, ch) == 0) by (nonlinear_arith)
            requires
                y1 == y0,
        ;
    }
}

/// Averaging a region of one color gives that color back: the box average of
/// any non-empty rectangle of an image whose pixels all have color `c` is `c`.
pub proof fn law_uniform_box_mean(img: &RgbaImage, c: Color, col: (u32, u32), row: (u32, u32))
    requires
        forall|x: int, y: int| img.in_bounds(x, y) ==> #[trigger] img.pixel(x, y) == c,
        col.0 < col.1 <= img.width,
        row.0 < row.1 <= img.height,
    ensures
        box_mean(img, col, row) == c,
{
    let n = span_len(col) * span_len(row);
    assert(n > 0) by (nonlinear_arith)
        requires
            n == span_len(col) * span_len(row),
            span_len(col) > 0,
            span_len(row) > 0,
    ;
    assert forall|ch: int| 0 <= ch < 4 implies #[trigger] box_channel(img, col, row, ch) as int == rgba_channel(c, ch) by {
        assert forall|x: int, y: int| col.0 <= x < col.1 && row.0 <= y < row.1 implies #[trigger] img.pixel(x, y) == c by {
            assert(img.in_bounds(x, y));
        }
        lemma_rect_sum_uniform(img, col.0 as int, col.1 as int, row.0 as int, row.1 as int, ch, c);
        let v = rgba_channel(c, ch);
        assert(0 <= v <= 255);
        assert((span_len(col) * span_len(row) * v) / n == v) by (nonlinear_arith)
            requires
                n == span_len(col) * span_len(row),
                n > 0,
        ;
    }
    assert(box_channel(img, col, row, 0) as int == rgba_channel(c, 0));
    assert(box_channel(img, col, row, 1) as int == rgba_channel(c, 1));
    assert(box_channel(img, col, row, 2) as int == rgba_channel(c, 2));
    assert(box_channel(img, col, row, 3) as int == rgba_channel(c, 3));
}

/// Box filter: each output pixel is the unweighted average of the source
/// rectangle `cols[x]` x `rows[y]` (channels truncated; transparent black
/// for an empty rectangle).
pub fn box_filter(image: &RgbaImage, cols: &Vec<(u32, u32)>, rows: &Vec<(u32, u32)>) -> (out: RgbaImage)
    requires
        image.wf(),
        summable(image),
        spans_within(cols@, image.width as int),
        spans_within(rows@, image.height as int),
        output_fits(cols@.len() as int, rows@.len() as int),
    ensures
        box_filtered(image, cols@, rows@, &out),
{
    let width = cols.len() as u32;
    let height = rows.len() as u32;
    let mut out = RgbaImage::new(width, height, Color::black());
    let mut y: u32 = 0;
    while y < height
        invariant
            image.wf(),
            summable(image),
            spans_within(cols@, image.width as int),
            spans_within(rows@, image.height as int),
            width == cols@.len(),
            height == rows@.len(),
            out.wf(),
            out.width == width,
            out.height == height,
            y <= height,
            forall|xx: int, yy: int|
                0 <= xx < width && 0 <= yy < y ==> #[trigger] out.pixel(xx, yy) == box_mean(image, cols@[xx], rows@[yy]),
        decreases height - y,
    {
        let row = rows[y as usize];
        let mut x: u32 = 0;
        while x < width
            invariant
                image.wf(),
                summable(image),
                spans_within(cols@, image.width as int),
                spans_within(rows@, image.height as int),
                width == cols@.len(),
                height == rows@.len(),
                out.wf(),
                out.width == width,
                out.height == height,
                y < height,
                x <= width,
                row == rows@[y as int],
                forall|xx: int, yy: int|
                    0 <= xx < width && 0 <= yy < y ==> #[trigger] out.pixel(xx, yy) == box_mean(image, cols@[xx], rows@[yy]),
                forall|xx: int| 0 <= xx < x ==> #[trigger] out.pixel(xx, y as int) == box_mean(image, cols@[xx], row),
            decreases width - x,
        {
            let col = cols[x as usize];
            assert(cols@[x as int].1 <= image.width);
            assert(rows@[y as int].1 <= image.height);
            let color = box_average(image, col, row);
            proof {
                lemma_in_buffer(&out, x as int, y as int);
            }
            let ghost before = out;
            out.set(x, y, color);
            proof {
                lemma_set_pixel(&before, &out, x as int, y as int, color);
            }
            x = x + 1;
        }
        y = y + 1;
    }
    out
}

/// Nearest-neighbor sampling: output pixel `(x, y)` is source pixel
/// `(xs[x], ys[y])`.
pub fn nearest_neighbor(image: &RgbaImage, xs: &Vec<u32>, ys: &Vec<u32>) -> (out: RgbaImage)
    requires
        image.wf(),
        forall|i: int| 0 <= i < xs@.len() ==> #[trigger] xs@[i] < image.width,
        forall|i: int| 0 <= i < ys@.len() ==> #[trigger] ys@[i] < image.height,
        output_fits(xs@.len() as int, ys@.len() as int),
    ensures
        out.wf(),
        out.width == xs@.len(),
        out.height == ys@.len(),
        forall|x: int, y: int|
            out.in_bounds(x, y) ==> #[trigger] out.pixel(x, y) == image.pixel(xs@[x] as int, ys@[y] as int),
{
    let width = xs.len() as u32;
    let height = ys.len() as u32;
    let mut out = RgbaImage::new(width, height, Color::black());
    let mut y: u32 = 0;
    while y < height
        invariant
            image.wf(),
            forall|i: int| 0 <= i < xs@.len() ==> #[trigger] xs@[i] < image.width,
            forall|i: int| 0 <= i < ys@.len() ==> #[trigger] ys@[i] < image.height,
            width == xs@.len(),
            height == ys@.len(),
            out.wf(),
            out.width == width,
            out.height == height,
            y <= height,
            forall|xx: int, yy: int|
                0 <= xx < width && 0 <= yy < y ==> #[trigger] out.pixel(xx, yy) == image.pixel(xs@[xx] as int, ys@[yy] as int),
        decreases height - y,
    {
        let sy = ys[y as usize];
        let mut x: u32 = 0;
        while x < width
            invariant
                image.wf(),
                forall|i: int| 0 <= i < xs@.len() ==> #[trigger] xs@[i] < image.width,
                width == xs@.len(),
                height == ys@.len(),
                out.wf(),
                out.width == width,
                out.height == height,
                y < height,
                x <= width,
                sy == ys@[y as int],
                sy < image.height,
                forall|xx: int, yy: int|
                    0 <= xx < width && 0 <= yy < y ==> #[trigger] out.pixel(xx, yy) == image.pixel(xs@[xx] as int, ys@[yy] as int),
                forall|xx: int| 0 <= xx < x ==> #[trigger] out.pixel(xx, y as int) == image.pixel(xs@[xx] as int, sy as int),
            decreases width - x,
        {
            let sx = xs[x as usize];
            proof {
                lemma_in_buffer(image, sx as int, sy as int);
                lemma_in_buffer(&out, x as int, y as int);
            }
            let color = image.get(sx, sy);
            let ghost before = out;
            out.set(x, y, color);
            proof {
                lemma_set_pixel(&before, &out, x as int, y as int, color);
            }
            x = x + 1;
        }
        y = y + 1;
    }
    out
}

/// The pixel at `(x, y)` with both coordinates clamped into the image.
pub fn get_clamped(image: &RgbaImage, x: i32, y: i32) -> (c: Color)
    requires
        image.wf(),
        image.width > 0,
        image.height > 0,
    ensures
        c == image.pixel(clamp_coord(x as int, image.width as int), clamp_coord(y as int, image.height as int)),
{
    let max_x: i32 = if image.width > 0x7fff_ffff { 0x7fff_fffe } else { (image.width - 1) as i32 };
    let max_y: i32 = if image.height > 0x7fff_ffff { 0x7fff_fffe } else { (image.height - 1) as i32 };
    let cx: u32 = if x < 0 { 0 } else if x > max_x { max_x as u32 } else { x as u32 };
    let cy: u32 = if y < 0 { 0 } else if y > max_y { max_y as u32 } else { y as u32 };
    proof {
        lemma_in_buffer(image, cx as int, cy as int);
    }
    image.get(cx, cy)
}

/// A coordinate clamped into `0..=min(size, i32::MAX) - 1`.
pub open spec fn clamp_coord(v: int, size: int) -> int {
    let max = if size > 0x7fff_ffff { 0x7fff_fffe } else { size - 1 };
    if v < 0 {
        0
    } else if v > max {
        max
    } else {
        v
    }
}

/// What resizing has to do before any resampling is chosen.
#[derive(Clone, Copy, Debug, PartialEq, Eq, Structural)]
pub enum ResizeStep {
    /// The image already has the target size and is kept as it is.
    Keep,
    /// The image has to be resampled to the target size.
    Resample,
}

/// Decide how an image of `width` x `height` pixels is brought to
/// `new_width` x `new_height`: kept when the sizes agree, refused with
/// [`Error::Resize`] when a target side is zero, resampled otherwise.
pub fn resize_step(width: u32, height: u32, new_width: u32, new_height: u32) -> (r: Result<ResizeStep, Error>)
    ensures
        new_width == width && new_height == height ==> r == Ok::<ResizeStep, Error>(ResizeStep::Keep),
        !(new_width == width && new_height == height) && (new_width == 0 || new_height == 0) ==> r matches Err(
            Error::Resize(_),
        ),
        !(new_width == width && new_height == height) && new_width > 0 && new_height > 0 ==> r == Ok::<
            ResizeStep,
            Error,
        >(ResizeStep::Resample),
{
    if new_width == width && new_height == height {
        Ok(ResizeStep::Keep)
    } else if new_width == 0 || new_height == 0 {
        Err(Error::Resize("target dimensions must be non-zero".to_string()))
    } else {
        Ok(ResizeStep::Resample)
    }
}

} // verus!
