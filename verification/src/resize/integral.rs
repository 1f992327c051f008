//! Box averaging through summed-area (integral) tables: one pass over the
//! source builds a table per channel, after which every rectangle sum costs
//! four lookups.

use crate::color::Color;
use crate::image::{lemma_in_buffer, lemma_set_pixel, RgbaImage};
use crate::resize::{
    box_filtered, box_mean, lemma_area_within, lemma_rect_sum_bound, lemma_row_sum_split, output_fits,
    rect_sum, rgba_channel_value, row_sum, span_len, summable,
};
use vstd::prelude::*;

verus! {

/// Entry `(x, y)` of a summed-area table: the channel sum over all pixels
/// left of column `x` and above row `y`.
pub open spec fn prefix_sum(img: &RgbaImage, x: int, y: int, ch: int) -> int {
    rect_sum(img, 0, x, 0, y, ch)
}

/// A summed-area table of `img` for channel `ch`: `height + 1` rows of
/// `width + 1` entries.
pub open spec fn is_table(table: Seq<Vec<u64>>, img: &RgbaImage, ch: int) -> bool {
    &&& table.len() == img.height + 1
    &&& forall|y: int| 0 <= y <= img.height ==> (#[trigger] table[y])@.len() == img.width + 1
    &&& forall|y: int, x: int|
        0 <= y <= img.height && 0 <= x <= img.width ==> #[trigger] table[y]@[x] == prefix_sum(img, x, y, ch)
}

/// Cutting a rectangle at column `xm` splits its sum.
proof fn lemma_rect_split_x(img: &RgbaImage, x0: int, xm: int, x1: int, y0: int, y1: int, ch: int)
    requires
        x0 <= xm <= x1,
    ensures
        rect_sum(img, x0, x1, y0, y1, ch) == rect_sum(img, x0, xm, y0, y1, ch) + rect_sum(img, xm, x1, y0, y1, ch),
    decreases y1 - y0,
{
    if y1 > y0 {
        lemma_rect_split_x(img, x0, xm, x1, y0, y1 - 1, ch);
        lemma_row_sum_split(img, y1 - 1, x0, xm, x1, ch);
    }
}

/// Cutting a rectangle at row `ym` splits its sum.
proof fn lemma_rect_split_y(img: &RgbaImage, x0: int, x1: int, y0: int, ym: int, y1: int, ch: int)
    requires
        y0 <= ym <= y1,
    ensures
        rect_sum(img, x0, x1, y0, y1, ch) == rect_sum(img, x0, x1, y0, ym, ch) + rect_sum(img, x0, x1, ym, y1, ch),
    decreases y1 - ym,
{
    if y1 > ym {
        lemma_rect_split_y(img, x0, x1, y0, ym, y1 - 1, ch);
    }
}

proof fn lemma_rect_no_columns(img: &RgbaImage, x: int, y0: int, y1: int, ch: int)
    ensures
        rect_sum(img, x, x, y0, y1, ch) == 0,
    decreases y1 - y0,
{
    if y1 > y0 {
        lemma_rect_no_columns(img, x, y0, y1 - 1, ch);
    }
}

/// The sum over any rectangle is four summed-area table entries combined by
/// inclusion and exclusion.
pub proof fn law_rect_from_prefix_sums(img: &RgbaImage, x0: int, x1: int, y0: int, y1: int, ch: int)
    requires
        0 <= x0 <= x1,
        0 <= y0 <= y1,
    ensures
        rect_sum(img, x0, x1, y0, y1, ch) == prefix_sum(img, x1, y1, ch) + prefix_sum(img, x0, y0, ch)
            - prefix_sum(img, x0, y1, ch) - prefix_sum(img, x1, y0, ch),
{
    lemma_rect_split_x(img, 0, x0, x1, 0, y1, ch);
    lemma_rect_split_x(img, 0, x0, x1, 0, y0, ch);
    lemma_rect_split_y(img, x0, x1, 0, y0, y1, ch);
}

/// One step of the table recurrence.
proof fn lemma_prefix_step(img: &RgbaImage, x: int, y: int, ch: int)
    requires
        x >= 1,
        y >= 1,
    ensures
        prefix_sum(img, x, y, ch) == prefix_sum(img, x, y - 1, ch) + prefix_sum(img, x - 1, y, ch)
            - prefix_sum(img, x - 1, y - 1, ch) + crate::resize::rgba_channel(img.pixel(x - 1, y - 1), ch),
{
    assert(row_sum(img, y - 1, 0, x, ch) == row_sum(img, y - 1, 0, x - 1, ch) + crate::resize::rgba_channel(
        img.pixel(x - 1, y - 1),
        ch,
    ));
}

proof fn lemma_prefix_bounds(img: &RgbaImage, x: int, y: int, ch: int)
    requires
        0 <= x <= img.width,
        0 <= y <= img.height,
    ensures
        0 <= prefix_sum(img, x, y, ch) <= 255 * (img.width * img.height),
        x >= 1 ==> prefix_sum(img, x - 1, y, ch) <= prefix_sum(img, x, y, ch),
{
    lemma_rect_sum_bound(img, 0, x, 0, y, ch);
    lemma_area_within(img.width as int, img.height as int, x, y);
    if x >= 1 {
        lemma_rect_split_x(img, 0, x - 1, x, 0, y, ch);
        lemma_rect_sum_bound(img, x - 1, x, 0, y, ch);
    }
}

/// The summed-area table of one channel of an image.
pub fn summed_area_table(image: &RgbaImage, ch: usize) -> (table: Vec<Vec<u64>>)
    requires
        image.wf(),
        summable(image),
        image.width < usize::MAX,
    ensures
        is_table(table@, image, ch as int),
{
    let w = image.width;
    let h = image.height;
    let n = w as usize + 1;
    let mut first: Vec<u64> = Vec::new();
    while first.len() < n
        invariant
            n == w + 1,
            first@.len() <= n,
            forall|x: int| 0 <= x < first@.len() ==> #[trigger] first@[x] == 0,
        decreases n - first@.len(),
    {
        first.push(0);
    }
    let mut table: Vec<Vec<u64>> = Vec::new();
    table.push(first);
    proof {
        assert forall|x: int| 0 <= x <= w implies (#[trigger] table@[0])@[x] == prefix_sum(image, x, 0, ch as int) by {}
    }
    let mut y: u32 = 0;
    while y < h
        invariant
            image.wf(),
            summable(image),
            w == image.width,
            h == image.height,
            y <= h,
            table@.len() == y + 1,
            forall|yy: int| 0 <= yy <= y ==> (#[trigger] table@[yy])@.len() == w + 1,
            forall|yy: int, x: int|
                0 <= yy <= y && 0 <= x <= w ==> #[trigger] table@[yy]@[x] == prefix_sum(image, x, yy, ch as int),
        decreases h - y,
    {
        let mut row: Vec<u64> = Vec::new();
        row.push(0);
        proof {
            lemma_rect_no_columns(image, 0, 0, y + 1, ch as int);
        }
        let mut x: u32 = 0;
        while x < w
            invariant
                image.wf(),
                summable(image),
                w == image.width,
                h == image.height,
                y < h,
                x <= w,
                table@.len() == y + 1,
                forall|yy: int| 0 <= yy <= y ==> (#[trigger] table@[yy])@.len() == w + 1,
                forall|yy: int, xx: int|
                    0 <= yy <= y && 0 <= xx <= w ==> #[trigger] table@[yy]@[xx] == prefix_sum(image, xx, yy, ch as int),
                row@.len() == x + 1,
                forall|xx: int| 0 <= xx <= x ==> #[trigger] row@[xx] == prefix_sum(image, xx, y + 1, ch as int),
            decreases w - x,
        {
            proof {
                lemma_in_buffer(image, x as int, y as int);
                lemma_prefix_step(image, x + 1, y + 1, ch as int);
                lemma_prefix_bounds(image, x + 1, y as int, ch as int);
                lemma_prefix_bounds(image, x as int, y + 1, ch as int);
                lemma_prefix_bounds(image, x + 1, y + 1, ch as int);
            }
            let c = image.get(x, y);
            let v = rgba_channel_value(&c, ch) as u64;
            let above = &table[y as usize];
            let value = above[x as usize + 1] + row[x as usize] - above[x as usize] + v;
            row.push(value);
            x = x + 1;
        }
        table.push(row);
        y = y + 1;
    }
    table
}

/// The rectangle sum `cols` x `rows` read from a summed-area table.
fn table_rect(table: &Vec<Vec<u64>>, image: &RgbaImage, ch: usize, col: (u32, u32), row: (u32, u32)) -> (s: u64)
    requires
        image.wf(),
        summable(image),
        is_table(table@, image, ch as int),
        col.0 <= col.1 <= image.width,
        row.0 <= row.1 <= image.height,
    ensures
        s == rect_sum(image, col.0 as int, col.1 as int, row.0 as int, row.1 as int, ch as int),
{
    let (x0, x1) = col;
    let (y0, y1) = row;
    proof {
        law_rect_from_prefix_sums(image, x0 as int, x1 as int, y0 as int, y1 as int, ch as int);
        lemma_prefix_bounds(image, x1 as int, y1 as int, ch as int);
        lemma_prefix_bounds(image, x0 as int, y0 as int, ch as int);
        lemma_prefix_bounds(image, x0 as int, y1 as int, ch as int);
        lemma_prefix_bounds(image, x1 as int, y0 as int, ch as int);
        lemma_rect_sum_bound(image, x0 as int, x1 as int, y0 as int, y1 as int, ch as int);
        lemma_rect_split_x(image, 0, x0 as int, x1 as int, 0, y0 as int, ch as int);
        lemma_rect_sum_bound(image, x0 as int, x1 as int, 0, y0 as int, ch as int);
    }
    table[y1 as usize][x1 as usize] + table[y0 as usize][x0 as usize] - table[y1 as usize][x0 as usize]
        - table[y0 as usize][x1 as usize]
}

/// Every span is ordered and ends inside `0..=size`.
pub open spec fn spans_ordered(spans: Seq<(u32, u32)>, size: int) -> bool {
    forall|i: int| 0 <= i < spans.len() ==> (#[trigger] spans[i]).0 <= spans[i].1 <= size
}

/// Every rectangle the spans make has at most `u32::MAX` pixels.
pub open spec fn rect_counts_fit(cols: Seq<(u32, u32)>, rows: Seq<(u32, u32)>) -> bool {
    forall|i: int, j: int|
        0 <= i < cols.len() && 0 <= j < rows.len() ==> #[trigger] span_len(cols[i]) * #[trigger] span_len(rows[j])
            <= u32::MAX
}

/// Integral-image filter: the same box average as [`crate::resize::box_filter`],
/// with every rectangle sum read from per-channel summed-area tables.
pub fn integral_image(image: &RgbaImage, cols: &Vec<(u32, u32)>, rows: &Vec<(u32, u32)>) -> (out: RgbaImage)
    requires
        image.wf(),
        summable(image),
        image.width < usize::MAX,
        spans_ordered(cols@, image.width as int),
        spans_ordered(rows@, image.height as int),
        rect_counts_fit(cols@, rows@),
        output_fits(cols@.len() as int, rows@.len() as int),
    ensures
        box_filtered(image, cols@, rows@, &out),
{
    let sum_r = summed_area_table(image, 0);
    let sum_g = summed_area_table(image, 1);
    let sum_b = summed_area_table(image, 2);
    let sum_a = summed_area_table(image, 3);
    let width = cols.len() as u32;
    let height = rows.len() as u32;
    let mut out = RgbaImage::new(width, height, Color::black());
    let mut y: u32 = 0;
    while y < height
        invariant
            image.wf(),
            summable(image),
            is_table(sum_r@, image, 0),
            is_table(sum_g@, image, 1),
            is_table(sum_b@, image, 2),
            is_table(sum_a@, image, 3),
            spans_ordered(cols@, image.width as int),
            spans_ordered(rows@, image.height as int),
            rect_counts_fit(cols@, rows@),
            width == cols@.len(),
            height == rows@.len(),
            out.wf(),
            out.width == width,
            out.height == height,
            y <= height,
            forall|xx: int, yy: int|
                0 <= xx < width && 0 <= yy < y ==> #[trigger] out.pixel(xx, yy) == box_mean(image, cols@[xx], rows@[yy]),
        decreases height - y,
    {
        let row = rows[y as usize];
        let mut x: u32 = 0;
        while x < width
            invariant
                image.wf(),
                summable(image),
                is_table(sum_r@, image, 0),
                is_table(sum_g@, image, 1),
                is_table(sum_b@, image, 2),
                is_table(sum_a@, image, 3),
                spans_ordered(cols@, image.width as int),
                rect_counts_fit(cols@, rows@),
                width == cols@.len(),
                height == rows@.len(),
                out.wf(),
                out.width == width,
                out.height == height,
                y < height,
                x <= width,
                row == rows@[y as int],
                row.0 <= row.1 <= image.height,
                forall|xx: int, yy: int|
                    0 <= xx < width && 0 <= yy < y ==> #[trigger] out.pixel(xx, yy) == box_mean(image, cols@[xx], rows@[yy]),
                forall|xx: int| 0 <= xx < x ==> #[trigger] out.pixel(xx, y as int) == box_mean(image, cols@[xx], row),
            decreases width - x,
        {
            let col = cols[x as usize];
            assert(col.0 <= col.1 <= image.width);
            assert(span_len(cols@[x as int]) * span_len(rows@[y as int]) <= u32::MAX);
            proof {
                assert((row.1 - row.0) * (col.1 - col.0) == span_len(col) * span_len(row)) by (nonlinear_arith)
                    requires
                        span_len(col) == col.1 - col.0,
                        span_len(row) == row.1 - row.0,
                ;
            }
            let count: u64 = ((row.1 - row.0) * (col.1 - col.0)) as u64;
            let r = table_rect(&sum_r, image, 0, col, row);
            let g = table_rect(&sum_g, image, 1, col, row);
            let b = table_rect(&sum_b, image, 2, col, row);
            let a = table_rect(&sum_a, image, 3, col, row);
            let color = if count == 0 {
                Color::new(0, 0, 0, 0)
            } else {
                Color::new((r / count) as u8, (g / count) as u8, (b / count) as u8, (a / count) as u8)
            };
            assert(color == box_mean(image, col, row));
            proof {
                lemma_in_buffer(&out, x as int, y as int);
            }
            let ghost before = out;
            out.set(x, y, color);
            proof {
                lemma_set_pixel(&before, &out, x as int, y as int, color);
            }
            x = x + 1;
        }
        y = y + 1;
    }
    out
}

} // verus!
