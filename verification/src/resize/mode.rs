//! Mode pooling: every output pixel takes the most frequent exact RGBA value
//! of its source rectangle, so no blended colors appear.

use crate::color::{black_color, Color};
use crate::image::{lemma_in_buffer, lemma_set_pixel, RgbaImage};
use crate::resize::{output_fits, spans_within};
use vstd::prelude::*;

verus! {

/// The four channels of a color packed into one key (`0xRRGGBBAA`).
pub open spec fn rgba_key(c: Color) -> u32 {
    (((c.r * 256 + c.g) * 256 + c.b) * 256 + c.a) as u32
}

/// The pixels `x0..x1` of row `y`, left to right.
pub open spec fn row_colors(img: &RgbaImage, y: int, x0: int, x1: int) -> Seq<Color> {
    Seq::new((if x1 > x0 { x1 - x0 } else { 0 }) as nat, |i: int| img.pixel(x0 + i, y))
}

/// The pixels of the rectangle `x0..x1` x `y0..y1`, row by row.
pub open spec fn rect_colors(img: &RgbaImage, x0: int, x1: int, y0: int, y1: int) -> Seq<Color>
    decreases y1 - y0,
{
    if y1 <= y0 {
        Seq::empty()
    } else {
        rect_colors(img, x0, x1, y0, y1 - 1) + row_colors(img, y1 - 1, x0, x1)
    }
}

/// How many colors of `colors` have key `key`.
pub open spec fn occurrences(colors: Seq<Color>, key: u32) -> nat
    decreases colors.len(),
{
    if colors.len() == 0 {
        0
    } else {
        occurrences(colors.drop_last(), key) + if rgba_key(colors.last()) == key { 1nat } else { 0nat }
    }
}

/// Index of the first of `colors[0..n]` that occurs most often in `colors`.
pub open spec fn first_mode_index(colors: Seq<Color>, n: int) -> int
    decreases n,
{
    if n <= 1 {
        0
    } else {
        let m = first_mode_index(colors, n - 1);
        if occurrences(colors, rgba_key(colors[n - 1])) > occurrences(colors, rgba_key(colors[m])) {
            n - 1
        } else {
            m
        }
    }
}

/// The most frequent color of a list (the earliest one among equally
/// frequent colors), or opaque black for an empty list.
pub open spec fn mode_color(colors: Seq<Color>) -> Color {
    if colors.len() == 0 {
        black_color()
    } else {
        colors[first_mode_index(colors, colors.len() as int)]
    }
}

/// The mode-pooled color of the source rectangle `col` x `row`.
pub open spec fn rect_mode(img: &RgbaImage, col: (u32, u32), row: (u32, u32)) -> Color {
    mode_color(rect_colors(img, col.0 as int, col.1 as int, row.0 as int, row.1 as int))
}

proof fn lemma_occurrences_push(colors: Seq<Color>, c: Color, key: u32)
    ensures
        occurrences(colors.push(c), key) == occurrences(colors, key) + if rgba_key(c) == key { 1nat } else { 0nat },
{
    assert(colors.push(c).drop_last() == colors);
}

proof fn lemma_occurrences_present(colors: Seq<Color>, j: int)
    requires
        0 <= j < colors.len(),
    ensures
        occurrences(colors, rgba_key(colors[j])) >= 1,
    decreases colors.len(),
{
    if j < colors.len() - 1 {
        lemma_occurrences_present(colors.drop_last(), j);
    }
}

proof fn lemma_occurrences_bound(colors: Seq<Color>, key: u32)
    ensures
        occurrences(colors, key) <= colors.len(),
    decreases colors.len(),
{
    if colors.len() > 0 {
        lemma_occurrences_bound(colors.drop_last(), key);
    }
}

proof fn lemma_first_mode_index(colors: Seq<Color>, n: int)
    requires
        1 <= n <= colors.len(),
    ensures
        0 <= first_mode_index(colors, n) < n,
    decreases n,
{
    if n > 1 {
        lemma_first_mode_index(colors, n - 1);
    }
}

/// Pack the four channels of a color into a key.
fn color_key(c: &Color) -> (key: u32)
    ensures
        key == rgba_key(*c),
{
    ((c.r as u32 * 256 + c.g as u32) * 256 + c.b as u32) * 256 + c.a as u32
}

/// The pixels of a source rectangle, row by row.
fn collect_rect(image: &RgbaImage, col: (u32, u32), row: (u32, u32)) -> (v: Vec<Color>)
    requires
        image.wf(),
        col.1 <= image.width,
        row.1 <= image.height,
    ensures
        v@ == rect_colors(image, col.0 as int, col.1 as int, row.0 as int, row.1 as int),
{
    let (x0, x1) = col;
    let (y0, y1) = row;
    let mut v: Vec<Color> = Vec::new();
    if y1 <= y0 {
        return v;
    }
    let mut sy = y0;
    while sy < y1
        invariant
            image.wf(),
            x1 <= image.width,
            y0 <= sy <= y1 <= image.height,
            v@ == rect_colors(image, x0 as int, x1 as int, y0 as int, sy as int),
        decreases y1 - sy,
    {
        let ghost start = v@;
        let mut sx = x0;
        if x0 < x1 {
            while sx < x1
                invariant
                    image.wf(),
                    x0 <= sx <= x1 <= image.width,
                    y0 <= sy < y1 <= image.height,
                    v@ == start + row_colors(image, sy as int, x0 as int, sx as int),
                decreases x1 - sx,
            {
                proof {
                    lemma_in_buffer(image, sx as int, sy as int);
                }
                let c = image.get(sx, sy);
                v.push(c);
                proof {
                    assert(v@ =~= start + row_colors(image, sy as int, x0 as int, sx as int + 1));
                }
                sx = sx + 1;
            }
        } else {
            assert(row_colors(image, sy as int, x0 as int, x1 as int) =~= Seq::<Color>::empty());
            assert(v@ =~= start + row_colors(image, sy as int, x0 as int, x1 as int));
        }
        sy = sy + 1;
    }
    v
}

/// The most frequent color of a non-empty list, the earliest one among
/// equally frequent colors.
fn most_frequent_color(colors: &Vec<Color>) -> (c: Color)
    requires
        colors@.len() > 0,
    ensures
        c == mode_color(colors@),
{
    broadcast use vstd::std_specs::hash::group_hash_axioms;

    let mut counts: std::collections::HashMap<u32, usize> = std::collections::HashMap::new();
    let mut i: usize = 0;
    while i < colors.len()
        invariant
            i <= colors@.len(),
            forall|k: u32| #[trigger] counts@.contains_key(k) <==> occurrences(colors@.take(i as int), k) > 0,
            forall|k: u32| #[trigger] counts@.contains_key(k) ==> counts@[k] == occurrences(colors@.take(i as int), k),
        decreases colors@.len() - i,
    {
        let c = colors[i];
        let key = color_key(&c);
        let ghost prefix = colors@.take(i as int);
        proof {
            assert(colors@.take(i as int + 1) == prefix.push(c));
            assert forall|k: u32| true implies occurrences(prefix.push(c), k) == occurrences(prefix, k)
                + if rgba_key(c) == k { 1nat } else { 0nat } by {
                lemma_occurrences_push(prefix, c, k);
            }
            lemma_occurrences_bound(prefix, key);
        }
        match counts.get(&key) {
            Some(n) => {
                let n = *n;
                counts.insert(key, n + 1);
            },
            None => {
                counts.insert(key, 1);
            },
        }
        i = i + 1;
    }
    proof {
        assert(colors@.take(colors@.len() as int) == colors@);
    }
    let mut best: usize = 0;
    let first_key = color_key(&colors[0]);
    proof {
        lemma_occurrences_present(colors@, 0);
    }
    let mut best_count: usize = *counts.get(&first_key).unwrap();
    let mut j: usize = 1;
    while j < colors.len()
        invariant
            1 <= j <= colors@.len(),
            forall|k: u32| #[trigger] counts@.contains_key(k) <==> occurrences(colors@, k) > 0,
            forall|k: u32| #[trigger] counts@.contains_key(k) ==> counts@[k] == occurrences(colors@, k),
            best as int == first_mode_index(colors@, j as int),
            best < j,
            best_count == occurrences(colors@, rgba_key(colors@[best as int])),
        decreases colors@.len() - j,
    {
        let key = color_key(&colors[j]);
        proof {
            lemma_occurrences_present(colors@, j as int);
        }
        let n = *counts.get(&key).unwrap();
        if n > best_count {
            best = j;
            best_count = n;
        }
        j = j + 1;
    }
    colors[best]
}

/// Mode pooling: output pixel `(x, y)` is the most frequent exact color of
/// the source rectangle `cols[x]` x `rows[y]` (the earliest in row-major
/// order among equally frequent colors; opaque black for an empty
/// rectangle).
pub fn mode_pooling(image: &RgbaImage, cols: &Vec<(u32, u32)>, rows: &Vec<(u32, u32)>) -> (out: RgbaImage)
    requires
        image.wf(),
        spans_within(cols@, image.width as int),
        spans_within(rows@, image.height as int),
        output_fits(cols@.len() as int, rows@.len() as int),
    ensures
        out.wf(),
        out.width == cols@.len(),
        out.height == rows@.len(),
        forall|x: int, y: int|
            out.in_bounds(x, y) ==> #[trigger] out.pixel(x, y) == rect_mode(image, cols@[x], rows@[y]),
{
    let width = cols.len() as u32;
    let height = rows.len() as u32;
    let mut out = RgbaImage::new(width, height, Color::black());
    let mut y: u32 = 0;
    while y < height
        invariant
            image.wf(),
            spans_within(cols@, image.width as int),
            spans_within(rows@, image.height as int),
            width == cols@.len(),
            height == rows@.len(),
            out.wf(),
            out.width == width,
            out.height == height,
            y <= height,
            forall|xx: int, yy: int|
                0 <= xx < width && 0 <= yy < y ==> #[trigger] out.pixel(xx, yy) == rect_mode(image, cols@[xx], rows@[yy]),
        decreases height - y,
    {
        let row = rows[y as usize];
        let mut x: u32 = 0;
        while x < width
            invariant
                image.wf(),
                spans_within(cols@, image.width as int),
                spans_within(rows@, image.height as int),
                width == cols@.len(),
                height == rows@.len(),
                out.wf(),
                out.width == width,
                out.height == height,
                y < height,
                x <= width,
                row == rows@[y as int],
                forall|xx: int, yy: int|
                    0 <= xx < width && 0 <= yy < y ==> #[trigger] out.pixel(xx, yy) == rect_mode(image, cols@[xx], rows@[yy]),
                forall|xx: int| 0 <= xx < x ==> #[trigger] out.pixel(xx, y as int) == rect_mode(image, cols@[xx], row),
            decreases width - x,
        {
            let col = cols[x as usize];
            assert(cols@[x as int].1 <= image.width);
            assert(rows@[y as int].1 <= image.height);
            let pixels = collect_rect(image, col, row);
            let color = if pixels.len() == 0 {
                Color::black()
            } else {
                most_frequent_color(&pixels)
            };
            proof {
                lemma_in_buffer(&out, x as int, y as int);
            }
            let ghost before = out;
            out.set(x, y, color);
            proof {
                lemma_set_pixel(&before, &out, x as int, y as int, color);
            }
            x = x + 1;
        }
        y = y + 1;
    }
    out
}

} // verus!
