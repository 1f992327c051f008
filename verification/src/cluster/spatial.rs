//! Palette algorithms on color frequencies and RGB boxes: popularity,
//! octree quantization and variance splitting.

use crate::cluster::{channel_of, image_colors, mean_color, mean_color_of, pad_or_truncate_palette, padded, sample_colors};
use crate::color::{black_color, Color, Palette};
use crate::image::RgbaImage;
use crate::utils::{opaque_of, sampled};
use vstd::prelude::*;

verus! {

/// Number of opaque pixels the palette algorithms look at.
pub const MAX_SAMPLES: usize = 20_000;

/// The pixels a palette algorithm works on.
pub open spec fn palette_samples(image: &RgbaImage) -> Seq<Color> {
    sampled(opaque_of(image_colors(image)), MAX_SAMPLES as int)
}

/// The palette used when an image has no opaque pixel: `max(count, 1)`
/// black entries.
pub open spec fn black_palette(count: int) -> Seq<Color> {
    Seq::new((if count > 1 { count } else { 1 }) as nat, |i: int| black_color())
}

/// A palette of `max(count, 1)` black entries.
pub fn black_palette_vec(color_count: usize) -> (v: Vec<Color>)
    ensures
        v@ == black_palette(color_count as int),
{
    let n = if color_count > 1 { color_count } else { 1 };
    let mut v: Vec<Color> = Vec::new();
    while v.len() < n
        invariant
            v@.len() <= n,
            forall|i: int| 0 <= i < v@.len() ==> #[trigger] v@[i] == black_color(),
        decreases n - v@.len(),
    {
        v.push(Color::black());
    }
    proof {
        assert(v@ =~= black_palette(color_count as int));
    }
    v
}

// ---------------------------------------------------------------------------
// Variance split
// ---------------------------------------------------------------------------

/// Colors ordered by one channel; colors with equal values keep their order.
pub open spec fn by_channel(colors: Seq<Color>, axis: int, values: int) -> Seq<Color>
    decreases values,
{
    if values <= 0 {
        Seq::empty()
    } else {
        by_channel(colors, axis, values - 1) + colors.filter(|c: Color| channel_of(c, axis) == values - 1)
    }
}

/// Colors sorted (stably) by channel `axis`.
pub open spec fn sorted_by_channel(colors: Seq<Color>, axis: int) -> Seq<Color> {
    by_channel(colors, axis, 256)
}

proof fn lemma_by_channel_push(colors: Seq<Color>, c: Color, axis: int, values: int)
    ensures
        by_channel(colors.push(c), axis, values).len() == by_channel(colors, axis, values).len()
            + (if 0 <= channel_of(c, axis) < values { 1int } else { 0int }),
    decreases values,
{
    if values > 0 {
        lemma_by_channel_push(colors, c, axis, values - 1);
        colors.lemma_filter_push(c, |x: Color| channel_of(x, axis) == values - 1);
    }
}

proof fn lemma_by_channel_len(colors: Seq<Color>, axis: int)
    ensures
        sorted_by_channel(colors, axis).len() == colors.len(),
    decreases colors.len(),
{
    if colors.len() == 0 {
        lemma_by_channel_empty(colors, axis, 256);
    } else {
        lemma_by_channel_len(colors.drop_last(), axis);
        assert(colors.drop_last().push(colors.last()) == colors);
        lemma_by_channel_push(colors.drop_last(), colors.last(), axis, 256);
    }
}

proof fn lemma_by_channel_empty(colors: Seq<Color>, axis: int, values: int)
    requires
        colors.len() == 0,
    ensures
        by_channel(colors, axis, values).len() == 0,
    decreases values,
{
    if values > 0 {
        lemma_by_channel_empty(colors, axis, values - 1);
        reveal(Seq::filter);
    }
}

/// Sum of squared distances of one channel from `mean`.
pub open spec fn channel_variance(colors: Seq<Color>, axis: int, mean: int) -> int
    decreases colors.len(),
{
    if colors.len() == 0 {
        0
    } else {
        let d = channel_of(colors.last(), axis) - mean;
        channel_variance(colors.drop_last(), axis, mean) + d * d
    }
}

/// The largest per-channel variance of a box (around its rounded mean
/// color) and the first channel that has it.
pub open spec fn variance_and_axis_of(colors: Seq<Color>) -> (int, int) {
    let mean = mean_color_of(colors);
    let v0 = channel_variance(colors, 0, mean.r as int);
    let v1 = channel_variance(colors, 1, mean.g as int);
    let v2 = channel_variance(colors, 2, mean.b as int);
    let (m01, a01) = if v1 > v0 { (v1, 1int) } else { (v0, 0int) };
    if v2 > m01 { (v2, 2int) } else { (m01, a01) }
}

/// Among boxes `0..n` with at least two colors, the first with the largest
/// variance: `(variance, index, axis)`, or `(-1, 0, 0)` when there is none.
pub open spec fn widest_box(boxes: Seq<Seq<Color>>, n: int) -> (int, int, int)
    decreases n,
{
    if n <= 0 {
        (-1, 0, 0)
    } else {
        let (mv, mi, ma) = widest_box(boxes, n - 1);
        if boxes[n - 1].len() < 2 {
            (mv, mi, ma)
        } else {
            let (v, a) = variance_and_axis_of(boxes[n - 1]);
            if v > mv { (v, n - 1, a) } else { (mv, mi, ma) }
        }
    }
}

/// The box that `widest_box` picks exists and has at least two colors, and
/// the variance it reports is not negative.
pub proof fn lemma_widest_box(boxes: Seq<Seq<Color>>, n: int)
    requires
        n <= boxes.len(),
    ensures
        widest_box(boxes, n).0 >= 0 ==> {
            &&& 0 <= widest_box(boxes, n).1 < n
            &&& boxes[widest_box(boxes, n).1].len() >= 2
            &&& 0 <= widest_box(boxes, n).2 < 3
        },
        widest_box(boxes, n).0 >= -1,
    decreases n,
{
    if n > 0 {
        lemma_widest_box(boxes, n - 1);
        if boxes[n - 1].len() >= 2 {
            lemma_box_variance_nonneg(boxes[n - 1]);
        }
    }
}

proof fn lemma_channel_variance_nonneg(colors: Seq<Color>, axis: int, mean: int)
    ensures
        channel_variance(colors, axis, mean) >= 0,
    decreases colors.len(),
{
    if colors.len() > 0 {
        lemma_channel_variance_nonneg(colors.drop_last(), axis, mean);
        let d = channel_of(colors.last(), axis) - mean;
        assert(d * d >= 0) by (nonlinear_arith);
    }
}

proof fn lemma_box_variance_nonneg(colors: Seq<Color>)
    ensures
        variance_and_axis_of(colors).0 >= 0,
        0 <= variance_and_axis_of(colors).1 < 3,
{
    let mean = mean_color_of(colors);
    lemma_channel_variance_nonneg(colors, 0, mean.r as int);
    lemma_channel_variance_nonneg(colors, 1, mean.g as int);
    lemma_channel_variance_nonneg(colors, 2, mean.b as int);
}

/// Split box `index` at the median of channel `axis`: the box is removed
/// and its lower and upper halves are appended.
pub open spec fn split_box(boxes: Seq<Seq<Color>>, index: int, axis: int) -> Seq<Seq<Color>> {
    let sorted = sorted_by_channel(boxes[index], axis);
    let mid = sorted.len() / 2;
    boxes.remove(index).push(sorted.take(mid as int)).push(sorted.skip(mid as int))
}

/// Keep splitting the widest box until there are `count` boxes or no box
/// has two colors left.
pub open spec fn split_boxes(boxes: Seq<Seq<Color>>, count: int) -> Seq<Seq<Color>>
    decreases count - boxes.len(),
{
    if boxes.len() >= count {
        boxes
    } else {
        let (mv, mi, ma) = widest_box(boxes, boxes.len() as int);
        if mv < 0 {
            boxes
        } else {
            proof {
                lemma_widest_box(boxes, boxes.len() as int);
            }
            split_boxes(split_box(boxes, mi, ma), count)
        }
    }
}

/// `colors` cut to `count` entries, or padded with copies of its first entry.
pub open spec fn padded_with_first(colors: Seq<Color>, count: int) -> Seq<Color> {
    if colors.len() >= count {
        colors.take(count)
    } else {
        colors + Seq::new((count - colors.len()) as nat, |i: int| colors[0])
    }
}

/// The variance-split palette of a list of pixels.
pub open spec fn variance_split_of(pixels: Seq<Color>, count: int) -> Seq<Color> {
    if pixels.len() == 0 {
        black_palette(count)
    } else {
        let boxes = split_boxes(seq![pixels], count);
        padded_with_first(boxes.map_values(|b: Seq<Color>| mean_color_of(b)), count)
    }
}

/// The value of channel `axis` of a color (`0` red, `1` green, `2` blue).
pub fn channel_value(color: &Color, axis: usize) -> (v: u8)
    ensures
        axis < 3 ==> v == channel_of(*color, axis as int),
        axis >= 3 ==> v == color.r,
{
    match axis {
        0 => color.r,
        1 => color.g,
        2 => color.b,
        _ => color.r,
    }
}

/// Sort colors (stably) by one channel, with one bucket per channel value.
pub fn sort_by_channel(colors: &Vec<Color>, axis: usize) -> (sorted: Vec<Color>)
    requires
        axis < 3,
    ensures
        sorted@ == sorted_by_channel(colors@, axis as int),
{
    let mut buckets: Vec<Vec<Color>> = Vec::new();
    let mut v: usize = 0;
    while v < 256
        invariant
            v <= 256,
            buckets@.len() == v,
            forall|j: int| 0 <= j < v ==> (#[trigger] buckets@[j])@ == Seq::<Color>::empty(),
        decreases 256 - v,
    {
        buckets.push(Vec::new());
        v = v + 1;
    }
    let mut i: usize = 0;
    while i < colors.len()
        invariant
            axis < 3,
            i <= colors@.len(),
            buckets@.len() == 256,
            forall|j: int|
                0 <= j < 256 ==> (#[trigger] buckets@[j])@ == colors@.take(i as int).filter(
                    |c: Color| channel_of(c, axis as int) == j,
                ),
        decreases colors@.len() - i,
    {
        let c = colors[i];
        let value = channel_value(&c, axis) as usize;
        let ghost before = buckets@;
        buckets[value].push(c);
        proof {
            assert(colors@.take(i as int + 1) == colors@.take(i as int).push(c));
            assert forall|j: int|
                0 <= j < 256 implies (#[trigger] buckets@[j])@ == colors@.take(i as int + 1).filter(
                |c: Color| channel_of(c, axis as int) == j,
            ) by {
                colors@.take(i as int).lemma_filter_push(c, |c: Color| channel_of(c, axis as int) == j);
            }
        }
        i = i + 1;
    }
    proof {
        assert(colors@.take(colors@.len() as int) == colors@);
    }
    let mut sorted: Vec<Color> = Vec::new();
    let mut v: usize = 0;
    while v < 256
        invariant
            v <= 256,
            buckets@.len() == 256,
            forall|j: int|
                0 <= j < 256 ==> (#[trigger] buckets@[j])@ == colors@.filter(|c: Color| channel_of(c, axis as int) == j),
            sorted@ == by_channel(colors@, axis as int, v as int),
        decreases 256 - v,
    {
        let bucket = &buckets[v];
        let ghost start = sorted@;
        let mut k: usize = 0;
        while k < bucket.len()
            invariant
                k <= bucket@.len(),
                sorted@ == start + bucket@.take(k as int),
            decreases bucket@.len() - k,
        {
            sorted.push(bucket[k]);
            proof {
                assert(sorted@ =~= start + bucket@.take(k as int + 1));
            }
            k = k + 1;
        }
        proof {
            assert(bucket@.take(bucket@.len() as int) == bucket@);
        }
        v = v + 1;
    }
    sorted
}

/// The boxes of the variance split, each as a sequence of colors.
pub open spec fn box_view(boxes: Seq<Vec<Color>>) -> Seq<Seq<Color>> {
    boxes.map_values(|b: Vec<Color>| b@)
}

/// Every box holds between one and `MAX_SAMPLES` colors.
pub open spec fn boxes_fit(boxes: Seq<Seq<Color>>) -> bool {
    forall|j: int| 0 <= j < boxes.len() ==> 0 < (#[trigger] boxes[j]).len() <= MAX_SAMPLES
}

/// The largest per-channel variance of a box around its mean color, and the
/// first channel that has it.
fn box_variance_and_axis(colors: &Vec<Color>) -> (res: (u64, usize))
    requires
        0 < colors@.len() <= MAX_SAMPLES,
    ensures
        res.0 as int == variance_and_axis_of(colors@).0,
        res.1 as int == variance_and_axis_of(colors@).1,
        res.0 <= 65025 * MAX_SAMPLES,
{
    let mean = mean_color(colors);
    let mut v0: u64 = 0;
    let mut v1: u64 = 0;
    let mut v2: u64 = 0;
    let mut i: usize = 0;
    while i < colors.len()
        invariant
            i <= colors@.len() <= MAX_SAMPLES,
            mean == mean_color_of(colors@),
            v0 == channel_variance(colors@.take(i as int), 0, mean.r as int),
            v1 == channel_variance(colors@.take(i as int), 1, mean.g as int),
            v2 == channel_variance(colors@.take(i as int), 2, mean.b as int),
            v0 <= 65025 * i,
            v1 <= 65025 * i,
            v2 <= 65025 * i,
        decreases colors@.len() - i,
    {
        let c = colors[i];
        let dr: i64 = c.r as i64 - mean.r as i64;
        let dg: i64 = c.g as i64 - mean.g as i64;
        let db: i64 = c.b as i64 - mean.b as i64;
        assert(dr * dr <= 65025) by (nonlinear_arith)
            requires
                -255 <= dr <= 255,
        ;
        assert(dg * dg <= 65025) by (nonlinear_arith)
            requires
                -255 <= dg <= 255,
        ;
        assert(db * db <= 65025) by (nonlinear_arith)
            requires
                -255 <= db <= 255,
        ;
        assert(dr * dr >= 0) by (nonlinear_arith);
        assert(dg * dg >= 0) by (nonlinear_arith);
        assert(db * db >= 0) by (nonlinear_arith);
        proof {
            assert(colors@.take(i as int + 1).drop_last() == colors@.take(i as int));
        }
        v0 = v0 + (dr * dr) as u64;
        v1 = v1 + (dg * dg) as u64;
        v2 = v2 + (db * db) as u64;
        i = i + 1;
    }
    proof {
        assert(colors@.take(colors@.len() as int) == colors@);
    }
    let (m01, a01) = if v1 > v0 { (v1, 1usize) } else { (v0, 0usize) };
    if v2 > m01 { (v2, 2usize) } else { (m01, a01) }
}

/// The box to split next: `(variance, index, axis)` as `widest_box` gives it.
fn widest_box_of(boxes: &Vec<Vec<Color>>) -> (res: (i64, usize, usize))
    requires
        boxes_fit(box_view(boxes@)),
    ensures
        res.0 as int == widest_box(box_view(boxes@), boxes@.len() as int).0,
        res.1 as int == widest_box(box_view(boxes@), boxes@.len() as int).1,
        res.2 as int == widest_box(box_view(boxes@), boxes@.len() as int).2,
{
    let ghost view = box_view(boxes@);
    let mut max_variance: i64 = -1;
    let mut max_index: usize = 0;
    let mut max_axis: usize = 0;
    let mut index: usize = 0;
    while index < boxes.len()
        invariant
            index <= boxes@.len(),
            view == box_view(boxes@),
            boxes_fit(view),
            max_variance as int == widest_box(view, index as int).0,
            max_index as int == widest_box(view, index as int).1,
            max_axis as int == widest_box(view, index as int).2,
            max_variance <= 65025 * MAX_SAMPLES,
        decreases boxes@.len() - index,
    {
        assert(view[index as int] == boxes@[index as int]@);
        if boxes[index].len() >= 2 {
            let (variance, axis) = box_variance_and_axis(&boxes[index]);
            if variance as i64 > max_variance {
                max_variance = variance as i64;
                max_index = index;
                max_axis = axis;
            }
        }
        index = index + 1;
    }
    (max_variance, max_index, max_axis)
}

/// Build a palette by repeatedly splitting the box of sampled pixels with the
/// largest channel variance at the median of that channel, then averaging
/// each box. The palette has exactly `color_count` colors (at least one when
/// the image has no opaque pixel).
pub fn variance_split(image: &RgbaImage, color_count: usize) -> (palette: Palette)
    requires
        image.wf(),
    ensures
        palette.colors@ == variance_split_of(palette_samples(image), color_count as int),
{
    let pixels = sample_colors(image, MAX_SAMPLES);
    if pixels.len() == 0 {
        return Palette::new(black_palette_vec(color_count));
    }
    let ghost start = pixels@;
    let mut boxes: Vec<Vec<Color>> = Vec::new();
    boxes.push(pixels);
    proof {
        assert(box_view(boxes@) =~= seq![start]);
    }
    while boxes.len() < color_count
        invariant
            boxes@.len() >= 1,
            boxes_fit(box_view(boxes@)),
            split_boxes(box_view(boxes@), color_count as int) == split_boxes(seq![start], color_count as int),
        ensures
            boxes@.len() >= 1,
            boxes_fit(box_view(boxes@)),
            box_view(boxes@) == split_boxes(seq![start], color_count as int),
        decreases color_count - boxes@.len(),
    {
        let ghost old_view = box_view(boxes@);
        let (max_variance, max_index, max_axis) = widest_box_of(&boxes);
        if max_variance < 0 {
            break;
        }
        proof {
            lemma_widest_box(old_view, old_view.len() as int);
        }
        let target = boxes.remove(max_index);
        assert(target@ == old_view[max_index as int]);
        let mut first = sort_by_channel(&target, max_axis);
        proof {
            lemma_by_channel_len(target@, max_axis as int);
        }
        let mid = first.len() / 2;
        let second = first.split_off(mid);
        boxes.push(first);
        boxes.push(second);
        proof {
            let sorted = sorted_by_channel(old_view[max_index as int], max_axis as int);
            assert(box_view(boxes@) =~= split_box(old_view, max_index as int, max_axis as int));
            assert forall|j: int| 0 <= j < box_view(boxes@).len() implies 0 < (#[trigger] box_view(boxes@)[j]).len() <= MAX_SAMPLES by {
                if j < old_view.len() - 1 {
                    if j < max_index {
                        assert(box_view(boxes@)[j] == old_view[j]);
                    } else {
                        assert(box_view(boxes@)[j] == old_view[j + 1]);
                    }
                }
            }
        }
    }
    let mut colors: Vec<Color> = Vec::new();
    let mut k: usize = 0;
    while k < boxes.len()
        invariant
            k <= boxes@.len(),
            boxes_fit(box_view(boxes@)),
            colors@ == box_view(boxes@).take(k as int).map_values(|b: Seq<Color>| mean_color_of(b)),
        decreases boxes@.len() - k,
    {
        assert(box_view(boxes@)[k as int] == boxes@[k as int]@);
        let c = mean_color(&boxes[k]);
        colors.push(c);
        proof {
            assert(colors@ =~= box_view(boxes@).take(k as int + 1).map_values(|b: Seq<Color>| mean_color_of(b)));
        }
        k = k + 1;
    }
    let ghost means = box_view(boxes@).map_values(|b: Seq<Color>| mean_color_of(b));
    proof {
        assert(box_view(boxes@).take(boxes@.len() as int) == box_view(boxes@));
        assert(colors@ == means);
    }
    let first_color = colors[0];
    while colors.len() < color_count
        invariant
            colors@.len() >= means.len() >= 1,
            colors@.len() == means.len() || colors@.len() <= color_count,
            first_color == means[0],
            colors@.take(means.len() as int) == means,
            forall|j: int| means.len() <= j < colors@.len() ==> #[trigger] colors@[j] == means[0],
        decreases color_count - colors@.len(),
    {
        colors.push(first_color);
        proof {
            assert(colors@.take(means.len() as int) =~= means);
        }
    }
    let ghost before = colors@;
    colors.truncate(color_count);
    proof {
        if means.len() >= color_count {
            assert(before.take(means.len() as int) == before);
            assert(colors@ =~= padded_with_first(means, color_count as int));
        } else {
            assert(colors@ =~= padded_with_first(means, color_count as int));
        }
    }
    Palette::new(colors)
}

// ---------------------------------------------------------------------------
// Popularity
// ---------------------------------------------------------------------------

/// The RGB channels of a color packed into one key (`0xRRGGBB`).
pub open spec fn rgb_key(c: Color) -> u32 {
    (c.r * 65536 + c.g * 256 + c.b) as u32
}

/// The opaque color whose channels a key packs.
pub open spec fn key_color(key: u32) -> Color {
    Color { r: (key / 65536) as u8, g: ((key / 256) % 256) as u8, b: (key % 256) as u8, a: 255 }
}

/// How many colors of `colors` have RGB key `key`.
pub open spec fn key_count(colors: Seq<Color>, key: u32) -> nat
    decreases colors.len(),
{
    if colors.len() == 0 {
        0
    } else {
        key_count(colors.drop_last(), key) + if rgb_key(colors.last()) == key { 1nat } else { 0nat }
    }
}

/// The distinct RGB keys of `colors`, in order of first appearance.
pub open spec fn distinct_keys(colors: Seq<Color>) -> Seq<u32>
    decreases colors.len(),
{
    if colors.len() == 0 {
        Seq::empty()
    } else {
        let prefix = distinct_keys(colors.drop_last());
        if prefix.contains(rgb_key(colors.last())) {
            prefix
        } else {
            prefix.push(rgb_key(colors.last()))
        }
    }
}

/// Each distinct key of `colors` with its number of occurrences.
pub open spec fn key_frequencies(colors: Seq<Color>) -> Seq<(u32, usize)> {
    distinct_keys(colors).map_values(|k: u32| (k, key_count(colors, k) as usize))
}

/// Index of the first entry of `entries[0..n]` with the largest count.
pub open spec fn first_max(entries: Seq<(u32, usize)>, n: int) -> int
    decreases n,
{
    if n <= 1 {
        0
    } else {
        let m = first_max(entries, n - 1);
        if entries[n - 1].1 > entries[m].1 { n - 1 } else { m }
    }
}

/// The keys of the `k` entries with the largest counts, most frequent first;
/// among equal counts the earlier entry comes first.
pub open spec fn most_frequent(entries: Seq<(u32, usize)>, k: nat) -> Seq<u32>
    decreases k,
{
    if k == 0 || entries.len() == 0 {
        Seq::empty()
    } else {
        let i = first_max(entries, entries.len() as int);
        seq![entries[i].0] + most_frequent(entries.remove(i), (k - 1) as nat)
    }
}

/// The popularity palette of a list of pixels: the `count` most frequent RGB
/// values (ties in order of first appearance), padded with black.
pub open spec fn popularity_of(pixels: Seq<Color>, count: int) -> Seq<Color> {
    if pixels.len() == 0 {
        black_palette(count)
    } else {
        padded(most_frequent(key_frequencies(pixels), count as nat).map_values(|k: u32| key_color(k)), count)
    }
}

proof fn lemma_first_max(entries: Seq<(u32, usize)>, n: int)
    requires
        1 <= n <= entries.len(),
    ensures
        0 <= first_max(entries, n) < n,
        forall|j: int| 0 <= j < n ==> (#[trigger] entries[j]).1 <= entries[first_max(entries, n)].1,
        forall|j: int| 0 <= j < first_max(entries, n) ==> (#[trigger] entries[j]).1 < entries[first_max(entries, n)].1,
    decreases n,
{
    if n > 1 {
        lemma_first_max(entries, n - 1);
    }
}

/// Pack the RGB channels of a color into a key.
fn color_key(color: &Color) -> (key: u32)
    ensures
        key == rgb_key(*color),
{
    color.r as u32 * 65536 + color.g as u32 * 256 + color.b as u32
}

/// Unpack a key into an opaque color.
fn color_from_key(key: u32) -> (c: Color)
    ensures
        c == key_color(key),
{
    Color::new((key / 65536) as u8, ((key / 256) % 256) as u8, (key % 256) as u8, 255)
}

proof fn lemma_key_count_push(colors: Seq<Color>, c: Color, key: u32)
    ensures
        key_count(colors.push(c), key) == key_count(colors, key) + if rgb_key(c) == key { 1nat } else { 0nat },
{
    assert(colors.push(c).drop_last() == colors);
}

proof fn lemma_distinct_keys_push(colors: Seq<Color>, c: Color)
    ensures
        distinct_keys(colors.push(c)) == if distinct_keys(colors).contains(rgb_key(c)) {
            distinct_keys(colors)
        } else {
            distinct_keys(colors).push(rgb_key(c))
        },
{
    assert(colors.push(c).drop_last() == colors);
}

proof fn lemma_key_count_absent(colors: Seq<Color>, key: u32)
    requires
        !distinct_keys(colors).contains(key),
    ensures
        key_count(colors, key) == 0,
    decreases colors.len(),
{
    if colors.len() > 0 {
        let prefix = distinct_keys(colors.drop_last());
        if prefix.contains(key) {
            let w = choose|w: int| 0 <= w < prefix.len() && prefix[w] == key;
            if !prefix.contains(rgb_key(colors.last())) {
                assert(distinct_keys(colors)[w] == key);
            }
        }
        lemma_key_count_absent(colors.drop_last(), key);
        if rgb_key(colors.last()) == key {
            if prefix.contains(key) {
            } else {
                assert(distinct_keys(colors).last() == key);
            }
        }
    }
}

proof fn lemma_key_count_bound(colors: Seq<Color>, key: u32)
    ensures
        key_count(colors, key) <= colors.len(),
    decreases colors.len(),
{
    if colors.len() > 0 {
        lemma_key_count_bound(colors.drop_last(), key);
    }
}

proof fn lemma_distinct_keys_len(colors: Seq<Color>)
    ensures
        distinct_keys(colors).len() <= colors.len(),
    decreases colors.len(),
{
    if colors.len() > 0 {
        lemma_distinct_keys_len(colors.drop_last());
    }
}

/// Build a palette from the most frequent RGB values among the sampled
/// opaque pixels, most frequent first, padded with black to `color_count`
/// colors (at least one when the image has no opaque pixel).
pub fn popularity(image: &RgbaImage, color_count: usize) -> (palette: Palette)
    requires
        image.wf(),
    ensures
        palette.colors@ == popularity_of(palette_samples(image), color_count as int),
{
    broadcast use vstd::std_specs::hash::group_hash_axioms;

    let pixels = sample_colors(image, MAX_SAMPLES);
    if pixels.len() == 0 {
        return Palette::new(black_palette_vec(color_count));
    }
    let mut frequencies: std::collections::HashMap<u32, usize> = std::collections::HashMap::new();
    let mut keys: Vec<u32> = Vec::new();
    let mut i: usize = 0;
    while i < pixels.len()
        invariant
            i <= pixels@.len() <= MAX_SAMPLES,
            keys@ == distinct_keys(pixels@.take(i as int)),
            forall|k: u32| #[trigger] frequencies@.contains_key(k) <==> keys@.contains(k),
            forall|k: u32|
                #[trigger] frequencies@.contains_key(k) ==> frequencies@[k] == key_count(pixels@.take(i as int), k),
        decreases pixels@.len() - i,
    {
        let c = pixels[i];
        let key = color_key(&c);
        proof {
            assert(pixels@.take(i as int + 1) == pixels@.take(i as int).push(c));
            lemma_distinct_keys_push(pixels@.take(i as int), c);
            assert forall|k: u32| true implies key_count(pixels@.take(i as int + 1), k) == key_count(pixels@.take(i as int), k)
                + if rgb_key(c) == k { 1nat } else { 0nat } by {
                lemma_key_count_push(pixels@.take(i as int), c, k);
            }
            lemma_key_count_bound(pixels@.take(i as int), key);
        }
        let ghost before = frequencies@;
        let ghost prefix = pixels@.take(i as int);
        match frequencies.get(&key) {
            Some(n) => {
                let n = *n;
                assert(keys@.contains(key));
                frequencies.insert(key, n + 1);
                proof {
                    assert forall|k: u32| #[trigger] frequencies@.contains_key(k) implies frequencies@[k]
                        == key_count(prefix.push(c), k) by {
                        lemma_key_count_push(prefix, c, k);
                    }
                }
            },
            None => {
                let ghost old_keys = keys@;
                frequencies.insert(key, 1);
                keys.push(key);
                proof {
                    assert forall|k: u32| #[trigger] frequencies@.contains_key(k) <==> keys@.contains(k) by {
                        if k != key {
                            if keys@.contains(k) {
                                let w = choose|w: int| 0 <= w < keys@.len() && keys@[w] == k;
                                assert(old_keys[w] == k);
                                assert(old_keys.contains(k));
                            }
                            if old_keys.contains(k) {
                                let w = choose|w: int| 0 <= w < old_keys.len() && old_keys[w] == k;
                                assert(keys@[w] == k);
                            }
                        } else {
                            assert(keys@[keys@.len() - 1] == key);
                        }
                    }
                    assert forall|k: u32| #[trigger] frequencies@.contains_key(k) implies frequencies@[k]
                        == key_count(prefix.push(c), k) by {
                        lemma_key_count_push(prefix, c, k);
                        if k != key {
                            assert(before.contains_key(k));
                        } else {
                            assert(!old_keys.contains(key));
                            lemma_key_count_absent(prefix, key);
                        }
                    }
                }
            },
        }
        i = i + 1;
    }
    proof {
        assert(pixels@.take(pixels@.len() as int) == pixels@);
    }
    let ghost all = key_frequencies(pixels@);
    let mut entries: Vec<(u32, usize)> = Vec::new();
    let mut j: usize = 0;
    while j < keys.len()
        invariant
            j <= keys@.len(),
            keys@ == distinct_keys(pixels@),
            all == key_frequencies(pixels@),
            forall|k: u32| #[trigger] frequencies@.contains_key(k) <==> keys@.contains(k),
            forall|k: u32| #[trigger] frequencies@.contains_key(k) ==> frequencies@[k] == key_count(pixels@, k),
            entries@ == all.take(j as int),
        decreases keys@.len() - j,
    {
        let key = keys[j];
        assert(keys@.contains(key));
        let n = *frequencies.get(&key).unwrap();
        entries.push((key, n));
        proof {
            assert(entries@ =~= all.take(j as int + 1));
        }
        j = j + 1;
    }
    proof {
        assert(all.take(keys@.len() as int) == all);
    }
    let ghost goal = most_frequent(all, color_count as nat);
    let mut chosen: Vec<u32> = Vec::new();
    let mut t: usize = 0;
    while t < color_count && entries.len() > 0
        invariant
            t <= color_count,
            chosen@ + most_frequent(entries@, (color_count - t) as nat) == goal,
        decreases color_count - t,
    {
        let mut best: usize = 0;
        let mut k: usize = 1;
        while k < entries.len()
            invariant
                1 <= k <= entries@.len(),
                best < k,
                best as int == first_max(entries@, k as int),
            decreases entries@.len() - k,
        {
            if entries[k].1 > entries[best].1 {
                best = k;
            }
            k = k + 1;
        }
        proof {
            lemma_first_max(entries@, entries@.len() as int);
        }
        let ghost before = entries@;
        let (key, _) = entries.remove(best);
        chosen.push(key);
        proof {
            assert(most_frequent(before, (color_count - t) as nat) == seq![key] + most_frequent(entries@, (color_count - t - 1) as nat));
            assert(chosen@ + most_frequent(entries@, (color_count - t - 1) as nat) =~= goal);
        }
        t = t + 1;
    }
    proof {
        assert(most_frequent(entries@, (color_count - t) as nat) == Seq::<u32>::empty());
        assert(chosen@ =~= goal);
    }
    let mut colors: Vec<Color> = Vec::new();
    let mut m: usize = 0;
    while m < chosen.len()
        invariant
            m <= chosen@.len(),
            colors@ == chosen@.take(m as int).map_values(|k: u32| key_color(k)),
        decreases chosen@.len() - m,
    {
        let c = color_from_key(chosen[m]);
        colors.push(c);
        proof {
            assert(colors@ =~= chosen@.take(m as int + 1).map_values(|k: u32| key_color(k)));
        }
        m = m + 1;
    }
    proof {
        assert(chosen@.take(chosen@.len() as int) == chosen@);
    }
    pad_or_truncate_palette(&mut colors, color_count);
    Palette::new(colors)
}

/// The popularity and variance-split palettes have exactly `count` colors;
/// for an image without opaque pixels they are `max(count, 1)` black colors.
pub proof fn law_palette_sizes(pixels: Seq<Color>, count: int)
    requires
        count >= 0,
    ensures
        popularity_of(pixels, count).len() == if pixels.len() == 0 && count == 0 { 1 } else { count },
        variance_split_of(pixels, count).len() == if pixels.len() == 0 && count == 0 { 1 } else { count },
        pixels.len() == 0 ==> forall|i: int|
            0 <= i < popularity_of(pixels, count).len() ==> #[trigger] popularity_of(pixels, count)[i] == black_color(),
        pixels.len() == 0 ==> variance_split_of(pixels, count) == popularity_of(pixels, count),
{
}

/// Where the entries that `most_frequent` chooses stand in `entries`.
pub open spec fn chosen_indices(entries: Seq<(u32, usize)>, k: nat) -> Seq<int>
    decreases k,
{
    if k == 0 || entries.len() == 0 {
        Seq::empty()
    } else {
        let i = first_max(entries, entries.len() as int);
        seq![i] + chosen_indices(entries.remove(i), (k - 1) as nat).map_values(|j: int| if j < i { j } else { j + 1 })
    }
}

/// What the selection keeps: every chosen key is the key of its entry, a
/// chosen entry counts at least as much as any entry whose key was left
/// out, and earlier chosen entries count at least as much as later ones.
proof fn lemma_most_frequent(entries: Seq<(u32, usize)>, k: nat)
    ensures
        chosen_indices(entries, k).len() == most_frequent(entries, k).len(),
        most_frequent(entries, k).len() <= k,
        forall|t: int|
            #![trigger chosen_indices(entries, k)[t]]
            0 <= t < chosen_indices(entries, k).len() ==> 0 <= chosen_indices(entries, k)[t] < entries.len()
                && entries[chosen_indices(entries, k)[t]].0 == most_frequent(entries, k)[t],
        forall|t: int, j: int|
            #![trigger chosen_indices(entries, k)[t], entries[j]]
            0 <= t < chosen_indices(entries, k).len() && 0 <= j < entries.len() && !most_frequent(entries, k).contains(
                entries[j].0,
            ) ==> entries[chosen_indices(entries, k)[t]].1 >= entries[j].1,
        forall|t1: int, t2: int|
            #![trigger chosen_indices(entries, k)[t1], chosen_indices(entries, k)[t2]]
            0 <= t1 < t2 < chosen_indices(entries, k).len() ==> entries[chosen_indices(entries, k)[t1]].1
                >= entries[chosen_indices(entries, k)[t2]].1,
    decreases k,
{
    if k == 0 || entries.len() == 0 {
    } else {
        let i = first_max(entries, entries.len() as int);
        lemma_first_max(entries, entries.len() as int);
        let rest_entries = entries.remove(i);
        let rest = most_frequent(rest_entries, (k - 1) as nat);
        let rest_idx = chosen_indices(rest_entries, (k - 1) as nat);
        lemma_most_frequent(rest_entries, (k - 1) as nat);
        let res = most_frequent(entries, k);
        let idx = chosen_indices(entries, k);
        assert(res == seq![entries[i].0] + rest);
        assert(idx == seq![i] + rest_idx.map_values(|j: int| if j < i { j } else { j + 1 }));
        assert forall|t: int| 0 <= t < idx.len() implies 0 <= #[trigger] idx[t] < entries.len() && entries[idx[t]].0
            == res[t] by {
            if t > 0 {
                let j = rest_idx[t - 1];
                lemma_remove_index(entries, i, j);
            }
        }
        assert forall|t: int, j: int|
            0 <= t < idx.len() && 0 <= j < entries.len() && !res.contains(#[trigger] entries[j].0) implies entries[#[trigger] idx[t]].1
            >= entries[j].1 by {
            if t > 0 {
                assert(res[0] == entries[i].0);
                assert(j != i);
                let jr = if j < i { j } else { j - 1 };
                lemma_remove_index(entries, i, jr);
                assert(rest_entries[jr] == entries[j]);
                assert(!rest.contains(rest_entries[jr].0)) by {
                    if rest.contains(rest_entries[jr].0) {
                        let w = choose|w: int| 0 <= w < rest.len() && rest[w] == rest_entries[jr].0;
                        assert(res[w + 1] == entries[j].0);
                    }
                }
                assert(rest_entries[rest_idx[t - 1]].1 >= rest_entries[jr].1);
                lemma_remove_index(entries, i, rest_idx[t - 1]);
            }
        }
        assert forall|t1: int, t2: int| 0 <= t1 < t2 < idx.len() implies entries[#[trigger] idx[t1]].1
            >= entries[#[trigger] idx[t2]].1 by {
            lemma_remove_index(entries, i, rest_idx[t2 - 1]);
            if t1 > 0 {
                assert(rest_entries[rest_idx[t1 - 1]].1 >= rest_entries[rest_idx[t2 - 1]].1);
                lemma_remove_index(entries, i, rest_idx[t1 - 1]);
            }
        }
    }
}

proof fn lemma_remove_index(entries: Seq<(u32, usize)>, i: int, j: int)
    requires
        0 <= i < entries.len(),
        0 <= j < entries.len() - 1,
    ensures
        entries.remove(i)[j] == entries[if j < i { j } else { j + 1 }],
{
}

proof fn lemma_key_listed(colors: Seq<Color>, j: int)
    requires
        0 <= j < colors.len(),
    ensures
        distinct_keys(colors).contains(rgb_key(colors[j])),
    decreases colors.len(),
{
    let prefix = distinct_keys(colors.drop_last());
    if j < colors.len() - 1 {
        lemma_key_listed(colors.drop_last(), j);
        let w = choose|w: int| 0 <= w < prefix.len() && prefix[w] == rgb_key(colors[j]);
        if !prefix.contains(rgb_key(colors.last())) {
            assert(distinct_keys(colors)[w] == rgb_key(colors[j]));
        }
    } else if !prefix.contains(rgb_key(colors.last())) {
        assert(distinct_keys(colors)[prefix.len() as int] == rgb_key(colors[j]));
    }
}

proof fn lemma_listed_key_occurs(colors: Seq<Color>, w: int)
    requires
        0 <= w < distinct_keys(colors).len(),
    ensures
        exists|j: int| 0 <= j < colors.len() && rgb_key(#[trigger] colors[j]) == distinct_keys(colors)[w],
    decreases colors.len(),
{
    let prefix = distinct_keys(colors.drop_last());
    if w < prefix.len() {
        lemma_listed_key_occurs(colors.drop_last(), w);
        let j = choose|j: int| 0 <= j < colors.drop_last().len() && rgb_key(#[trigger] colors.drop_last()[j]) == prefix[w];
        assert(colors[j] == colors.drop_last()[j]);
    } else {
        assert(rgb_key(colors[colors.len() - 1]) == distinct_keys(colors)[w]);
    }
}

/// The popularity palette holds the most frequent RGB values of the pixels:
/// every chosen value occurs among them, no chosen value is rarer than a
/// value that was left out, and the chosen values come most frequent first.
pub proof fn law_popularity_most_frequent(pixels: Seq<Color>, count: nat)
    requires
        pixels.len() <= MAX_SAMPLES,
    ensures
        forall|t: int|
            #![trigger most_frequent(key_frequencies(pixels), count)[t]]
            0 <= t < most_frequent(key_frequencies(pixels), count).len() ==> exists|j: int|
                0 <= j < pixels.len() && #[trigger] rgb_key(pixels[j]) == most_frequent(key_frequencies(pixels), count)[t],
        forall|t: int, j: int|
            #![trigger most_frequent(key_frequencies(pixels), count)[t], pixels[j]]
            0 <= t < most_frequent(key_frequencies(pixels), count).len() && 0 <= j < pixels.len()
                && !most_frequent(key_frequencies(pixels), count).contains(rgb_key(pixels[j])) ==> key_count(
                pixels,
                most_frequent(key_frequencies(pixels), count)[t],
            ) >= key_count(pixels, rgb_key(pixels[j])),
        forall|t1: int, t2: int|
            0 <= t1 < t2 < most_frequent(key_frequencies(pixels), count).len() ==> key_count(
                pixels,
                #[trigger] most_frequent(key_frequencies(pixels), count)[t1],
            ) >= key_count(pixels, #[trigger] most_frequent(key_frequencies(pixels), count)[t2]),
{
    let entries = key_frequencies(pixels);
    let chosen = most_frequent(entries, count);
    let idx = chosen_indices(entries, count);
    lemma_most_frequent(entries, count);
    assert forall|j: int| 0 <= j < entries.len() implies #[trigger] entries[j].1 == key_count(pixels, entries[j].0) by {
        lemma_key_count_bound(pixels, entries[j].0);
    }
    assert forall|t: int| #![trigger chosen[t]] 0 <= t < chosen.len() implies (exists|j: int|
        0 <= j < pixels.len() && #[trigger] rgb_key(pixels[j]) == chosen[t]) by {
        assert(0 <= idx[t] < entries.len());
        lemma_listed_key_occurs(pixels, idx[t]);
    }
    assert forall|t: int, j: int|
        #![trigger chosen[t], pixels[j]]
        0 <= t < chosen.len() && 0 <= j < pixels.len() && !chosen.contains(rgb_key(pixels[j])) implies key_count(
        pixels,
        chosen[t],
    ) >= key_count(pixels, rgb_key(pixels[j])) by {
        lemma_key_listed(pixels, j);
        let w = choose|w: int| 0 <= w < distinct_keys(pixels).len() && distinct_keys(pixels)[w] == rgb_key(pixels[j]);
        assert(entries[w].0 == rgb_key(pixels[j]));
        assert(entries[idx[t]].1 >= entries[w].1);
    }
    assert forall|t1: int, t2: int| 0 <= t1 < t2 < chosen.len() implies key_count(pixels, #[trigger] chosen[t1]) >= key_count(
        pixels,
        #[trigger] chosen[t2],
    ) by {
        assert(entries[idx[t1]].1 >= entries[idx[t2]].1);
    }
}

/// A box is split along the channel that varies most: the axis picked for
/// a box is red, green or blue, no channel has a larger sum of squared
/// deviations from the box's mean color than it, no earlier channel has as
/// large a one, and the variance reported is that of the picked channel.
pub proof fn law_split_axis_varies_most(colors: Seq<Color>)
    ensures
        ({
            let (v, axis) = variance_and_axis_of(colors);
            let mean = mean_color_of(colors);
            &&& 0 <= axis < 3
            &&& v == channel_variance(colors, axis, channel_of(mean, axis))
            &&& forall|ch: int| 0 <= ch < 3 ==> #[trigger] channel_variance(colors, ch, channel_of(mean, ch)) <= v
            &&& forall|ch: int| 0 <= ch < axis ==> #[trigger] channel_variance(colors, ch, channel_of(mean, ch)) < v
        }),
{
    let mean = mean_color_of(colors);
    assert(channel_of(mean, 0) == mean.r as int);
    assert(channel_of(mean, 1) == mean.g as int);
    assert(channel_of(mean, 2) == mean.b as int);
}

/// The box split next is one with the largest variance among the boxes of
/// at least two colors (the first such box), and it is split along its own
/// axis of largest variance.
pub proof fn law_widest_box_is_split(boxes: Seq<Seq<Color>>, n: int)
    requires
        0 <= n <= boxes.len(),
    ensures
        ({
            let (v, index, axis) = widest_box(boxes, n);
            &&& forall|b: int| 0 <= b < n && boxes[b].len() >= 2 ==> #[trigger] variance_and_axis_of(boxes[b]).0 <= v
            &&& forall|b: int|
                0 <= b < n && boxes[b].len() >= 2 && b < index ==> #[trigger] variance_and_axis_of(boxes[b]).0 < v
            &&& v >= 0 ==> 0 <= index < n && boxes[index].len() >= 2 && variance_and_axis_of(boxes[index]) == (v, axis)
        }),
    decreases n,
{
    lemma_widest_box(boxes, n);
    if n > 0 {
        law_widest_box_is_split(boxes, n - 1);
        if boxes[n - 1].len() >= 2 {
            lemma_box_variance_nonneg(boxes[n - 1]);
        }
    }
}

} // verus!
