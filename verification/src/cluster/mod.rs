//! Palette generation helpers and the integer palette algorithms.
//!
//! Palette algorithms work on a deterministic sample of the opaque pixels of
//! the image (see [`sample_colors`]); their palettes are padded with black or
//! truncated to exactly `color_count` entries ([`pad_or_truncate_palette`]).

use crate::color::{black_color, is_opaque, Color};
use crate::error::Error;
use crate::image::RgbaImage;
use crate::utils::{opaque_of, opaque_pixels, sample_pixels, sampled};
use vstd::prelude::*;

pub mod fixed;
pub mod hierarchy;
pub mod octree;
pub mod spatial;

verus! {

/// The pixels of an image in row-major order.
pub open spec fn image_colors(img: &RgbaImage) -> Seq<Color> {
    Seq::new((img.width * img.height) as nat, |k: int| img.pixel(k % (img.width as int), k / (img.width as int)))
}

/// `colors` cut to `count` entries, or padded with opaque black up to it.
pub open spec fn padded(colors: Seq<Color>, count: int) -> Seq<Color> {
    if colors.len() >= count {
        colors.take(count)
    } else {
        colors + Seq::new((count - colors.len()) as nat, |i: int| black_color())
    }
}

/// Pad a palette with black or truncate it to exactly `color_count` colors.
pub fn pad_or_truncate_palette(colors: &mut Vec<Color>, color_count: usize)
    ensures
        final(colors)@ == padded(old(colors)@, color_count as int),
{
    colors.truncate(color_count);
    let ghost kept = colors@;
    while colors.len() < color_count
        invariant
            kept == old(colors)@.take(if old(colors)@.len() >= color_count { color_count as int } else { old(colors)@.len() as int }),
            colors@.len() <= color_count || colors@ == kept,
            colors@.len() >= kept.len(),
            colors@.take(kept.len() as int) == kept,
            forall|i: int| kept.len() <= i < colors@.len() ==> #[trigger] colors@[i] == black_color(),
        decreases color_count - colors@.len(),
    {
        colors.push(Color::black());
    }
    proof {
        if old(colors)@.len() >= color_count {
            assert(colors@ == old(colors)@.take(color_count as int));
        } else {
            assert(kept == old(colors)@);
            assert(colors@ =~= padded(old(colors)@, color_count as int));
        }
    }
}

/// All opaque pixels (alpha at least 128) of an image, in row-major order.
pub fn collect_opaque(image: &RgbaImage) -> (v: Vec<Color>)
    requires
        image.wf(),
    ensures
        v@ == opaque_of(image_colors(image)),
{
    let all = image.iter_pixels();
    let mut colors: Vec<Color> = Vec::new();
    let mut i: usize = 0;
    while i < all.len()
        invariant
            i <= all@.len(),
            all@.len() == image.width * image.height,
            forall|k: int|
                #![trigger all@[k]]
                0 <= k < all@.len() ==> all@[k].2 == image.pixel(k % image.width as int, k / image.width as int),
            colors@ == image_colors(image).take(i as int),
        decreases all@.len() - i,
    {
        colors.push(all[i].2);
        proof {
            assert(colors@ =~= image_colors(image).take(i as int + 1));
        }
        i = i + 1;
    }
    proof {
        assert(colors@ =~= image_colors(image));
    }
    opaque_pixels(&colors)
}

/// Up to `max_samples` opaque pixels of an image, spread evenly.
pub fn sample_colors(image: &RgbaImage, max_samples: usize) -> (v: Vec<Color>)
    requires
        image.wf(),
        max_samples > 0,
    ensures
        v@ == sampled(opaque_of(image_colors(image)), max_samples as int),
        v@.len() <= max_samples,
{
    let pixels = collect_opaque(image);
    sample_pixels(pixels.as_slice(), max_samples)
}

/// `sum / count` rounded half up, as a channel value.
pub open spec fn rounded_mean(sum: int, count: int) -> int {
    (2 * sum + count) / (2 * count)
}

/// Sum of one channel over a list of colors.
pub open spec fn channel_sum(colors: Seq<Color>, channel: int) -> int
    decreases colors.len(),
{
    if colors.len() == 0 {
        0
    } else {
        channel_sum(colors.drop_last(), channel) + channel_of(colors.last(), channel)
    }
}

/// Channel `0` (red), `1` (green) or `2` (blue) of a color.
pub open spec fn channel_of(c: Color, channel: int) -> int {
    if channel == 0 {
        c.r as int
    } else if channel == 1 {
        c.g as int
    } else {
        c.b as int
    }
}

/// The opaque mean color of a non-empty list: every channel averaged and
/// rounded half up.
pub open spec fn mean_color_of(colors: Seq<Color>) -> Color {
    Color {
        r: rounded_mean(channel_sum(colors, 0), colors.len() as int) as u8,
        g: rounded_mean(channel_sum(colors, 1), colors.len() as int) as u8,
        b: rounded_mean(channel_sum(colors, 2), colors.len() as int) as u8,
        a: 255,
    }
}

proof fn lemma_channel_sum_bound(colors: Seq<Color>, channel: int)
    ensures
        0 <= channel_sum(colors, channel) <= 255 * colors.len(),
    decreases colors.len(),
{
    if colors.len() > 0 {
        lemma_channel_sum_bound(colors.drop_last(), channel);
    }
}

proof fn lemma_rounded_mean_bound(sum: int, count: int)
    requires
        count > 0,
        0 <= sum <= 255 * count,
    ensures
        0 <= rounded_mean(sum, count) <= 255,
{
    assert(0 <= (2 * sum + count) / (2 * count) <= 255) by (nonlinear_arith)
        requires
            count > 0,
            0 <= sum <= 255 * count,
    ;
}

/// The mean color of a non-empty list of colors, each channel rounded half up.
pub fn mean_color(pixels: &Vec<Color>) -> (c: Color)
    requires
        pixels@.len() > 0,
    ensures
        c == mean_color_of(pixels@),
{
    let _n = pixels.len();
    let mut sum_r: u128 = 0;
    let mut sum_g: u128 = 0;
    let mut sum_b: u128 = 0;
    let mut i: usize = 0;
    while i < pixels.len()
        invariant
            i <= pixels@.len(),
            pixels@.len() <= usize::MAX,
            sum_r == channel_sum(pixels@.take(i as int), 0),
            sum_g == channel_sum(pixels@.take(i as int), 1),
            sum_b == channel_sum(pixels@.take(i as int), 2),
        decreases pixels@.len() - i,
    {
        proof {
            lemma_channel_sum_bound(pixels@.take(i as int), 0);
            lemma_channel_sum_bound(pixels@.take(i as int), 1);
            lemma_channel_sum_bound(pixels@.take(i as int), 2);
            assert(pixels@.take(i as int + 1).drop_last() == pixels@.take(i as int));
        }
        let c = pixels[i];
        sum_r = sum_r + c.r as u128;
        sum_g = sum_g + c.g as u128;
        sum_b = sum_b + c.b as u128;
        i = i + 1;
    }
    proof {
        assert(pixels@.take(pixels@.len() as int) == pixels@);
        lemma_channel_sum_bound(pixels@, 0);
        lemma_channel_sum_bound(pixels@, 1);
        lemma_channel_sum_bound(pixels@, 2);
        lemma_rounded_mean_bound(sum_r as int, pixels@.len() as int);
        lemma_rounded_mean_bound(sum_g as int, pixels@.len() as int);
        lemma_rounded_mean_bound(sum_b as int, pixels@.len() as int);
    }
    let count = pixels.len() as u128;
    Color {
        r: ((2 * sum_r + count) / (2 * count)) as u8,
        g: ((2 * sum_g + count) / (2 * count)) as u8,
        b: ((2 * sum_b + count) / (2 * count)) as u8,
        a: 255,
    }
}

/// Check a requested palette size: generating a palette of no colors is
/// refused with [`Error::PaletteGeneration`].
pub fn check_color_count(color_count: usize) -> (r: Result<(), Error>)
    ensures
        color_count == 0 <==> r matches Err(Error::PaletteGeneration(_)),
        r matches Err(e) ==> e is PaletteGeneration,
{
    if color_count == 0 {
        Err(Error::PaletteGeneration("color_count must be > 0".to_string()))
    } else {
        Ok(())
    }
}

} // verus!
