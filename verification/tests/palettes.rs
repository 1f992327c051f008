use i2m_rs::cluster::fixed::fixed_bit_palette;
use i2m_rs::cluster::spatial::{popularity, sort_by_channel, variance_split};
use i2m_rs::cluster::{check_color_count, collect_opaque, mean_color, pad_or_truncate_palette, sample_colors};
use i2m_rs::match_color::{find_nearest_rgb, unmatched_id, TRANSPARENT_ID};
use i2m_rs::utils::{clamp, sample_pixels};
use i2m_rs::{Color, Palette, RgbaImage};

fn red() -> Color {
    Color::new(255, 0, 0, 255)
}

fn blue() -> Color {
    Color::new(0, 0, 255, 255)
}

fn halves() -> RgbaImage {
    let mut img = RgbaImage::new(8, 8, red());
    for y in 0..8 {
        for x in 4..8 {
            img.set(x, y, blue());
        }
    }
    img
}

#[test]
fn popularity_finds_both_halves() {
    let palette = popularity(&halves(), 2);
    assert_eq!(palette.colors.len(), 2);
    assert!(palette.colors.contains(&red()));
    assert!(palette.colors.contains(&blue()));
}

#[test]
fn popularity_orders_by_frequency_and_pads_with_black() {
    let mut img = RgbaImage::new(4, 1, Color::new(10, 20, 30, 200));
    img.set(3, 0, Color::new(1, 2, 3, 255));
    let palette = popularity(&img, 3);
    assert_eq!(
        palette.colors,
        vec![Color::new(10, 20, 30, 255), Color::new(1, 2, 3, 255), Color::new(0, 0, 0, 255)]
    );
}

#[test]
fn palettes_of_a_transparent_image_are_black() {
    let img = RgbaImage::new(3, 3, Color::new(9, 9, 9, 0));
    assert_eq!(popularity(&img, 4).colors, vec![Color::black(); 4]);
    assert_eq!(variance_split(&img, 0).colors, vec![Color::black(); 1]);
}

#[test]
fn variance_split_separates_two_colors() {
    let palette = variance_split(&halves(), 2);
    assert_eq!(palette.colors.len(), 2);
    assert!(palette.colors.contains(&red()));
    assert!(palette.colors.contains(&blue()));
}

#[test]
fn variance_split_repeats_the_first_mean_when_short() {
    let img = RgbaImage::new(1, 1, Color::new(7, 8, 9, 255));
    let palette = variance_split(&img, 3);
    assert_eq!(palette.colors, vec![Color::new(7, 8, 9, 255); 3]);
}

#[test]
fn sort_by_channel_is_stable() {
    let colors = vec![Color::new(5, 1, 0, 255), Color::new(2, 2, 0, 255), Color::new(5, 0, 0, 255)];
    let sorted = sort_by_channel(&colors, 0);
    assert_eq!(sorted, vec![Color::new(2, 2, 0, 255), Color::new(5, 1, 0, 255), Color::new(5, 0, 0, 255)]);
}

#[test]
fn mean_color_rounds_half_up() {
    let colors = vec![Color::new(0, 0, 1, 255), Color::new(1, 3, 2, 0)];
    assert_eq!(mean_color(&colors), Color::new(1, 2, 2, 255));
}

#[test]
fn pad_or_truncate_gives_exact_size() {
    let mut colors = vec![red(), blue(), red()];
    pad_or_truncate_palette(&mut colors, 2);
    assert_eq!(colors, vec![red(), blue()]);
    pad_or_truncate_palette(&mut colors, 4);
    assert_eq!(colors, vec![red(), blue(), Color::black(), Color::black()]);
    let again = colors.clone();
    pad_or_truncate_palette(&mut colors, 4);
    assert_eq!(colors, again);
}

#[test]
fn fixed_palettes() {
    let two = fixed_bit_palette(2, false);
    assert_eq!(two.colors, vec![Color::new(0, 0, 0, 255), Color::new(255, 255, 255, 255)]);
    let gray = fixed_bit_palette(3, true);
    assert_eq!(gray.colors, vec![Color::new(0, 0, 0, 255), Color::new(127, 127, 127, 255), Color::new(255, 255, 255, 255)]);
    assert_eq!(fixed_bit_palette(16, false).colors.len(), 16);
    assert_eq!(fixed_bit_palette(64, false).colors.len(), 64);
    assert_eq!(fixed_bit_palette(0, false).colors.len(), 0);
}

#[test]
fn sampling_keeps_opaque_pixels_evenly() {
    let pixels: Vec<Color> = (0..10u8).map(|i| Color::new(i, 0, 0, if i == 3 { 0 } else { 255 })).collect();
    let all = sample_pixels(&pixels, 20);
    assert_eq!(all.len(), 9);
    assert!(all.iter().all(|c| c.a >= 128));
    let some = sample_pixels(&pixels, 4);
    assert_eq!(some.iter().map(|c| c.r).collect::<Vec<_>>(), vec![0, 2, 5, 7]);
}

#[test]
fn opaque_collection_and_samples() {
    let mut img = RgbaImage::new(2, 2, red());
    img.set(1, 1, Color::new(0, 0, 0, 127));
    assert_eq!(collect_opaque(&img).len(), 3);
    assert_eq!(sample_colors(&img, 2).len(), 2);
}

#[test]
fn nearest_rgb_selects_correct_index() {
    let palette = i2m_rs::Palette::new(vec![red(), Color::new(0, 255, 0, 255)]);
    assert_eq!(find_nearest_rgb(Color::new(200, 0, 0, 255), &palette), 0);
    assert_eq!(find_nearest_rgb(Color::new(10, 200, 0, 255), &palette), 1);
    assert_eq!(find_nearest_rgb(red(), &i2m_rs::Palette::new(Vec::new())), 0);
    assert!(TRANSPARENT_ID < 0);
}

#[test]
fn clamp_limits_values() {
    assert_eq!(clamp(5, 0, 3), 3);
    assert_eq!(clamp(-1, 0, 3), 0);
    assert_eq!(clamp(2, 0, 3), 2);
}

#[test]
fn octree_separates_two_colors() {
    let palette = i2m_rs::cluster::octree::octree(&halves(), 2);
    assert_eq!(palette.colors.len(), 2);
    assert!(palette.colors.contains(&red()));
    assert!(palette.colors.contains(&blue()));
}

#[test]
fn octree_merges_close_colors_into_their_average() {
    // Two colors that differ only in their lowest bit share a leaf.
    let mut img = RgbaImage::new(2, 1, Color::new(100, 100, 100, 255));
    img.set(1, 0, Color::new(101, 101, 101, 255));
    let palette = i2m_rs::cluster::octree::octree(&img, 1);
    assert_eq!(palette.colors, vec![Color::new(100, 100, 100, 255)]);
    // One leaf, padded with copies of its color.
    let padded = i2m_rs::cluster::octree::octree(&img, 3);
    assert_eq!(padded.colors, vec![Color::new(100, 100, 100, 255); 3]);
}

#[test]
fn octree_reduces_to_the_requested_size() {
    let mut img = RgbaImage::new(4, 1, Color::new(0, 0, 0, 255));
    img.set(1, 0, Color::new(0, 0, 8, 255));
    img.set(2, 0, Color::new(255, 255, 255, 255));
    img.set(3, 0, Color::new(255, 255, 247, 255));
    let palette = i2m_rs::cluster::octree::octree(&img, 2);
    // The two last-listed leaves fold into their parents, which come first.
    assert_eq!(palette.colors, vec![Color::new(255, 255, 247, 255), Color::new(255, 255, 255, 255)]);
    let empty = RgbaImage::new(2, 2, Color::new(1, 2, 3, 0));
    assert_eq!(i2m_rs::cluster::octree::octree(&empty, 0).colors, vec![Color::black()]);
}

#[test]
fn hierarchical_separates_two_colors() {
    let palette = i2m_rs::cluster::hierarchy::hierarchical(&halves(), 2);
    assert_eq!(palette.colors, vec![red(), blue()]);
}

#[test]
fn hierarchical_merges_closest_pairs_first() {
    let mut img = RgbaImage::new(4, 1, Color::new(0, 0, 0, 255));
    img.set(1, 0, Color::new(2, 0, 0, 255));
    img.set(2, 0, Color::new(200, 0, 0, 255));
    img.set(3, 0, Color::new(203, 0, 0, 255));
    let palette = i2m_rs::cluster::hierarchy::hierarchical(&img, 2);
    assert_eq!(palette.colors, vec![Color::new(1, 0, 0, 255), Color::new(202, 0, 0, 255)]);
    let three = i2m_rs::cluster::hierarchy::hierarchical(&img, 3);
    assert_eq!(three.colors, vec![Color::new(1, 0, 0, 255), Color::new(200, 0, 0, 255), Color::new(203, 0, 0, 255)]);
}

#[test]
fn hierarchical_with_few_pixels_repeats_them() {
    let mut img = RgbaImage::new(2, 1, red());
    img.set(1, 0, blue());
    let palette = i2m_rs::cluster::hierarchy::hierarchical(&img, 4);
    assert_eq!(palette.colors, vec![red(), blue(), red(), red()]);
    let empty = RgbaImage::new(1, 1, Color::new(0, 0, 0, 0));
    assert_eq!(i2m_rs::cluster::hierarchy::hierarchical(&empty, 2).colors, vec![Color::black(); 2]);
}

#[test]
fn hierarchical_keeps_the_larger_index_of_a_fresh_pair() {
    let mut img = RgbaImage::new(3, 1, Color::new(0, 0, 0, 255));
    img.set(1, 0, Color::new(200, 0, 0, 255));
    img.set(2, 0, Color::new(10, 0, 0, 255));
    let palette = i2m_rs::cluster::hierarchy::hierarchical(&img, 2);
    assert_eq!(palette.colors, vec![Color::new(200, 0, 0, 255), Color::new(5, 0, 0, 255)]);
}

#[test]
fn transparent_pixels_and_empty_palettes_need_no_matching() {
    let palette = Palette::new(vec![Color::new(255, 0, 0, 255)]);
    assert_eq!(unmatched_id(Color::new(255, 0, 0, 0), &palette), Some(TRANSPARENT_ID));
    assert_eq!(unmatched_id(Color::new(255, 0, 0, 127), &palette), Some(TRANSPARENT_ID));
    assert_eq!(unmatched_id(Color::new(255, 0, 0, 128), &palette), None);
    assert_eq!(unmatched_id(Color::new(255, 0, 0, 255), &Palette::new(vec![])), Some(TRANSPARENT_ID));
}

#[test]
fn palettes_of_no_colors_are_refused() {
    assert!(matches!(check_color_count(0), Err(i2m_rs::Error::PaletteGeneration(_))));
    assert!(check_color_count(3).is_ok());
}
