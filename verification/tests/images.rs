use i2m_rs::image::transforms::{flip_horizontal, rotate_180, rotate_270, rotate_90, rotate_image};
use i2m_rs::resize::integral::{integral_image, summed_area_table};
use i2m_rs::resize::mode::mode_pooling;
use i2m_rs::resize::{box_filter, get_clamped, nearest_neighbor, resize_step, ResizeStep};
use i2m_rs::{Color, RgbaImage};

fn gradient(width: u32, height: u32) -> RgbaImage {
    let mut img = RgbaImage::new(width, height, Color::black());
    for y in 0..height {
        for x in 0..width {
            img.set(x, y, Color::new((x * 40) as u8, (y * 30) as u8, (x + y) as u8, 255 - (x as u8)));
        }
    }
    img
}

fn same_pixels(a: &RgbaImage, b: &RgbaImage) -> bool {
    a.width == b.width
        && a.height == b.height
        && (0..a.height).all(|y| (0..a.width).all(|x| a.get(x, y) == b.get(x, y)))
}

#[test]
fn get_returns_what_set_wrote() {
    let mut img = RgbaImage::new(3, 2, Color::black());
    img.set(2, 1, Color::new(1, 2, 3, 4));
    assert_eq!(img.get(2, 1), Color::new(1, 2, 3, 4));
    assert_eq!(img.get(1, 1), Color::black());
    assert_eq!(img.pixel_offset(2, 1), 20);
    assert!(img.is_in_bounds(2, 1));
    assert!(!img.is_in_bounds(3, 0));
    let pixels = img.iter_pixels();
    assert_eq!(pixels.len(), 6);
    assert_eq!(pixels[5], (2, 1, Color::new(1, 2, 3, 4)));
}

#[test]
fn rotations_compose() {
    let img = gradient(4, 3);
    let quarter = rotate_90(img.clone());
    assert_eq!((quarter.width, quarter.height), (3, 4));
    assert_eq!(quarter.get(0, 3), img.get(0, 0));
    assert_eq!(quarter.get(2, 0), img.get(3, 2));
    let back = rotate_270(quarter);
    assert!(same_pixels(&back, &img));
    let half = rotate_180(rotate_180(img.clone()));
    assert!(same_pixels(&half, &img));
    let twice = rotate_90(rotate_90(img.clone()));
    assert!(same_pixels(&twice, &rotate_180(img.clone())));
    let mirrored = flip_horizontal(flip_horizontal(img.clone()));
    assert!(same_pixels(&mirrored, &img));
    assert!(same_pixels(&rotate_image(img.clone(), -270), &rotate_90(img.clone())));
    assert!(same_pixels(&rotate_image(img.clone(), 720), &img));
    assert!(same_pixels(&rotate_image(img.clone(), 45), &img));
}

#[test]
fn flip_mirrors_columns() {
    let img = gradient(3, 2);
    let flipped = flip_horizontal(img.clone());
    assert_eq!(flipped.get(0, 1), img.get(2, 1));
}

#[test]
fn area_averages_uniform_color() {
    let img = RgbaImage::new(4, 4, Color::new(128, 64, 32, 255));
    let cols = vec![(0u32, 4u32)];
    let rows = vec![(0u32, 4u32)];
    let boxed = box_filter(&img, &cols, &rows);
    assert_eq!(boxed.get(0, 0), Color::new(128, 64, 32, 255));
    let integral = integral_image(&img, &cols, &rows);
    assert_eq!(integral.get(0, 0), Color::new(128, 64, 32, 255));
}

#[test]
fn integral_image_matches_box_filter() {
    let img = gradient(5, 4);
    let cols = vec![(0u32, 2u32), (2, 5), (1, 1), (4, 5)];
    let rows = vec![(0u32, 3u32), (3, 4), (0, 4)];
    let a = box_filter(&img, &cols, &rows);
    let b = integral_image(&img, &cols, &rows);
    assert!(same_pixels(&a, &b));
    assert_eq!(a.get(2, 0), Color::new(0, 0, 0, 0));
    // Columns 0..2, rows 0..3: red 0 and 40, green 0, 30, 60.
    assert_eq!(a.get(0, 0), Color::new(20, 30, 1, 254));
}

#[test]
fn summed_area_table_holds_prefix_sums() {
    let img = gradient(3, 2);
    let table = summed_area_table(&img, 0);
    assert_eq!(table.len(), 3);
    assert_eq!(table[0], vec![0, 0, 0, 0]);
    assert_eq!(table[2][3], 2 * (0 + 40 + 80));
}

#[test]
fn mode_pooling_picks_most_frequent_color() {
    let mut img = RgbaImage::new(3, 1, Color::new(1, 1, 1, 255));
    img.set(0, 0, Color::new(9, 9, 9, 255));
    let out = mode_pooling(&img, &vec![(0u32, 3u32), (0, 1), (1, 1)], &vec![(0u32, 1u32)]);
    assert_eq!(out.get(0, 0), Color::new(1, 1, 1, 255));
    assert_eq!(out.get(1, 0), Color::new(9, 9, 9, 255));
    assert_eq!(out.get(2, 0), Color::black());
}

#[test]
fn mode_pooling_breaks_ties_by_first_appearance() {
    let mut img = RgbaImage::new(2, 1, Color::new(1, 1, 1, 255));
    img.set(0, 0, Color::new(9, 9, 9, 255));
    let out = mode_pooling(&img, &vec![(0u32, 2u32)], &vec![(0u32, 1u32)]);
    assert_eq!(out.get(0, 0), Color::new(9, 9, 9, 255));
}

#[test]
fn nearest_neighbor_samples_given_pixels() {
    let img = gradient(4, 4);
    let out = nearest_neighbor(&img, &vec![3u32, 0], &vec![1u32]);
    assert_eq!((out.width, out.height), (2, 1));
    assert_eq!(out.get(0, 0), img.get(3, 1));
    assert_eq!(out.get(1, 0), img.get(0, 1));
}

#[test]
fn clamped_reads_stay_inside() {
    let img = gradient(3, 3);
    assert_eq!(get_clamped(&img, -5, 1), img.get(0, 1));
    assert_eq!(get_clamped(&img, 7, 9), img.get(2, 2));
    assert_eq!(get_clamped(&img, 1, 1), img.get(1, 1));
}

#[test]
fn svg_is_rasterized_at_its_own_size() {
    let svg = br#"<svg xmlns="http://www.w3.org/2000/svg" width="2" height="1"><rect x="0" y="0" width="1" height="1" fill="red"/></svg>"#;
    let img = i2m_rs::image::svg::image_from_svg(&svg.to_vec()).unwrap();
    assert_eq!((img.width, img.height), (2, 1));
    assert_eq!(img.get(0, 0), Color::new(255, 0, 0, 255));
    assert_eq!(img.get(1, 0), Color::new(0, 0, 0, 0));
}

#[test]
fn malformed_svg_is_a_decode_error() {
    let result = i2m_rs::image::svg::image_from_svg(&b"not an svg".to_vec());
    assert!(matches!(result, Err(i2m_rs::Error::ImageDecode(_))));
}

#[test]
fn pixmap_bytes_are_laid_out_as_pixels() {
    let img = i2m_rs::image::svg::image_from_pixmap(2, 1, Some(vec![1, 2, 3, 4, 5, 6, 7, 8])).unwrap();
    assert_eq!(img.get(0, 0), Color::new(1, 2, 3, 4));
    assert_eq!(img.get(1, 0), Color::new(5, 6, 7, 8));
    assert!(matches!(
        i2m_rs::image::svg::image_from_pixmap(2, 1, None),
        Err(i2m_rs::Error::ImageDecode(_))
    ));
}

#[test]
fn orient_rotates_then_mirrors() {
    let img = gradient(3, 2);
    let out = i2m_rs::image::transforms::orient(img.clone(), 450, true);
    assert_eq!((out.width, out.height), (2, 3));
    // A quarter turn sends (x, y) to (y, 2 - x); the mirror then to (1 - y, 2 - x).
    assert_eq!(out.get(1, 2), img.get(0, 0));
    assert_eq!(out.get(0, 0), img.get(2, 1));
    let same = i2m_rs::image::transforms::orient(img.clone(), -45, false);
    assert_eq!(same.pixels, img.pixels);
}

#[test]
fn resizing_keeps_same_size_and_refuses_zero_sides() {
    assert_eq!(resize_step(4, 4, 4, 4).unwrap(), ResizeStep::Keep);
    assert_eq!(resize_step(4, 4, 2, 2).unwrap(), ResizeStep::Resample);
    assert!(matches!(resize_step(4, 4, 0, 2), Err(i2m_rs::Error::Resize(_))));
    assert_eq!(resize_step(0, 0, 0, 0).unwrap(), ResizeStep::Keep);
}

fn png_bytes() -> Vec<u8> {
    let picture = image::RgbaImage::from_raw(2, 1, vec![10, 20, 30, 255, 200, 100, 50, 128]).unwrap();
    let mut out = std::io::Cursor::new(Vec::new());
    picture.write_to(&mut out, image::ImageFormat::Png).unwrap();
    out.into_inner()
}

#[test]
fn png_bytes_decode_to_their_pixels() {
    let img = i2m_rs::image::raster::image_from_raster(&png_bytes(), "PNG").unwrap();
    assert_eq!((img.width, img.height), (2, 1));
    assert_eq!(img.get(0, 0), Color::new(10, 20, 30, 255));
    assert_eq!(img.get(1, 0), Color::new(200, 100, 50, 128));
}

#[test]
fn undecodable_rasters_are_decode_errors() {
    let garbage = i2m_rs::image::raster::image_from_raster(&vec![1, 2, 3], "png");
    assert!(matches!(garbage, Err(i2m_rs::Error::ImageDecode(_))));
    let unknown = i2m_rs::image::raster::image_from_raster(&png_bytes(), "xyz");
    assert!(matches!(unknown, Err(i2m_rs::Error::ImageDecode(_))));
    let short = i2m_rs::image::raster::image_from_decoded(Ok((2, 2, vec![0; 8])));
    assert!(matches!(short, Err(i2m_rs::Error::ImageDecode(_))));
    match i2m_rs::image::raster::image_from_decoded(Err("broken".to_string())) {
        Err(i2m_rs::Error::ImageDecode(m)) => assert_eq!(m, "broken"),
        _ => panic!("expected a decode error"),
    }
}

#[test]
fn svg_sizes_beyond_the_renderer_are_refused() {
    use_check(1, 1, true);
    use_check(429_496_729, 1, true);
    use_check(429_496_730, 1, false);
    use_check(1, 500_000_000, false);
}

fn use_check(width: u32, height: u32, ok: bool) {
    let r = i2m_rs::image::svg::check_svg_size(width, height);
    assert_eq!(r.is_ok(), ok);
    if !ok {
        assert!(matches!(r, Err(i2m_rs::Error::ImageDecode(_))));
    }
}
