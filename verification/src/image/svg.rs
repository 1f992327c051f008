//! Rasterizing SVG documents into images.
//!
//! Parsing and rendering are done by `resvg`; the library checks the sizes
//! it hands back and lays the rendered pixels out as an [`RgbaImage`].

use crate::error::Error;
use crate::image::{from_rgba_bytes, rgba_bytes_color, RgbaImage};
use resvg::usvg::Tree;
use vstd::prelude::*;

verus! {

/// The longest side, in pixels, an SVG document is rendered at.
pub const MAX_SVG_SIDE: u32 = 429_496_729;

#[verifier::external_type_specification]
#[verifier::external_body]
pub struct ExSvgTree(Tree);

/// Parses an SVG (or gzip-compressed SVGZ) document with
/// `resvg::usvg::Tree::from_data` and default options, turning a parse error
/// into its message. Nothing is stated of the outcome: besides the bytes it
/// depends on the image files that the document refers to, which the parser
/// reads from disk.
#[verifier::external_body]
fn parse_svg(data: &Vec<u8>) -> (r: Result<Tree, String>) {
    let options = resvg::usvg::Options::default();
    match Tree::from_data(data, &options) {
        Ok(tree) => Ok(tree),
        Err(e) => Err(e.to_string()),
    }
}

/// The document's size in whole pixels, from `Size::to_int_size`, which
/// rounds each side and makes it at least one pixel.
#[verifier::external_body]
fn svg_pixel_size(tree: &Tree) -> (r: (u32, u32))
    ensures
        r.0 >= 1,
        r.1 >= 1,
{
    let size = tree.size().to_int_size();
    (size.width(), size.height())
}

/// Renders the document with `resvg::render` onto a fresh transparent
/// `tiny_skia::Pixmap` of `width` x `height` pixels and hands out its RGBA
/// bytes. `Pixmap::new` refuses a zero side and a row of more than
/// `i32::MAX` bytes; otherwise the buffer holds four bytes per pixel. The
/// rendered colors are not stated. `resvg::render` builds a clipping
/// rectangle five times the pixmap's size and unwraps it, so neither side
/// may pass `i32::MAX / 5`.
#[verifier::external_body]
fn render_svg(tree: &Tree, width: u32, height: u32) -> (r: Option<Vec<u8>>)
    requires
        width * height * 4 <= isize::MAX,
        width <= MAX_SVG_SIDE,
        height <= MAX_SVG_SIDE,
    ensures
        r is Some <==> (width > 0 && height > 0 && width * 4 <= i32::MAX),
        r is Some ==> r.unwrap()@.len() == width * height * 4,
{
    let mut pixmap = resvg::tiny_skia::Pixmap::new(width, height)?;
    resvg::render(tree, resvg::tiny_skia::Transform::default(), &mut pixmap.as_mut());
    Some(pixmap.data().to_vec())
}

/// Lay out a rendered pixmap (`None` when no pixmap could be made) as an
/// image of `width` x `height` pixels.
pub fn image_from_pixmap(width: u32, height: u32, pixmap: Option<Vec<u8>>) -> (r: Result<RgbaImage, Error>)
    requires
        pixmap is Some ==> pixmap.unwrap()@.len() == width * height * 4,
        pixmap is Some ==> width * 4 <= usize::MAX,
        pixmap is Some ==> width * 4 * height <= usize::MAX,
    ensures
        pixmap is None ==> r matches Err(Error::ImageDecode(_)),
        pixmap is Some ==> r is Ok,
        r matches Ok(img) ==> {
            &&& img.wf()
            &&& img.width == width
            &&& img.height == height
            &&& forall|x: int, y: int|
                img.in_bounds(x, y) ==> #[trigger] img.pixel(x, y) == rgba_bytes_color(pixmap.unwrap()@, y * width + x)
        },
{
    match pixmap {
        None => Err(Error::ImageDecode("failed to allocate SVG pixmap".to_string())),
        Some(rgba) => {
            Ok(from_rgba_bytes(width, height, &rgba))
        },
    }
}

/// A document of `width` x `height` pixels can be rendered: neither side
/// is longer than [`MAX_SVG_SIDE`], a row fits in `i32::MAX` bytes and the
/// whole pixmap in `isize::MAX` bytes.
pub open spec fn svg_size_ok(width: u32, height: u32) -> bool {
    &&& width <= MAX_SVG_SIDE
    &&& height <= MAX_SVG_SIDE
    &&& width * 4 <= i32::MAX
    &&& width * 4 * height <= isize::MAX
}

/// Check that a document of `width` x `height` pixels can be rendered,
/// refusing it with [`Error::ImageDecode`] otherwise.
pub fn check_svg_size(width: u32, height: u32) -> (r: Result<(), Error>)
    ensures
        r is Ok <==> svg_size_ok(width, height),
        r matches Err(e) ==> e is ImageDecode,
{
    if width > MAX_SVG_SIDE || height > MAX_SVG_SIDE {
        return Err(Error::ImageDecode("SVG is too large to render".to_string()));
    }
    if width as u64 * 4 > i32::MAX as u64 {
        return Err(Error::ImageDecode("failed to allocate SVG pixmap".to_string()));
    }
    let row_bytes: u64 = width as u64 * 4;
    assert(row_bytes * height <= 0x7fff_ffff * 0xffff_ffff) by (nonlinear_arith)
        requires
            row_bytes <= 0x7fff_ffff,
            height <= 0xffff_ffff,
    ;
    if row_bytes * height as u64 > isize::MAX as u64 {
        return Err(Error::ImageDecode("failed to allocate SVG pixmap".to_string()));
    }
    Ok(())
}

/// Rasterize an SVG document at its own size.
///
/// Fails with [`Error::ImageDecode`] when the document does not parse, when
/// a side of it is longer than [`MAX_SVG_SIDE`] pixels (the renderer cannot
/// clip such a pixmap), or when no pixmap of its size can be made; the image
/// otherwise has the document's size and at least one pixel.
pub fn image_from_svg(data: &Vec<u8>) -> (r: Result<RgbaImage, Error>)
    ensures
        r matches Err(e) ==> e is ImageDecode,
        r matches Ok(img) ==> img.wf() && 1 <= img.width <= MAX_SVG_SIDE && 1 <= img.height <= MAX_SVG_SIDE,
        r matches Ok(img) ==> svg_size_ok(img.width, img.height),
{
    let tree = match parse_svg(data) {
        Ok(tree) => tree,
        Err(message) => return Err(Error::ImageDecode(message)),
    };
    let (width, height) = svg_pixel_size(&tree);
    check_svg_size(width, height)?;
    proof {
        assert(width * height * 4 == width * 4 * height) by (nonlinear_arith);
    }
    let pixmap = render_svg(&tree, width, height);
    image_from_pixmap(width, height, pixmap)
}

} // verus!
