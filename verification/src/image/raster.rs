//! Decoding raster image files (PNG, JPEG, BMP, GIF, WebP, ...) into images.
//!
//! The `image` crate decodes the bytes; the library checks the size of what
//! it hands back and lays the pixels out as an [`RgbaImage`].

use crate::error::Error;
use crate::image::{from_rgba_bytes, rgba_bytes_color, RgbaImage};
use vstd::prelude::*;

verus! {

/// What the `image` crate makes of the bytes of a file with the given
/// extension: width, height and R, G, B, A bytes, or its error message.
pub uninterp spec fn decoded_raster(data: Seq<u8>, extension: Seq<char>) -> Result<(u32, u32, Seq<u8>), Seq<char>>;

/// A decoding result as plain values.
pub open spec fn raster_view(r: Result<(u32, u32, Vec<u8>), String>) -> Result<(u32, u32, Seq<u8>), Seq<char>> {
    match r {
        Ok((w, h, px)) => Ok((w, h, px@)),
        Err(m) => Err(m@),
    }
}

/// Decodes `data` with `image::load_from_memory_with_format`, the format
/// chosen by `image::ImageFormat::from_extension` (an unknown extension is
/// the crate's own "unsupported" error), and converts the picture with
/// `DynamicImage::to_rgba8`. The result depends on the bytes and the
/// extension alone.
#[verifier::external_body]
fn decode_raster(data: &Vec<u8>, extension: &str) -> (r: Result<(u32, u32, Vec<u8>), String>)
    ensures
        raster_view(r) == decoded_raster(data@, extension@),
{
    let decoded = match ::image::ImageFormat::from_extension(extension) {
        Some(format) => ::image::load_from_memory_with_format(data, format),
        None => Err(::image::ImageError::Unsupported(
            ::image::error::ImageFormatHint::PathExtension(extension.into()).into(),
        )),
    };
    match decoded {
        Ok(picture) => {
            let rgba = picture.to_rgba8();
            Ok((rgba.width(), rgba.height(), rgba.into_raw()))
        },
        Err(e) => Err(e.to_string()),
    }
}

/// A buffer of `len` bytes holds an image of `width` x `height` pixels,
/// four bytes each, and such an image can be addressed.
pub open spec fn raster_fits(width: u32, height: u32, len: int) -> bool {
    &&& len == width * height * 4
    &&& width * 4 <= usize::MAX
    &&& width * 4 * height <= usize::MAX
}

/// `img` is the picture of `width` x `height` pixels given row by row in
/// R, G, B, A byte order by `rgba`.
pub open spec fn laid_out(img: &RgbaImage, width: u32, height: u32, rgba: Seq<u8>) -> bool {
    &&& img.wf()
    &&& img.width == width
    &&& img.height == height
    &&& forall|x: int, y: int| img.in_bounds(x, y) ==> #[trigger] img.pixel(x, y) == rgba_bytes_color(rgba, y * width + x)
}

/// Turn a decoding result into an image: a decoding error becomes
/// [`Error::ImageDecode`] with the same message, a buffer that does not
/// hold the stated number of pixels is refused the same way, and the
/// pixels are laid out otherwise.
pub fn image_from_decoded(decoded: Result<(u32, u32, Vec<u8>), String>) -> (r: Result<RgbaImage, Error>)
    ensures
        decoded matches Err(m) ==> r matches Err(Error::ImageDecode(s)) && s@ == m@,
        decoded matches Ok((w, h, px)) ==> (r is Ok <==> raster_fits(w, h, px@.len() as int)),
        decoded matches Ok((w, h, px)) ==> (r matches Ok(img) ==> laid_out(&img, w, h, px@)),
        r matches Err(e) ==> e is ImageDecode,
{
    match decoded {
        Err(message) => Err(Error::ImageDecode(message)),
        Ok((width, height, rgba)) => {
            proof {
                assert(width * height * 4 == width * 4 * height) by (nonlinear_arith);
            }
            let fits = match (width as usize).checked_mul(4) {
                None => false,
                Some(stride) => match stride.checked_mul(height as usize) {
                    None => false,
                    Some(len) => len == rgba.len(),
                },
            };
            if !fits {
                return Err(Error::ImageDecode("decoded pixel buffer has an unexpected size".to_string()));
            }
            proof {
                assert(width * height * 4 == width * 4 * height) by (nonlinear_arith);
            }
            Ok(from_rgba_bytes(width, height, &rgba))
        },
    }
}

/// Decode the bytes of a raster image file whose extension is `extension`.
///
/// Fails with [`Error::ImageDecode`] carrying the decoder's message when
/// the bytes do not decode (or the extension names no supported format),
/// and when the decoded buffer cannot hold or address the picture.
pub fn image_from_raster(data: &Vec<u8>, extension: &str) -> (r: Result<RgbaImage, Error>)
    ensures
        decoded_raster(data@, extension@) matches Err(m) ==> r matches Err(Error::ImageDecode(s)) && s@ == m,
        decoded_raster(data@, extension@) matches Ok((w, h, px)) ==> (r is Ok <==> raster_fits(w, h, px.len() as int)),
        r matches Ok(img) ==> decoded_raster(data@, extension@) matches Ok((w, h, px)) && laid_out(&img, w, h, px),
        r matches Err(e) ==> e is ImageDecode,
{
    let decoded = decode_raster(data, extension);
    image_from_decoded(decoded)
}

} // verus!
