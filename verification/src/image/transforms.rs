//! Geometric transforms: rotations by multiples of 90 degrees and
//! horizontal mirroring.

use crate::color::Color;
use crate::image::{lemma_in_buffer, lemma_set_pixel, RgbaImage};
use vstd::prelude::*;

verus! {

/// `out` is `img` turned a quarter turn clockwise.
pub open spec fn rotated_90(img: &RgbaImage, out: &RgbaImage) -> bool {
    &&& out.wf()
    &&& out.width == img.height
    &&& out.height == img.width
    &&& forall|x: int, y: int| img.in_bounds(x, y) ==> #[trigger] img.pixel(x, y) == out.pixel(y, img.width - 1 - x)
}

/// `out` is `img` turned half a turn.
pub open spec fn rotated_180(img: &RgbaImage, out: &RgbaImage) -> bool {
    &&& out.wf()
    &&& out.width == img.width
    &&& out.height == img.height
    &&& forall|x: int, y: int| img.in_bounds(x, y) ==> #[trigger] img.pixel(x, y) == out.pixel(img.width - 1 - x, img.height - 1 - y)
}

/// `out` is `img` turned a quarter turn counter-clockwise.
pub open spec fn rotated_270(img: &RgbaImage, out: &RgbaImage) -> bool {
    &&& out.wf()
    &&& out.width == img.height
    &&& out.height == img.width
    &&& forall|x: int, y: int| img.in_bounds(x, y) ==> #[trigger] img.pixel(x, y) == out.pixel(img.height - 1 - y, x)
}

/// `out` is `img` mirrored left to right.
pub open spec fn flipped(img: &RgbaImage, out: &RgbaImage) -> bool {
    &&& out.wf()
    &&& out.width == img.width
    &&& out.height == img.height
    &&& forall|x: int, y: int| img.in_bounds(x, y) ==> #[trigger] img.pixel(x, y) == out.pixel(img.width - 1 - x, y)
}

/// The rotation in degrees, brought into `0..360`.
pub open spec fn normalized_rotation(rotation: i32) -> int {
    (rotation as int) % 360
}

/// What rotating `img` by `rotation` degrees yields: multiples of 90 rotate,
/// every other angle leaves the image as it is.
pub open spec fn rotated_by(img: &RgbaImage, out: &RgbaImage, rotation: i32) -> bool {
    if normalized_rotation(rotation) == 90 {
        rotated_90(img, out)
    } else if normalized_rotation(rotation) == 180 {
        rotated_180(img, out)
    } else if normalized_rotation(rotation) == 270 {
        rotated_270(img, out)
    } else {
        out.wf() && img.same_picture(out)
    }
}

/// The requirements every transform places on its input: a consistent
/// buffer whose turned version still fits in memory.
pub open spec fn transformable(img: &RgbaImage) -> bool {
    &&& img.wf()
    &&& img.width * 4 <= usize::MAX
    &&& img.height * 4 <= usize::MAX
}

/// Turn an image a quarter turn clockwise.
pub fn rotate_90(image: RgbaImage) -> (out: RgbaImage)
    requires
        transformable(&image),
    ensures
        rotated_90(&image, &out),
{
    let old_w = image.width;
    let old_h = image.height;
    let _len = image.pixels.len();
    proof {
        assert(old_h * 4 * old_w == old_w * 4 * old_h) by (nonlinear_arith);
        assert(old_h * (old_w * 4) == old_w * 4 * old_h) by (nonlinear_arith);
    }
    let mut out = RgbaImage::new(old_h, old_w, Color::black());
    let mut y: u32 = 0;
    while y < old_h
        invariant
            transformable(&image),
            old_w == image.width,
            old_h == image.height,
            out.wf(),
            out.width == old_h,
            out.height == old_w,
            y <= old_h,
            forall|xx: int, yy: int|
                0 <= xx < old_w && 0 <= yy < y ==> #[trigger] image.pixel(xx, yy) == out.pixel(yy, old_w - 1 - xx),
        decreases old_h - y,
    {
        let mut x: u32 = 0;
        while x < old_w
            invariant
                transformable(&image),
                old_w == image.width,
                old_h == image.height,
                out.wf(),
                out.width == old_h,
                out.height == old_w,
                y < old_h,
                x <= old_w,
                forall|xx: int, yy: int|
                    0 <= xx < old_w && 0 <= yy < y ==> #[trigger] image.pixel(xx, yy) == out.pixel(yy, old_w - 1 - xx),
                forall|xx: int| 0 <= xx < x ==> #[trigger] image.pixel(xx, y as int) == out.pixel(y as int, old_w - 1 - xx),
            decreases old_w - x,
        {
            proof {
                lemma_in_buffer(&image, x as int, y as int);
                lemma_in_buffer(&out, y as int, old_w - 1 - x);
            }
            let color = image.get(x, y);
            let ghost before = out;
            out.set(y, old_w - 1 - x, color);
            proof {
                lemma_set_pixel(&before, &out, y as int, old_w - 1 - x, color);
            }
            x = x + 1;
        }
        y = y + 1;
    }
    out
}

/// Turn an image half a turn.
pub fn rotate_180(image: RgbaImage) -> (out: RgbaImage)
    requires
        transformable(&image),
    ensures
        rotated_180(&image, &out),
{
    let w = image.width;
    let h = image.height;
    let _len = image.pixels.len();
    proof {
        assert(h * (w * 4) == w * 4 * h) by (nonlinear_arith);
    }
    let mut out = RgbaImage::new(w, h, Color::black());
    let mut y: u32 = 0;
    while y < h
        invariant
            transformable(&image),
            w == image.width,
            h == image.height,
            out.wf(),
            out.width == w,
            out.height == h,
            y <= h,
            forall|xx: int, yy: int|
                0 <= xx < w && 0 <= yy < y ==> #[trigger] image.pixel(xx, yy) == out.pixel(w - 1 - xx, h - 1 - yy),
        decreases h - y,
    {
        let mut x: u32 = 0;
        while x < w
            invariant
                transformable(&image),
                w == image.width,
                h == image.height,
                out.wf(),
                out.width == w,
                out.height == h,
                y < h,
                x <= w,
                forall|xx: int, yy: int|
                    0 <= xx < w && 0 <= yy < y ==> #[trigger] image.pixel(xx, yy) == out.pixel(w - 1 - xx, h - 1 - yy),
                forall|xx: int| 0 <= xx < x ==> #[trigger] image.pixel(xx, y as int) == out.pixel(w - 1 - xx, h - 1 - y),
            decreases w - x,
        {
            proof {
                lemma_in_buffer(&image, x as int, y as int);
                lemma_in_buffer(&out, w - 1 - x, h - 1 - y);
            }
            let color = image.get(x, y);
            let ghost before = out;
            out.set(w - 1 - x, h - 1 - y, color);
            proof {
                lemma_set_pixel(&before, &out, w - 1 - x, h - 1 - y, color);
            }
            x = x + 1;
        }
        y = y + 1;
    }
    out
}

/// Turn an image a quarter turn counter-clockwise.
pub fn rotate_270(image: RgbaImage) -> (out: RgbaImage)
    requires
        transformable(&image),
    ensures
        rotated_270(&image, &out),
{
    let old_w = image.width;
    let old_h = image.height;
    let _len = image.pixels.len();
    proof {
        assert(old_h * 4 * old_w == old_w * 4 * old_h) by (nonlinear_arith);
        assert(old_h * (old_w * 4) == old_w * 4 * old_h) by (nonlinear_arith);
    }
    let mut out = RgbaImage::new(old_h, old_w, Color::black());
    let mut y: u32 = 0;
    while y < old_h
        invariant
            transformable(&image),
            old_w == image.width,
            old_h == image.height,
            out.wf(),
            out.width == old_h,
            out.height == old_w,
            y <= old_h,
            forall|xx: int, yy: int|
                0 <= xx < old_w && 0 <= yy < y ==> #[trigger] image.pixel(xx, yy) == out.pixel(old_h - 1 - yy, xx),
        decreases old_h - y,
    {
        let mut x: u32 = 0;
        while x < old_w
            invariant
                transformable(&image),
                old_w == image.width,
                old_h == image.height,
                out.wf(),
                out.width == old_h,
                out.height == old_w,
                y < old_h,
                x <= old_w,
                forall|xx: int, yy: int|
                    0 <= xx < old_w && 0 <= yy < y ==> #[trigger] image.pixel(xx, yy) == out.pixel(old_h - 1 - yy, xx),
                forall|xx: int| 0 <= xx < x ==> #[trigger] image.pixel(xx, y as int) == out.pixel(old_h - 1 - y, xx),
            decreases old_w - x,
        {
            proof {
                lemma_in_buffer(&image, x as int, y as int);
                lemma_in_buffer(&out, old_h - 1 - y, x as int);
            }
            let color = image.get(x, y);
            let ghost before = out;
            out.set(old_h - 1 - y, x, color);
            proof {
                lemma_set_pixel(&before, &out, old_h - 1 - y, x as int, color);
            }
            x = x + 1;
        }
        y = y + 1;
    }
    out
}

/// Mirror an image left to right.
pub fn flip_horizontal(image: RgbaImage) -> (out: RgbaImage)
    requires
        transformable(&image),
    ensures
        flipped(&image, &out),
{
    let w = image.width;
    let h = image.height;
    let _len = image.pixels.len();
    proof {
        assert(h * (w * 4) == w * 4 * h) by (nonlinear_arith);
    }
    let mut out = RgbaImage::new(w, h, Color::black());
    let mut y: u32 = 0;
    while y < h
        invariant
            transformable(&image),
            w == image.width,
            h == image.height,
            out.wf(),
            out.width == w,
            out.height == h,
            y <= h,
            forall|xx: int, yy: int|
                0 <= xx < w && 0 <= yy < y ==> #[trigger] image.pixel(xx, yy) == out.pixel(w - 1 - xx, yy),
        decreases h - y,
    {
        let mut x: u32 = 0;
        while x < w
            invariant
                transformable(&image),
                w == image.width,
                h == image.height,
                out.wf(),
                out.width == w,
                out.height == h,
                y < h,
                x <= w,
                forall|xx: int, yy: int|
                    0 <= xx < w && 0 <= yy < y ==> #[trigger] image.pixel(xx, yy) == out.pixel(w - 1 - xx, yy),
                forall|xx: int| 0 <= xx < x ==> #[trigger] image.pixel(xx, y as int) == out.pixel(w - 1 - xx, y as int),
            decreases w - x,
        {
            proof {
                lemma_in_buffer(&image, x as int, y as int);
                lemma_in_buffer(&out, w - 1 - x, y as int);
            }
            let color = image.get(x, y);
            let ghost before = out;
            out.set(w - 1 - x, y, color);
            proof {
                lemma_set_pixel(&before, &out, w - 1 - x, y as int, color);
            }
            x = x + 1;
        }
        y = y + 1;
    }
    out
}

/// The Euclidean remainder of `rotation` by 360.
fn euclid_rem_360(rotation: i32) -> (r: i32)
    ensures
        r == normalized_rotation(rotation),
{
    let t = rotation % 360;
    if t < 0 {
        t + 360
    } else {
        t
    }
}

/// Rotate by `rotation` degrees; only multiples of 90 (after bringing the
/// angle into `0..360`) have an effect.
pub fn rotate_image(image: RgbaImage, rotation: i32) -> (out: RgbaImage)
    requires
        transformable(&image),
    ensures
        rotated_by(&image, &out, rotation),
{
    let normalized = euclid_rem_360(rotation);
    if normalized == 90 {
        rotate_90(image)
    } else if normalized == 180 {
        rotate_180(image)
    } else if normalized == 270 {
        rotate_270(image)
    } else {
        image
    }
}

/// A quarter turn clockwise followed by a quarter turn counter-clockwise
/// gives the same picture back.
pub proof fn law_rotate_90_then_270(img: &RgbaImage, a: &RgbaImage, b: &RgbaImage)
    requires
        img.wf(),
        rotated_90(img, a),
        rotated_270(a, b),
    ensures
        b.same_picture(img),
{
    assert forall|x: int, y: int| b.in_bounds(x, y) implies #[trigger] b.pixel(x, y) == img.pixel(x, y) by {
        assert(img.pixel(x, y) == a.pixel(y, img.width - 1 - x));
        assert(a.in_bounds(y, img.width - 1 - x));
        assert(a.pixel(y, img.width - 1 - x) == b.pixel(a.height - 1 - (img.width - 1 - x), y));
    }
}

/// A quarter turn counter-clockwise followed by a quarter turn clockwise
/// gives the same picture back.
pub proof fn law_rotate_270_then_90(img: &RgbaImage, a: &RgbaImage, b: &RgbaImage)
    requires
        img.wf(),
        rotated_270(img, a),
        rotated_90(a, b),
    ensures
        b.same_picture(img),
{
    assert forall|x: int, y: int| b.in_bounds(x, y) implies #[trigger] b.pixel(x, y) == img.pixel(x, y) by {
        assert(img.pixel(x, y) == a.pixel(img.height - 1 - y, x));
        assert(a.in_bounds(img.height - 1 - y, x));
        assert(a.pixel(img.height - 1 - y, x) == b.pixel(x, a.width - 1 - (img.height - 1 - y)));
    }
}

/// Two quarter turns clockwise make a half turn.
pub proof fn law_rotate_90_twice(img: &RgbaImage, a: &RgbaImage, b: &RgbaImage)
    requires
        img.wf(),
        rotated_90(img, a),
        rotated_90(a, b),
    ensures
        rotated_180(img, b),
{
    assert forall|x: int, y: int| img.in_bounds(x, y) implies #[trigger] img.pixel(x, y) == b.pixel(img.width - 1 - x, img.height - 1 - y) by {
        assert(img.pixel(x, y) == a.pixel(y, img.width - 1 - x));
        assert(a.in_bounds(y, img.width - 1 - x));
        assert(a.pixel(y, img.width - 1 - x) == b.pixel(img.width - 1 - x, a.width - 1 - y));
    }
}

/// Turning half a turn twice gives the same picture back.
pub proof fn law_rotate_180_twice(img: &RgbaImage, a: &RgbaImage, b: &RgbaImage)
    requires
        img.wf(),
        rotated_180(img, a),
        rotated_180(a, b),
    ensures
        b.same_picture(img),
{
    assert forall|x: int, y: int| b.in_bounds(x, y) implies #[trigger] b.pixel(x, y) == img.pixel(x, y) by {
        assert(img.pixel(x, y) == a.pixel(img.width - 1 - x, img.height - 1 - y));
        assert(a.in_bounds(img.width - 1 - x, img.height - 1 - y));
    }
}

/// Mirroring twice gives the same picture back.
pub proof fn law_flip_twice(img: &RgbaImage, a: &RgbaImage, b: &RgbaImage)
    requires
        img.wf(),
        flipped(img, a),
        flipped(a, b),
    ensures
        b.same_picture(img),
{
    assert forall|x: int, y: int| b.in_bounds(x, y) implies #[trigger] b.pixel(x, y) == img.pixel(x, y) by {
        assert(img.pixel(x, y) == a.pixel(img.width - 1 - x, y));
        assert(a.in_bounds(img.width - 1 - x, y));
    }
}

/// Rotation angles that differ by a whole number of turns rotate alike.
pub proof fn law_rotation_full_turn(img: &RgbaImage, out: &RgbaImage, rotation: i32)
    requires
        rotation as int + 360 <= i32::MAX,
    ensures
        rotated_by(img, out, rotation) == rotated_by(img, out, (rotation + 360) as i32),
{
    assert(normalized_rotation(rotation) == normalized_rotation((rotation + 360) as i32));
}

/// Where rotating an image of `w` x `h` pixels by `r` degrees (already in
/// `0..360`) moves pixel `(x, y)`.
pub open spec fn rotation_target(w: int, h: int, r: int, x: int, y: int) -> (int, int) {
    if r == 90 {
        (y, w - 1 - x)
    } else if r == 180 {
        (w - 1 - x, h - 1 - y)
    } else if r == 270 {
        (h - 1 - y, x)
    } else {
        (x, y)
    }
}

/// `out` is `img` rotated by `rotation` degrees and then, if `flip`,
/// mirrored left to right: every pixel of `img` lands where the two moves
/// take it, and a quarter or three-quarter turn swaps the sides.
pub open spec fn oriented(img: &RgbaImage, out: &RgbaImage, rotation: i32, flip: bool) -> bool {
    let r = normalized_rotation(rotation);
    let turned = r == 90 || r == 270;
    &&& out.wf()
    &&& out.width == if turned { img.height } else { img.width }
    &&& out.height == if turned { img.width } else { img.height }
    &&& forall|x: int, y: int|
        img.in_bounds(x, y) ==> #[trigger] img.pixel(x, y) == out.pixel(
            if flip {
                out.width - 1 - rotation_target(img.width as int, img.height as int, r, x, y).0
            } else {
                rotation_target(img.width as int, img.height as int, r, x, y).0
            },
            rotation_target(img.width as int, img.height as int, r, x, y).1,
        )
}

/// The geometric part of pre-processing an image: rotate by `rotation`
/// degrees (brought into `0..360`; only multiples of 90 act), then mirror
/// left to right if `flip`.
pub fn orient(image: RgbaImage, rotation: i32, flip: bool) -> (out: RgbaImage)
    requires
        transformable(&image),
    ensures
        oriented(&image, &out, rotation, flip),
{
    let ghost img = image;
    let rotated = rotate_image(image, rotation);
    let ghost r = normalized_rotation(rotation);
    proof {
        assert forall|x: int, y: int| img.in_bounds(x, y) implies {
            let t = rotation_target(img.width as int, img.height as int, r, x, y);
            &&& rotated.in_bounds(t.0, t.1)
            &&& #[trigger] img.pixel(x, y) == rotated.pixel(t.0, t.1)
        } by {
            if r == 90 {
            } else if r == 180 {
            } else if r == 270 {
            } else {
            }
        }
    }
    if flip {
        let out = flip_horizontal(rotated);
        proof {
            assert forall|x: int, y: int| img.in_bounds(x, y) implies #[trigger] img.pixel(x, y) == out.pixel(
                out.width - 1 - rotation_target(img.width as int, img.height as int, r, x, y).0,
                rotation_target(img.width as int, img.height as int, r, x, y).1,
            ) by {
                let t = rotation_target(img.width as int, img.height as int, r, x, y);
                assert(rotated.in_bounds(t.0, t.1));
                assert(rotated.pixel(t.0, t.1) == out.pixel(rotated.width - 1 - t.0, t.1));
            }
        }
        out
    } else {
        rotated
    }
}

/// Orienting depends on the rotation only through its remainder modulo a
/// full turn: any angle acts as the angle brought into `0..360`.
pub proof fn law_orient_by_remainder(img: &RgbaImage, out: &RgbaImage, rotation: i32, flip: bool)
    ensures
        oriented(img, out, rotation, flip) == oriented(img, out, normalized_rotation(rotation) as i32, flip),
{
    assert(normalized_rotation(normalized_rotation(rotation) as i32) == normalized_rotation(rotation));
}

/// Without a flip, an angle that is no multiple of 90 (after bringing it
/// into `0..360`) leaves the picture as it is.
pub proof fn law_orient_other_angles(img: &RgbaImage, out: &RgbaImage, rotation: i32)
    requires
        img.wf(),
        oriented(img, out, rotation, false),
        normalized_rotation(rotation) != 90,
        normalized_rotation(rotation) != 180,
        normalized_rotation(rotation) != 270,
    ensures
        out.same_picture(img),
{
    assert forall|x: int, y: int| out.in_bounds(x, y) implies #[trigger] out.pixel(x, y) == img.pixel(x, y) by {
        assert(img.in_bounds(x, y));
    }
}

/// A quarter or three-quarter turn swaps width and height; a half turn or
/// no turn keeps them.
pub proof fn law_orient_sides(img: &RgbaImage, out: &RgbaImage, rotation: i32, flip: bool)
    requires
        oriented(img, out, rotation, flip),
    ensures
        normalized_rotation(rotation) == 90 || normalized_rotation(rotation) == 270 ==> out.width == img.height
            && out.height == img.width,
        !(normalized_rotation(rotation) == 90 || normalized_rotation(rotation) == 270) ==> out.width == img.width
            && out.height == img.height,
{
}

/// Orienting by 90 degrees and then by 270 gives the same picture back.
pub proof fn law_orient_90_then_270(img: &RgbaImage, a: &RgbaImage, b: &RgbaImage)
    requires
        img.wf(),
        oriented(img, a, 90, false),
        oriented(a, b, 270, false),
    ensures
        b.same_picture(img),
{
    assert(normalized_rotation(90) == 90);
    assert(normalized_rotation(270) == 270);
    assert forall|x: int, y: int| b.in_bounds(x, y) implies #[trigger] b.pixel(x, y) == img.pixel(x, y) by {
        assert(img.pixel(x, y) == a.pixel(y, img.width - 1 - x));
        assert(a.in_bounds(y, img.width - 1 - x));
        assert(a.pixel(y, img.width - 1 - x) == b.pixel(a.height - 1 - (img.width - 1 - x), y));
    }
}

/// Mirroring twice (with no rotation) gives the same picture back.
pub proof fn law_orient_flip_twice(img: &RgbaImage, a: &RgbaImage, b: &RgbaImage)
    requires
        img.wf(),
        oriented(img, a, 0, true),
        oriented(a, b, 0, true),
    ensures
        b.same_picture(img),
{
    assert(normalized_rotation(0) == 0);
    assert forall|x: int, y: int| b.in_bounds(x, y) implies #[trigger] b.pixel(x, y) == img.pixel(x, y) by {
        assert(img.pixel(x, y) == a.pixel(img.width - 1 - x, y));
        assert(a.in_bounds(img.width - 1 - x, y));
    }
}

} // verus!
