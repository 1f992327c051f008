//! Matching pixels to palette entries in RGB space.

use crate::color::{Color, Palette};
use vstd::prelude::*;

verus! {

/// The color id given to transparent pixels (and pixels without a track).
pub const TRANSPARENT_ID: i32 = -2;

/// Squared Euclidean distance of two colors in RGB space.
pub open spec fn rgb_distance(a: Color, b: Color) -> int {
    let dr = a.r - b.r;
    let dg = a.g - b.g;
    let db = a.b - b.b;
    dr * dr + dg * dg + db * db
}

/// `index` is the first palette entry among those nearest to `color`.
pub open spec fn is_nearest_rgb(color: Color, colors: Seq<Color>, index: int) -> bool {
    &&& 0 <= index < colors.len()
    &&& forall|j: int| 0 <= j < colors.len() ==> rgb_distance(color, colors[index]) <= #[trigger] rgb_distance(color, colors[j])
    &&& forall|j: int| 0 <= j < index ==> rgb_distance(color, colors[index]) < #[trigger] rgb_distance(color, colors[j])
}

/// Index of the palette entry nearest to `color` in RGB space; the first
/// one wins ties, and an empty palette yields `0`.
pub fn find_nearest_rgb(color: Color, palette: &Palette) -> (best: usize)
    ensures
        palette.colors@.len() == 0 ==> best == 0,
        palette.colors@.len() > 0 ==> is_nearest_rgb(color, palette.colors@, best as int),
{
    let r = color.r as i32;
    let g = color.g as i32;
    let b = color.b as i32;
    let mut best: usize = 0;
    let mut best_dist: i32 = i32::MAX;
    let mut index: usize = 0;
    while index < palette.colors.len()
        invariant
            r == color.r,
            g == color.g,
            b == color.b,
            index <= palette.colors@.len(),
            index == 0 ==> best == 0 && best_dist == i32::MAX,
            index > 0 ==> best < index && best_dist == rgb_distance(color, palette.colors@[best as int]),
            forall|j: int| 0 <= j < index ==> best_dist <= #[trigger] rgb_distance(color, palette.colors@[j]),
            forall|j: int| 0 <= j < best ==> best_dist < #[trigger] rgb_distance(color, palette.colors@[j]),
        decreases palette.colors@.len() - index,
    {
        let candidate = palette.colors[index];
        let dr = r - candidate.r as i32;
        let dg = g - candidate.g as i32;
        let db = b - candidate.b as i32;
        proof {
            assert(dr * dr <= 65025) by (nonlinear_arith)
                requires
                    -255 <= dr <= 255,
            ;
            assert(dg * dg <= 65025) by (nonlinear_arith)
                requires
                    -255 <= dg <= 255,
            ;
            assert(db * db <= 65025) by (nonlinear_arith)
                requires
                    -255 <= db <= 255,
            ;
            assert(0 <= dr * dr && 0 <= dg * dg && 0 <= db * db) by (nonlinear_arith);
        }
        let dist = dr * dr + dg * dg + db * db;
        if dist < best_dist {
            best_dist = dist;
            best = index;
        }
        index = index + 1;
    }
    best
}

/// The id a pixel gets without comparing it to the palette:
/// [`TRANSPARENT_ID`] for an empty palette or a pixel whose alpha is below
/// 128, `None` for a pixel that must be matched against the palette.
pub fn unmatched_id(color: Color, palette: &Palette) -> (r: Option<i32>)
    ensures
        r == if palette.colors@.len() == 0 || color.a < 128 {
            Some(TRANSPARENT_ID)
        } else {
            None
        },
{
    if palette.colors.len() == 0 || color.a < 128 {
        Some(TRANSPARENT_ID)
    } else {
        None
    }
}

} // verus!
