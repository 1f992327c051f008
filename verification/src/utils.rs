//! Small helpers: clamping, piano key colors and deterministic sampling.

use crate::color::{is_opaque, Color};
use vstd::prelude::*;
use vstd::std_specs::cmp::PartialOrdSpec;

verus! {

/// Clamp `value` into `[min, max]` by the type's own ordering.
pub fn clamp<T: PartialOrd>(value: T, min: T, max: T) -> (r: T)
    ensures
        T::obeys_partial_cmp_spec() ==> r == (if value.partial_cmp_spec(&min) == Some(core::cmp::Ordering::Less) {
            min
        } else if value.partial_cmp_spec(&max) == Some(core::cmp::Ordering::Greater) {
            max
        } else {
            value
        }),
{
    if value < min {
        min
    } else if value > max {
        max
    } else {
        value
    }
}

/// Whether MIDI key `key` is a white piano key (C D E F G A B).
pub open spec fn white_key(key: int) -> bool {
    let n = key % 12;
    n == 0 || n == 2 || n == 4 || n == 5 || n == 7 || n == 9 || n == 11
}

/// Whether MIDI key `key` is a white piano key (C, D, E, F, G, A or B).
pub fn is_white_key(key: u8) -> (b: bool)
    ensures
        b == white_key(key as int),
{
    let n = key % 12;
    n == 0 || n == 2 || n == 4 || n == 5 || n == 7 || n == 9 || n == 11
}

/// The opaque pixels of `pixels`, in order.
pub open spec fn opaque_of(pixels: Seq<Color>) -> Seq<Color> {
    pixels.filter(|c: Color| is_opaque(c))
}

/// What deterministic sampling keeps: all opaque pixels when there are at
/// most `max_samples` of them, otherwise every `step`-th opaque pixel,
/// `max_samples` of them, with `step = opaque / max_samples`.
pub open spec fn sampled(pixels: Seq<Color>, max_samples: int) -> Seq<Color> {
    let opaque = opaque_of(pixels);
    if opaque.len() <= max_samples {
        opaque
    } else {
        let step = opaque.len() as int / max_samples;
        Seq::new(max_samples as nat, |i: int| opaque[i * step])
    }
}

/// The opaque pixels of `pixels` (alpha at least 128), in order.
pub fn opaque_pixels(pixels: &[Color]) -> (v: Vec<Color>)
    ensures
        v@ == opaque_of(pixels@),
{
    let mut v: Vec<Color> = Vec::new();
    let mut i: usize = 0;
    while i < pixels.len()
        invariant
            i <= pixels@.len(),
            v@ == opaque_of(pixels@.take(i as int)),
        decreases pixels@.len() - i,
    {
        proof {
            assert(pixels@.take(i as int + 1) == pixels@.take(i as int).push(pixels@[i as int]));
            pixels@.take(i as int).lemma_filter_push(pixels@[i as int], |c: Color| is_opaque(c));
        }
        let c = pixels[i];
        if c.a >= 128 {
            v.push(c);
        }
        i = i + 1;
    }
    proof {
        assert(pixels@.take(pixels@.len() as int) == pixels@);
    }
    v
}

/// Keep at most `max_samples` opaque pixels, spread evenly.
pub fn sample_pixels(pixels: &[Color], max_samples: usize) -> (v: Vec<Color>)
    requires
        max_samples > 0 || opaque_of(pixels@).len() == 0,
    ensures
        v@ == sampled(pixels@, max_samples as int),
        v@.len() <= max_samples,
{
    let opaque = opaque_pixels(pixels);
    if opaque.len() <= max_samples {
        return opaque;
    }
    let step = opaque.len() / max_samples;
    proof {
        let n = opaque@.len() as int;
        assert(step == n / (max_samples as int));
        let m = max_samples as int;
        assert(step * m <= n) by (nonlinear_arith)
            requires
                step == n / m,
                m > 0,
        ;
        assert(step >= 1) by (nonlinear_arith)
            requires
                step == n / m,
                m > 0,
                n > m,
        ;
    }
    let mut v: Vec<Color> = Vec::new();
    let mut i: usize = 0;
    while i < max_samples
        invariant
            opaque@ == opaque_of(pixels@),
            opaque@.len() > max_samples,
            opaque@.len() <= usize::MAX,
            step == opaque@.len() as int / (max_samples as int),
            step * max_samples <= opaque@.len(),
            step >= 1,
            i <= max_samples,
            v@.len() == i,
            forall|k: int| 0 <= k < i ==> #[trigger] v@[k] == opaque@[k * step],
        decreases max_samples - i,
    {
        proof {
            assert(i * step < opaque@.len()) by (nonlinear_arith)
                requires
                    i < max_samples,
                    step * max_samples <= opaque@.len(),
                    step >= 1,
            ;
        }
        v.push(opaque[i * step]);
        i = i + 1;
    }
    proof {
        assert(v@ == sampled(pixels@, max_samples as int));
    }
    v
}

} // verus!
