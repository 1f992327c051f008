//! Fixed palettes: gray ramps, classic 2/4/16-color palettes and evenly
//! spaced RGB grids.

use crate::cluster::{pad_or_truncate_palette, padded};
use crate::color::{black_color, Color, Palette};
use vstd::prelude::*;

verus! {

/// The evenly spaced gray ramp of `count` shades from black to white.
pub open spec fn gray_ramp(count: int) -> Seq<Color> {
    let max = if count - 1 > 1 { count - 1 } else { 1 };
    Seq::new(count as nat, |i: int| {
        let gray = (i * 255 / max) as u8;
        Color { r: gray, g: gray, b: gray, a: 255 }
    })
}

/// The four-shade ramp of classic handheld consoles.
pub open spec fn four_shades() -> Seq<Color> {
    seq![
        black_color(),
        Color { r: 85, g: 85, b: 85, a: 255 },
        Color { r: 170, g: 170, b: 170, a: 255 },
        Color { r: 255, g: 255, b: 255, a: 255 },
    ]
}

/// The standard 16-color palette of early PC displays.
pub open spec fn standard_16() -> Seq<Color> {
    seq![
        Color { r: 0, g: 0, b: 0, a: 255 },
        Color { r: 128, g: 0, b: 0, a: 255 },
        Color { r: 0, g: 128, b: 0, a: 255 },
        Color { r: 128, g: 128, b: 0, a: 255 },
        Color { r: 0, g: 0, b: 128, a: 255 },
        Color { r: 128, g: 0, b: 128, a: 255 },
        Color { r: 0, g: 128, b: 128, a: 255 },
        Color { r: 192, g: 192, b: 192, a: 255 },
        Color { r: 128, g: 128, b: 128, a: 255 },
        Color { r: 255, g: 0, b: 0, a: 255 },
        Color { r: 0, g: 255, b: 0, a: 255 },
        Color { r: 255, g: 255, b: 0, a: 255 },
        Color { r: 0, g: 0, b: 255, a: 255 },
        Color { r: 255, g: 0, b: 255, a: 255 },
        Color { r: 0, g: 255, b: 255, a: 255 },
        Color { r: 255, g: 255, b: 255, a: 255 },
    ]
}

/// Level `level` of `levels` evenly spaced channel values.
pub open spec fn level_value(level: int, levels: int) -> int {
    if levels <= 1 {
        0
    } else {
        level * 255 / (levels - 1)
    }
}

/// `2` to the power `k`.
pub open spec fn two_pow(k: nat) -> nat
    decreases k,
{
    if k == 0 {
        1
    } else {
        2 * two_pow((k - 1) as nat)
    }
}

/// Doubling `power` (counted by `depth`) until it reaches `count`.
pub open spec fn depth_from(count: int, power: nat, depth: nat) -> nat
    decreases (if count > power { count - power } else { 0 }),
{
    if power >= count || power == 0 {
        depth
    } else {
        depth_from(count, 2 * power, depth + 1)
    }
}

/// Number of bits needed to count to `count`: the exponent of the smallest
/// power of two that is at least `count` (`0` for counts up to one).
pub open spec fn bit_depth(count: int) -> nat {
    depth_from(count, 1, 0)
}

/// How many of the first `total` bits, dealt round-robin over `channels`
/// slots, land in slot `slot`.
pub open spec fn dealt(total: int, channels: int, slot: int) -> int
    decreases total,
{
    if total <= 0 {
        0
    } else {
        dealt(total - 1, channels, slot) + if (total - 1) % channels == slot {
            1int
        } else {
            0int
        }
    }
}

/// Bits of red, green and blue when `total` bits are dealt round-robin to
/// blue, green, red (blue gets the remainder first).
pub open spec fn channel_bits(total: int) -> (int, int, int) {
    (total / 3, (total + 1) / 3, (total + 2) / 3)
}

/// The RGB grid with `rl * gl * bl` colors, red slowest and blue fastest.
pub open spec fn rgb_grid(rl: int, gl: int, bl: int) -> Seq<Color> {
    Seq::new((rl * gl * bl) as nat, |k: int| Color {
        r: level_value(k / (gl * bl), rl) as u8,
        g: level_value((k / bl) % gl, gl) as u8,
        b: level_value(k % bl, bl) as u8,
        a: 255,
    })
}

/// The unpadded colors of a fixed palette.
pub open spec fn fixed_colors(count: int, use_gray: bool) -> Seq<Color> {
    if use_gray {
        gray_ramp(count)
    } else if count == 2 {
        seq![black_color(), Color { r: 255, g: 255, b: 255, a: 255 }]
    } else if count == 4 {
        four_shades()
    } else if count == 16 {
        standard_16()
    } else {
        let (rb, gb, bb) = channel_bits(bit_depth(count) as int);
        rgb_grid(two_pow(rb as nat) as int, two_pow(gb as nat) as int, two_pow(bb as nat) as int)
    }
}

fn gray_palette(color_count: usize) -> (v: Vec<Color>)
    requires
        color_count * 255 <= usize::MAX,
    ensures
        v@ == gray_ramp(color_count as int),
{
    let mut v: Vec<Color> = Vec::new();
    if color_count == 0 {
        proof {
            assert(v@ =~= gray_ramp(0));
        }
        return v;
    }
    let max = if color_count - 1 > 1 { color_count - 1 } else { 1 };
    let mut i: usize = 0;
    while i < color_count
        invariant
            color_count > 0,
            color_count * 255 <= usize::MAX,
            max == if color_count - 1 > 1 { color_count - 1 } else { 1 },
            i <= color_count,
            v@ == gray_ramp(color_count as int).take(i as int),
        decreases color_count - i,
    {
        proof {
            assert(i * 255 <= max * 255) by (nonlinear_arith)
                requires
                    i <= max,
            ;
            assert(i as int * 255 / max as int <= 255) by (nonlinear_arith)
                requires
                    i <= max,
                    max >= 1,
            ;
        }
        let gray = (i * 255 / max) as u8;
        v.push(Color::new(gray, gray, gray, 255));
        proof {
            assert(v@ =~= gray_ramp(color_count as int).take(i as int + 1));
        }
        i = i + 1;
    }
    proof {
        assert(v@ =~= gray_ramp(color_count as int));
    }
    v
}

fn quantize(level: usize, levels: usize) -> (v: u8)
    requires
        level < levels,
        levels <= 0x100_0000,
    ensures
        v == level_value(level as int, levels as int),
{
    if levels <= 1 {
        return 0;
    }
    proof {
        assert(level * 255 / (levels - 1) <= 255) by (nonlinear_arith)
            requires
                level <= levels - 1,
                levels >= 2,
        ;
    }
    ((level * 255) / (levels - 1)) as u8
}

/// Deal `total_bits` bits round-robin over `channels` slots, then reverse the
/// slots, so that the last channel receives any remainder first.
fn allocate_bits(total_bits: usize, channels: usize) -> (bits: Vec<usize>)
    requires
        channels > 0,
    ensures
        bits@.len() == channels,
        forall|j: int| 0 <= j < channels ==> #[trigger] bits@[j] == dealt(total_bits as int, channels as int, channels - 1 - j),
{
    let mut bits: Vec<usize> = Vec::new();
    let mut k: usize = 0;
    while k < channels
        invariant
            k <= channels,
            bits@.len() == k,
            forall|j: int| 0 <= j < k ==> #[trigger] bits@[j] == 0,
        decreases channels - k,
    {
        bits.push(0);
        k = k + 1;
    }
    let mut i: usize = 0;
    while i < total_bits
        invariant
            channels > 0,
            i <= total_bits,
            bits@.len() == channels,
            forall|j: int| 0 <= j < channels ==> #[trigger] bits@[j] == dealt(i as int, channels as int, j),
            forall|j: int| 0 <= j < channels ==> #[trigger] bits@[j] <= i,
        decreases total_bits - i,
    {
        let slot = i % channels;
        bits.set(slot, bits[slot] + 1);
        i = i + 1;
    }
    let mut reversed: Vec<usize> = Vec::new();
    let mut j: usize = channels;
    while j > 0
        invariant
            j <= channels,
            bits@.len() == channels,
            forall|q: int| 0 <= q < channels ==> #[trigger] bits@[q] == dealt(total_bits as int, channels as int, q),
            reversed@.len() == channels - j,
            forall|q: int| 0 <= q < channels - j ==> #[trigger] reversed@[q] == dealt(total_bits as int, channels as int, channels - 1 - q),
        decreases j,
    {
        j = j - 1;
        reversed.push(bits[j]);
    }
    reversed
}

proof fn lemma_dealt_three(total: int)
    requires
        total >= 0,
    ensures
        dealt(total, 3, 2) == total / 3,
        dealt(total, 3, 1) == (total + 1) / 3,
        dealt(total, 3, 0) == (total + 2) / 3,
    decreases total,
{
    if total > 0 {
        lemma_dealt_three(total - 1);
    }
}

proof fn lemma_two_pow_positive(k: nat)
    ensures
        two_pow(k) >= 1,
    decreases k,
{
    if k > 0 {
        lemma_two_pow_positive((k - 1) as nat);
    }
}

proof fn lemma_two_pow_add(a: nat, b: nat)
    ensures
        two_pow(a + b) == two_pow(a) * two_pow(b),
    decreases b,
{
    if b > 0 {
        let b1 = (b - 1) as nat;
        lemma_two_pow_add(a, b1);
        assert(a + b1 + 1 == a + b);
        assert(two_pow(a + b) == 2 * two_pow(a + b1));
        assert(two_pow(b) == 2 * two_pow(b1));
        assert(two_pow(a) * (2 * two_pow(b1)) == 2 * (two_pow(a) * two_pow(b1))) by (nonlinear_arith);
    } else {
        assert(two_pow(b) == 1);
        assert(a + b == a);
        assert(two_pow(a) * 1 == two_pow(a));
    }
}

/// The smallest power of two reached from `power` by doubling is below
/// `2 * count` (when `power` starts at or below `count`).
proof fn lemma_depth_bound(count: int, power: nat, depth: nat)
    requires
        power >= 1,
        power == two_pow(depth),
        power < 2 * count || power == 1,
    ensures
        two_pow(depth_from(count, power, depth)) <= if count > 1 { 2 * count } else { 1 },
        two_pow(depth_from(count, power, depth)) >= count,
        depth_from(count, power, depth) >= depth,
    decreases (if count > power { count - power } else { 0 }),
{
    if power >= count {
    } else {
        assert(two_pow(depth + 1) == 2 * two_pow(depth));
        lemma_depth_bound(count, 2 * power, depth + 1);
    }
}

/// `2` to the power `k`, computed by doubling.
fn power_of_two(k: usize) -> (p: usize)
    requires
        two_pow(k as nat) <= usize::MAX,
    ensures
        p == two_pow(k as nat),
{
    let mut p: usize = 1;
    let mut i: usize = 0;
    while i < k
        invariant
            i <= k,
            p == two_pow(i as nat),
            two_pow(k as nat) <= usize::MAX,
        decreases k - i,
    {
        proof {
            lemma_two_pow_add(i as nat, (k - i) as nat);
            lemma_two_pow_positive((k - i - 1) as nat);
            assert(two_pow((k - i) as nat) == 2 * two_pow((k - i - 1) as nat));
            assert(two_pow(i as nat) * two_pow((k - i) as nat) >= two_pow(i as nat) * 2) by (nonlinear_arith)
                requires
                    two_pow((k - i) as nat) >= 2,
                    two_pow(i as nat) >= 0,
            ;
        }
        p = p * 2;
        i = i + 1;
    }
    p
}

fn windows_16_palette() -> (v: Vec<Color>)
    ensures
        v@ == standard_16(),
{
    let v = vec![
        Color::new(0, 0, 0, 255),
        Color::new(128, 0, 0, 255),
        Color::new(0, 128, 0, 255),
        Color::new(128, 128, 0, 255),
        Color::new(0, 0, 128, 255),
        Color::new(128, 0, 128, 255),
        Color::new(0, 128, 128, 255),
        Color::new(192, 192, 192, 255),
        Color::new(128, 128, 128, 255),
        Color::new(255, 0, 0, 255),
        Color::new(0, 255, 0, 255),
        Color::new(255, 255, 0, 255),
        Color::new(0, 0, 255, 255),
        Color::new(255, 0, 255, 255),
        Color::new(0, 255, 255, 255),
        Color::new(255, 255, 255, 255),
    ];
    proof {
        assert(v@ =~= standard_16());
    }
    v
}

proof fn lemma_two_pow_monotone(a: nat, b: nat)
    requires
        a <= b,
    ensures
        two_pow(a) <= two_pow(b),
{
    lemma_two_pow_add(a, (b - a) as nat);
    lemma_two_pow_positive((b - a) as nat);
    assert(two_pow(a) * two_pow((b - a) as nat) >= two_pow(a)) by (nonlinear_arith)
        requires
            two_pow((b - a) as nat) >= 1,
    ;
}

proof fn lemma_two_pow_64()
    ensures
        two_pow(64) == 0x1_0000_0000_0000_0000,
{
    reveal_with_fuel(two_pow, 65);
    assert(two_pow(64) == 0x1_0000_0000_0000_0000);
}

proof fn lemma_two_pow_21()
    ensures
        two_pow(22) == 0x40_0000,
{
    reveal_with_fuel(two_pow, 23);
    assert(two_pow(22) == 0x40_0000);
}

/// Index `k` of the grid with `gl * bl` colors per red level lies at red
/// level `r`, green level `g` and blue level `b`.
proof fn lemma_grid_index(r: int, g: int, b: int, gl: int, bl: int)
    requires
        0 <= g < gl,
        0 <= b < bl,
        r >= 0,
    ensures
        ({
            let k = (r * gl + g) * bl + b;
            &&& k / (gl * bl) == r
            &&& (k / bl) % gl == g
            &&& k % bl == b
        }),
{
    let k = (r * gl + g) * bl + b;
    vstd::arithmetic::div_mod::lemma_fundamental_div_mod_converse(k, bl, r * gl + g, b);
    vstd::arithmetic::div_mod::lemma_fundamental_div_mod_converse(r * gl + g, gl, r, g);
    assert(k == r * (gl * bl) + (g * bl + b)) by (nonlinear_arith)
        requires
            k == (r * gl + g) * bl + b,
    ;
    assert(g * bl + b < gl * bl) by (nonlinear_arith)
        requires
            0 <= g < gl,
            0 <= b < bl,
    ;
    assert(0 <= g * bl + b) by (nonlinear_arith)
        requires
            0 <= g,
            0 <= b,
            0 <= bl,
    ;
    vstd::arithmetic::div_mod::lemma_fundamental_div_mod_converse(k, gl * bl, r, g * bl + b);
}

/// The RGB grid with `rl * gl * bl` evenly spaced colors, red slowest.
fn rgb_grid_palette(rl: usize, gl: usize, bl: usize) -> (v: Vec<Color>)
    requires
        1 <= rl <= 0x40_0000,
        1 <= gl <= 0x40_0000,
        1 <= bl <= 0x40_0000,
        rl * gl * bl <= usize::MAX,
    ensures
        v@ == rgb_grid(rl as int, gl as int, bl as int),
{
    let ghost grid = rgb_grid(rl as int, gl as int, bl as int);
    let mut v: Vec<Color> = Vec::new();
    proof {
        assert(v@ =~= grid.take(0 * gl * bl));
    }
    let mut r: usize = 0;
    while r < rl
        invariant
            1 <= rl <= 0x40_0000,
            1 <= gl <= 0x40_0000,
            1 <= bl <= 0x40_0000,
            rl * gl * bl <= usize::MAX,
            grid == rgb_grid(rl as int, gl as int, bl as int),
            r <= rl,
            v@ == grid.take(r * gl * bl),
        decreases rl - r,
    {
        let mut g: usize = 0;
        while g < gl
            invariant
                1 <= rl <= 0x40_0000,
                1 <= gl <= 0x40_0000,
                1 <= bl <= 0x40_0000,
                rl * gl * bl <= usize::MAX,
                grid == rgb_grid(rl as int, gl as int, bl as int),
                r < rl,
                g <= gl,
                v@ == grid.take((r * gl + g) * bl),
            decreases gl - g,
        {
            let mut b: usize = 0;
            while b < bl
                invariant
                    1 <= rl <= 0x40_0000,
                    1 <= gl <= 0x40_0000,
                    1 <= bl <= 0x40_0000,
                    rl * gl * bl <= usize::MAX,
                    grid == rgb_grid(rl as int, gl as int, bl as int),
                    r < rl,
                    g < gl,
                    b <= bl,
                    v@ == grid.take((r * gl + g) * bl + b),
                decreases bl - b,
            {
                let ghost k = (r * gl + g) * bl + b;
                proof {
                    lemma_grid_index(r as int, g as int, b as int, gl as int, bl as int);
                    assert(k < rl * gl * bl) by (nonlinear_arith)
                        requires
                            k == (r * gl + g) * bl + b,
                            r < rl,
                            g < gl,
                            b < bl,
                    ;
                    assert(0 <= k) by (nonlinear_arith)
                        requires
                            k == (r * gl + g) * bl + b,
                            r >= 0,
                            g >= 0,
                            b >= 0,
                            gl >= 0,
                            bl >= 0,
                    ;
                }
                let c = Color::new(quantize(r, rl), quantize(g, gl), quantize(b, bl), 255);
                v.push(c);
                proof {
                    assert(grid[k] == c);
                    assert(v@ =~= grid.take(k + 1));
                }
                b = b + 1;
            }
            proof {
                assert((r * gl + g) * bl + bl == (r * gl + g + 1) * bl) by (nonlinear_arith);
            }
            g = g + 1;
        }
        proof {
            assert((r * gl + gl) * bl == (r + 1) * gl * bl) by (nonlinear_arith);
        }
        r = r + 1;
    }
    proof {
        assert(v@ =~= grid);
    }
    v
}

/// Build a fixed palette of exactly `color_count` colors: an evenly spaced
/// gray ramp when `use_gray` is set; otherwise black and white for 2 colors,
/// a four-shade ramp for 4, the standard 16-color palette for 16, and for
/// other sizes an RGB grid with the bits of `color_count`'s bit depth dealt
/// round-robin over the channels; padded with black or truncated.
pub fn fixed_bit_palette(color_count: usize, use_gray: bool) -> (p: Palette)
    requires
        color_count * 255 <= usize::MAX,
    ensures
        p.colors@ == padded(fixed_colors(color_count as int, use_gray), color_count as int),
{
    let mut colors: Vec<Color> = if use_gray {
        gray_palette(color_count)
    } else if color_count == 2 {
        let v = vec![Color::black(), Color::new(255, 255, 255, 255)];
        proof {
            assert(v@ =~= fixed_colors(2, false));
        }
        v
    } else if color_count == 4 {
        let v = vec![Color::black(), Color::new(85, 85, 85, 255), Color::new(170, 170, 170, 255), Color::new(255, 255, 255, 255)];
        proof {
            assert(v@ =~= four_shades());
        }
        v
    } else if color_count == 16 {
        windows_16_palette()
    } else {
        let mut power: usize = 1;
        let mut depth: usize = 0;
        proof {
            lemma_depth_bound(color_count as int, 1, 0);
        }
        while power < color_count
            invariant
                power == two_pow(depth as nat),
                power >= 1,
                power < 2 * color_count || power == 1,
                depth < power,
                depth_from(color_count as int, 1, 0) == depth_from(color_count as int, power as nat, depth as nat),
                color_count * 255 <= usize::MAX,
            decreases 2 * color_count - power,
        {
            proof {
                assert(two_pow(depth as nat + 1) == 2 * two_pow(depth as nat));
            }
            power = power * 2;
            depth = depth + 1;
        }
        proof {
            assert(depth == bit_depth(color_count as int));
            if depth >= 64 {
                lemma_two_pow_monotone(64, depth as nat);
                lemma_two_pow_64();
            }
            assert(depth < 64);
        }
        let bits = allocate_bits(depth, 3);
        proof {
            lemma_dealt_three(depth as int);
            lemma_two_pow_21();
            lemma_two_pow_monotone(bits@[0] as nat, 22);
            lemma_two_pow_monotone(bits@[1] as nat, 22);
            lemma_two_pow_monotone(bits@[2] as nat, 22);
            lemma_two_pow_add(bits@[0] as nat, bits@[1] as nat);
            lemma_two_pow_add((bits@[0] + bits@[1]) as nat, bits@[2] as nat);
            assert(bits@[0] + bits@[1] + bits@[2] == depth);
        }
        let r_levels = power_of_two(bits[0]);
        let g_levels = power_of_two(bits[1]);
        let b_levels = power_of_two(bits[2]);
        proof {
            lemma_two_pow_positive(bits@[0] as nat);
            lemma_two_pow_positive(bits@[1] as nat);
            lemma_two_pow_positive(bits@[2] as nat);
            assert(r_levels * g_levels * b_levels == power);
        }
        rgb_grid_palette(r_levels, g_levels, b_levels)
    };
    pad_or_truncate_palette(&mut colors, color_count);
    Palette::new(colors)
}

/// A fixed-bit palette has exactly the requested number of colors.
pub proof fn law_fixed_palette_size(color_count: nat, use_gray: bool)
    ensures
        padded(fixed_colors(color_count as int, use_gray), color_count as int).len() == color_count,
{
}

/// The channel levels of a grid run from black to full intensity: with at
/// least two levels the first is `0` and the last is `255`, every level lies
/// in `0..=255`, they never decrease, and they are spaced evenly, so that
/// levels the same distance from either end add up to `254` or `255`.
pub proof fn law_levels_span_full_range(levels: int)
    requires
        levels >= 2,
    ensures
        level_value(0, levels) == 0,
        level_value(levels - 1, levels) == 255,
        forall|l: int| 0 <= l < levels ==> 0 <= #[trigger] level_value(l, levels) <= 255,
        forall|l: int, m: int| 0 <= l <= m < levels ==> #[trigger] level_value(l, levels) <= #[trigger] level_value(m, levels),
        forall|l: int|
            0 <= l < levels ==> 254 <= #[trigger] level_value(l, levels) + level_value(levels - 1 - l, levels) <= 255,
{
    let d = levels - 1;
    assert(0int * 255 / d == 0) by (nonlinear_arith)
        requires
            d >= 1,
    ;
    assert((levels - 1) * 255 / d == 255) by (nonlinear_arith)
        requires
            d == levels - 1,
            d >= 1,
    ;
    assert forall|l: int| 0 <= l < levels implies 0 <= #[trigger] level_value(l, levels) <= 255 by {
        assert(0 <= l * 255 / d <= 255) by (nonlinear_arith)
            requires
                0 <= l <= d,
                d >= 1,
        ;
    }
    assert forall|l: int, m: int| 0 <= l <= m < levels implies #[trigger] level_value(l, levels) <= #[trigger] level_value(
        m,
        levels,
    ) by {
        assert(l * 255 / d <= m * 255 / d) by (nonlinear_arith)
            requires
                0 <= l <= m,
                d >= 1,
        ;
    }
    assert forall|l: int| 0 <= l < levels implies 254 <= #[trigger] level_value(l, levels) + level_value(levels - 1 - l, levels)
        <= 255 by {
        let a = l * 255;
        let b = (d - l) * 255;
        assert(a + b == 255 * d) by (nonlinear_arith)
            requires
                a == l * 255,
                b == (d - l) * 255,
        ;
        assert(254 <= a / d + b / d <= 255) by (nonlinear_arith)
            requires
                a >= 0,
                b >= 0,
                a + b == 255 * d,
                d >= 1,
        ;
    }
}

/// An RGB grid with at least two levels per channel starts at opaque black
/// and ends at opaque white.
pub proof fn law_grid_corners(rl: int, gl: int, bl: int)
    requires
        rl >= 2,
        gl >= 2,
        bl >= 2,
    ensures
        rgb_grid(rl, gl, bl).len() == rl * gl * bl,
        rgb_grid(rl, gl, bl)[0] == black_color(),
        rgb_grid(rl, gl, bl)[rl * gl * bl - 1] == (Color { r: 255, g: 255, b: 255, a: 255 }),
{
    law_levels_span_full_range(rl);
    law_levels_span_full_range(gl);
    law_levels_span_full_range(bl);
    let gb = gl * bl;
    let n = rl * gb;
    assert(gb >= 4 && n >= 8) by (nonlinear_arith)
        requires
            gb == gl * bl,
            n == rl * gb,
            rl >= 2,
            gl >= 2,
            bl >= 2,
    ;
    assert(rl * gl * bl == n) by (nonlinear_arith)
        requires
            gb == gl * bl,
            n == rl * gb,
    ;
    let k = n - 1;
    assert(k == (rl - 1) * gb + (gb - 1)) by (nonlinear_arith)
        requires
            k == rl * gb - 1,
    ;
    vstd::arithmetic::div_mod::lemma_fundamental_div_mod_converse(k, gb, rl - 1, gb - 1);
    assert(k == (rl * gl - 1) * bl + (bl - 1)) by (nonlinear_arith)
        requires
            k == rl * gb - 1,
            gb == gl * bl,
    ;
    vstd::arithmetic::div_mod::lemma_fundamental_div_mod_converse(k, bl, rl * gl - 1, bl - 1);
    assert(rl * gl - 1 == (rl - 1) * gl + (gl - 1)) by (nonlinear_arith);
    vstd::arithmetic::div_mod::lemma_fundamental_div_mod_converse(rl * gl - 1, gl, rl - 1, gl - 1);
    assert(k / gb == rl - 1 && (k / bl) % gl == gl - 1 && k % bl == bl - 1);
    assert(0int / gb == 0 && (0int / bl) % gl == 0 && 0int % bl == 0) by (nonlinear_arith)
        requires
            gb >= 4,
            bl >= 2,
            gl >= 2,
    ;
}

/// An RGB grid palette (any size from five colors up other than the
/// classic sixteen) reaches both ends of the color cube: the grid it is
/// cut from starts at opaque black and ends at opaque white, and when the
/// size is a power of two the whole grid is the palette, so opaque white
/// is its last color.
pub proof fn law_grid_palette_reaches_white(count: int)
    requires
        count >= 5,
        count != 16,
    ensures
        fixed_colors(count, false).len() >= count,
        fixed_colors(count, false)[0] == black_color(),
        fixed_colors(count, false)[fixed_colors(count, false).len() - 1] == (Color { r: 255, g: 255, b: 255, a: 255 }),
        two_pow(bit_depth(count)) == count ==> padded(fixed_colors(count, false), count)[count - 1] == (Color {
            r: 255,
            g: 255,
            b: 255,
            a: 255,
        }),
{
    let d = bit_depth(count);
    assert(two_pow(0) == 1);
    lemma_depth_bound(count, 1, 0);
    assert(two_pow(d) >= count);
    reveal_with_fuel(two_pow, 3);
    assert(two_pow(2) == 4);
    if d <= 2 {
        lemma_two_pow_monotone(d, 2);
    }
    assert(d >= 3);
    let (rb, gb, bb) = channel_bits(d as int);
    assert(rb >= 1 && gb >= 1 && bb >= 1);
    assert(rb + gb + bb == d);
    assert(two_pow(1) == 2);
    lemma_two_pow_monotone(1, rb as nat);
    lemma_two_pow_monotone(1, gb as nat);
    lemma_two_pow_monotone(1, bb as nat);
    let rl = two_pow(rb as nat) as int;
    let gl = two_pow(gb as nat) as int;
    let bl = two_pow(bb as nat) as int;
    lemma_two_pow_add(rb as nat, gb as nat);
    lemma_two_pow_add((rb + gb) as nat, bb as nat);
    assert(rl * gl * bl == two_pow(d));
    law_grid_corners(rl, gl, bl);
    let g = fixed_colors(count, false);
    assert(g == rgb_grid(rl, gl, bl));
    if two_pow(d) == count {
        assert(g.take(count) =~= g);
    }
}

} // verus!
