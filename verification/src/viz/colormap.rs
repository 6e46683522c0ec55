//! Named gradients for drawn values. A value is given in millionths and is
//! clamped to the range from 0 to 1 where a gradient has ends.

use vstd::prelude::*;

use crate::fixed::ONE;

verus! {

/// The channel `s` parts of `span` of the way from `a` to `b`.
pub open spec fn blended(a: int, b: int, s: int, span: int) -> int {
    (a * (span - s) + b * s) / span
}

/// The opaque colour `s` parts of `span` of the way from `a` to `b`.
pub open spec fn mix(a: (int, int, int), b: (int, int, int), s: int, span: int) -> Seq<int> {
    seq![
        blended(a.0, b.0, s, span),
        blended(a.1, b.1, s, span),
        blended(a.2, b.2, s, span),
        255,
    ]
}

/// A value brought into the range from 0 to 1.
pub open spec fn unit(t: int) -> int {
    if t < 0 {
        0
    } else if t > 1_000_000 {
        1_000_000
    } else {
        t
    }
}

/// The bytes of a colour as mathematical values.
pub open spec fn bytes_of(c: [u8; 4]) -> Seq<int> {
    seq![c[0] as int, c[1] as int, c[2] as int, c[3] as int]
}

/// A blend starts and ends at its ends, and stays between them.
pub proof fn law_blend_stays_between(a: int, b: int, s: int, span: int)
    requires
        0 <= s <= span,
        span > 0,
    ensures
        blended(a, b, 0, span) == a,
        blended(a, b, span, span) == b,
        a <= b ==> a <= blended(a, b, s, span) <= b,
        b <= a ==> b <= blended(a, b, s, span) <= a,
{
    let top = a * (span - s) + b * s;
    assert(a * span / span == a && b * span / span == b) by (nonlinear_arith)
        requires
            span > 0,
    ;
    assert(a * (span - 0) + b * 0 == a * span);
    assert(a * (span - span) + b * span == b * span);
    assert(a <= b ==> a * span <= top <= b * span) by (nonlinear_arith)
        requires
            0 <= s <= span,
            top == a * (span - s) + b * s,
    ;
    assert(b <= a ==> b * span <= top <= a * span) by (nonlinear_arith)
        requires
            0 <= s <= span,
            top == a * (span - s) + b * s,
    ;
    if a <= b {
        vstd::arithmetic::div_mod::lemma_div_is_ordered(a * span, top, span);
        vstd::arithmetic::div_mod::lemma_div_is_ordered(top, b * span, span);
    } else {
        vstd::arithmetic::div_mod::lemma_div_is_ordered(b * span, top, span);
        vstd::arithmetic::div_mod::lemma_div_is_ordered(top, a * span, span);
    }
}

/// The channel `s` parts of `span` of the way from `a` to `b`.
pub fn lerp(a: u8, b: u8, s: i64, span: i64) -> (c: u8)
    requires
        0 <= s <= span,
        0 < span <= 1_000_000_000,
    ensures
        c == blended(a as int, b as int, s as int, span as int),
{
    proof {
        law_blend_stays_between(a as int, b as int, s as int, span as int);
    }
    assert(0 <= a * (span - s) <= 255_000_000_000 && 0 <= b * s <= 255_000_000_000)
        by (nonlinear_arith)
        requires
            0 <= s <= span,
            span <= 1_000_000_000,
            a <= 255,
            b <= 255,
    ;
    ((a as i64 * (span - s) + b as i64 * s) / span) as u8
}

fn mixed(a: (u8, u8, u8), b: (u8, u8, u8), s: i64, span: i64) -> (c: [u8; 4])
    requires
        0 <= s <= span,
        0 < span <= 1_000_000_000,
    ensures
        bytes_of(c) == mix(
            (a.0 as int, a.1 as int, a.2 as int),
            (b.0 as int, b.1 as int, b.2 as int),
            s as int,
            span as int,
        ),
{
    [lerp(a.0, b.0, s, span), lerp(a.1, b.1, s, span), lerp(a.2, b.2, s, span), 255]
}

fn clamp(t: i64) -> (c: i64)
    ensures
        c == unit(t as int),
{
    if t < 0 {
        0
    } else if t > ONE {
        ONE
    } else {
        t
    }
}

/// Blue at the low end, green in the middle, tan at the high end.
pub open spec fn terrain_hue(t: int) -> Seq<int> {
    let v = unit(t);
    if v < 500_000 {
        mix((40, 80, 140), (80, 180, 100), v, 500_000)
    } else {
        mix((80, 180, 100), (220, 200, 140), v - 500_000, 500_000)
    }
}

/// Cool blue over green to warm tan, for heights.
pub fn terrain_ramp(t: i64) -> (c: [u8; 4])
    ensures
        bytes_of(c) == terrain_hue(t as int),
{
    let v: i64 = clamp(t);
    if v < 500_000 {
        mixed((40, 80, 140), (80, 180, 100), v, 500_000)
    } else {
        mixed((80, 180, 100), (220, 200, 140), v - 500_000, 500_000)
    }
}

/// Five stops a quarter apart: dark purple, blue, teal, green and yellow.
pub open spec fn viridis_hue(t: int) -> Seq<int> {
    let v = unit(t);
    if v < 250_000 {
        mix((68, 1, 84), (59, 82, 139), v, 250_000)
    } else if v < 500_000 {
        mix((59, 82, 139), (33, 144, 140), v - 250_000, 250_000)
    } else if v < 750_000 {
        mix((33, 144, 140), (94, 201, 98), v - 500_000, 250_000)
    } else {
        mix((94, 201, 98), (253, 231, 37), v - 750_000, 250_000)
    }
}

/// Close to viridis, for temperature and humidity.
pub fn viridis(t: i64) -> (c: [u8; 4])
    ensures
        bytes_of(c) == viridis_hue(t as int),
{
    let v: i64 = clamp(t);
    if v < 250_000 {
        mixed((68, 1, 84), (59, 82, 139), v, 250_000)
    } else if v < 500_000 {
        mixed((59, 82, 139), (33, 144, 140), v - 250_000, 250_000)
    } else if v < 750_000 {
        mixed((33, 144, 140), (94, 201, 98), v - 500_000, 250_000)
    } else {
        mixed((94, 201, 98), (253, 231, 37), v - 750_000, 250_000)
    }
}

/// Red below the middle, blue above it, dark in the middle.
pub open spec fn divergent_hue(t: int) -> Seq<int> {
    let v = unit(t);
    if v < 500_000 {
        mix((220, 0, 0), (0, 0, 0), v, 500_000)
    } else {
        mix((0, 0, 0), (0, 0, 220), v - 500_000, 500_000)
    }
}

/// Red below the middle and blue above, for signed values.
pub fn divergent(t: i64) -> (c: [u8; 4])
    ensures
        bytes_of(c) == divergent_hue(t as int),
{
    let v: i64 = clamp(t);
    if v < 500_000 {
        mixed((220, 0, 0), (0, 0, 0), v, 500_000)
    } else {
        mixed((0, 0, 0), (0, 0, 220), v - 500_000, 500_000)
    }
}

/// Black, red, yellow and white.
pub open spec fn hot_hue(t: int) -> Seq<int> {
    let v = unit(t);
    if v < 330_000 {
        mix((0, 0, 0), (255, 0, 0), v, 330_000)
    } else if v < 660_000 {
        mix((255, 0, 0), (255, 255, 0), v - 330_000, 330_000)
    } else {
        mix((255, 255, 0), (255, 255, 255), v - 660_000, 340_000)
    }
}

/// Black over red and yellow to white, for intensities.
pub fn hot(t: i64) -> (c: [u8; 4])
    ensures
        bytes_of(c) == hot_hue(t as int),
{
    let v: i64 = clamp(t);
    if v < 330_000 {
        mixed((0, 0, 0), (255, 0, 0), v, 330_000)
    } else if v < 660_000 {
        mixed((255, 0, 0), (255, 255, 0), v - 330_000, 330_000)
    } else {
        mixed((255, 255, 0), (255, 255, 255), v - 660_000, 340_000)
    }
}

/// The first colour below the middle, the second from there on.
pub fn binary(t: i64, a: [u8; 4], b: [u8; 4]) -> (c: [u8; 4])
    ensures
        c == if t < 500_000 {
            a
        } else {
            b
        },
{
    if t < 500_000 {
        a
    } else {
        b
    }
}

/// The part of a value behind its point, without its sign.
pub open spec fn fraction(value: int) -> int {
    if value < 0 {
        (-value) % 1_000_000
    } else {
        value % 1_000_000
    }
}

/// How far the middle channel of a hue has risen, in millionths; the hue is
/// given in millionths of a sixth of the circle.
pub open spec fn wheel_rise(hue: int) -> int {
    let past = hue % 2_000_000;
    if past < 1_000_000 {
        past
    } else {
        2_000_000 - past
    }
}

/// The middle channel of a hue at 65 % saturation and 85 % value.
pub open spec fn wheel_channel(hue: int) -> int {
    (5_525 * wheel_rise(hue) + 2_975_000_000) * 255 / 10_000_000_000
}

/// The colour at a hue in millionths of a sixth of the circle.
pub open spec fn wheel(hue: int) -> Seq<int> {
    let x = wheel_channel(hue);
    let sixth = hue / 1_000_000;
    if sixth == 0 {
        seq![216, x, 75, 255]
    } else if sixth == 1 {
        seq![x, 216, 75, 255]
    } else if sixth == 2 {
        seq![75, 216, x, 255]
    } else if sixth == 3 {
        seq![75, x, 216, 255]
    } else if sixth == 4 {
        seq![x, 75, 216, 255]
    } else {
        seq![216, 75, x, 255]
    }
}

/// The colour of a category: whole numbers go once round the hues.
pub fn categorical(value: i64) -> (c: [u8; 4])
    ensures
        bytes_of(c) == wheel(fraction(value as int) * 6),
{
    let size: i128 = if value < 0 {
        -(value as i128)
    } else {
        value as i128
    };
    let hue: i64 = (size % 1_000_000 * 6) as i64;
    let past: i64 = hue % 2_000_000;
    let rise: i64 = if past < 1_000_000 {
        past
    } else {
        2_000_000 - past
    };
    let x: u8 = ((5_525 * rise + 2_975_000_000) * 255 / 10_000_000_000) as u8;
    let sixth: i64 = hue / 1_000_000;
    if sixth == 0 {
        [216, x, 75, 255]
    } else if sixth == 1 {
        [x, 216, 75, 255]
    } else if sixth == 2 {
        [75, 216, x, 255]
    } else if sixth == 3 {
        [75, x, 216, 255]
    } else if sixth == 4 {
        [x, 75, 216, 255]
    } else {
        [216, 75, x, 255]
    }
}

/// Blue for air, dark at the surface, red for solid ground, full at a density
/// of 8.
pub open spec fn density_hue(d: int) -> Seq<int> {
    if d < 0 {
        let s = if d < -8_000_000 {
            8_000_000
        } else {
            -d
        };
        mix((20, 60, 60), (0, 60, 220), s, 8_000_000)
    } else {
        let s = if d > 8_000_000 {
            8_000_000
        } else {
            d
        };
        mix((20, 60, 60), (220, 30, 30), s, 8_000_000)
    }
}

/// The colour of a density in millionths.
pub fn density_color(d: i64) -> (c: [u8; 4])
    ensures
        bytes_of(c) == density_hue(d as int),
{
    if d < 0 {
        let s: i64 = if d < -8_000_000 {
            8_000_000
        } else {
            -d
        };
        mixed((20, 60, 60), (0, 60, 220), s, 8_000_000)
    } else {
        let s: i64 = if d > 8_000_000 {
            8_000_000
        } else {
            d
        };
        mixed((20, 60, 60), (220, 30, 30), s, 8_000_000)
    }
}

/// A value beyond an end of a gradient has the colour of that end.
pub proof fn law_gradients_end_at_their_ends(t: int)
    ensures
        terrain_hue(t) == terrain_hue(unit(t)),
        viridis_hue(t) == viridis_hue(unit(t)),
        divergent_hue(t) == divergent_hue(unit(t)),
        hot_hue(t) == hot_hue(unit(t)),
{
}

} // verus!
