//! RGBA colors with 8-bit channels, signed per-channel error deltas, and the
//! small pieces of integer arithmetic the engine builds on: channel clamping,
//! truncating division, saturating accumulation, and the squared Euclidean
//! color distance.

use vstd::prelude::*;

verus! {

/// An RGBA color with 8-bit channels.
#[derive(Clone, Copy, PartialEq, Eq, Structural, Debug)]
pub struct Rgba8 {
    pub r: u8,
    pub g: u8,
    pub b: u8,
    pub a: u8,
}

impl Rgba8 {
    pub fn new(r: u8, g: u8, b: u8, a: u8) -> (c: Rgba8)
        ensures
            c == (Rgba8 { r, g, b, a }),
    {
        Rgba8 { r, g, b, a }
    }

    /// The fully transparent color, used by the built-in air variant.
    pub fn transparent() -> (c: Rgba8)
        ensures
            c == (Rgba8 { r: 0u8, g: 0u8, b: 0u8, a: 0u8 }),
    {
        Rgba8 { r: 0, g: 0, b: 0, a: 0 }
    }
}

/// A signed per-channel color delta, one entry of the error accumulator.
#[derive(Clone, Copy, PartialEq, Eq, Structural, Debug)]
pub struct ColorDelta {
    pub r: i64,
    pub g: i64,
    pub b: i64,
    pub a: i64,
}

impl ColorDelta {
    pub fn zero() -> (d: ColorDelta)
        ensures
            d == (ColorDelta { r: 0i64, g: 0i64, b: 0i64, a: 0i64 }),
    {
        ColorDelta { r: 0, g: 0, b: 0, a: 0 }
    }
}

/// Clamps a mathematical integer to the legal 8-bit channel range.
pub open spec fn clamp_channel_spec(v: int) -> int {
    if v < 0 {
        0
    } else if v > 255 {
        255
    } else {
        v
    }
}

/// Clamps a mathematical integer to the range of `i64`, the saturation rule
/// the error accumulator uses at its extremes.
pub open spec fn clip_i64_spec(v: int) -> int {
    if v < i64::MIN {
        i64::MIN as int
    } else if v > i64::MAX {
        i64::MAX as int
    } else {
        v
    }
}

/// Integer division truncated toward zero, the rounding rule of the residual
/// and of the kernel-weighted error contributions.
pub open spec fn tdiv_spec(a: int, b: int) -> int
    recommends
        b > 0,
{
    if a >= 0 {
        a / b
    } else {
        -((-a) / b)
    }
}

/// A source channel with the accumulated error applied, clamped to the legal
/// channel range: the value handed to the color distance.
pub open spec fn adjusted_channel_spec(c: u8, e: i64) -> int {
    clamp_channel_spec(c + e)
}

/// Applies the accumulated error to one channel and clamps the result to the
/// legal 8-bit range.
pub fn adjusted_channel(c: u8, e: i64) -> (r: u8)
    ensures
        r == adjusted_channel_spec(c, e),
{
    let s: i128 = c as i128 + e as i128;
    if s > 255 {
        255
    } else if s < 0 {
        0
    } else {
        s as u8
    }
}

/// The error-adjusted, clamped color of a source pixel under a delta.
pub open spec fn adjusted_color_spec(c: Rgba8, e: ColorDelta) -> Rgba8 {
    Rgba8 {
        r: adjusted_channel_spec(c.r, e.r) as u8,
        g: adjusted_channel_spec(c.g, e.g) as u8,
        b: adjusted_channel_spec(c.b, e.b) as u8,
        a: adjusted_channel_spec(c.a, e.a) as u8,
    }
}

/// Applies the accumulated error to all four channels and clamps each to the
/// legal 8-bit range.
pub fn adjusted_color(c: Rgba8, e: ColorDelta) -> (r: Rgba8)
    ensures
        r == adjusted_color_spec(c, e),
{
    Rgba8 {
        r: adjusted_channel(c.r, e.r),
        g: adjusted_channel(c.g, e.g),
        b: adjusted_channel(c.b, e.b),
        a: adjusted_channel(c.a, e.a),
    }
}

/// A channel difference squared stays within the square of its magnitude
/// bound.
pub proof fn lemma_square_bound(d: int)
    requires
        -255 <= d <= 255,
    ensures
        0 <= d * d <= 255 * 255,
{
    assert(0 <= d * d <= 255 * 255) by (nonlinear_arith)
        requires
            -255 <= d <= 255,
    ;
}

/// The squared Euclidean distance over all four channels.
pub open spec fn euclidean_distance_spec(c1: Rgba8, c2: Rgba8) -> int {
    (c1.r - c2.r) * (c1.r - c2.r) + (c1.g - c2.g) * (c1.g - c2.g) + (c1.b - c2.b) * (c1.b
        - c2.b) + (c1.a - c2.a) * (c1.a - c2.a)
}

/// The squared Euclidean distance between two colors across all four
/// channels; the metric used for cells with mixed transparency.
pub fn euclidean_distance(rgba_1: Rgba8, rgba_2: Rgba8) -> (d: usize)
    ensures
        d == euclidean_distance_spec(rgba_1, rgba_2),
        d <= 4 * 255 * 255,
{
    let dr: i64 = rgba_1.r as i64 - rgba_2.r as i64;
    let dg: i64 = rgba_1.g as i64 - rgba_2.g as i64;
    let db: i64 = rgba_1.b as i64 - rgba_2.b as i64;
    let da: i64 = rgba_1.a as i64 - rgba_2.a as i64;
    proof {
        lemma_square_bound(dr as int);
        lemma_square_bound(dg as int);
        lemma_square_bound(db as int);
        lemma_square_bound(da as int);
    }
    (dr * dr + dg * dg + db * db + da * da) as usize
}

/// Adds a delta to an accumulator entry, saturating at the extremes of `i64`.
pub fn saturating_add_i64(a: i64, d: i128) -> (r: i64)
    requires
        i128::MIN / 2 <= d <= i128::MAX / 2,
    ensures
        r == clip_i64_spec(a + d),
{
    let s: i128 = a as i128 + d;
    if s > i64::MAX as i128 {
        i64::MAX
    } else if s < i64::MIN as i128 {
        i64::MIN
    } else {
        s as i64
    }
}

/// Dividing a non-negative integer by a positive one can only shrink it.
pub proof fn lemma_div_shrinks(a: int, b: int)
    requires
        a >= 0,
        b > 0,
    ensures
        0 <= a / b <= a,
{
    assert(0 <= a / b <= a) by (nonlinear_arith)
        requires
            a >= 0,
            b > 0,
    ;
}

/// Divides truncating toward zero.
pub fn tdiv_i128(a: i128, b: i128) -> (r: i128)
    requires
        b > 0,
        a > i128::MIN,
    ensures
        r == tdiv_spec(a as int, b as int),
        a >= 0 ==> 0 <= r <= a,
        a < 0 ==> a <= r <= 0,
{
    if a >= 0 {
        let q: u128 = a as u128 / b as u128;
        proof {
            lemma_div_shrinks(a as int, b as int);
        }
        q as i128
    } else {
        let n: i128 = -a;
        let q: u128 = n as u128 / b as u128;
        proof {
            lemma_div_shrinks(n as int, b as int);
        }
        -(q as i128)
    }
}

} // verus!
