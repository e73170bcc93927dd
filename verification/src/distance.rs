//! The perceptual color metric, behind a trusted declaration. The outside
//! call hands back the raw bits of its IEEE 754 single-precision result;
//! verified code expands those bits into an exact fixed-point integer
//! (units of 2^-24) and accumulates distances with exact saturating
//! integer addition, so that every comparison the engine makes is over
//! plain integers.

use vstd::prelude::*;

verus! {

/// What `delta_e::DE2000::new` returns for the Lab conversions of two RGB
/// triples, as the raw bits of the IEEE 754 single-precision value: a
/// function of the six channel values alone.
pub uninterp spec fn de2000_bits_of(r1: u8, g1: u8, b1: u8, r2: u8, g2: u8, b2: u8) -> u32;

/// Relies on `lab::Lab::from_rgb` (the CIE Lab conversion of an RGB triple)
/// and `delta_e::DE2000::new` (the CIEDE2000 difference of two Lab colors):
/// both compute from their arguments alone, and on equal triples every
/// intermediate difference is exactly zero, so the result is positive zero
/// (all-zero bits). The first triple is the variant's color, the second
/// the error-adjusted source color; the result is handed back as its raw
/// bits.
#[verifier::external_body]
pub(crate) fn de2000_distance_bits(r1: u8, g1: u8, b1: u8, r2: u8, g2: u8, b2: u8) -> (r: u32)
    ensures
        r == de2000_bits_of(r1, g1, b1, r2, g2, b2),
        r1 == r2 && g1 == g2 && b1 == b2 ==> r == 0,
{
    let c1 = lab::Lab::from_rgb(&[r1, g1, b1]);
    let c2 = lab::Lab::from_rgb(&[r2, g2, b2]);
    delta_e::DE2000::new(c1, c2).to_bits()
}

/// The value the IEEE 754 single-precision bit pattern stands for, scaled
/// by 2^24 and truncated to an unsigned integer: negative values and
/// subnormals floor to zero, infinities and NaN saturate, and any finite
/// value too large for the scale saturates. Monotone in the represented
/// value over the non-negative range.
pub open spec fn fixed_of_bits_spec(bits: u32) -> u64 {
    let sign = bits >> 31;
    let e = (bits >> 23) & 0xff;
    let m = (bits & 0x7fffff) as u64;
    if sign == 1 {
        0u64
    } else if e == 255 {
        u64::MAX
    } else if e == 0 {
        0u64
    } else {
        let v = (0x800000u64 + m) as u64;
        if e >= 167 {
            u64::MAX
        } else if e >= 126 {
            (v << ((e - 126) as u64)) as u64
        } else if e + 63 < 126 {
            0u64
        } else {
            (v >> ((126 - e) as u64)) as u64
        }
    }
}

/// Expands IEEE 754 single-precision bits into the fixed-point integer the
/// engine accumulates: the represented value times 2^24, truncated.
pub fn fixed_of_bits(bits: u32) -> (r: u64)
    ensures
        r == fixed_of_bits_spec(bits),
{
    let sign: u32 = bits >> 31;
    let e: u32 = (bits >> 23) & 0xff;
    let m: u64 = (bits & 0x7fffff) as u64;
    if sign == 1 {
        0
    } else if e == 255 {
        u64::MAX
    } else if e == 0 {
        0
    } else {
        let v: u64 = 0x800000u64 + m;
        proof {
            assert((bits & 0x7fffff) < 0x800000) by (bit_vector);
            assert((bits >> 23) & 0xff < 256) by (bit_vector);
        }
        if e >= 167 {
            u64::MAX
        } else if e >= 126 {
            v << ((e - 126) as u64)
        } else if e + 63 < 126 {
            0
        } else {
            v >> ((126 - e) as u64)
        }
    }
}

/// Saturating unsigned addition: the accumulation rule of the engine's
/// distance sums, exact until the top of the `u64` range.
pub open spec fn sat_add_u64_spec(a: u64, b: u64) -> u64 {
    if a + b > u64::MAX {
        u64::MAX
    } else {
        (a + b) as u64
    }
}

/// Adds two accumulated distances, saturating at the top of the range.
pub fn sat_add_u64(a: u64, b: u64) -> (r: u64)
    ensures
        r == sat_add_u64_spec(a, b),
{
    if a > u64::MAX - b {
        u64::MAX
    } else {
        a + b
    }
}

} // verus!
