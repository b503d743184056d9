//! 8-bit RGB colors and their conversions from linear fixed-point vectors.

use vstd::prelude::*;

verus! {

use crate::fixed::FX_ONE;
use crate::fixed::lemma_mul_bound;
use crate::fixed::lemma_tdiv_bound;
use crate::fixed::tdiv;
use crate::vector::Vector;
use crate::vector::in_range;

/// An RGB color; each channel ranges over 0 to 255.
#[derive(Clone, Copy, Debug, PartialEq, Eq, Structural, Default)]
pub struct Color {
    pub red: u8,
    pub green: u8,
    pub blue: u8,
}

/// One channel of the linear-to-8-bit conversion: the magnitude of the
/// fixed-point value, scaled by 255 and saturated at 255.
pub open spec fn spec_channel_from_fx(v: int) -> u8 {
    let m = if v >= 0 {
        v
    } else {
        -v
    };
    let s = tdiv(m * 255, FX_ONE as int);
    if s > 255 {
        255u8
    } else {
        s as u8
    }
}

/// One channel of the clamped conversion for values already on the 0-to-255
/// scale: negative values clamp to 0 and values above 255 clamp to 255.
pub open spec fn spec_channel_clamp(v: int) -> u8 {
    let s = tdiv(v, FX_ONE as int);
    if s < 0 {
        0u8
    } else if s > 255 {
        255u8
    } else {
        s as u8
    }
}

impl Color {
    pub fn new(red: u8, green: u8, blue: u8) -> (r: Color)
        ensures
            r == (Color { red, green, blue }),
    {
        Color { red, green, blue }
    }

    /// The color of a linear vector on the 0-to-1 fixed-point scale: each
    /// channel is the magnitude scaled by 255, saturated at 255.
    pub fn from_vec(v: Vector) -> (r: Color)
        requires
            in_range(v, 0x4000000000000),
        ensures
            r.red == spec_channel_from_fx(v.x as int),
            r.green == spec_channel_from_fx(v.y as int),
            r.blue == spec_channel_from_fx(v.z as int),
    {
        Color {
            red: channel_from_fx(v.x),
            green: channel_from_fx(v.y),
            blue: channel_from_fx(v.z),
        }
    }

    /// The color of a vector already on the 0-to-255 fixed-point scale; each
    /// channel is clamped to its 8-bit range.
    pub fn from_vec_255(v: Vector) -> (r: Color)
        requires
            in_range(v, 0x4000000000000),
        ensures
            r.red == spec_channel_clamp(v.x as int),
            r.green == spec_channel_clamp(v.y as int),
            r.blue == spec_channel_clamp(v.z as int),
    {
        Color {
            red: channel_clamp(v.x),
            green: channel_clamp(v.y),
            blue: channel_clamp(v.z),
        }
    }

    pub fn white() -> (r: Color)
        ensures
            r == (Color { red: 255u8, green: 255u8, blue: 255u8 }),
    {
        Color { red: 255, green: 255, blue: 255 }
    }

    pub fn black() -> (r: Color)
        ensures
            r == (Color { red: 0u8, green: 0u8, blue: 0u8 }),
    {
        Color { red: 0, green: 0, blue: 0 }
    }

    /// A color with three uniformly random channels.
    pub fn random() -> Color {
        Color { red: rand_u8(), green: rand_u8(), blue: rand_u8() }
    }

    /// The color packed as a 32-bit display word: blue in the low byte, then
    /// green, then red, with the top byte clear.
    pub fn bgr_word(&self) -> (r: u32)
        ensures
            r == self.blue + self.green as int * 0x100 + self.red as int * 0x10000,
    {
        (self.blue as u32) + (self.green as u32) * 0x100 + (self.red as u32) * 0x10000
    }
}

/// Relies on rand::random: a uniformly random byte from the thread-local
/// generator; nothing can be promised of its value.
#[verifier::external_body]
fn rand_u8() -> u8 {
    rand::random::<u8>()
}

/// One saturating channel conversion.
fn channel_from_fx(v: i64) -> (r: u8)
    requires
        -0x4000000000000 <= v <= 0x4000000000000,
    ensures
        r == spec_channel_from_fx(v as int),
{
    let m: u64 = if v >= 0 {
        v as u64
    } else {
        (-v) as u64
    };
    let s: u64 = m * 255 / 65536;
    proof {
        let mi = if v >= 0 {
            v as int
        } else {
            -v as int
        };
        lemma_mul_bound(mi, 255, 0x4000000000000, 255);
        vstd::arithmetic::div_mod::lemma_div_pos_is_pos(mi * 255, 65536);
        lemma_tdiv_bound(mi * 255, 65536, 0x4000000000000 as int * 255);
    }
    if s > 255 {
        255
    } else {
        s as u8
    }
}

/// One clamping channel conversion.
fn channel_clamp(v: i64) -> (r: u8)
    requires
        -0x4000000000000 <= v <= 0x4000000000000,
    ensures
        r == spec_channel_clamp(v as int),
{
    if v < 0 {
        proof {
            vstd::arithmetic::div_mod::lemma_div_pos_is_pos(-v as int, FX_ONE as int);
        }
        0
    } else {
        let s: u64 = (v as u64) / 65536;
        proof {
            vstd::arithmetic::div_mod::lemma_div_pos_is_pos(v as int, 65536);
        }
        if s > 255 {
            255
        } else {
            s as u8
        }
    }
}

} // verus!
