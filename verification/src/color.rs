//! Colours packed as `0xRRGGBBAA`, taken apart into channels from zero to one.
use vstd::prelude::*;

use crate::float::{
    add32, at_most_single, bits, div32, int32, le32, of_int, pow32, ratio, single, steady, sum, unit,
    widen, FloatOp, FloatQuery, Unit,
};
use crate::scene::BRIGHTEST;

verus! {

/// A colour by its channels, which are singles from zero to one. Red, green and blue are encoded
/// as in sRGB; alpha is not multiplied into them.
#[derive(Debug, Clone, Copy, PartialEq)]
pub struct Rgba {
    pub r: u32,
    pub g: u32,
    pub b: u32,
    pub a: u32,
}

/// A byte as a fraction of 255.
pub open spec fn channel(fl: Unit, byte: int) -> u32 {
    div32(fl, int32(fl, byte as i64), BRIGHTEST)
}

/// The channels of a packed colour.
pub open spec fn unpacked(fl: Unit, packed: u32) -> Rgba {
    Rgba {
        r: channel(fl, packed as int / 0x100_0000),
        g: channel(fl, packed as int / 0x1_0000 % 0x100),
        b: channel(fl, packed as int / 0x100 % 0x100),
        a: channel(fl, packed as int % 0x100),
    }
}

/// Where the straight part of the sRGB curve ends, 0.04045.
pub const KNEE: u32 = 0x3D25_AEE6;

/// The slope of the straight part, 12.92.
pub const SLOPE: u32 = 0x414E_B852;

/// What is added below the curved part, 0.055.
pub const OFFSET: u32 = 0x3D61_47AE;

/// What the curved part is divided by, 1.055.
pub const SCALE: u32 = 0x3F87_0A3D;

/// The exponent of the curved part, 2.4.
pub const EXPONENT: u32 = 0x4019_999A;

/// An sRGB channel as linear light.
pub open spec fn linear(fl: Unit, c: u32) -> u32 {
    if le32(c, KNEE) {
        div32(fl, c, SLOPE)
    } else {
        pow32(fl, div32(fl, add32(fl, c, OFFSET), SCALE), EXPONENT)
    }
}

fn channel_of<F: Fn(&FloatOp) -> Option<u64>>(byte: u32, fl: &F) -> (r: u32)
    requires
        steady(*fl),
    ensures
        r == channel(unit(*fl), byte as int),
{
    ratio(fl, of_int(fl, byte as i64), BRIGHTEST)
}

impl Rgba {
    /// The channels of a packed colour.
    pub fn from_u32<F: Fn(&FloatOp) -> Option<u64>>(packed: u32, fl: &F) -> (r: Rgba)
        requires
            steady(*fl),
        ensures
            r == unpacked(unit(*fl), packed),
    {
        Rgba {
            r: channel_of(packed / 0x100_0000, fl),
            g: channel_of(packed / 0x1_0000 % 0x100, fl),
            b: channel_of(packed / 0x100 % 0x100, fl),
            a: channel_of(packed % 0x100, fl),
        }
    }

    /// The channels as doubles: red, green, blue, alpha.
    pub fn to_f64_array<F: Fn(&FloatOp) -> Option<u64>>(self, fl: &F) -> (r: [u64; 4])
        requires
            steady(*fl),
        ensures
            r@ == seq![
                bits(unit(*fl)(FloatQuery::Widen { single: self.r })),
                bits(unit(*fl)(FloatQuery::Widen { single: self.g })),
                bits(unit(*fl)(FloatQuery::Widen { single: self.b })),
                bits(unit(*fl)(FloatQuery::Widen { single: self.a })),
            ],
    {
        let r: [u64; 4] = [widen(fl, self.r), widen(fl, self.g), widen(fl, self.b), widen(fl, self.a)];
        r
    }

    /// An sRGB channel as linear light.
    pub fn srgb_to_linear<F: Fn(&FloatOp) -> Option<u64>>(c: u32, fl: &F) -> (r: u32)
        requires
            steady(*fl),
        ensures
            r == linear(unit(*fl), c),
    {
        if at_most_single(c, KNEE) {
            ratio(fl, c, SLOPE)
        } else {
            let base: u32 = ratio(fl, sum(fl, c, OFFSET), SCALE);
            single(fl, &FloatOp::PowSingle { x: base, y: EXPONENT })
        }
    }

    /// Red, green and blue as linear light, and alpha.
    pub fn to_linear_array<F: Fn(&FloatOp) -> Option<u64>>(self, fl: &F) -> (r: [u32; 4])
        requires
            steady(*fl),
        ensures
            r@ == seq![
                linear(unit(*fl), self.r),
                linear(unit(*fl), self.g),
                linear(unit(*fl), self.b),
                self.a,
            ],
    {
        let r: [u32; 4] = [
            Rgba::srgb_to_linear(self.r, fl),
            Rgba::srgb_to_linear(self.g, fl),
            Rgba::srgb_to_linear(self.b, fl),
            self.a,
        ];
        r
    }
}

} // verus!
