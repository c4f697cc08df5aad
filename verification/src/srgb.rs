//! Colors as display bytes. Their three channels follow the sRGB transfer curve, which is
//! straight near black and a power elsewhere; alpha is straight in both forms. The powers
//! themselves are computed outside and handed in, each for the base that is named here.

use crate::brush::{LinearRgba, ONE};
use crate::float32::Float32;
use vstd::prelude::*;

verus! {

/// The bit pattern of 255.0.
pub const BYTE_MAX: u32 = 0x437f_0000;

/// The bit pattern of 0.5.
pub const HALF: u32 = 0x3f00_0000;

/// The bit pattern of 0.04045, where the encoded curve stops being straight.
pub const ENCODED_LIMIT: u32 = 0x3d25_aee6;

/// The bit pattern of 0.0031308, where the linear curve stops being straight.
pub const LINEAR_LIMIT: u32 = 0x3b4d_2e1c;

/// The bit pattern of 12.92, the slope of the straight part.
pub const SLOPE: u32 = 0x414e_b852;

/// The bit pattern of 0.055.
pub const OFFSET: u32 = 0x3d61_47ae;

/// The bit pattern of 1.055.
pub const GAIN: u32 = 0x3f87_0a3d;

/// The bit pattern of 2.4, the exponent from encoded to linear.
pub const DECODE_EXPONENT: u32 = 0x4019_999a;

/// The bit pattern of 1.0 / 2.4, the exponent from linear to encoded.
pub const ENCODE_EXPONENT: u32 = 0x3ed5_5555;

/// One value for each color channel.
#[derive(Debug, Clone, Copy)]
pub struct Channels {
    pub r: Float32,
    pub g: Float32,
    pub b: Float32,
}

/// A byte as a part of 255.
pub open spec fn part(byte: u8) -> Float32 {
    Float32::of_whole(byte as int).quotient(Float32(BYTE_MAX))
}

/// What is raised to the power 2.4 to decode a channel.
pub open spec fn decode_base(c: Float32) -> Float32 {
    c.sum(Float32(OFFSET)).quotient(Float32(GAIN))
}

/// An encoded channel made linear, `power` being its base raised to 2.4.
pub open spec fn decoded(c: Float32, power: Float32) -> Float32 {
    if c.at_most(Float32(ENCODED_LIMIT)) {
        c.quotient(Float32(SLOPE))
    } else {
        power
    }
}

/// A linear channel encoded, `power` being it raised to 1 / 2.4.
pub open spec fn encoded(c: Float32, power: Float32) -> Float32 {
    if c.at_most(Float32(LINEAR_LIMIT)) {
        Float32(SLOPE).product(c)
    } else {
        Float32(GAIN).product(power).difference(Float32(OFFSET))
    }
}

/// The byte nearest to a part of 255.
pub open spec fn byte_of(x: Float32) -> int {
    x.clamped(Float32(0), Float32(ONE)).product(Float32(BYTE_MAX)).sum(Float32(HALF)).byte()
}

fn part_of(byte: u8) -> (res: Float32)
    ensures
        res == part(byte),
{
    Float32::from_i64(byte as i64).div(Float32(BYTE_MAX))
}

fn base_of(byte: u8) -> (res: Float32)
    ensures
        res == decode_base(part(byte)),
{
    part_of(byte).add(Float32(OFFSET)).div(Float32(GAIN))
}

fn srgb_to_linear(c: Float32, power: Float32) -> (res: Float32)
    ensures
        res == decoded(c, power),
{
    if c.le(Float32(ENCODED_LIMIT)) {
        c.div(Float32(SLOPE))
    } else {
        power
    }
}

fn linear_to_srgb(c: Float32, power: Float32) -> (res: Float32)
    ensures
        res == encoded(c, power),
{
    if c.le(Float32(LINEAR_LIMIT)) {
        Float32(SLOPE).mul(c)
    } else {
        Float32(GAIN).mul(power).sub(Float32(OFFSET))
    }
}

fn quantize(x: Float32) -> (res: u8)
    ensures
        res as int == byte_of(x),
{
    x.clamp(Float32(0), Float32(ONE)).mul(Float32(BYTE_MAX)).add(Float32(HALF)).to_byte()
}

/// What is raised to the power 2.4, for each channel, to make display bytes linear.
pub fn decode_bases(rgba: [u8; 4]) -> (res: Channels)
    ensures
        res.r == decode_base(part(rgba[0])),
        res.g == decode_base(part(rgba[1])),
        res.b == decode_base(part(rgba[2])),
{
    Channels { r: base_of(rgba[0]), g: base_of(rgba[1]), b: base_of(rgba[2]) }
}

impl LinearRgba {
    /// The color of display bytes, from the bases of its channels raised to 2.4. Alpha has
    /// no curve.
    #[must_use]
    pub fn from_srgb8(rgba: [u8; 4], powers: Channels) -> (res: LinearRgba)
        ensures
            res == (LinearRgba {
                r: decoded(part(rgba[0]), powers.r),
                g: decoded(part(rgba[1]), powers.g),
                b: decoded(part(rgba[2]), powers.b),
                a: part(rgba[3]),
            }),
    {
        LinearRgba {
            r: srgb_to_linear(part_of(rgba[0]), powers.r),
            g: srgb_to_linear(part_of(rgba[1]), powers.g),
            b: srgb_to_linear(part_of(rgba[2]), powers.b),
            a: part_of(rgba[3]),
        }
    }

    /// The display bytes of a color, from its channels raised to 1 / 2.4.
    #[must_use]
    pub fn to_srgb8(self, powers: Channels) -> (res: [u8; 4])
        ensures
            res[0] as int == byte_of(encoded(self.r, powers.r)),
            res[1] as int == byte_of(encoded(self.g, powers.g)),
            res[2] as int == byte_of(encoded(self.b, powers.b)),
            res[3] as int == byte_of(self.a),
    {
        [
            quantize(linear_to_srgb(self.r, powers.r)),
            quantize(linear_to_srgb(self.g, powers.g)),
            quantize(linear_to_srgb(self.b, powers.b)),
            quantize(self.a),
        ]
    }
}

} // verus!
