use vstd::prelude::*;
use crate::fixed::{SCALE, qdiv, clamp_byte, clamp_byte_i128, div_i128, mul_i64w, lemma_mul_bound};
use crate::xyz::Xyz;

verus! {

/// A color: one byte per channel.
#[derive(Clone, Copy, Debug, PartialEq, Eq, Structural)]
pub struct Rgb8 {
    pub r: u8,
    pub g: u8,
    pub b: u8,
}

/// Saturating sum of two channel values.
pub open spec fn byte_add(a: u8, b: u8) -> u8 {
    clamp_byte(a + b)
}

/// Saturating difference of two channel values.
pub open spec fn byte_sub(a: u8, b: u8) -> u8 {
    clamp_byte(a - b)
}

/// A channel scaled by a fixed-point factor, clamped to the byte range.
pub open spec fn byte_scale(c: u8, f: int) -> u8 {
    clamp_byte(qdiv(c * f, SCALE as int))
}

/// A channel divided by a fixed-point divisor, clamped to the byte range;
/// division by zero resolves to the nearer end of the range.
pub open spec fn byte_scale_div(c: u8, f: int) -> u8 {
    if f == 0 {
        if c > 0 {
            255u8
        } else {
            0u8
        }
    } else {
        clamp_byte(qdiv(c * SCALE, f))
    }
}

/// Channelwise saturating color sum.
pub open spec fn rgb_add_spec(one: Rgb8, two: Rgb8) -> Rgb8 {
    Rgb8 { r: byte_add(one.r, two.r), g: byte_add(one.g, two.g), b: byte_add(one.b, two.b) }
}

/// Color scaled by a fixed-point factor, channelwise.
pub open spec fn rgb_mul_spec(one: Rgb8, two: int) -> Rgb8 {
    Rgb8 { r: byte_scale(one.r, two), g: byte_scale(one.g, two), b: byte_scale(one.b, two) }
}

/// Color scaled channelwise by the coordinates of a vector.
pub open spec fn rgb_xyz_mul_spec(one: Rgb8, two: Xyz) -> Rgb8 {
    Rgb8 {
        r: byte_scale(one.r, two.x as int),
        g: byte_scale(one.g, two.y as int),
        b: byte_scale(one.b, two.z as int),
    }
}

/// Sum clamped into a byte.
pub fn u8_add(one: i32, two: i32) -> (r: u8)
    ensures
        r == clamp_byte(one + two),
{
    clamp_byte_i128((one as i128) + (two as i128))
}

/// Difference clamped into a byte.
pub fn u8_sub(one: i32, two: i32) -> (r: u8)
    ensures
        r == clamp_byte(one - two),
{
    clamp_byte_i128((one as i128) - (two as i128))
}

/// Product of a channel with a fixed-point factor, clamped into a byte.
pub fn u8_mul(one: u8, two: i64) -> (r: u8)
    ensures
        r == byte_scale(one, two as int),
{
    let p = mul_i64w(one as i64, two);
    proof {
        lemma_mul_bound(one as int, two as int, 255, 0x8000000000000000);
    }
    let q = div_i128(p, SCALE as i128);
    clamp_byte_i128(q)
}

/// Quotient of a channel by a fixed-point divisor, clamped into a byte.
pub fn u8_div(one: u8, two: i64) -> (r: u8)
    ensures
        r == byte_scale_div(one, two as int),
{
    if two == 0 {
        if one > 0 {
            255
        } else {
            0
        }
    } else {
        let p = mul_i64w(one as i64, SCALE);
        proof {
            lemma_mul_bound(one as int, SCALE as int, 255, 4096);
        }
        let q = div_i128(p, two as i128);
        clamp_byte_i128(q)
    }
}

/// Exact sum of two values as i32.
pub fn i32_add(one: i32, two: i32) -> (r: i32)
    requires
        i32::MIN <= one + two <= i32::MAX,
    ensures
        r == one + two,
{
    one + two
}

/// Exact difference of two values as i32.
pub fn i32_sub(one: i32, two: i32) -> (r: i32)
    requires
        i32::MIN <= one - two <= i32::MAX,
    ensures
        r == one - two,
{
    one - two
}

/// The channels of a color, widened to i32.
pub fn rgb_to_arr(one: Rgb8) -> (r: [i32; 3])
    ensures
        r[0] == one.r && r[1] == one.g && r[2] == one.b,
{
    [one.r as i32, one.g as i32, one.b as i32]
}

/// The gray color with the given value in every channel.
pub fn u8_to_rgb(n: u8) -> (r: Rgb8)
    ensures
        r.r == n && r.g == n && r.b == n,
{
    Rgb8 { r: n, g: n, b: n }
}

/// Channelwise saturating color sum.
pub fn rgb_add(one: Rgb8, two: Rgb8) -> (r: Rgb8)
    ensures
        r == rgb_add_spec(one, two),
{
    Rgb8 {
        r: u8_add(one.r as i32, two.r as i32),
        g: u8_add(one.g as i32, two.g as i32),
        b: u8_add(one.b as i32, two.b as i32),
    }
}

/// Channelwise saturating color difference.
pub fn rgb_sub(one: Rgb8, two: Rgb8) -> (r: Rgb8)
    ensures
        r.r == byte_sub(one.r, two.r),
        r.g == byte_sub(one.g, two.g),
        r.b == byte_sub(one.b, two.b),
{
    Rgb8 {
        r: u8_sub(one.r as i32, two.r as i32),
        g: u8_sub(one.g as i32, two.g as i32),
        b: u8_sub(one.b as i32, two.b as i32),
    }
}

/// Color scaled by a fixed-point factor.
pub fn rgb_mul(one: Rgb8, two: i64) -> (r: Rgb8)
    ensures
        r == rgb_mul_spec(one, two as int),
{
    Rgb8 { r: u8_mul(one.r, two), g: u8_mul(one.g, two), b: u8_mul(one.b, two) }
}

/// Color divided by a fixed-point divisor.
pub fn rgb_div(one: Rgb8, two: i64) -> (r: Rgb8)
    ensures
        r.r == byte_scale_div(one.r, two as int),
        r.g == byte_scale_div(one.g, two as int),
        r.b == byte_scale_div(one.b, two as int),
{
    Rgb8 { r: u8_div(one.r, two), g: u8_div(one.g, two), b: u8_div(one.b, two) }
}

/// Color scaled channelwise by the coordinates of a vector.
pub fn rgb_xyz_mul(one: Rgb8, two: Xyz) -> (r: Rgb8)
    ensures
        r == rgb_xyz_mul_spec(one, two),
{
    Rgb8 { r: u8_mul(one.r, two.x), g: u8_mul(one.g, two.y), b: u8_mul(one.b, two.z) }
}

} // verus!
