//! Tone mapping and 8-bit quantization.
//!
//! The documented rounding rule: a channel is averaged over the sample
//! count (rounding down), gamma-corrected by the floor square root on
//! the grid, clamped into `[0, 0.999]`, scaled by 256 and truncated.

use vstd::prelude::*;

verus! {

use crate::SCALE;
use crate::fixed::{div_f, div_f_i128, div_floor, isqrt, isqrt_spec, is_isqrt, lemma_isqrt_exists};
use crate::utils::dec_spec;
use crate::vec3::Vec3;
use vstd::string::StringExecFns;

/// Largest representable channel value below one: `floor(0.999 * SCALE)`.
pub const CLAMP_MAX: i64 = 65470;

/// The gamma map: square root on the grid, with non-positive channels
/// mapped to black.
pub open spec fn gamma_spec(x: int) -> int {
    if x <= 0 {
        0
    } else {
        isqrt_spec(x * (SCALE as int))
    }
}

/// One channel averaged over the sample count and gamma-corrected.
pub open spec fn channel_spec(c: int, samples: int) -> int {
    gamma_spec(div_f(c, samples))
}

/// The 8-bit value of a gamma-mapped channel.
pub open spec fn byte_spec(x: int) -> int {
    let cl = if x < 0 {
        0
    } else if x > CLAMP_MAX as int {
        CLAMP_MAX as int
    } else {
        x
    };
    cl * 256 / (SCALE as int)
}

pub open spec fn to_color_spec(c: Vec3, samples: int) -> Vec3 {
    Vec3 {
        x: channel_spec(c.x as int, samples) as i64,
        y: channel_spec(c.y as int, samples) as i64,
        z: channel_spec(c.z as int, samples) as i64,
    }
}

/// Averages the accumulated colour over the sample count and applies
/// the square-root gamma correction, channel by channel.
pub fn to_color(pixel_color: Vec3, samples_per_pixel: i32) -> (r: Vec3)
    requires
        samples_per_pixel > 0,
    ensures
        r == to_color_spec(pixel_color, samples_per_pixel as int),
{
    Vec3 {
        x: channel(pixel_color.x, samples_per_pixel),
        y: channel(pixel_color.y, samples_per_pixel),
        z: channel(pixel_color.z, samples_per_pixel),
    }
}

fn channel(c: i64, samples: i32) -> (r: i64)
    requires
        samples > 0,
    ensures
        r as int == channel_spec(c as int, samples as int),
        0 <= r <= 0x10000000000,
{
    proof {
        crate::vec3::lemma_div_f_bounds(
            c as int,
            samples as int,
            -0x8000000000000000,
            0x8000000000000000,
        );
    }
    let avg = div_floor(c as i128, samples as i128);
    if avg <= 0 {
        return 0;
    }
    let sq = isqrt(avg * (SCALE as i128));
    proof {
        let n = (avg as int) * (SCALE as int);
        assert(is_isqrt(n, sq as int));
        assert(avg <= 0x8000000000000000);
        assert(sq <= 0x10000000000) by (nonlinear_arith)
            requires
                (sq as int) * (sq as int) <= n,
                n <= 0x80000000000000000000,
                sq >= 0,
        {}
    }
    sq as i64
}

/// The three channel bytes of an already gamma-mapped colour, by the
/// documented `256 * clamp(channel, 0, 0.999)` truncation rule.
pub fn to_color_bytes(color: &Vec3) -> (r: (u8, u8, u8))
    ensures
        r.0 as int == byte_spec(color.x as int),
        r.1 as int == byte_spec(color.y as int),
        r.2 as int == byte_spec(color.z as int),
{
    (channel_byte(color.x), channel_byte(color.y), channel_byte(color.z))
}

fn channel_byte(x: i64) -> (r: u8)
    ensures
        r as int == byte_spec(x as int),
{
    let cl: i64 = if x < 0 {
        0
    } else if x > CLAMP_MAX {
        CLAMP_MAX
    } else {
        x
    };
    let q = div_floor((cl as i128) * 256, SCALE as i128);
    proof {
        crate::vec3::lemma_div_f_bounds((cl as int) * 256, SCALE as int, 0, 16760320);
        vstd::arithmetic::div_mod::lemma_div_is_ordered((cl as int) * 256, 16760320, SCALE as int);
    }
    q as u8
}

/// The decimal text `"R G B"` of a colour's three channel bytes.
pub fn format_color(color: &Vec3) -> (r: String)
    ensures
        r@ == dec_spec(byte_spec(color.x as int)) + seq![' '] + dec_spec(byte_spec(color.y as int))
            + seq![' '] + dec_spec(byte_spec(color.z as int)),
{
    proof {
        reveal_strlit(" ");
    }
    let (b0, b1, b2) = to_color_bytes(color);
    let mut s = crate::utils::dec_str_u64(b0 as u64);
    s.append(" ");
    let s1 = crate::utils::dec_str_u64(b1 as u64);
    s.append(s1.as_str());
    s.append(" ");
    let s2 = crate::utils::dec_str_u64(b2 as u64);
    s.append(s2.as_str());
    s
}

} // verus!
