//! Image-backed texture lookup.  Loading pixels from an image file is
//! I/O and happens outside the core; the core holds the decoded bytes
//! and answers UV lookups exactly.

use vstd::prelude::*;

verus! {

use crate::SCALE;
use crate::fixed::div_floor;
use crate::vec3::Vec3;

#[derive(Debug)]
pub struct ImageTexture {
    pub width: u32,
    pub height: u32,
    pub bytes_per_scanline: u32,
    pub data: Vec<u8>,
}

/// Bytes per pixel of the stored image data.
pub const BYTES_PER_PIXEL: u32 = 3;

/// A UV coordinate clamped into `[0, 1]` on the grid.
pub open spec fn clamp01(u: int) -> int {
    if u < 0 {
        0
    } else if u > SCALE as int {
        SCALE as int
    } else {
        u
    }
}

/// The column index a `u` coordinate maps to.
pub open spec fn col_of(u: int, width: int) -> int {
    let i = clamp01(u) * width / (SCALE as int);
    if i >= width {
        width - 1
    } else {
        i
    }
}

/// The row index a `v` coordinate maps to (image rows run top-down).
pub open spec fn row_of(v: int, height: int) -> int {
    let j = (SCALE as int - clamp01(v)) * height / (SCALE as int);
    if j >= height {
        height - 1
    } else {
        j
    }
}

/// A stored byte as a fixed-point channel in `[0, 1]`.
pub open spec fn byte_channel(b: int) -> int {
    b * (SCALE as int) / 255
}

impl ImageTexture {
    /// The scanline stride matches the width and the data holds
    /// exactly one image.
    pub open spec fn wf(self) -> bool {
        self.bytes_per_scanline == self.width * (BYTES_PER_PIXEL as int) && self.data@.len()
            == self.width * self.height * (BYTES_PER_PIXEL as int)
    }

    pub fn default() -> (t: ImageTexture)
        ensures
            t.width == 0,
            t.height == 0,
            t.bytes_per_scanline == 0,
            t.data@.len() == 0,
            t.wf(),
    {
        ImageTexture { width: 0, height: 0, bytes_per_scanline: 0, data: Vec::new() }
    }

    /// Wraps already-decoded pixel bytes; the caller (which did the
    /// file I/O) passes the image dimensions, and mismatched data is
    /// rejected.
    pub fn with_data(width: u32, height: u32, data: Vec<u8>) -> (res: Option<ImageTexture>)
        ensures
            (res is Some) == ((width as int) * (height as int) * (BYTES_PER_PIXEL as int)
                == data@.len() && (width as int) * (BYTES_PER_PIXEL as int) <= u32::MAX),
            res matches Some(t) ==> t.width == width && t.height == height && t.data@ == data@
                && t.wf(),
    {
        proof {
            assert((width as int) * (height as int) < 0x10000000000000000) by (nonlinear_arith)
                requires
                    width <= 0xffffffff,
                    height <= 0xffffffff,
            {}
        }
        let wh = (width as u64) * (height as u64);
        let dl = data.len() as u64;
        if wh > 6148914691236517205 {
            proof {
                assert((width as int) * (height as int) * (BYTES_PER_PIXEL as int)
                    > 0xffffffffffffffff >= data@.len()) by (nonlinear_arith)
                    requires
                        (width as int) * (height as int) > 6148914691236517205,
                        data@.len() == dl as int,
                        dl <= 0xffffffffffffffff,
                {}
            }
            return None;
        }
        let need = wh * (BYTES_PER_PIXEL as u64);
        let stride = (width as u64) * (BYTES_PER_PIXEL as u64);
        if need == dl && stride <= u32::MAX as u64 {
            Some(
                ImageTexture {
                    width,
                    height,
                    bytes_per_scanline: stride as u32,
                    data,
                },
            )
        } else {
            None
        }
    }

    /// Looks the colour up at fixed-point UV coordinates; an empty
    /// texture answers the obvious fallback cyan.
    pub fn value(&self, u: i64, v: i64, p: &Vec3) -> (c: Vec3)
        requires
            self.wf(),
        ensures
            self.data@.len() == 0 ==> c == (Vec3 { x: 0, y: SCALE, z: SCALE }),
            self.data@.len() != 0 ==> c == (Vec3 {
                x: byte_channel(
                    self.data@[row_of(v as int, self.height as int) * (self.bytes_per_scanline as int)
                        + col_of(u as int, self.width as int) * (BYTES_PER_PIXEL as int)] as int,
                ) as i64,
                y: byte_channel(
                    self.data@[row_of(v as int, self.height as int) * (self.bytes_per_scanline as int)
                        + col_of(u as int, self.width as int) * (BYTES_PER_PIXEL as int) + 1] as int,
                ) as i64,
                z: byte_channel(
                    self.data@[row_of(v as int, self.height as int) * (self.bytes_per_scanline as int)
                        + col_of(u as int, self.width as int) * (BYTES_PER_PIXEL as int) + 2] as int,
                ) as i64,
            }),
    {
        if self.data.len() == 0 {
            return Vec3 { x: 0, y: SCALE, z: SCALE };
        }
        proof {
            assert(self.width * self.height * (BYTES_PER_PIXEL as int) > 0);
            assert(self.width > 0 && self.height > 0) by (nonlinear_arith)
                requires
                    (self.width as int) * (self.height as int) * (BYTES_PER_PIXEL as int) > 0,
            {}
        }
        let ucl: i64 = if u < 0 {
            0
        } else if u > SCALE {
            SCALE
        } else {
            u
        };
        let vcl: i64 = if v < 0 {
            0
        } else if v > SCALE {
            SCALE
        } else {
            v
        };
        proof {
            assert(0 <= (ucl as int) * (self.width as int) <= 0x1000000000000) by (nonlinear_arith)
                requires
                    0 <= ucl <= 65536,
                    0 <= self.width <= 0x100000000,
            {}
            crate::vec3::lemma_div_f_bounds(
                (ucl as int) * (self.width as int),
                SCALE as int,
                0,
                0x1000000000000,
            );
            assert(0 <= ((SCALE - vcl) as int) * (self.height as int) <= 0x1000000000000)
                by (nonlinear_arith)
                requires
                    0 <= SCALE - vcl <= 65536,
                    0 <= self.height <= 0x100000000,
            {}
            crate::vec3::lemma_div_f_bounds(
                ((SCALE - vcl) as int) * (self.height as int),
                SCALE as int,
                0,
                0x1000000000000,
            );
        }
        let mut i = div_floor((ucl as i128) * (self.width as i128), SCALE as i128) as u64;
        let mut j = div_floor(((SCALE - vcl) as i128) * (self.height as i128), SCALE as i128) as u64;
        if i >= self.width as u64 {
            i = (self.width - 1) as u64;
        }
        if j >= self.height as u64 {
            j = (self.height - 1) as u64;
        }
        proof {
            lemma_texel_index(i as int, j as int, self.width as int, self.height as int);
            assert(self.bytes_per_scanline as int == self.width as int * 3);
        }
        let idx = j * (self.bytes_per_scanline as u64) + i * (BYTES_PER_PIXEL as u64);
        let b0 = self.data[idx as usize];
        let b1 = self.data[(idx + 1) as usize];
        let b2 = self.data[(idx + 2) as usize];
        Vec3 { x: channel_of_byte(b0), y: channel_of_byte(b1), z: channel_of_byte(b2) }
    }
}

/// The texel's byte index leaves room for its three channels.
proof fn lemma_texel_index(i: int, j: int, width: int, height: int)
    requires
        0 <= i < width,
        0 <= j < height,
        width <= 0x100000000,
        height <= 0x100000000,
    ensures
        0 <= j * (width * 3) + i * 3,
        j * (width * 3) + i * 3 + 2 < width * height * 3,
{
    assert(0 <= j * (width * 3) + i * 3 && j * (width * 3) + i * 3 + 2 < width * height * 3)
        by (nonlinear_arith)
        requires
            0 <= i < width,
            0 <= j < height,
            width <= 0x100000000,
            height <= 0x100000000,
    {}
}

/// A byte rescaled to the fixed-point unit interval.
fn channel_of_byte(b: u8) -> (c: i64)
    ensures
        c as int == byte_channel(b as int),
{
    let q = div_floor((b as i128) * (SCALE as i128), 255);
    proof {
        crate::vec3::lemma_div_f_bounds((b as int) * (SCALE as int), 255, 0, 16711680);
    }
    q as i64
}

} // verus!
