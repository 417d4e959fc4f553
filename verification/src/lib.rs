//! Exact-arithmetic core of a small ray tracer.
//!
//! Scene geometry lives on a fixed-point grid: every coordinate, ray
//! parameter and colour channel is an `i64` holding the value scaled by
//! `SCALE`.  All intersection logic is integer arithmetic with explicit
//! floor rounding, so each function's contract can state its result
//! exactly.

use vstd::prelude::*;

pub mod aabb;
pub mod aarec;
pub mod bvh;
pub mod color;
pub mod constant_medium;
pub mod cube;
pub mod fixed;
pub mod hittable;
pub mod hittable_list;
pub mod material;
pub mod moving_sphere;
pub mod ray;
pub mod render;
pub mod sphere;
pub mod texture;
pub mod utils;
pub mod vec3;

verus! {

/// Number of raw fixed-point steps per world unit.
pub const SCALE: i64 = 65536;

} // verus!
