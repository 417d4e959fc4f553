//! A sphere whose centre moves linearly between two points over a time
//! interval.  The shutter time picks the interpolated centre; the rest
//! is ordinary sphere intersection at that centre.

use vstd::prelude::*;

verus! {

use crate::SCALE;
use crate::aabb::{surrounding_box, union_spec, AABB};
use crate::fixed::{div_f, div_f_i128, fmul};
use crate::hittable::{clamp_c, clamp_spec, HitRecord};
use crate::ray::Ray;
use crate::sphere::{sphere_box_spec, sphere_hit_spec, Sphere};
use crate::vec3::{fmul_s, t_ok, Vec3, COORD_LIMIT};

#[derive(Clone, Copy, PartialEq, Eq, Structural, Debug)]
pub struct MovingSphere {
    pub center0: Vec3,
    pub center1: Vec3,
    pub time0: i64,
    pub time1: i64,
    pub sphere: Sphere,
}

/// Interpolation numerator for a time clamped into the motion window.
pub open spec fn time_frac(m: MovingSphere, time: int) -> int {
    let tc = if time < m.time0 {
        m.time0 as int
    } else if time > m.time1 {
        m.time1 as int
    } else {
        time
    };
    div_f((SCALE as int) * (tc - m.time0), m.time1 - m.time0)
}

/// One component of the interpolated centre, kept inside the scene
/// bound (interpolation never actually leaves the segment).
pub open spec fn center_component(c0: int, c1: int, frac: int) -> int {
    clamp_spec(c0 + fmul_s(frac, c1 - c0))
}

/// The centre at a given shutter time.
pub open spec fn center_at_spec(m: MovingSphere, time: int) -> Vec3 {
    let f = time_frac(m, time);
    Vec3 {
        x: center_component(m.center0.x as int, m.center1.x as int, f) as i64,
        y: center_component(m.center0.y as int, m.center1.y as int, f) as i64,
        z: center_component(m.center0.z as int, m.center1.z as int, f) as i64,
    }
}

/// The sphere the moving sphere is at the ray's shutter time.
pub open spec fn sphere_at_spec(m: MovingSphere, time: int) -> Sphere {
    Sphere { center: center_at_spec(m, time), radius: m.sphere.radius, mat: m.sphere.mat }
}

/// Identical to a static sphere at the interpolated centre; like the
/// static sphere, it reports zero UV and leaves spherical texture
/// coordinates to the shading layer.
pub open spec fn moving_sphere_hit_spec(m: MovingSphere, r: Ray, tmin: int, tmax: int) -> Option<
    HitRecord,
> {
    sphere_hit_spec(sphere_at_spec(m, r.tm as int), r, tmin, tmax)
}

impl MovingSphere {
    pub open spec fn wf(self) -> bool {
        self.center0.wf() && self.center1.wf() && 0 <= self.time0 < self.time1 <= SCALE
            && self.sphere.wf() && self.sphere.center == self.center0
    }

    pub fn new(center0: Vec3, center1: Vec3, time0: i64, time1: i64, radius: i64, m: u64) -> (s:
        MovingSphere)
        ensures
            s == (MovingSphere {
                center0,
                center1,
                time0,
                time1,
                sphere: Sphere { center: center0, radius, mat: m },
            }),
    {
        MovingSphere {
            center0,
            center1,
            time0,
            time1,
            sphere: Sphere { center: center0, radius, mat: m },
        }
    }

    /// The interpolated centre; times outside the motion window clamp
    /// to its ends.
    pub fn center(&self, time: i64) -> (c: Vec3)
        requires
            self.wf(),
        ensures
            c == center_at_spec(*self, time as int),
            c.wf(),
    {
        let tc = if time < self.time0 {
            self.time0
        } else if time > self.time1 {
            self.time1
        } else {
            time
        };
        let dt = self.time1 - self.time0;
        proof {
            assert(0 <= (SCALE as int) * ((tc - self.time0) as int) <= 0x100000000) by (nonlinear_arith)
                requires
                    0 <= tc - self.time0 <= SCALE as int,
                    SCALE == 65536,
            {}
            crate::vec3::lemma_div_f_bounds(
                (SCALE as int) * ((tc - self.time0) as int),
                dt as int,
                0,
                0x100000000,
            );
        }
        let f = div_f_i128((SCALE as i128) * ((tc as i128) - (self.time0 as i128)), dt as i128);
        let fi = f as i64;
        proof {
            lemma_center_mul_bound(self.center0.x as int, self.center1.x as int, fi as int);
            lemma_center_mul_bound(self.center0.y as int, self.center1.y as int, fi as int);
            lemma_center_mul_bound(self.center0.z as int, self.center1.z as int, fi as int);
        }
        let ix = crate::fixed::div_floor(
            (fi as i128) * ((self.center1.x as i128) - (self.center0.x as i128)),
            SCALE as i128,
        );
        let iy = crate::fixed::div_floor(
            (fi as i128) * ((self.center1.y as i128) - (self.center0.y as i128)),
            SCALE as i128,
        );
        let iz = crate::fixed::div_floor(
            (fi as i128) * ((self.center1.z as i128) - (self.center0.z as i128)),
            SCALE as i128,
        );
        let cx = clamp_c((self.center0.x as i128) + ix, 1);
        let cy = clamp_c((self.center0.y as i128) + iy, 1);
        let cz = clamp_c((self.center0.z as i128) + iz, 1);
        Vec3 { x: cx, y: cy, z: cz }
    }

    pub fn radius(&self) -> (r: i64)
        ensures
            r == self.sphere.radius,
    {
        self.sphere.radius
    }

    pub fn mat(&self) -> (m: u64)
        ensures
            m == self.sphere.mat,
    {
        self.sphere.mat
    }

    /// Sphere intersection against the centre at the ray's time.
    pub fn hit(&self, r: &Ray, t_min: i64, t_max: i64) -> (res: Option<HitRecord>)
        requires
            self.wf(),
            r.wf(),
            t_ok(t_min as int),
            t_ok(t_max as int),
        ensures
            res == moving_sphere_hit_spec(*self, *r, t_min as int, t_max as int),
    {
        let c = self.center(r.time());
        let s = Sphere { center: c, radius: self.sphere.radius, mat: self.sphere.mat };
        s.hit(r, t_min, t_max)
    }

    /// The union of the padded spheres at the two query times.
    pub fn bounding_box(&self, time0: i64, time1: i64) -> (res: Option<AABB>)
        requires
            self.wf(),
        ensures
            res == Some(moving_sphere_box_spec(*self, time0 as int, time1 as int)),
    {
        let c0 = self.center(time0);
        let c1 = self.center(time1);
        let b0 = Sphere { center: c0, radius: self.sphere.radius, mat: self.sphere.mat };
        let b1 = Sphere { center: c1, radius: self.sphere.radius, mat: self.sphere.mat };
        let box0 = match b0.bounding_box(time0, time1) {
            Some(b) => b,
            None => {
                return None;
            },
        };
        let box1 = match b1.bounding_box(time0, time1) {
            Some(b) => b,
            None => {
                return None;
            },
        };
        Some(surrounding_box(box0, box1))
    }
}

pub open spec fn moving_sphere_box_spec(m: MovingSphere, t0: int, t1: int) -> AABB {
    union_spec(
        sphere_box_spec(sphere_at_spec(m, t0)),
        sphere_box_spec(sphere_at_spec(m, t1)),
    )
}

/// The interpolation product stays well inside `i128` and the division
/// matches the spec-level fixed-point product.
proof fn lemma_center_mul_bound(c0: int, c1: int, f: int)
    requires
        -(COORD_LIMIT as int) <= c0 <= COORD_LIMIT as int,
        -(COORD_LIMIT as int) <= c1 <= COORD_LIMIT as int,
        0 <= f <= 0x100000000,
    ensures
        -0x1000000000000000 <= f * (c1 - c0) <= 0x1000000000000000,
        c0 + fmul_s(f, c1 - c0) < i128::MAX,
        c0 + fmul_s(f, c1 - c0) > i128::MIN,
{
    assert(-0x1000000000000000 <= f * (c1 - c0) <= 0x1000000000000000) by (nonlinear_arith)
        requires
            0 <= f <= 0x100000000,
            -0x10000000 <= c1 - c0 <= 0x10000000,
    {}
    crate::vec3::lemma_div_f_bounds(
        f * (c1 - c0),
        SCALE as int,
        -0x1000000000000000,
        0x1000000000000000,
    );
}

} // verus!
