//! Ray/sphere intersection through the half-`b` quadratic, carried out
//! exactly on the fixed-point grid: the discriminant is exact, its
//! square root is the integer floor root, and each candidate root is
//! rounded down onto the grid before the range test.

use vstd::prelude::*;

verus! {

use crate::SCALE;
use crate::fixed::{div_f, div_floor, isqrt, isqrt_spec, lemma_isqrt_exists};
use crate::hittable::{clamp_c, clamp_spec, face_record_spec, make_face_record, HitRecord};
use crate::ray::{ray_at_spec, Ray};
use crate::vec3::{coord_ok, fmul_s, t_ok, Vec3, COORD_LIMIT};

#[derive(Clone, Copy, PartialEq, Eq, Structural, Debug)]
pub struct Sphere {
    pub center: Vec3,
    pub radius: i64,
    pub mat: u64,
}

/// Quadratic coefficients of `|o + t d - c|^2 == radius^2`, in raw
/// `SCALE^2` units: `a t^2 + 2 half_b t + c`.
pub open spec fn sph_a(s: Sphere, r: Ray) -> int {
    r.dir.x * r.dir.x + r.dir.y * r.dir.y + r.dir.z * r.dir.z
}

pub open spec fn sph_half_b(s: Sphere, r: Ray) -> int {
    r.dir.x * (r.orig.x - s.center.x) + r.dir.y * (r.orig.y - s.center.y) + r.dir.z * (r.orig.z
        - s.center.z)
}

pub open spec fn sph_c(s: Sphere, r: Ray) -> int {
    (r.orig.x - s.center.x) * (r.orig.x - s.center.x) + (r.orig.y - s.center.y) * (r.orig.y
        - s.center.y) + (r.orig.z - s.center.z) * (r.orig.z - s.center.z) - s.radius * s.radius
}

pub open spec fn sph_disc(s: Sphere, r: Ray) -> int {
    sph_half_b(s, r) * sph_half_b(s, r) - sph_a(s, r) * sph_c(s, r)
}

/// The grid value of root `(-half_b -/+ sqrt(disc)) / a`.
pub open spec fn sph_root(s: Sphere, r: Ray, sign: int) -> int {
    div_f((-sph_half_b(s, r) + sign * isqrt_spec(sph_disc(s, r))) * (SCALE as int), sph_a(s, r))
}

/// The record reported for a sphere hit at parameter `t`.
///
/// The surface UV coordinates are fixed at zero: the spherical-
/// coordinate formulas (`atan2`, `acos` of the outward normal) are
/// transcendental and have no exact value on the grid, so texture
/// mapping for spheres derives UV from the returned outward normal at
/// the shading layer instead.
pub open spec fn sphere_record_spec(s: Sphere, r: Ray, t: int) -> HitRecord {
    let p = ray_at_spec(r, t);
    let outward = Vec3 {
        x: clamp_spec(div_f((p.x - s.center.x) * (SCALE as int), s.radius as int)) as i64,
        y: clamp_spec(div_f((p.y - s.center.y) * (SCALE as int), s.radius as int)) as i64,
        z: clamp_spec(div_f((p.z - s.center.z) * (SCALE as int), s.radius as int)) as i64,
    };
    face_record_spec(r, p, outward, t, s.mat, 0, 0)
}

/// The nearer root strictly inside the open window `(tmin, tmax)`
/// wins; the farther one is the fallback; otherwise there is no hit.
/// A zero-length direction or a negative discriminant never hits.
pub open spec fn sphere_hit_spec(s: Sphere, r: Ray, tmin: int, tmax: int) -> Option<HitRecord> {
    if sph_a(s, r) == 0 || sph_disc(s, r) < 0 {
        None
    } else {
        let r1 = sph_root(s, r, -1);
        let r2 = sph_root(s, r, 1);
        if tmin < r1 < tmax {
            Some(sphere_record_spec(s, r, r1))
        } else if tmin < r2 < tmax {
            Some(sphere_record_spec(s, r, r2))
        } else {
            None
        }
    }
}

impl Sphere {
    pub open spec fn wf(self) -> bool {
        self.center.wf() && 0 < self.radius <= COORD_LIMIT
    }

    pub fn new() -> (s: Sphere)
        ensures
            s == (Sphere { center: Vec3 { x: 0, y: 0, z: 0 }, radius: SCALE, mat: 0 }),
            s.wf(),
    {
        Sphere { center: Vec3 { x: 0, y: 0, z: 0 }, radius: SCALE, mat: 0 }
    }

    pub fn with_center_and_radius(center: Vec3, radius: i64, m: u64) -> (s: Sphere)
        ensures
            s == (Sphere { center, radius, mat: m }),
    {
        Sphere { center, radius, mat: m }
    }

    pub fn radius(&self) -> (r: i64)
        ensures
            r == self.radius,
    {
        self.radius
    }

    pub fn mat(&self) -> (m: u64)
        ensures
            m == self.mat,
    {
        self.mat
    }

    /// The nearest grid root in range, with its surface record.
    pub fn hit(&self, r: &Ray, t_min: i64, t_max: i64) -> (res: Option<HitRecord>)
        requires
            self.wf(),
            r.wf(),
            t_ok(t_min as int),
            t_ok(t_max as int),
        ensures
            res == sphere_hit_spec(*self, *r, t_min as int, t_max as int),
    {
        let ghost s = *self;
        let ghost rr = *r;
        proof {
            lemma_sphere_bounds(s, rr);
        }
        let ocx = (r.orig.x as i128) - (self.center.x as i128);
        let ocy = (r.orig.y as i128) - (self.center.y as i128);
        let ocz = (r.orig.z as i128) - (self.center.z as i128);
        let dx = r.dir.x as i128;
        let dy = r.dir.y as i128;
        let dz = r.dir.z as i128;
        let a = dx * dx + dy * dy + dz * dz;
        let half_b = dx * ocx + dy * ocy + dz * ocz;
        let c = ocx * ocx + ocy * ocy + ocz * ocz - (self.radius as i128) * (self.radius as i128);
        if a == 0 {
            return None;
        }
        let disc = half_b * half_b - a * c;
        if disc < 0 {
            return None;
        }
        let sq = isqrt(disc);
        proof {
            lemma_sqrt_of_disc(s, rr);
        }
        let num1 = -half_b - sq;
        let num2 = -half_b + sq;
        proof {
            assert(a as int == sph_a(s, rr));
            assert(half_b as int == sph_half_b(s, rr));
            assert(c as int == sph_c(s, rr));
            assert(disc as int == sph_disc(s, rr));
            assert(sq as int == isqrt_spec(sph_disc(s, rr)));
            assert(-0x200000000000000000000 <= num1 as int <= 0x200000000000000000000);
            assert(-0x200000000000000000000 <= num2 as int <= 0x200000000000000000000);
        }
        let root1 = div_floor(num1 * (SCALE as i128), a);
        let root2 = div_floor(num2 * (SCALE as i128), a);
        let root: i64 = if (t_min as i128) < root1 && root1 < (t_max as i128) {
            root1 as i64
        } else if (t_min as i128) < root2 && root2 < (t_max as i128) {
            root2 as i64
        } else {
            return None;
        };
        Some(self.record_at(r, root))
    }

    /// Builds the hit record for an accepted root.
    fn record_at(&self, r: &Ray, t: i64) -> (rec: HitRecord)
        requires
            self.wf(),
            r.wf(),
            t_ok(t as int),
        ensures
            rec == sphere_record_spec(*self, *r, t as int),
    {
        let p = r.at(t);
        proof {
            crate::ray::lemma_mul_div_bound(t as int, r.dir.x as int);
            crate::ray::lemma_mul_div_bound(t as int, r.dir.y as int);
            crate::ray::lemma_mul_div_bound(t as int, r.dir.z as int);
            assert(p.x as int == (r.orig.x + fmul_s(t as int, r.dir.x as int)) as i64);
            assert(-0x8000000000000 <= p.x as int <= 0x8000000000000);
            assert(-0x8000000000000 <= p.y as int <= 0x8000000000000);
            assert(-0x8000000000000 <= p.z as int <= 0x8000000000000);
            lemma_point_scaled(p.x as int, self.center.x as int);
            lemma_point_scaled(p.y as int, self.center.y as int);
            lemma_point_scaled(p.z as int, self.center.z as int);
        }
        let nx = clamp_c(((p.x as i128) - (self.center.x as i128)) * (SCALE as i128), self.radius);
        let ny = clamp_c(((p.y as i128) - (self.center.y as i128)) * (SCALE as i128), self.radius);
        let nz = clamp_c(((p.z as i128) - (self.center.z as i128)) * (SCALE as i128), self.radius);
        let outward = Vec3 { x: nx, y: ny, z: nz };
        make_face_record(r, &p, &outward, t, self.mat, 0, 0)
    }

    /// The exact box `center +/- radius` on each axis.
    pub fn bounding_box(&self, time0: i64, time1: i64) -> (res: Option<crate::aabb::AABB>)
        requires
            self.wf(),
        ensures
            res == Some(sphere_box_spec(*self)),
    {
        Some(
            crate::aabb::AABB {
                minimum: Vec3 {
                    x: self.center.x - self.radius,
                    y: self.center.y - self.radius,
                    z: self.center.z - self.radius,
                },
                maximum: Vec3 {
                    x: self.center.x + self.radius,
                    y: self.center.y + self.radius,
                    z: self.center.z + self.radius,
                },
            },
        )
    }
}

pub open spec fn sphere_box_spec(s: Sphere) -> crate::aabb::AABB {
    crate::aabb::AABB {
        minimum: Vec3 {
            x: (s.center.x - s.radius) as i64,
            y: (s.center.y - s.radius) as i64,
            z: (s.center.z - s.radius) as i64,
        },
        maximum: Vec3 {
            x: (s.center.x + s.radius) as i64,
            y: (s.center.y + s.radius) as i64,
            z: (s.center.z + s.radius) as i64,
        },
    }
}

/// All quadratic intermediates of a well-formed sphere query fit
/// comfortably in `i128`.  The bounds are spelled out as literals:
/// coordinates are below `2^26`, so the products below stay under
/// `2^110`.
proof fn lemma_sphere_bounds(s: Sphere, r: Ray)
    requires
        s.wf(),
        r.wf(),
    ensures
        -0x10000000000000 <= r.dir.x * r.dir.x <= 0x10000000000000,
        -0x10000000000000 <= r.dir.y * r.dir.y <= 0x10000000000000,
        -0x10000000000000 <= r.dir.z * r.dir.z <= 0x10000000000000,
        -0x20000000000000 <= r.dir.x * (r.orig.x - s.center.x) <= 0x20000000000000,
        -0x20000000000000 <= r.dir.y * (r.orig.y - s.center.y) <= 0x20000000000000,
        -0x20000000000000 <= r.dir.z * (r.orig.z - s.center.z) <= 0x20000000000000,
        -0x40000000000000 <= (r.orig.x - s.center.x) * (r.orig.x - s.center.x) <= 0x40000000000000,
        -0x40000000000000 <= (r.orig.y - s.center.y) * (r.orig.y - s.center.y) <= 0x40000000000000,
        -0x40000000000000 <= (r.orig.z - s.center.z) * (r.orig.z - s.center.z) <= 0x40000000000000,
        -0x10000000000000 <= s.radius * s.radius <= 0x10000000000000,
        0 <= sph_a(s, r) <= 0x30000000000000,
        -0x60000000000000 <= sph_half_b(s, r) <= 0x60000000000000,
        -0xd0000000000000 <= sph_c(s, r) <= 0xd0000000000000,
        -0x100000000000000000000000000000 <= sph_half_b(s, r) * sph_half_b(s, r)
            <= 0x100000000000000000000000000000,
        -0x100000000000000000000000000000 <= sph_a(s, r) * sph_c(s, r)
            <= 0x100000000000000000000000000000,
        -0x1000000000000000000000000000000 <= sph_disc(s, r) <= 0x1000000000000000000000000000000,
{
    let l = COORD_LIMIT as int;
    lemma_sq_nonneg(r.dir.x as int);
    lemma_sq_nonneg(r.dir.y as int);
    lemma_sq_nonneg(r.dir.z as int);
    lemma_abs_prod(r.dir.x as int, r.dir.x as int, 0x4000000, 0x4000000);
    lemma_abs_prod(r.dir.y as int, r.dir.y as int, 0x4000000, 0x4000000);
    lemma_abs_prod(r.dir.z as int, r.dir.z as int, 0x4000000, 0x4000000);
    lemma_abs_prod(r.dir.x as int, r.orig.x - s.center.x, 0x4000000, 0x8000000);
    lemma_abs_prod(r.dir.y as int, r.orig.y - s.center.y, 0x4000000, 0x8000000);
    lemma_abs_prod(r.dir.z as int, r.orig.z - s.center.z, 0x4000000, 0x8000000);
    lemma_abs_prod(r.orig.x - s.center.x, r.orig.x - s.center.x, 0x8000000, 0x8000000);
    lemma_abs_prod(r.orig.y - s.center.y, r.orig.y - s.center.y, 0x8000000, 0x8000000);
    lemma_abs_prod(r.orig.z - s.center.z, r.orig.z - s.center.z, 0x8000000, 0x8000000);
    lemma_abs_prod(s.radius as int, s.radius as int, 0x4000000, 0x4000000);
    lemma_abs_prod(sph_half_b(s, r), sph_half_b(s, r), 0x60000000000000, 0x60000000000000);
    lemma_abs_prod(sph_a(s, r), sph_c(s, r), 0x30000000000000, 0xd0000000000000);
}

/// Scaling the distance from a hit point to the centre stays well
/// inside `i128`.
proof fn lemma_point_scaled(p: int, c: int)
    requires
        -0x8000000000000 <= p <= 0x8000000000000,
        -0x4000000 <= c <= 0x4000000,
    ensures
        -0x100000000000000000 <= (p - c) * (SCALE as int) <= 0x100000000000000000,
{
    assert(-0x100000000000000000 <= (p - c) * (SCALE as int) <= 0x100000000000000000)
        by (nonlinear_arith)
        requires
            -0x8000004000000 <= p - c <= 0x8000004000000,
            SCALE == 65536,
    {}
}

/// `0 <= x * x`.
proof fn lemma_sq_nonneg(x: int)
    ensures
        x * x >= 0,
{
    assert(x * x >= 0) by (nonlinear_arith) {}
}

/// `|a| <= m && |b| <= n ==> |a * b| <= m * n`.
proof fn lemma_abs_prod(a: int, b: int, m: int, n: int)
    requires
        -m <= a <= m,
        -n <= b <= n,
        0 < m,
        0 < n,
    ensures
        -(m * n) <= a * b <= m * n,
{
    assert(-(m * n) <= a * b <= m * n) by (nonlinear_arith)
        requires
            -m <= a <= m,
            -n <= b <= n,
            0 < m,
            0 < n,
    {}
}

/// The square root of the discriminant is no larger than the
/// discriminant bound's root.
proof fn lemma_sqrt_of_disc(s: Sphere, r: Ray)
    requires
        s.wf(),
        r.wf(),
        sph_disc(s, r) >= 0,
    ensures
        0 <= isqrt_spec(sph_disc(s, r)) <= 0x100000000000000000000,
{
    lemma_sphere_bounds(s, r);
    lemma_isqrt_exists(sph_disc(s, r));
    let q = isqrt_spec(sph_disc(s, r));
    assert(q <= 0x100000000000000000000) by (nonlinear_arith)
        requires
            0 <= q,
            q * q <= sph_disc(s, r),
            sph_disc(s, r) <= 0x1000000000000000000000000000000,
    {}
}

} // verus!
